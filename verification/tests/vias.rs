use vcad_ecad_pcb::complete::path_vias;

// Point keys in 0.1 µm units; layers by stack index (0 = F.Cu, 1 = In1.Cu,
// 2 = In2.Cu).
const F_CU: usize = 0;
const IN1_CU: usize = 1;
const IN2_CU: usize = 2;

fn pt(x: f64, y: f64) -> (i64, i64) {
    ((x * 1e4).round() as i64, (y * 1e4).round() as i64)
}

#[test]
fn a_run_of_layer_changes_at_one_point_is_one_barrel() {
    let p = pt(5.0, 5.0);
    let path = vec![(pt(0.0, 5.0), p, F_CU), (p, p, IN1_CU), (p, pt(10.0, 5.0), IN2_CU)];
    assert_eq!(path_vias(&path), vec![(p, F_CU, IN2_CU)]);
}

#[test]
fn separate_layer_changes_stay_separate_barrels() {
    let (p, q) = (pt(5.0, 5.0), pt(9.0, 5.0));
    let path = vec![(pt(0.0, 5.0), p, F_CU), (p, q, IN1_CU), (q, pt(14.0, 5.0), F_CU)];
    assert_eq!(path_vias(&path), vec![(p, F_CU, IN1_CU), (q, IN1_CU, F_CU)]);
    let disjoint = vec![(pt(0.0, 5.0), p, F_CU), (pt(20.0, 5.0), pt(30.0, 5.0), IN1_CU)];
    assert!(path_vias(&disjoint).is_empty());
}

#[test]
fn staying_on_one_layer_makes_no_via() {
    let p = pt(5.0, 5.0);
    let flat = vec![(pt(0.0, 0.0), p, F_CU), (p, pt(9.0, 9.0), F_CU)];
    assert!(path_vias(&flat).is_empty());
    assert!(path_vias(&vec![]).is_empty());
    assert!(path_vias(&vec![(p, p, IN1_CU)]).is_empty());
}
