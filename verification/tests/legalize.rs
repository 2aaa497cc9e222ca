use vcad_ecad_pcb::legalize::{cluster_span, new_layers, via_clusters, UnionFind};

#[test]
fn singletons_when_no_vias_are_too_close() {
    let g = via_clusters(3, &vec![]);
    assert_eq!(g, vec![(0, vec![0]), (1, vec![1]), (2, vec![2])]);
    assert!(via_clusters(0, &vec![]).is_empty());
}

#[test]
fn chains_of_close_vias_form_one_cluster() {
    // 0–2 and 2–4 are too close; 1 and 3 stand alone.
    let g = via_clusters(5, &vec![(0, 2), (2, 4)]);
    let members: Vec<Vec<usize>> = g.iter().map(|(_, m)| m.clone()).collect();
    assert_eq!(members.len(), 3);
    assert!(members.contains(&vec![0, 2, 4]));
    assert!(members.contains(&vec![1]));
    assert!(members.contains(&vec![3]));
    // Linking 0 under 2, then 2 under 4: the cluster is keyed by via 4.
    assert_eq!(g, vec![(1, vec![1]), (3, vec![3]), (4, vec![0, 2, 4])]);
    for (key, m) in &g {
        assert!(m.contains(key));
    }
}

#[test]
fn duplicate_and_redundant_pairs_change_nothing() {
    let a = via_clusters(4, &vec![(0, 1), (1, 0), (0, 1), (2, 3), (3, 2)]);
    let b = via_clusters(4, &vec![(0, 1), (2, 3)]);
    let ma: Vec<Vec<usize>> = a.iter().map(|(_, m)| m.clone()).collect();
    let mb: Vec<Vec<usize>> = b.iter().map(|(_, m)| m.clone()).collect();
    assert_eq!(ma.len(), 2);
    assert!(ma.contains(&vec![0, 1]) && ma.contains(&vec![2, 3]));
    assert!(mb.contains(&vec![0, 1]) && mb.contains(&vec![2, 3]));
}

#[test]
fn union_find_compresses_without_changing_classes() {
    let mut uf = UnionFind::new(6);
    uf.union(0, 1);
    uf.union(1, 2);
    uf.union(3, 4);
    let r0 = uf.find(0);
    assert_eq!(uf.find(2), r0);
    assert_eq!(uf.find(1), r0);
    assert_ne!(uf.find(3), r0);
    assert_eq!(uf.find(4), uf.find(3));
    assert_eq!(uf.find(5), 5);
    uf.union(2, 4);
    assert_eq!(uf.find(0), uf.find(3));
}

#[test]
fn a_merged_barrel_spans_every_member_layer() {
    assert_eq!(cluster_span(&vec![(1, 2), (0, 1), (2, 3)], 4), (0, 3));
    assert_eq!(cluster_span(&vec![(1, 2)], 4), (1, 2));
    assert_eq!(cluster_span(&vec![], 4), (0, 3));
    assert_eq!(cluster_span(&vec![], 0), (0, 0));
}

#[test]
fn the_survivor_newly_occupies_the_layers_outside_its_barrel() {
    assert_eq!(new_layers(0, 3, 1, 2), vec![0, 3]);
    assert_eq!(new_layers(0, 3, 0, 3), Vec::<usize>::new());
    assert_eq!(new_layers(1, 3, 0, 0), vec![1, 2, 3]);
    assert_eq!(new_layers(2, 1, 0, 0), Vec::<usize>::new());
}
