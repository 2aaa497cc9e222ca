use vcad_ecad_pcb::grid::{net_id, straight_runs, CellState, LeeGrid};

fn cell(g: &LeeGrid, x: usize, y: usize) -> usize {
    y * g.width + x
}

fn cells_of(g: &LeeGrid, path: &[usize]) -> Vec<(usize, usize)> {
    path.iter().map(|&v| (v % g.width, v / g.width)).collect()
}

#[test]
fn basic_route() {
    let mut g = LeeGrid::new(20, 20);
    let (s, e) = (cell(&g, 2, 2), cell(&g, 16, 2));
    let path = g.route(7, s, e).unwrap();
    assert_eq!(path.len(), 15);
    let pts = cells_of(&g, &path);
    assert_eq!(straight_runs(&pts), vec![(0, 14)]);
    for &v in &path {
        assert_eq!(g.cells[v], CellState::Occupied(7));
    }
}

#[test]
fn route_around_obstacle() {
    // A wall over columns 9..11, rows 0..16 of a 20×20 grid.
    let mut g = LeeGrid::new(20, 20);
    g.fill_blocked(9, 0, 11, 16);
    let (s, e) = (cell(&g, 4, 10), cell(&g, 16, 10));
    let path = g.route(1, s, e).unwrap();
    let pts = cells_of(&g, &path);
    assert!(pts.iter().all(|&(x, y)| !(9..11).contains(&x) || y >= 16));
    assert!(straight_runs(&pts).len() > 1);
}

#[test]
fn route_blocked() {
    let mut closed = LeeGrid::new(20, 20);
    closed.fill_blocked(0, 0, 20, 20);
    let before = closed.cells.clone();
    assert!(closed.route(1, cell(&closed, 2, 2), cell(&closed, 18, 18)).is_none());
    assert_eq!(closed.cells, before);
}

#[test]
fn straight_line_simplified() {
    let mut g = LeeGrid::new(20, 20);
    let path = g.route(net_id("NET"), cell(&g, 2, 5), cell(&g, 18, 5)).unwrap();
    assert_eq!(straight_runs(&cells_of(&g, &path)).len(), 1);
}

#[test]
fn same_net_passable() {
    let mut g = LeeGrid::new(20, 20);
    g.fill_net(8, 0, 12, 16, 1);
    assert_eq!(g.cells[cell(&g, 9, 3)], CellState::Occupied(1));
    let (s, e) = (cell(&g, 4, 10), cell(&g, 16, 10));
    let mut other = LeeGrid { cells: g.cells.clone(), width: 20, height: 20 };
    let p = other.route(2, s, e).unwrap();
    assert!(straight_runs(&cells_of(&other, &p)).len() > 1);
    let q = g.route(1, s, e).unwrap();
    assert_eq!(straight_runs(&cells_of(&g, &q)).len(), 1);
}

#[test]
fn multiple_routes() {
    let mut g = LeeGrid::new(40, 20);
    assert!(g.route(net_id("NET1"), cell(&g, 2, 10), cell(&g, 38, 10)).is_some());
    let p = g.route(net_id("NET2"), cell(&g, 2, 6), cell(&g, 38, 6)).unwrap();
    assert_eq!(p.len(), 37);
}

#[test]
fn target_cell_may_belong_to_another_net() {
    let mut g = LeeGrid::new(5, 1);
    g.fill_net(4, 0, 5, 1, 9);
    let p = g.route(3, 0, 4).unwrap();
    assert_eq!(p, vec![0, 1, 2, 3, 4]);
    assert_eq!(g.cells[4], CellState::Occupied(9));
    assert_eq!(g.cells[2], CellState::Occupied(3));
}

#[test]
fn net_ids_hash_names() {
    fn reference(name: &str) -> u32 {
        let mut h: u32 = 5381;
        for b in name.bytes() {
            h = h.wrapping_mul(33).wrapping_add(u32::from(b));
        }
        if h == 0 { 1 } else { h }
    }
    assert_eq!(net_id("A"), 177638);
    assert_eq!(net_id(""), 5381);
    assert_eq!(net_id("VCC"), reference("VCC"));
    assert_eq!(net_id("a long net name with spaces"), reference("a long net name with spaces"));
}

#[test]
fn runs_split_at_every_turn() {
    let pts = vec![(0, 0), (1, 0), (2, 0), (2, 1), (2, 2), (3, 2)];
    assert_eq!(straight_runs(&pts), vec![(0, 2), (2, 4), (4, 5)]);
    assert!(straight_runs(&vec![(1, 1)]).is_empty());
    assert_eq!(straight_runs(&vec![(1, 1), (1, 0)]), vec![(0, 1)]);
}

#[test]
fn ties_between_shortest_routes_go_to_the_earlier_direction() {
    // Left, right, down, up: from the corner the route runs right first.
    let mut g = LeeGrid::new(3, 3);
    let path = g.route(1, cell(&g, 0, 0), cell(&g, 2, 2)).unwrap();
    assert_eq!(cells_of(&g, &path), vec![(0, 0), (1, 0), (2, 0), (2, 1), (2, 2)]);
    // Going the other way, left is tried before down.
    let mut g = LeeGrid::new(3, 3);
    let path = g.route(1, cell(&g, 2, 2), cell(&g, 0, 0)).unwrap();
    assert_eq!(cells_of(&g, &path), vec![(2, 2), (1, 2), (0, 2), (0, 1), (0, 0)]);
}
