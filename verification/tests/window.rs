use vcad_ecad_pcb::bitset::BitSet;
use vcad_ecad_pcb::complete::{attempt_orders, bfs_path, frontier_cut, sequential_bfs};
use vcad_ecad_pcb::decision::{decide_window, WindowVerdict};
use vcad_ecad_pcb::disjoint::max_node_disjoint_flow;
use vcad_ecad_pcb::flow::FlowGraph;
use vcad_ecad_pcb::search::{Search, Step};
use vcad_ecad_pcb::window::WindowGraph;

/// A window with every step legal and the listed nodes blocked.
fn window(nx: usize, ny: usize, nl: usize, blocked: &[usize]) -> WindowGraph {
    let n = nx * ny * nl;
    let mut free = vec![true; n];
    for &b in blocked {
        free[b] = false;
    }
    WindowGraph {
        nx,
        ny,
        nl,
        free,
        x_edge: vec![true; n],
        y_edge: vec![true; n],
        via_edge: vec![true; n],
    }
}

fn at(nx: usize, x: usize, y: usize) -> usize {
    y * nx + x
}

fn names(k: usize) -> Vec<String> {
    (0..k).map(|i| format!("N{i}")).collect()
}

fn assert_joint(g: &WindowGraph, terms: &[(usize, usize)], paths: &[Vec<usize>]) {
    assert_eq!(paths.len(), terms.len());
    let mut used = vec![false; g.free.len()];
    for (p, &(s, t)) in paths.iter().zip(terms) {
        assert_eq!(*p.first().unwrap(), s);
        assert_eq!(*p.last().unwrap(), t);
        for w in p.windows(2) {
            assert!(g.neighbors(w[0]).contains(&w[1]));
        }
        for &v in p {
            assert!(g.free[v]);
            assert!(!used[v], "paths share node {v}");
            used[v] = true;
        }
    }
}

/// 5×5 single layer with a wall on column 2 open only at rows 1 and 3.
fn two_channel_wall() -> WindowGraph {
    window(5, 5, 1, &[at(5, 2, 0), at(5, 2, 2), at(5, 2, 4)])
}

#[test]
fn unit_max_flow_on_a_diamond() {
    let mut g = FlowGraph::new(4);
    g.add_edge(0, 1, 1);
    g.add_edge(0, 2, 1);
    g.add_edge(1, 2, 1);
    g.add_edge(1, 3, 1);
    g.add_edge(2, 3, 1);
    assert_eq!(g.max_flow(0, 3), 2);
    let reach = g.residual_reachable(0);
    assert!(reach[0] && !reach[3]);
    assert_eq!(g.max_flow(0, 3), 0);
}

#[test]
fn residual_reach_follows_capacity() {
    let mut g = FlowGraph::new(3);
    g.add_edge(0, 1, 2);
    g.add_edge(1, 2, 1);
    assert_eq!(g.max_flow(0, 2), 1);
    assert_eq!(g.residual_reachable(0), vec![true, true, false]);
}

#[test]
fn two_nets_through_two_channels_route() {
    let g = two_channel_wall();
    let terms = vec![(at(5, 0, 1), at(5, 4, 1)), (at(5, 0, 3), at(5, 4, 3))];
    match decide_window(&g, &terms, &names(2), 10_000) {
        WindowVerdict::Routed(paths) => assert_joint(&g, &terms, &paths),
        _ => panic!("expected a routing"),
    }
}

#[test]
fn three_nets_through_two_channels_proved_infeasible() {
    let g = two_channel_wall();
    let terms = vec![
        (at(5, 0, 0), at(5, 4, 0)),
        (at(5, 0, 2), at(5, 4, 2)),
        (at(5, 0, 4), at(5, 4, 4)),
    ];
    let (flow, cut) = max_node_disjoint_flow(&g, &terms);
    assert_eq!(flow, 2);
    assert!(cut.iter().all(|&v| g.free[v]));
    match decide_window(&g, &terms, &names(3), 10_000) {
        WindowVerdict::Bottleneck { flow, .. } => assert_eq!(flow, 2),
        _ => panic!("expected the flow bound to refuse"),
    }
}

#[test]
fn flow_is_enough_for_disjoint_connections() {
    let g = two_channel_wall();
    let terms = vec![(at(5, 0, 1), at(5, 4, 1)), (at(5, 0, 3), at(5, 4, 3))];
    let (flow, cut) = max_node_disjoint_flow(&g, &terms);
    assert_eq!(flow, 2);
    assert!(cut.is_empty());
}

#[test]
fn one_connection_is_never_unknown() {
    let g = window(4, 4, 2, &[]);
    let terms = vec![(0, 15)];
    match decide_window(&g, &terms, &names(1), 0) {
        WindowVerdict::Routed(paths) => {
            assert_joint(&g, &terms, &paths);
            assert_eq!(paths[0].len(), 7);
        }
        _ => panic!("a free window routes one connection"),
    }
}

#[test]
fn one_severed_connection_is_proved() {
    let g = window(5, 3, 1, &[at(5, 2, 0), at(5, 2, 1), at(5, 2, 2)]);
    let terms = vec![(at(5, 0, 1), at(5, 4, 1))];
    match decide_window(&g, &terms, &names(1), 1000) {
        WindowVerdict::Severed { reached, from_side } => {
            // Both pockets hold six nodes: the search side is reported.
            assert!(from_side);
            for y in 0..3 {
                for x in 0..5 {
                    assert_eq!(reached[at(5, x, y)], x < 2);
                }
            }
            assert_eq!(reached.len(), 15);
            // The wall on column 2 is the ring that encloses either pocket.
            assert_eq!(frontier_cut(&g, &reached), vec![at(5, 2, 0), at(5, 2, 1), at(5, 2, 2)]);
        }
        _ => panic!("expected a severed verdict"),
    }
}

#[test]
fn crossing_connections_are_exhausted_on_one_layer() {
    // A 3×3 ring around a blocked centre: left→right and top→bottom must cross.
    let g = window(3, 3, 1, &[4]);
    let terms = vec![(3, 5), (1, 7)];
    let (flow, _) = max_node_disjoint_flow(&g, &terms);
    assert_eq!(flow, 2);
    assert!(matches!(decide_window(&g, &terms, &names(2), 100_000), WindowVerdict::Exhausted));
}

#[test]
fn crossing_is_exhausted_when_both_layers_are_rings() {
    let g = window(3, 3, 2, &[4, 13]);
    let terms = vec![(3, 5), (1, 7)];
    assert!(matches!(decide_window(&g, &terms, &names(2), 100_000), WindowVerdict::Exhausted));
}

#[test]
fn tiny_budget_never_fakes_infeasibility() {
    let g = window(3, 3, 1, &[4]);
    let terms = vec![(3, 5), (1, 7)];
    assert!(matches!(decide_window(&g, &terms, &names(2), 0), WindowVerdict::BudgetExhausted));
}

#[test]
fn crossing_connections_route_on_two_layers() {
    let g = window(5, 5, 2, &[]);
    let terms = vec![(at(5, 0, 2), at(5, 4, 2)), (at(5, 2, 0), at(5, 2, 4))];
    match decide_window(&g, &terms, &names(2), 100_000) {
        WindowVerdict::Routed(paths) => assert_joint(&g, &terms, &paths),
        _ => panic!("two layers let the nets cross"),
    }
}

#[test]
fn shared_terminals_clash_unless_one_net() {
    let g = window(4, 1, 1, &[]);
    let terms = vec![(0, 1), (1, 3)];
    let nets = vec!["A".to_string(), "B".to_string()];
    assert!(matches!(
        decide_window(&g, &terms, &nets, 100),
        WindowVerdict::Clash { first: 0, second: 1 }
    ));
    let same = vec!["A".to_string(), "A".to_string()];
    assert!(matches!(decide_window(&g, &terms, &same, 100), WindowVerdict::BudgetExhausted));
}

#[test]
fn no_connections_route_trivially() {
    let g = window(2, 2, 1, &[]);
    match decide_window(&g, &vec![], &vec![], 10) {
        WindowVerdict::Routed(paths) => assert!(paths.is_empty()),
        _ => panic!("nothing to route"),
    }
}

#[test]
fn bfs_finds_shortest_path_or_separating_set() {
    let g = window(3, 3, 1, &[1, 4]);
    let occ = BitSet::new(9);
    let p = bfs_path(&g, 0, 2, &occ).unwrap();
    assert_eq!(p, vec![0, 3, 6, 7, 8, 5, 2]);
    let g2 = window(3, 3, 1, &[1, 4, 7]);
    let seen = bfs_path(&g2, 0, 2, &occ).unwrap_err();
    assert!(seen[0] && seen[3] && seen[6] && !seen[2]);
}

#[test]
fn orders_tried_are_identity_then_longest_then_shortest() {
    let terms = vec![(0, 1), (0, 8), (0, 4)];
    let orders = attempt_orders(&terms, 3, 9);
    assert_eq!(orders, vec![vec![0, 1, 2], vec![1, 2, 0], vec![0, 2, 1]]);
    let one = attempt_orders(&vec![(0, 1)], 3, 9);
    assert_eq!(one, vec![vec![0]]);
}

#[test]
fn sequential_routing_leaves_room_or_gives_up() {
    let g = two_channel_wall();
    let terms = vec![(at(5, 0, 1), at(5, 4, 1)), (at(5, 0, 3), at(5, 4, 3))];
    let paths = sequential_bfs(&g, &vec![0, 1], &terms).unwrap();
    assert_joint(&g, &terms, &paths);
    let ring = window(3, 3, 1, &[4]);
    assert!(sequential_bfs(&ring, &vec![0, 1], &vec![(3, 5), (1, 7)]).is_none());
}

#[test]
fn exhaustive_search_reports_found_and_exhausted() {
    let g = two_channel_wall();
    let terms = vec![(at(5, 0, 1), at(5, 4, 1)), (at(5, 0, 3), at(5, 4, 3))];
    let mut s = Search::new(&g, &terms, 100_000);
    assert!(s.solve(0) == Step::Found);
    assert_joint(&g, &terms, &s.paths);
    let ring = window(3, 3, 1, &[4]);
    let rterms = vec![(3, 5), (1, 7)];
    let mut s = Search::new(&ring, &rterms, 100_000);
    assert!(s.solve(0) == Step::Exhausted);
}

#[test]
fn frontier_of_a_region_is_its_enclosing_ring() {
    let g = window(3, 3, 1, &[]);
    let mut centre = vec![false; 9];
    centre[4] = true;
    assert_eq!(frontier_cut(&g, &centre), vec![1, 3, 5, 7]);
    let mut corner = vec![false; 9];
    corner[0] = true;
    corner[1] = true;
    assert_eq!(frontier_cut(&g, &corner), vec![2, 3, 4]);
    assert!(frontier_cut(&g, &vec![true; 9]).is_empty());
    assert!(frontier_cut(&g, &vec![false; 9]).is_empty());
    // Two layers: the node above the region is on its frontier too.
    let g2 = window(2, 1, 2, &[]);
    assert_eq!(frontier_cut(&g2, &vec![true, false, false, false]), vec![1, 2]);
}

#[test]
fn severed_connection_reports_the_smaller_pocket() {
    // Wall on column 3: the target's pocket (column 4) is the smaller one.
    let g = window(5, 3, 1, &[at(5, 3, 0), at(5, 3, 1), at(5, 3, 2)]);
    let terms = vec![(at(5, 0, 1), at(5, 4, 1))];
    match decide_window(&g, &terms, &names(1), 10) {
        WindowVerdict::Severed { reached, from_side } => {
            assert!(!from_side);
            for y in 0..3 {
                for x in 0..5 {
                    assert_eq!(reached[at(5, x, y)], x == 4);
                }
            }
            assert_eq!(frontier_cut(&g, &reached), vec![at(5, 3, 0), at(5, 3, 1), at(5, 3, 2)]);
        }
        _ => panic!("expected a severed verdict"),
    }
}

#[test]
fn bottleneck_with_severed_sources_names_their_pockets() {
    // Two connections across a full wall: no flow at all, an empty cut, and
    // the pockets of both sources reported.
    let g = window(5, 3, 1, &[at(5, 2, 0), at(5, 2, 1), at(5, 2, 2)]);
    let terms = vec![(at(5, 0, 0), at(5, 4, 0)), (at(5, 0, 2), at(5, 4, 2))];
    match decide_window(&g, &terms, &names(2), 1000) {
        WindowVerdict::Bottleneck { flow, cut, reached } => {
            assert_eq!(flow, 0);
            assert!(cut.is_empty());
            for y in 0..3 {
                for x in 0..5 {
                    assert_eq!(reached[at(5, x, y)], x < 2);
                }
            }
        }
        _ => panic!("expected a bottleneck verdict"),
    }
}

#[test]
fn one_severed_connection_is_proved_with_a_named_cut() {
    // A closed ring of blocked nodes around the source terminal.
    let ring = [(1, 1), (2, 1), (3, 1), (1, 2), (3, 2), (1, 3), (2, 3), (3, 3)];
    let blocked: Vec<usize> = ring.iter().map(|&(x, y)| at(7, x, y)).collect();
    let g = window(7, 7, 1, &blocked);
    let terms = vec![(at(7, 2, 2), at(7, 6, 6))];
    match decide_window(&g, &terms, &names(1), 2_000_000) {
        WindowVerdict::Severed { reached, from_side } => {
            assert!(from_side);
            assert_eq!(reached.iter().filter(|r| **r).count(), 1);
            assert_eq!(
                frontier_cut(&g, &reached),
                vec![at(7, 2, 1), at(7, 1, 2), at(7, 3, 2), at(7, 2, 3)]
            );
        }
        _ => panic!("a boxed-in terminal must be proved infeasible"),
    }
}
