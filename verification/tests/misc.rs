use vcad_ecad_pcb::auto::{fmt_nets, Negotiation, RoundAction, RouteOptions, DEFAULT_NEGOTIATION_ROUNDS};
use vcad_ecad_pcb::bitset::BitSet;
use vcad_ecad_pcb::complete::{name_census, WindowBudget, MAX_AXIS_CELLS};
use vcad_ecad_pcb::escape::{escape_walks, FlowNet};
use vcad_ecad_pcb::gpu_bridge::word_aligned_span;
use vcad_ecad_pcb::length_tune::MeanderStyle;
use vcad_ecad_pcb::maze::reconstruct;
use vcad_ecad_pcb::order::sort_indices_by_key;
use vcad_ecad_pcb::text::join_names;
use vcad_ecad_pcb::{DescentReport, SiFinishReport};

#[test]
fn route_options_default_negotiates_and_shoves() {
    let o = RouteOptions::default();
    assert_eq!(o.negotiation_rounds, DEFAULT_NEGOTIATION_ROUNDS);
    assert_eq!(o.negotiation_rounds, 4);
    assert!(o.use_push_shove);
}

#[test]
fn window_budget_builders() {
    let b = WindowBudget::new(1000);
    assert_eq!(b.expansions, 1000);
    assert_eq!(b.max_axis_cells, MAX_AXIS_CELLS);
    let b = b.with_max_axis_cells(200);
    assert_eq!(b.expansions, 1000);
    assert_eq!(b.max_axis_cells, 200);
}

#[test]
fn blockers_are_named_or_attributed_to_the_board() {
    assert_eq!(fmt_nets(&[]), "board/edge constraints");
    assert_eq!(fmt_nets(&["GND".to_string()]), "GND");
    assert_eq!(fmt_nets(&["GND".to_string(), "/VDD".to_string()]), "GND, /VDD");
    assert_eq!(join_names(&["a".to_string(), "b".to_string(), "c".to_string()], "-"), "a-b-c");
}

#[test]
fn census_names_the_three_heaviest_blockers() {
    let census = vec![
        (String::new(), 7),
        ("/VDD_5V".to_string(), 4),
        ("A".to_string(), 4),
        ("GND".to_string(), 61),
    ];
    assert_eq!(name_census(&census), "GND (61), <no net> (7), /VDD_5V (4)");
    assert_eq!(
        name_census(&vec![]),
        "copper the window's union-legality raster rejects for a sibling net"
    );
    assert_eq!(name_census(&vec![("GND".to_string(), 120)]), "GND (120)");
}

#[test]
fn bitset_sets_and_clears() {
    let mut b = BitSet::new(130);
    assert!(!b.get(129));
    b.set(129);
    b.set(0);
    assert!(b.get(129) && b.get(0) && !b.get(64));
    b.clear(129);
    assert!(!b.get(129) && b.get(0));
}

#[test]
fn stable_sort_by_key() {
    let keys = vec![3u64, 1, 3, 2];
    assert_eq!(sort_indices_by_key(&keys, false), vec![1, 3, 0, 2]);
    assert_eq!(sort_indices_by_key(&keys, true), vec![0, 2, 3, 1]);
}

#[test]
fn path_is_read_back_from_predecessors() {
    let came = vec![usize::MAX, 0, 1, 2];
    assert_eq!(reconstruct(came, 0, 3), vec![0, 1, 2, 3]);
    let came = vec![usize::MAX, usize::MAX, 1];
    assert_eq!(reconstruct(came, 0, 2), vec![1, 2]);
    assert_eq!(reconstruct(vec![usize::MAX], 0, 0), vec![0]);
}

#[test]
fn dirty_spans_widen_to_whole_words() {
    assert_eq!(word_aligned_span(5, 9, 16), Some((4, 11)));
    assert_eq!(word_aligned_span(5, 9, 10), Some((4, 7)));
    assert_eq!(word_aligned_span(0, 2, 3), None);
    assert_eq!(word_aligned_span(9, 9, 10), None);
    assert_eq!(word_aligned_span(0, 0, 8), Some((0, 3)));
}

#[test]
fn min_cost_flow_prefers_the_cheap_route_and_stops_at_capacity() {
    let mut net = FlowNet::new(4);
    let s = 0;
    let t = 3;
    let sa = net.add_edge(s, 1, 1, 1);
    let sb = net.add_edge(s, 2, 1, 5);
    net.add_edge(1, t, 1, 0);
    net.add_edge(2, t, 1, 0);
    assert_eq!(sa, 0);
    assert_eq!(sb, 2);
    assert_eq!(net.mcmf(s, t, 1), 1);
    assert_eq!(net.edges[sa].flow, 1);
    assert_eq!(net.edges[sb].flow, 0);
    assert_eq!(net.mcmf(s, t, 5), 1);
    assert_eq!(net.edges[sb].flow, 1);
    assert_eq!(net.mcmf(s, t, 5), 0);
    assert_eq!(net.mcmf(s, t, 0), 0);
}

#[test]
fn min_cost_flow_reroutes_through_a_reverse_edge() {
    // s→a→b→t is cheapest for one unit; the second unit must undo a→b.
    let mut net = FlowNet::new(4);
    let (s, a, b, t) = (0, 1, 2, 3);
    net.add_edge(s, a, 1, 1);
    net.add_edge(s, b, 1, 4);
    let ab = net.add_edge(a, b, 1, 1);
    net.add_edge(a, t, 1, 4);
    net.add_edge(b, t, 1, 1);
    assert_eq!(net.mcmf(s, t, 2), 2);
    assert_eq!(net.edges[ab].flow, 0);
}

#[test]
fn report_defaults_are_zero() {
    let r = SiFinishReport::default();
    assert_eq!(r.polished + r.polish_attempted + r.meandered + r.over_tolerance, 0);
    let d: DescentReport = r.descent;
    assert_eq!(d.tuned + d.attempted + d.rejected, 0);
    assert_ne!(MeanderStyle::Trombone, MeanderStyle::Sawtooth);
}

#[test]
fn placed_flow_decomposes_into_escape_walks() {
    // Two grid cells (in-nodes 0, 1; out-nodes 2, 3), pads 4 and 5, S = 6, T = 7.
    let mut net = FlowNet::new(8);
    net.add_edge(0, 2, 1, 0);
    net.add_edge(1, 3, 1, 0);
    net.add_edge(2, 1, 1, 10);
    net.add_edge(3, 7, 1, 0);
    net.add_edge(6, 4, 1, 0);
    net.add_edge(4, 0, 1, 5);
    net.add_edge(6, 5, 1, 0);
    net.add_edge(5, 1, 1, 50);
    assert_eq!(net.mcmf(6, 7, 2), 1);
    let walks = escape_walks(&net, 4, 2, 2, 7);
    assert_eq!(walks, vec![Some(vec![0, 1]), None]);
}

#[test]
fn min_cost_flow_takes_the_longer_cheaper_path() {
    // The direct edge is listed first and has fewer hops, but costs more.
    let mut net = FlowNet::new(3);
    let (s, a, t) = (0, 1, 2);
    let direct = net.add_edge(s, t, 1, 10);
    let sa = net.add_edge(s, a, 1, 1);
    let at = net.add_edge(a, t, 1, 1);
    assert_eq!(net.mcmf(s, t, 1), 1);
    assert_eq!(net.edges[direct].flow, 0);
    assert_eq!(net.edges[sa].flow, 1);
    assert_eq!(net.edges[at].flow, 1);
    assert_eq!(net.mcmf(s, t, 1), 1);
    assert_eq!(net.edges[direct].flow, 1);
}

#[test]
fn negotiation_keeps_the_best_pass_and_stops_when_done() {
    let mut neg = Negotiation::start(0);
    assert_eq!(neg.rounds, 1);
    let a = neg.after_pass(3, 2);
    assert_eq!(a, RoundAction { raise_priority: false, keep_pass: true, stop: true });

    let mut neg = Negotiation::start(4);
    assert!(!neg.use_push_shove(true));
    let a = neg.after_pass(5, 2);
    assert_eq!(a, RoundAction { raise_priority: true, keep_pass: true, stop: false });
    assert!(neg.use_push_shove(true));
    assert!(!neg.use_push_shove(false));
    // A worse pass is dropped; the best one still leaves connections unrouted.
    let a = neg.after_pass(4, 3);
    assert_eq!(a, RoundAction { raise_priority: true, keep_pass: false, stop: false });
    assert_eq!(neg.best, Some((5, 2, 0)));
    // An equal count does not replace the earlier pass.
    let a = neg.after_pass(5, 2);
    assert!(!a.keep_pass);
    let a = neg.after_pass(7, 0);
    assert_eq!(a, RoundAction { raise_priority: false, keep_pass: true, stop: true });
    assert_eq!(neg.best, Some((7, 0, 3)));

    let mut neg = Negotiation::start(3);
    let a = neg.after_pass(9, 0);
    assert!(a.keep_pass && a.stop && !a.raise_priority);
}

#[test]
fn aligned_span_covers_the_whole_dirty_words() {
    assert_eq!(word_aligned_span(5, 6, 16), Some((4, 7)));
    assert_eq!(word_aligned_span(3, 9, 16), Some((0, 11)));
    assert_eq!(word_aligned_span(5, 13, 14), Some((4, 11)));
    assert_eq!(word_aligned_span(12, 13, 14), None);
}
