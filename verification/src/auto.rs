//! Board-level routing options and the wording of routing reports.
use vstd::prelude::*;
use vstd::string::StringExecFns;
use crate::text::{join, join_names, texts};

verus! {

/// Default PathFinder negotiation rounds. Round 0 is the baseline; a board
/// that routes fully stops after it, so this only bounds the work a
/// congested board does.
pub const DEFAULT_NEGOTIATION_ROUNDS: usize = 4;

/// Knobs for routing a whole board.
#[derive(Debug, Clone, Copy)]
pub struct RouteOptions {
    /// PathFinder negotiation rounds. Each round re-routes the board from
    /// scratch with accumulated history cost on contested corridors; `1`
    /// disables negotiation. The loop stops early once a round routes
    /// everything.
    pub negotiation_rounds: usize,
    /// Try the push-and-shove router as a per-layer fallback when the maze
    /// search finds no path (from negotiation round 1 on).
    pub use_push_shove: bool,
}

impl Default for RouteOptions {
    fn default() -> (r: Self)
        ensures
            r.negotiation_rounds == DEFAULT_NEGOTIATION_ROUNDS,
            r.use_push_shove,
    {
        RouteOptions { negotiation_rounds: DEFAULT_NEGOTIATION_ROUNDS, use_push_shove: true }
    }
}

/// The wording for the nets that block a connection: their names joined by
/// `", "`, or the board and edge constraints when no net is named.
pub open spec fn blockers_text(nets: Seq<Seq<char>>) -> Seq<char> {
    if nets.len() == 0 {
        "board/edge constraints"@
    } else {
        join(nets, ", "@)
    }
}

/// Name the nets that block a connection.
pub fn fmt_nets(nets: &[String]) -> (r: String)
    ensures
        r@ == blockers_text(texts(nets@)),
{
    if nets.len() == 0 {
        String::from_str("board/edge constraints")
    } else {
        join_names(nets, ", ")
    }
}

/// The negotiation loop's bookkeeping between routing passes: how many
/// rounds it may run, which round comes next, and the best pass so far
/// (most connections placed) with its count of connections left unrouted.
#[derive(Debug, Clone, Copy)]
pub struct Negotiation {
    /// Rounds the loop may run (at least one).
    pub rounds: usize,
    /// The round the next pass belongs to.
    pub round: usize,
    /// Connections placed and left unrouted by the best pass so far, with
    /// its round; `None` before the first pass.
    pub best: Option<(usize, usize, usize)>,
}

/// What to do with a finished pass.
#[derive(Debug, Clone, Copy, PartialEq, Eq)]
pub struct RoundAction {
    /// Raise the priority of (and deposit congestion for) every connection
    /// this pass left unrouted, for the next round.
    pub raise_priority: bool,
    /// This pass becomes the best one.
    pub keep_pass: bool,
    /// Stop negotiating: the best pass routes everything, or this was the
    /// last round.
    pub stop: bool,
}

impl Negotiation {
    /// Start negotiating for `requested` rounds; at least one runs.
    pub fn start(requested: usize) -> (r: Self)
        ensures
            r.rounds == if requested == 0 { 1 } else { requested },
            r.round == 0,
            r.best is None,
    {
        Negotiation { rounds: if requested == 0 { 1 } else { requested }, round: 0, best: None }
    }

    /// Push-and-shove joins in from round one on, where enabled; round zero
    /// is the plain baseline.
    pub fn use_push_shove(&self, enabled: bool) -> (r: bool)
        ensures
            r == (enabled && self.round > 0),
    {
        enabled && self.round > 0
    }

    /// Take in the pass of the current round, which placed `placed`
    /// connections and left `pending` unrouted: keep it when it places
    /// strictly more than the best so far, raise the unrouted connections'
    /// priority unless this is the last round, and stop once the best pass
    /// routes everything or the rounds run out.
    pub fn after_pass(&mut self, placed: usize, pending: usize) -> (a: RoundAction)
        requires
            old(self).round < old(self).rounds,
        ensures
            final(self).rounds == old(self).rounds,
            final(self).round == old(self).round + 1,
            a.raise_priority == (old(self).round + 1 != old(self).rounds && pending > 0),
            a.keep_pass == match old(self).best {
                Some((bp, _, _)) => placed > bp,
                None => true,
            },
            final(self).best == if a.keep_pass { Some((placed, pending, old(self).round)) } else { old(self).best },
            a.stop == (final(self).best matches Some((_, bpend, _)) && bpend == 0 || old(self).round + 1
                == old(self).rounds),
            final(self).best matches Some((bp, _, _)) && bp >= placed,
            old(self).best matches Some((bp0, _, _)) ==> final(self).best matches Some((bp, _, _)) && bp >= bp0,
    {
        let last = self.round + 1 == self.rounds;
        let raise_priority = !last && pending > 0;
        let keep_pass = match self.best {
            Some((bp, _, _)) => placed > bp,
            None => true,
        };
        if keep_pass {
            self.best = Some((placed, pending, self.round));
        }
        let fully_routed = match self.best {
            Some((_, bpend, _)) => bpend == 0,
            None => false,
        };
        self.round = self.round + 1;
        RoundAction { raise_priority, keep_pass, stop: fully_routed || last }
    }
}

} // verus!
