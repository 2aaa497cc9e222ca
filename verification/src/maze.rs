//! Path recovery for the maze router: the search records, for every node it
//! settles, the node it came from.
use vstd::prelude::*;

verus! {

/// Following `came` back from `v`, at most `k` steps, reaches `start` or a
/// node with no recorded predecessor (`usize::MAX`), staying in range.
pub open spec fn ends_within(came: Seq<usize>, start: usize, v: usize, k: nat) -> bool
    decreases k,
{
    v < came.len() && (v == start || came[v as int] == usize::MAX || (k > 0 && ends_within(
        came,
        start,
        came[v as int],
        (k - 1) as nat,
    )))
}

/// The nodes met walking `came` back from `v` for at most `k` steps: `v`,
/// its predecessor, and so on, up to `start` or the last node that has a
/// predecessor recorded.
pub open spec fn back_chain(came: Seq<usize>, start: usize, v: usize, k: nat) -> Seq<usize>
    decreases k,
{
    if v == start || k == 0 || came[v as int] == usize::MAX {
        seq![v]
    } else {
        seq![v] + back_chain(came, start, came[v as int], (k - 1) as nat)
    }
}

proof fn lemma_back_chain_stable(came: Seq<usize>, start: usize, v: usize, k: nat, j: nat)
    requires
        ends_within(came, start, v, k),
        k <= j,
    ensures
        back_chain(came, start, v, k) == back_chain(came, start, v, j),
        ends_within(came, start, v, j),
    decreases k,
{
    if !(v == start || came[v as int] == usize::MAX) {
        lemma_back_chain_stable(came, start, came[v as int], (k - 1) as nat, (j - 1) as nat);
    }
}

/// The path from `start` to `goal` recorded in `came` (or from the first
/// node whose predecessor was never recorded).
pub fn reconstruct(came: Vec<usize>, start: usize, goal: usize) -> (path: Vec<usize>)
    requires
        exists|k: nat| ends_within(came@, start, goal, k),
    ensures
        forall|k: nat| #[trigger] ends_within(came@, start, goal, k) ==> path@ == back_chain(came@, start, goal, k).reverse(),
{
    let ghost k0 = choose|k: nat| ends_within(came@, start, goal, k);
    let mut path: Vec<usize> = Vec::new();
    path.push(goal);
    let mut cur = goal;
    let ghost mut left: nat = k0;
    proof {
        assert(path@ == seq![goal]);
    }
    while cur != start
        invariant
            ends_within(came@, start, cur, left),
            ends_within(came@, start, goal, k0),
            back_chain(came@, start, goal, k0) == path@.drop_last() + back_chain(came@, start, cur, left),
            path@.len() >= 1,
            path@.last() == cur,
        ensures
            back_chain(came@, start, goal, k0) == path@,
        decreases left,
    {
        let next = came[cur];
        if next == usize::MAX {
            proof {
                assert(back_chain(came@, start, cur, left) == seq![cur]);
                assert(path@ =~= path@.drop_last() + seq![cur]);
            }
            break;
        }
        let ghost before = path@;
        path.push(next);
        proof {
            assert(back_chain(came@, start, cur, left) == seq![cur] + back_chain(came@, start, next, (left - 1) as nat));
            assert(path@.drop_last() =~= before);
            assert(before =~= before.drop_last() + seq![cur]);
            assert(before.drop_last() + (seq![cur] + back_chain(came@, start, next, (left - 1) as nat)) =~= before
                + back_chain(came@, start, next, (left - 1) as nat));
            left = (left - 1) as nat;
        }
        cur = next;
    }
    proof {
        if cur == start {
            assert(back_chain(came@, start, cur, left) == seq![cur]);
            assert(path@ =~= path@.drop_last() + seq![cur]);
        }
    }
    let mut rev: Vec<usize> = Vec::new();
    let mut i = path.len();
    while i > 0
        invariant
            i <= path@.len(),
            rev@ == path@.subrange(i as int, path@.len() as int).reverse(),
        decreases i,
    {
        i = i - 1;
        rev.push(path[i]);
        proof {
            assert(path@.subrange(i as int, path@.len() as int).reverse() =~= path@.subrange(
                i + 1,
                path@.len() as int,
            ).reverse().push(path@[i as int]));
        }
    }
    proof {
        assert(path@.subrange(0, path@.len() as int) =~= path@);
    }
    let path = rev;
    proof {
        assert forall|k: nat| #[trigger] ends_within(came@, start, goal, k) implies path@ == back_chain(
            came@,
            start,
            goal,
            k,
        ).reverse() by {
            if k <= k0 {
                lemma_back_chain_stable(came@, start, goal, k, k0);
            } else {
                lemma_back_chain_stable(came@, start, goal, k0, k);
            }
        }
    }
    path
}

} // verus!
