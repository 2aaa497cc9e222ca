//! Differential-pair naming: which net is the other leg of a pair, read from
//! the polarity marker in the net's name, and the typed reasons a pair route
//! can bail.
use vstd::prelude::*;
use vstd::string::{StrSliceExecFns, StringExecFns};
use crate::text::chars_of;
use crate::order::{sort_indices_by_key, sorted_permutation};

verus! {

/// Replace the trailing token `a` of `s` by `b`, when `s` ends in `a` and
/// something precedes it.
pub open spec fn swap_tail(s: Seq<char>, a: Seq<char>, b: Seq<char>) -> Option<Seq<char>> {
    if s.len() > a.len() && s.skip(s.len() - a.len()) == a {
        Some(s.take(s.len() - a.len()) + b)
    } else {
        None
    }
}

/// Start of the last occurrence of `p` in `s` at or before `i`, or `-1`.
pub open spec fn rfind_from(s: Seq<char>, p: Seq<char>, i: int) -> int
    decreases i + 1,
{
    if i < 0 {
        -1
    } else if i + p.len() <= s.len() && s.subrange(i, i + p.len()) == p {
        i
    } else {
        rfind_from(s, p, i - 1)
    }
}

/// What `rfind_from` finds is an occurrence.
pub proof fn lemma_rfind_from(s: Seq<char>, p: Seq<char>, i: int)
    ensures
        rfind_from(s, p, i) == -1 || (0 <= rfind_from(s, p, i) <= i && rfind_from(s, p, i) + p.len() <= s.len()
            && s.subrange(rfind_from(s, p, i), rfind_from(s, p, i) + p.len()) == p),
    decreases i + 1,
{
    if i >= 0 {
        lemma_rfind_from(s, p, i - 1);
    }
}

/// Start of the last occurrence of `p` in `s`, or `-1`.
pub open spec fn rfind(s: Seq<char>, p: Seq<char>) -> int {
    rfind_from(s, p, s.len() - p.len())
}

/// Replace the last inner token `a_` of `s` by `b_`, when it does not start
/// the name.
pub open spec fn swap_token(s: Seq<char>, a: Seq<char>, b: Seq<char>) -> Option<Seq<char>> {
    let i = rfind(s, a.push('_'));
    if i > 0 {
        Some(s.take(i) + b.push('_') + s.skip(i + a.len() + 1))
    } else {
        None
    }
}

/// Replace the trailing USB token `a` of `s` by `b`, when a separator
/// (`.`, `_` or `-`) precedes it.
pub open spec fn swap_usb(s: Seq<char>, a: Seq<char>, b: Seq<char>) -> Option<Seq<char>> {
    if s.len() > a.len() && s.skip(s.len() - a.len()) == a && (s[s.len() - a.len() - 1] == '.' || s[s.len()
        - a.len() - 1] == '_' || s[s.len() - a.len() - 1] == '-') {
        Some(s.take(s.len() - a.len()) + b)
    } else {
        None
    }
}

/// Swap whichever inner DDR token, `_C_` or `_T_`, occurs last in `s`.
pub open spec fn swap_last_token(s: Seq<char>) -> Option<Seq<char>> {
    if rfind(s, seq!['_', 'C', '_']) > rfind(s, seq!['_', 'T', '_']) {
        swap_token(s, seq!['_', 'C'], seq!['_', 'T'])
    } else {
        swap_token(s, seq!['_', 'T'], seq!['_', 'C'])
    }
}

/// The first of two candidates that is present.
pub open spec fn either(x: Option<Seq<char>>, y: Option<Seq<char>>) -> Option<Seq<char>> {
    if x is Some {
        x
    } else {
        y
    }
}

/// The partner name of a differential-pair leg, trying in turn: a trailing
/// `_P`/`_N` (either case), a trailing `.P`/`.N`, the last DDR
/// true/complement token `_C`/`_T` (trailing, else the last inner `_C_` or
/// `_T_`), and the USB `DP`/`DM`, `D+`/`D-` after a separator.
pub open spec fn partner_name(s: Seq<char>) -> Option<Seq<char>> {
    either(
        swap_tail(s, seq!['_', 'P'], seq!['_', 'N']),
        either(
            swap_tail(s, seq!['_', 'N'], seq!['_', 'P']),
            either(
                swap_tail(s, seq!['_', 'p'], seq!['_', 'n']),
                either(
                    swap_tail(s, seq!['_', 'n'], seq!['_', 'p']),
                    either(
                        swap_tail(s, seq!['.', 'P'], seq!['.', 'N']),
                        either(
                            swap_tail(s, seq!['.', 'N'], seq!['.', 'P']),
                            either(
                                swap_tail(s, seq!['_', 'C'], seq!['_', 'T']),
                                either(
                                    swap_tail(s, seq!['_', 'T'], seq!['_', 'C']),
                                    either(
                                        swap_last_token(s),
                                        either(
                                            swap_usb(s, seq!['D', 'P'], seq!['D', 'M']),
                                            either(
                                                swap_usb(s, seq!['D', 'M'], seq!['D', 'P']),
                                                either(
                                                    swap_usb(s, seq!['D', '+'], seq!['D', '-']),
                                                    swap_usb(s, seq!['D', '-'], seq!['D', '+']),
                                                ),
                                            ),
                                        ),
                                    ),
                                ),
                            ),
                        ),
                    ),
                ),
            ),
        ),
    )
}

/// The legs of a pair named by a trailing polarity suffix (`_P`/`_N` in
/// either case, or `.P`/`.N`) are each other's partners.
pub proof fn lemma_suffix_legs_are_partners(base: Seq<char>, a: Seq<char>, b: Seq<char>)
    requires
        base.len() > 0,
        (a == seq!['_', 'P'] && b == seq!['_', 'N']) || (a == seq!['_', 'p'] && b == seq!['_', 'n']) || (a == seq![
            '.',
            'P',
        ] && b == seq!['.', 'N']),
    ensures
        partner_name(base + a) == Some(base + b),
        partner_name(base + b) == Some(base + a),
{
    let sa = base + a;
    let sb = base + b;
    assert(sa.skip(sa.len() - 2) =~= a);
    assert(sa.take(sa.len() - 2) =~= base);
    assert(sb.skip(sb.len() - 2) =~= b);
    assert(sb.take(sb.len() - 2) =~= base);
}

/// `p` occurs in `s` at no position after the first in `1..=i`.
proof fn lemma_rfind_at_most_first(s: Seq<char>, p: Seq<char>, i: int)
    requires
        forall|j: int| 0 < j <= i && j + p.len() <= s.len() ==> #[trigger] s.subrange(j, j + p.len()) != p,
    ensures
        rfind_from(s, p, i) <= 0,
    decreases i + 1,
{
    if i > 0 {
        lemma_rfind_at_most_first(s, p, i - 1);
        if i + p.len() <= s.len() {
            assert(s.subrange(i, i + p.len()) != p);
        }
    } else if i == 0 {
        assert(rfind_from(s, p, -1) == -1);
    }
}

/// Neither DDR token `_C_` nor `_T_` occurs in `b + tail` past the first
/// character, when it does not occur in `b` and `tail` starts with `D`.
proof fn lemma_no_ddr_token(b: Seq<char>, tail: Seq<char>)
    requires
        tail.len() == 2,
        tail[0] == 'D',
        forall|i: int|
            0 < i && i + 3 <= b.len() ==> #[trigger] b.subrange(i, i + 3) != seq!['_', 'C', '_'] && b.subrange(i, i + 3) != seq![
                '_',
                'T',
                '_',
            ],
    ensures
        rfind(b + tail, seq!['_', 'C', '_']) <= 0,
        rfind(b + tail, seq!['_', 'T', '_']) <= 0,
        swap_last_token(b + tail) is None,
{
    let s = b + tail;
    assert forall|j: int| 0 < j <= s.len() - 3 && j + 3 <= s.len() implies #[trigger] s.subrange(j, j + 3) != seq!['_', 'C', '_']
        && s.subrange(j, j + 3) != seq!['_', 'T', '_'] by {
        if j + 3 <= b.len() {
            assert(s.subrange(j, j + 3) =~= b.subrange(j, j + 3));
        } else {
            let o = b.len() - j;
            assert(s.subrange(j, j + 3)[o] == 'D');
        }
    }
    lemma_rfind_at_most_first(s, seq!['_', 'C', '_'], s.len() - 3);
    lemma_rfind_at_most_first(s, seq!['_', 'T', '_'], s.len() - 3);
    assert(seq!['_', 'C'].push('_') =~= seq!['_', 'C', '_']);
    assert(seq!['_', 'T'].push('_') =~= seq!['_', 'T', '_']);
}

/// USB legs are each other's partners: for a name `b` that ends in a
/// separator (`.`, `_` or `-`) and holds no inner DDR token `_C_`/`_T_`,
/// `b` + `DP` and `b` + `DM` name each other, and so do `b` + `D+` and
/// `b` + `D-`.
pub proof fn lemma_usb_legs_are_partners(b: Seq<char>, pos: Seq<char>, neg: Seq<char>)
    requires
        b.len() >= 1,
        b.last() == '.' || b.last() == '_' || b.last() == '-',
        forall|i: int|
            0 < i && i + 3 <= b.len() ==> #[trigger] b.subrange(i, i + 3) != seq!['_', 'C', '_'] && b.subrange(i, i + 3) != seq![
                '_',
                'T',
                '_',
            ],
        (pos == seq!['D', 'P'] && neg == seq!['D', 'M']) || (pos == seq!['D', '+'] && neg == seq!['D', '-']),
    ensures
        partner_name(b + pos) == Some(b + neg),
        partner_name(b + neg) == Some(b + pos),
{
    let sp = b + pos;
    let sn = b + neg;
    lemma_no_ddr_token(b, pos);
    lemma_no_ddr_token(b, neg);
    assert(sp.skip(sp.len() - 2) =~= pos);
    assert(sp.take(sp.len() - 2) =~= b);
    assert(sn.skip(sn.len() - 2) =~= neg);
    assert(sn.take(sn.len() - 2) =~= b);
    assert(sp[sp.len() - 3] == b.last());
    assert(sn[sn.len() - 3] == b.last());
    assert(pos[0] == 'D' && neg[0] == 'D');
    assert(pos != neg) by {
        assert(pos[1] != neg[1]);
    }
    assert(pos != seq!['D', 'M'] && pos != seq!['D', '-']) by {
        assert(pos[1] != 'M' && pos[1] != '-');
    }
    assert(neg != seq!['D', 'P'] && neg != seq!['D', '+']) by {
        assert(neg[1] != 'P' && neg[1] != '+');
    }
    assert(pos == seq!['D', '+'] ==> neg != seq!['D', 'M']);
}

/// The legs of a pair named by a trailing DDR true/complement token are
/// each other's partners: `b + "_C"` and `b + "_T"`, for any non-empty `b`.
pub proof fn lemma_trailing_ddr_legs_are_partners(b: Seq<char>)
    requires
        b.len() > 0,
    ensures
        partner_name(b + seq!['_', 'C']) == Some(b + seq!['_', 'T']),
        partner_name(b + seq!['_', 'T']) == Some(b + seq!['_', 'C']),
{
    let sc = b + seq!['_', 'C'];
    let st = b + seq!['_', 'T'];
    assert(sc.skip(sc.len() - 2) =~= seq!['_', 'C']);
    assert(sc.take(sc.len() - 2) =~= b);
    assert(st.skip(st.len() - 2) =~= seq!['_', 'T']);
    assert(st.take(st.len() - 2) =~= b);
}

/// The last occurrence of `p` in `s` at or before `i` is at `j`, when `p`
/// occurs at `j` and nowhere in `j + 1..=i`.
proof fn lemma_rfind_last(s: Seq<char>, p: Seq<char>, i: int, j: int)
    requires
        0 <= j <= i,
        j + p.len() <= s.len(),
        s.subrange(j, j + p.len()) == p,
        forall|x: int| j < x <= i && x + p.len() <= s.len() ==> #[trigger] s.subrange(x, x + p.len()) != p,
    ensures
        rfind_from(s, p, i) == j,
    decreases i - j,
{
    if i > j {
        lemma_rfind_last(s, p, i - 1, j);
        if i + p.len() <= s.len() {
            assert(s.subrange(i, i + p.len()) != p);
        }
    }
}

/// With no occurrence of `p` in `s` from `j` to `i`, the last one at or
/// before `i` lies before `j`.
proof fn lemma_rfind_before(s: Seq<char>, p: Seq<char>, i: int, j: int)
    requires
        0 <= j,
        forall|x: int| j <= x <= i && x + p.len() <= s.len() ==> #[trigger] s.subrange(x, x + p.len()) != p,
    ensures
        rfind_from(s, p, i) < j,
    decreases i + 1,
{
    if i >= j {
        lemma_rfind_before(s, p, i - 1, j);
        if i + p.len() <= s.len() {
            assert(s.subrange(i, i + p.len()) != p);
        }
    } else {
        lemma_rfind_from(s, p, i);
    }
}

/// In `b + "_" + a + "_" + r`, with `r` of at least two characters holding
/// no `_`, the token `_x_` (for `x` either DDR letter) occurs at `b.len()`
/// only if `x == a`, and nowhere after.
proof fn lemma_inner_token_at(b: Seq<char>, a: char, r: Seq<char>, x: char)
    requires
        r.len() >= 2,
        forall|k: int| 0 <= k < r.len() ==> #[trigger] r[k] != '_',
        a != '_',
        x != '_',
    ensures
        ({
            let s = b + seq!['_', a, '_'] + r;
            let p = seq!['_', x, '_'];
            &&& (x == a ==> s.subrange(b.len() as int, b.len() as int + 3) == p)
            &&& (x != a ==> s.subrange(b.len() as int, b.len() as int + 3) != p)
            &&& forall|y: int| b.len() < y && y + 3 <= s.len() ==> #[trigger] s.subrange(y, y + 3) != p
        }),
{
    let s = b + seq!['_', a, '_'] + r;
    let p = seq!['_', x, '_'];
    let n = b.len() as int;
    assert(s[n] == '_' && s[n + 1] == a && s[n + 2] == '_');
    if x == a {
        assert(s.subrange(n, n + 3) =~= p);
    } else {
        assert(s.subrange(n, n + 3)[1] == a);
    }
    assert forall|y: int| n < y && y + 3 <= s.len() implies #[trigger] s.subrange(y, y + 3) != p by {
        if y == n + 1 {
            assert(s.subrange(y, y + 3)[0] == a);
        } else if y == n + 2 {
            assert(s.subrange(y, y + 3)[2] == r[1]);
        } else {
            assert(s.subrange(y, y + 3)[0] == r[y - n - 3]);
        }
    }
}

/// The legs of a pair named by an inner DDR true/complement token are each
/// other's partners: `b + "_C_" + r` and `b + "_T_" + r`, for a non-empty
/// `b` and a tail `r` of at least two characters with no `_` or `.`.
pub proof fn lemma_inner_ddr_legs_are_partners(b: Seq<char>, r: Seq<char>)
    requires
        b.len() > 0,
        r.len() >= 2,
        forall|k: int| 0 <= k < r.len() ==> #[trigger] r[k] != '_' && r[k] != '.',
    ensures
        partner_name(b + seq!['_', 'C', '_'] + r) == Some(b + seq!['_', 'T', '_'] + r),
        partner_name(b + seq!['_', 'T', '_'] + r) == Some(b + seq!['_', 'C', '_'] + r),
{
    let sc = b + seq!['_', 'C', '_'] + r;
    let st = b + seq!['_', 'T', '_'] + r;
    let n = b.len() as int;
    let pc = seq!['_', 'C', '_'];
    let pt = seq!['_', 'T', '_'];
    lemma_inner_token_at(b, 'C', r, 'C');
    lemma_inner_token_at(b, 'C', r, 'T');
    lemma_inner_token_at(b, 'T', r, 'C');
    lemma_inner_token_at(b, 'T', r, 'T');
    lemma_rfind_last(sc, pc, sc.len() - 3, n);
    lemma_rfind_before(sc, pt, sc.len() - 3, n);
    lemma_rfind_last(st, pt, st.len() - 3, n);
    lemma_rfind_before(st, pc, st.len() - 3, n);
    assert(seq!['_', 'C'].push('_') =~= pc);
    assert(seq!['_', 'T'].push('_') =~= pt);
    assert(sc.take(n) =~= b);
    assert(sc.skip(n + 3) =~= r);
    assert(st.take(n) =~= b);
    assert(st.skip(n + 3) =~= r);
    assert(seq!['_', 'T'].push('_') + r =~= pt + r);
    assert(b + seq!['_', 'T'].push('_') + r =~= st);
    assert(b + seq!['_', 'C'].push('_') + r =~= sc);
    // No trailing rule applies: the last two characters come from `r`.
    assert(sc.skip(sc.len() - 2)[0] == r[r.len() - 2]);
    assert(st.skip(st.len() - 2)[0] == r[r.len() - 2]);
}

/// A partner name has the length of the name and differs from it: each
/// rule trades one polarity token for its opposite in place.
pub proof fn lemma_partner_same_length_differs(s: Seq<char>)
    ensures
        partner_name(s) matches Some(t) ==> t.len() == s.len() && t != s,
{
    if let Some(t) = partner_name(s) {
        let n = s.len() as int;
        if swap_tail(s, seq!['_', 'P'], seq!['_', 'N']) is Some || swap_tail(s, seq!['_', 'N'], seq!['_', 'P']) is Some
            || swap_tail(s, seq!['_', 'p'], seq!['_', 'n']) is Some || swap_tail(s, seq!['_', 'n'], seq!['_', 'p']) is Some
            || swap_tail(s, seq!['.', 'P'], seq!['.', 'N']) is Some || swap_tail(s, seq!['.', 'N'], seq!['.', 'P']) is Some
            || swap_tail(s, seq!['_', 'C'], seq!['_', 'T']) is Some || swap_tail(s, seq!['_', 'T'], seq!['_', 'C']) is Some {
            assert(t.len() == n);
            assert(s[n - 1] == s.skip(n - 2)[1]);
            assert(t[n - 1] != s[n - 1]);
        } else if swap_last_token(s) is Some {
            let c = rfind(s, seq!['_', 'C', '_']) > rfind(s, seq!['_', 'T', '_']);
            let a = if c { seq!['_', 'C'] } else { seq!['_', 'T'] };
            let b = if c { seq!['_', 'T'] } else { seq!['_', 'C'] };
            let i = rfind(s, a.push('_'));
            lemma_rfind_from(s, a.push('_'), n - 3);
            assert(t == s.take(i) + b.push('_') + s.skip(i + 3));
            assert(s.subrange(i, i + 3)[1] == s[i + 1]);
            assert(a.push('_')[1] != b.push('_')[1]);
            assert(t[i + 1] == b.push('_')[1]);
            assert(t.len() == n);
        } else {
            assert(t.len() == n);
            assert(s[n - 1] == s.skip(n - 2)[1]);
            assert(t[n - 1] != s[n - 1]);
        }
    }
}

/// A name with no separator (`_`, `.` or `-`) carries no polarity marker
/// and has no partner.
pub proof fn lemma_no_separator_no_partner(s: Seq<char>)
    requires
        forall|k: int| 0 <= k < s.len() ==> #[trigger] s[k] != '_' && s[k] != '.' && s[k] != '-',
    ensures
        partner_name(s) is None,
{
    let n = s.len() as int;
    if n > 2 {
        assert(s.skip(n - 2)[0] == s[n - 2]);
    }
    lemma_rfind_from(s, seq!['_', 'C', '_'], n - 3);
    lemma_rfind_from(s, seq!['_', 'T', '_'], n - 3);
    assert(seq!['_', 'C'].push('_') =~= seq!['_', 'C', '_']);
    assert(seq!['_', 'T'].push('_') =~= seq!['_', 'T', '_']);
    let ic = rfind(s, seq!['_', 'C', '_']);
    let it = rfind(s, seq!['_', 'T', '_']);
    if ic >= 0 {
        assert(s.subrange(ic, ic + 3)[0] == s[ic]);
    }
    if it >= 0 {
        assert(s.subrange(it, it + 3)[0] == s[it]);
    }
}

/// The text of an optional name.
pub open spec fn opt_text(r: Option<String>) -> Option<Seq<char>> {
    match r {
        Some(s) => Some(s@),
        None => None,
    }
}

fn try_tail(net: &str, cs: &Vec<char>, a0: char, a1: char, b: &str) -> (r: Option<String>)
    requires
        cs@ == net@,
    ensures
        opt_text(r) == swap_tail(net@, seq![a0, a1], b@),
{
    let n = cs.len();
    if n > 2 && cs[n - 2] == a0 && cs[n - 1] == a1 {
        proof {
            assert(net@.skip(n - 2) =~= seq![a0, a1]);
        }
        let base = net.substring_char(0, n - 2);
        proof {
            assert(base@ =~= net@.take(n - 2));
        }
        Some(String::from_str(base).concat(b))
    } else {
        proof {
            if n > 2 && net@.skip(n - 2) == seq![a0, a1] {
                assert(net@.skip(n - 2)[0] == cs@[n - 2]);
                assert(net@.skip(n - 2)[1] == cs@[n - 1]);
            }
        }
        None
    }
}

fn try_usb(net: &str, cs: &Vec<char>, a0: char, a1: char, b: &str) -> (r: Option<String>)
    requires
        cs@ == net@,
    ensures
        opt_text(r) == swap_usb(net@, seq![a0, a1], b@),
{
    let n = cs.len();
    if n > 2 && cs[n - 2] == a0 && cs[n - 1] == a1 && (cs[n - 3] == '.' || cs[n - 3] == '_' || cs[n - 3] == '-') {
        proof {
            assert(net@.skip(n - 2) =~= seq![a0, a1]);
        }
        let base = net.substring_char(0, n - 2);
        proof {
            assert(base@ =~= net@.take(n - 2));
        }
        Some(String::from_str(base).concat(b))
    } else {
        proof {
            if n > 2 && net@.skip(n - 2) == seq![a0, a1] {
                assert(net@.skip(n - 2)[0] == cs@[n - 2]);
                assert(net@.skip(n - 2)[1] == cs@[n - 1]);
            }
        }
        None
    }
}

/// Last start of `a0 a1 a2` in `cs`.
fn rfind3(cs: &Vec<char>, a0: char, a1: char, a2: char) -> (r: Option<usize>)
    ensures
        match r {
            Some(i) => i as int == rfind(cs@, seq![a0, a1, a2]),
            None => rfind(cs@, seq![a0, a1, a2]) == -1,
        },
{
    let ghost p = seq![a0, a1, a2];
    let n = cs.len();
    if n < 3 {
        return None;
    }
    let mut i: usize = n - 3;
    loop
        invariant
            n == cs@.len(),
            n >= 3,
            i + 3 <= n,
            p == seq![a0, a1, a2],
            rfind(cs@, p) == rfind_from(cs@, p, i as int),
        decreases i,
    {
        if cs[i] == a0 && cs[i + 1] == a1 && cs[i + 2] == a2 {
            proof {
                assert(cs@.subrange(i as int, i + 3) =~= p);
            }
            return Some(i);
        }
        proof {
            if cs@.subrange(i as int, i + 3) == p {
                assert(cs@.subrange(i as int, i + 3)[0] == cs@[i as int]);
                assert(cs@.subrange(i as int, i + 3)[1] == cs@[i + 1]);
                assert(cs@.subrange(i as int, i + 3)[2] == cs@[i + 2]);
            }
        }
        if i == 0 {
            proof {
                assert(rfind_from(cs@, p, -1) == -1);
            }
            return None;
        }
        i = i - 1;
    }
}

fn try_token(net: &str, cs: &Vec<char>, a0: char, a1: char, b: &str) -> (r: Option<String>)
    requires
        cs@ == net@,
    ensures
        opt_text(r) == swap_token(net@, seq![a0, a1], b@),
{
    proof {
        reveal_strlit("_");
        assert(seq![a0, a1].push('_') =~= seq![a0, a1, '_']);
    }
    proof {
        lemma_rfind_from(net@, seq![a0, a1, '_'], net@.len() - 3);
    }
    match rfind3(cs, a0, a1, '_') {
        Some(i) => {
            if i > 0 {
                let n = cs.len();
                let head = net.substring_char(0, i);
                let rest = net.substring_char(i + 3, n);
                let out = String::from_str(head).concat(b).concat("_").concat(rest);
                proof {
                    assert(out@ =~= net@.take(i as int) + b@.push('_') + net@.skip(i + 3));
                }
                Some(out)
            } else {
                None
            }
        },
        None => None,
    }
}

/// The other leg's name for a differential-pair net, or `None` when the
/// name carries no polarity marker.
pub fn pair_partner(net: &str) -> (r: Option<String>)
    ensures
        opt_text(r) == partner_name(net@),
{
    proof {
        reveal_strlit("_N");
        reveal_strlit("_P");
        reveal_strlit("_n");
        reveal_strlit("_p");
        reveal_strlit(".N");
        reveal_strlit(".P");
        reveal_strlit("_T");
        reveal_strlit("_C");
        reveal_strlit("DM");
        reveal_strlit("DP");
        reveal_strlit("D-");
        reveal_strlit("D+");
    }
    let cs = chars_of(net);
    let r = try_tail(net, &cs, '_', 'P', "_N");
    if r.is_some() {
        return r;
    }
    let r = try_tail(net, &cs, '_', 'N', "_P");
    if r.is_some() {
        return r;
    }
    let r = try_tail(net, &cs, '_', 'p', "_n");
    if r.is_some() {
        return r;
    }
    let r = try_tail(net, &cs, '_', 'n', "_p");
    if r.is_some() {
        return r;
    }
    let r = try_tail(net, &cs, '.', 'P', ".N");
    if r.is_some() {
        return r;
    }
    let r = try_tail(net, &cs, '.', 'N', ".P");
    if r.is_some() {
        return r;
    }
    let r = try_tail(net, &cs, '_', 'C', "_T");
    if r.is_some() {
        return r;
    }
    let r = try_tail(net, &cs, '_', 'T', "_C");
    if r.is_some() {
        return r;
    }
    let ic = rfind3(&cs, '_', 'C', '_');
    let it = rfind3(&cs, '_', 'T', '_');
    let c_last = match (ic, it) {
        (Some(a), Some(b)) => a > b,
        (Some(_), None) => true,
        (None, _) => false,
    };
    proof {
        reveal_strlit("_");
        assert(seq!['_', 'C'].push('_') =~= seq!['_', 'C', '_']);
        assert(seq!['_', 'T'].push('_') =~= seq!['_', 'T', '_']);
        lemma_rfind_from(cs@, seq!['_', 'C', '_'], cs@.len() - 3);
        lemma_rfind_from(cs@, seq!['_', 'T', '_'], cs@.len() - 3);
        assert(c_last == (rfind(net@, seq!['_', 'C', '_']) > rfind(net@, seq!['_', 'T', '_'])));
    }
    let r = if c_last {
        try_token(net, &cs, '_', 'C', "_T")
    } else {
        try_token(net, &cs, '_', 'T', "_C")
    };
    if r.is_some() {
        return r;
    }
    let r = try_usb(net, &cs, 'D', 'P', "DM");
    if r.is_some() {
        return r;
    }
    let r = try_usb(net, &cs, 'D', 'M', "DP");
    if r.is_some() {
        return r;
    }
    let r = try_usb(net, &cs, 'D', '+', "D-");
    if r.is_some() {
        return r;
    }
    try_usb(net, &cs, 'D', '-', "D+")
}

/// Why a pair route bailed, first failing stage of the pipeline.
#[derive(Debug, Clone, Copy, PartialEq, Eq, Structural, PartialOrd, Ord)]
pub enum PairBail {
    /// The net name carries no polarity marker — not a pair at all.
    NoPartnerName,
    /// The partner name resolves but no pad on the board carries it.
    PartnerNoPads,
    /// Both partner endpoints snap to the same pad.
    PartnerEndpointsCollapse,
    /// The span is too short to fit leads plus a coupled run.
    SpanTooShort,
    /// The fat-trace centerline search failed on every retreat rung.
    CenterlineSearch,
    /// The centerline could not be offset into two legs.
    DegenerateCenterline,
    /// A realized leg failed the exact oracle.
    LegValidation,
    /// A pad connector (breakout stub) could not reach its leg.
    Connector,
}

/// The census slug of each bail reason.
pub open spec fn bail_slug(b: PairBail) -> Seq<char> {
    match b {
        PairBail::NoPartnerName => "no-partner-name"@,
        PairBail::PartnerNoPads => "partner-no-pads"@,
        PairBail::PartnerEndpointsCollapse => "partner-endpoints-collapse"@,
        PairBail::SpanTooShort => "span-too-short"@,
        PairBail::CenterlineSearch => "centerline-search"@,
        PairBail::DegenerateCenterline => "degenerate-centerline"@,
        PairBail::LegValidation => "leg-validation"@,
        PairBail::Connector => "connector"@,
    }
}

impl PairBail {
    /// Short stable slug for census tables.
    pub fn slug(self) -> (r: &'static str)
        ensures
            r@ == bail_slug(self),
    {
        match self {
            PairBail::NoPartnerName => "no-partner-name",
            PairBail::PartnerNoPads => "partner-no-pads",
            PairBail::PartnerEndpointsCollapse => "partner-endpoints-collapse",
            PairBail::SpanTooShort => "span-too-short",
            PairBail::CenterlineSearch => "centerline-search",
            PairBail::DegenerateCenterline => "degenerate-centerline",
            PairBail::LegValidation => "leg-validation",
            PairBail::Connector => "connector",
        }
    }
}

/// Position of a bail reason in pipeline order (the order reasons sort in).
pub open spec fn bail_rank(b: PairBail) -> int {
    match b {
        PairBail::NoPartnerName => 0,
        PairBail::PartnerNoPads => 1,
        PairBail::PartnerEndpointsCollapse => 2,
        PairBail::SpanTooShort => 3,
        PairBail::CenterlineSearch => 4,
        PairBail::DegenerateCenterline => 5,
        PairBail::LegValidation => 6,
        PairBail::Connector => 7,
    }
}

/// The bail reason at pipeline position `r` (`0..8`).
pub open spec fn bail_at(r: int) -> PairBail {
    if r == 0 {
        PairBail::NoPartnerName
    } else if r == 1 {
        PairBail::PartnerNoPads
    } else if r == 2 {
        PairBail::PartnerEndpointsCollapse
    } else if r == 3 {
        PairBail::SpanTooShort
    } else if r == 4 {
        PairBail::CenterlineSearch
    } else if r == 5 {
        PairBail::DegenerateCenterline
    } else if r == 6 {
        PairBail::LegValidation
    } else {
        PairBail::Connector
    }
}

fn bail_from_rank(r: usize) -> (b: PairBail)
    requires
        r < 8,
    ensures
        b == bail_at(r as int),
        bail_rank(b) == r,
{
    if r == 0 {
        PairBail::NoPartnerName
    } else if r == 1 {
        PairBail::PartnerNoPads
    } else if r == 2 {
        PairBail::PartnerEndpointsCollapse
    } else if r == 3 {
        PairBail::SpanTooShort
    } else if r == 4 {
        PairBail::CenterlineSearch
    } else if r == 5 {
        PairBail::DegenerateCenterline
    } else if r == 6 {
        PairBail::LegValidation
    } else {
        PairBail::Connector
    }
}

fn rank_of(b: PairBail) -> (r: usize)
    ensures
        r == bail_rank(b),
        r < 8,
{
    match b {
        PairBail::NoPartnerName => 0,
        PairBail::PartnerNoPads => 1,
        PairBail::PartnerEndpointsCollapse => 2,
        PairBail::SpanTooShort => 3,
        PairBail::CenterlineSearch => 4,
        PairBail::DegenerateCenterline => 5,
        PairBail::LegValidation => 6,
        PairBail::Connector => 7,
    }
}

/// How many outcomes bailed for reason `b`.
pub open spec fn bail_count(outcomes: Seq<Option<PairBail>>, b: PairBail) -> nat
    decreases outcomes.len(),
{
    if outcomes.len() == 0 {
        0
    } else {
        bail_count(outcomes.drop_last(), b) + if outcomes.last() == Some(b) { 1nat } else { 0nat }
    }
}

/// How many outcomes routed coupled (carry no bail reason).
pub open spec fn coupled_count(outcomes: Seq<Option<PairBail>>) -> nat
    decreases outcomes.len(),
{
    if outcomes.len() == 0 {
        0
    } else {
        coupled_count(outcomes.drop_last()) + if outcomes.last() is None { 1nat } else { 0nat }
    }
}

/// Pairs that routed coupled, of per-pair outcomes (`None`: coupled).
pub fn coupled(outcomes: &Vec<Option<PairBail>>) -> (c: usize)
    ensures
        c == coupled_count(outcomes@),
{
    let mut c: usize = 0;
    let mut i: usize = 0;
    proof {
        assert(outcomes@.take(0) =~= Seq::<Option<PairBail>>::empty());
    }
    while i < outcomes.len()
        invariant
            i <= outcomes@.len(),
            c == coupled_count(outcomes@.take(i as int)),
            c <= i,
        decreases outcomes@.len() - i,
    {
        proof {
            assert(outcomes@.take(i + 1).drop_last() =~= outcomes@.take(i as int));
        }
        if outcomes[i].is_none() {
            c = c + 1;
        }
        i = i + 1;
    }
    proof {
        assert(outcomes@.take(outcomes@.len() as int) =~= outcomes@);
    }
    c
}

/// Bail histogram of per-pair outcomes: every reason that occurs, with its
/// count, most frequent first, ties in pipeline order.
pub fn bail_histogram(outcomes: &Vec<Option<PairBail>>) -> (h: Vec<(PairBail, usize)>)
    ensures
        forall|i: int| 0 <= i < h@.len() ==> #[trigger] h@[i].1 == bail_count(outcomes@, h@[i].0) && h@[i].1 > 0,
        forall|r: int|
            0 <= r < 8 && bail_count(outcomes@, bail_at(r)) > 0 ==> exists|i: int| 0 <= i < h@.len() && #[trigger] h@[i].0
                == bail_at(r),
        forall|i: int, j: int|
            0 <= i < j < h@.len() ==> #[trigger] h@[i].1 > #[trigger] h@[j].1 || (h@[i].1 == h@[j].1 && bail_rank(h@[i].0)
                < bail_rank(h@[j].0)),
{
    let mut counts: Vec<u64> = Vec::new();
    let mut r: usize = 0;
    while r < 8
        invariant
            r <= 8,
            counts@.len() == r,
            forall|x: int| 0 <= x < r ==> #[trigger] counts@[x] == 0,
        decreases 8 - r,
    {
        counts.push(0);
        r = r + 1;
    }
    let mut i: usize = 0;
    proof {
        assert(outcomes@.take(0) =~= Seq::<Option<PairBail>>::empty());
    }
    while i < outcomes.len()
        invariant
            i <= outcomes@.len(),
            counts@.len() == 8,
            forall|x: int| 0 <= x < 8 ==> #[trigger] counts@[x] == bail_count(outcomes@.take(i as int), bail_at(x)),
            forall|x: int| 0 <= x < 8 ==> #[trigger] counts@[x] <= i,
        decreases outcomes@.len() - i,
    {
        proof {
            assert(outcomes@.take(i + 1).drop_last() =~= outcomes@.take(i as int));
        }
        match outcomes[i] {
            Some(b) => {
                let k = rank_of(b);
                let c = counts[k];
                counts.set(k, c + 1);
                proof {
                    assert(bail_at(k as int) == b);
                    assert forall|x: int| 0 <= x < 8 && x != k implies outcomes@[i as int] != Some(bail_at(x)) by {
                        assert(bail_rank(bail_at(x)) == x);
                    }
                }
            },
            None => {},
        }
        i = i + 1;
    }
    proof {
        assert(outcomes@.take(outcomes@.len() as int) =~= outcomes@);
    }
    let order = sort_indices_by_key(&counts, true);
    let m = outcomes.len();
    let mut h: Vec<(PairBail, usize)> = Vec::new();
    let ghost mut src: Seq<int> = Seq::empty();
    let mut j: usize = 0;
    while j < 8
        invariant
            j <= 8,
            counts@.len() == 8,
            forall|x: int| 0 <= x < 8 ==> #[trigger] counts@[x] == bail_count(outcomes@, bail_at(x)),
            sorted_permutation(counts@, true, order@),
            m == outcomes@.len(),
            forall|x: int| 0 <= x < 8 ==> #[trigger] counts@[x] <= m,
            src.len() == h@.len(),
            forall|a: int| 0 <= a < h@.len() ==> 0 <= #[trigger] src[a] < j && h@[a].0 == bail_at(order@[src[a]] as int)
                && h@[a].1 == counts@[order@[src[a]] as int] && h@[a].1 > 0,
            forall|a: int, b: int| 0 <= a < b < src.len() ==> #[trigger] src[a] < #[trigger] src[b],
            forall|p: int| 0 <= p < j && counts@[order@[p] as int] > 0 ==> exists|a: int| 0 <= a < src.len() && src[a] == p,
        decreases 8 - j,
    {
        let k = order[j];
        let c = counts[k];
        if c > 0 {
            let b = bail_from_rank(k);
            let ghost old_src = src;
            let ghost old_h = h@;
            proof {
                src = src.push(j as int);
                assert(c <= m);
            }
            h.push((b, c as usize));
            proof {
                assert forall|a: int| 0 <= a < h@.len() implies 0 <= #[trigger] src[a] < j + 1 && h@[a].0 == bail_at(
                    order@[src[a]] as int,
                ) && h@[a].1 == counts@[order@[src[a]] as int] && h@[a].1 > 0 by {
                    if a < old_h.len() {
                        assert(h@[a] == old_h[a]);
                        assert(src[a] == old_src[a]);
                    }
                }
                assert forall|p: int| 0 <= p < j + 1 && counts@[order@[p] as int] > 0 implies exists|a: int|
                    0 <= a < src.len() && src[a] == p by {
                    if p < j {
                        let a = choose|a: int| 0 <= a < old_src.len() && old_src[a] == p;
                        assert(src[a] == p);
                    } else {
                        assert(src[src.len() - 1] == p);
                    }
                }
            }
        }
        j = j + 1;
    }
    proof {
        assert forall|i: int| 0 <= i < h@.len() implies #[trigger] h@[i].1 == bail_count(outcomes@, h@[i].0) && h@[i].1 > 0 by {
            let x = order@[src[i]] as int;
            assert(counts@[x] == bail_count(outcomes@, bail_at(x)));
        }
        assert forall|r: int|
            0 <= r < 8 && bail_count(outcomes@, bail_at(r)) > 0 implies exists|i: int| 0 <= i < h@.len() && #[trigger] h@[i].0
                == bail_at(r) by {
            assert(order@.contains(r as usize));
            let p = choose|p: int| 0 <= p < order@.len() && order@[p] == r as usize;
            assert(counts@[r] > 0);
            let a = choose|a: int| 0 <= a < src.len() && src[a] == p;
            assert(h@[a].0 == bail_at(r));
        }
        assert forall|a: int, b: int| 0 <= a < b < h@.len() implies #[trigger] h@[a].1 > #[trigger] h@[b].1 || (h@[a].1
            == h@[b].1 && bail_rank(h@[a].0) < bail_rank(h@[b].0)) by {
            assert(src[a] < src[b]);
            let xa = order@[src[a]] as int;
            let xb = order@[src[b]] as int;
            assert(crate::order::key_before(counts@, true, xa, xb));
            assert(bail_rank(bail_at(xa)) == xa);
            assert(bail_rank(bail_at(xb)) == xb);
        }
    }
    h
}

/// Every centerline segment from `a` through `b` has room for both legs.
pub open spec fn all_legal(legal: Seq<bool>, a: int, b: int) -> bool {
    forall|i: int| a <= i <= b ==> #[trigger] legal[i]
}

/// `[s, e]` is the longest run of segments with room for both legs, the
/// earliest one where runs tie.
pub open spec fn first_longest_run(legal: Seq<bool>, s: int, e: int) -> bool {
    &&& 0 <= s <= e < legal.len()
    &&& all_legal(legal, s, e)
    &&& forall|a: int, b: int|
        0 <= a <= b < legal.len() && #[trigger] all_legal(legal, a, b) ==> b - a <= e - s && (b - a == e - s ==> s <= a)
}

/// No run still open at `run` reaches index `b`.
pub open spec fn closed_before(run: Option<usize>, b: int) -> bool {
    match run {
        Some(s) => b < s,
        None => true,
    }
}

/// What the scan has settled after looking at the first `k` segments.
pub open spec fn window_scan(legal: Seq<bool>, k: int, run: Option<usize>, best: Option<(usize, usize)>) -> bool {
    &&& 0 <= k <= legal.len()
    &&& match run {
        Some(s) => s < k && all_legal(legal, s as int, k - 1) && (s == 0 || !legal[s - 1]),
        None => k == 0 || !legal[k - 1],
    }
    &&& match best {
        Some((bs, be)) => bs <= be && be + 1 < k && all_legal(legal, bs as int, be as int) && !legal[be + 1]
            && closed_before(run, be as int),
        None => forall|i: int| 0 <= i < k && #[trigger] legal[i] ==> !closed_before(run, i),
    }
    &&& forall|a: int, b: int|
        0 <= a <= b < k && #[trigger] all_legal(legal, a, b) && closed_before(run, b) ==> match best {
            Some((bs, be)) => b - a <= be - bs && (b - a == be - bs ==> bs <= a),
            None => false,
        }
}

/// Close the open run `[s, e]`: it replaces `best` only when strictly longer.
fn close_run(best: Option<(usize, usize)>, s: usize, e: usize) -> (r: Option<(usize, usize)>)
    requires
        s <= e,
        best matches Some((bs, be)) ==> bs <= be,
    ensures
        r == match best {
            Some((bs, be)) => if e - s > be - bs { Some((s, e)) } else { best },
            None => Some((s, e)),
        },
{
    match best {
        Some((bs, be)) => if e - s > be - bs { Some((s, e)) } else { best },
        None => Some((s, e)),
    }
}

/// The longest stretch of a pair's centerline over which both offset legs
/// have room: `legal[k]` says whether segment `k`'s two offsets probe legal.
/// The first and last index of the longest run of legal segments, the
/// earliest on a tie; `None` when no two consecutive segments are legal, as
/// a single segment cannot carry a coupled run (each leg needs at least two
/// points per layer run).
pub fn longest_coupled_window(legal: &Vec<bool>) -> (r: Option<(usize, usize)>)
    ensures
        r is None <==> forall|i: int| 0 <= i < legal@.len() - 1 ==> !(#[trigger] legal@[i] && legal@[i + 1]),
        r matches Some((s, e)) ==> s < e && first_longest_run(legal@, s as int, e as int),
{
    let n = legal.len();
    let mut best: Option<(usize, usize)> = None;
    let mut run: Option<usize> = None;
    let mut k: usize = 0;
    while k < n
        invariant
            n == legal@.len(),
            window_scan(legal@, k as int, run, best),
        decreases n - k,
    {
        let ghost (run0, best0) = (run, best);
        if legal[k] {
            if run.is_none() {
                run = Some(k);
            }
            proof {
                assert forall|a: int, b: int|
                    0 <= a <= b < k + 1 && #[trigger] all_legal(legal@, a, b) && closed_before(run, b) implies match best {
                        Some((bs, be)) => b - a <= be - bs && (b - a == be - bs ==> bs <= a),
                        None => false,
                    } by {
                    assert(b < k && closed_before(run0, b));
                }
            }
        } else {
            match run {
                Some(s) => {
                    best = close_run(best, s, k - 1);
                    run = None;
                    proof {
                        assert forall|a: int, b: int|
                            0 <= a <= b < k + 1 && #[trigger] all_legal(legal@, a, b) && closed_before(run, b) implies match best {
                                Some((bs, be)) => b - a <= be - bs && (b - a == be - bs ==> bs <= a),
                                None => false,
                            } by {
                            assert(legal@[b]);
                            if b >= s {
                                if a < s {
                                    assert(legal@[s - 1]);
                                }
                            } else {
                                assert(closed_before(run0, b));
                            }
                        }
                        assert forall|i: int| 0 <= i < k + 1 && #[trigger] legal@[i] implies !closed_before(run, i) || best is Some by {}
                    }
                },
                None => {
                    proof {
                        assert forall|a: int, b: int|
                            0 <= a <= b < k + 1 && #[trigger] all_legal(legal@, a, b) && closed_before(run, b) implies match best {
                                Some((bs, be)) => b - a <= be - bs && (b - a == be - bs ==> bs <= a),
                                None => false,
                            } by {
                            assert(legal@[b]);
                        }
                    }
                },
            }
        }
        k = k + 1;
    }
    let ghost (run0, best0) = (run, best);
    match run {
        Some(s) => {
            best = close_run(best, s, n - 1);
            proof {
                assert forall|a: int, b: int|
                    0 <= a <= b < n && #[trigger] all_legal(legal@, a, b) implies match best {
                        Some((bs, be)) => b - a <= be - bs && (b - a == be - bs ==> bs <= a),
                        None => false,
                    } by {
                    if b >= s {
                        if a < s {
                            assert(legal@[s - 1]);
                        }
                    } else {
                        assert(closed_before(run0, b));
                    }
                }
                assert(legal@[s as int]);
            }
        },
        None => {
            proof {
                assert forall|a: int, b: int|
                    0 <= a <= b < n && #[trigger] all_legal(legal@, a, b) implies match best {
                        Some((bs, be)) => b - a <= be - bs && (b - a == be - bs ==> bs <= a),
                        None => false,
                    } by {
                    assert(closed_before(run0, b));
                }
                if let Some((bs, be)) = best {
                    assert(legal@[bs as int]);
                }
            }
        },
    }
    match best {
        Some((bs, be)) => {
            if be > bs {
                proof {
                    assert(all_legal(legal@, bs as int, be as int));
                    assert(legal@[bs as int] && legal@[bs + 1]);
                }
                best
            } else {
                proof {
                    assert forall|i: int| 0 <= i < legal@.len() - 1 implies !(#[trigger] legal@[i] && legal@[i + 1]) by {
                        if legal@[i] && legal@[i + 1] {
                            assert(all_legal(legal@, i, i + 1));
                        }
                    }
                }
                None
            }
        },
        None => {
            proof {
                assert forall|i: int| 0 <= i < legal@.len() - 1 implies !(#[trigger] legal@[i] && legal@[i + 1]) by {
                    if legal@[i] && legal@[i + 1] {
                        assert(all_legal(legal@, i, i));
                    }
                }
            }
            None
        },
    }
}

} // verus!
