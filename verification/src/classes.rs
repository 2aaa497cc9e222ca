//! Net-class inference from net names: which nets are differential pairs,
//! and which belong to a length-matched bus. A net the classifier cannot
//! place stays unclassified.
use vstd::prelude::*;
use vstd::string::{StrSliceExecFns, StringExecFns};
use crate::pair::{opt_text, pair_partner, partner_name};
use crate::text::{
    append_decimal, chars_of, decimal, texts, lemma_text_lt_total, lemma_text_lt_trans, same_chars, text_lt, chars_lt,
};

verus! {

/// The class name applied to differential-pair nets.
pub const DIFF_PAIR_CLASS: &'static str = "diff-pair";

/// The texts of a list of name pairs.
pub open spec fn pair_texts(v: Seq<(String, String)>) -> Seq<(Seq<char>, Seq<char>)> {
    v.map_values(|p: (String, String)| (p.0@, p.1@))
}

/// The name ends in a negative-leg marker (`N`, `M` or `-`).
pub open spec fn ends_negative(s: Seq<char>) -> bool {
    s.len() > 0 && (s.last() == 'N' || s.last() == 'M' || s.last() == '-')
}

/// The pair `(positive, negative)` formed by `net` and its partner `p`.
pub open spec fn oriented(net: Seq<char>, p: Seq<char>) -> (Seq<char>, Seq<char>) {
    if ends_negative(net) {
        (p, net)
    } else {
        (net, p)
    }
}

/// Pairs declared after scanning the first `k` nets, with the set of nets
/// already paired: a net not yet paired whose partner name is also a net
/// forms a pair, unless either leg was already taken.
pub open spec fn pair_scan(nets: Seq<Seq<char>>, k: int) -> (Seq<(Seq<char>, Seq<char>)>, Set<Seq<char>>)
    decreases k,
{
    if k <= 0 {
        (Seq::empty(), Set::empty())
    } else {
        let prev = pair_scan(nets, k - 1);
        let net = nets[k - 1];
        if prev.1.contains(net) {
            prev
        } else {
            match partner_name(net) {
                Some(p) => {
                    let pn = oriented(net, p);
                    if nets.contains(p) && !prev.1.contains(pn.0) && !prev.1.contains(pn.1) {
                        (prev.0.push(pn), prev.1.insert(pn.0).insert(pn.1))
                    } else {
                        prev
                    }
                },
                None => prev,
            }
        }
    }
}

/// `s` starts with `p`.
pub open spec fn has_prefix(s: Seq<char>, p: Seq<char>) -> bool {
    p.len() <= s.len() && s.take(p.len() as int) == p
}

/// An ASCII decimal digit.
pub open spec fn is_digit(c: char) -> bool {
    48 <= (c as u32) <= 57
}

/// The leading run of decimal digits of `s`.
pub open spec fn digit_run(s: Seq<char>) -> Seq<char>
    decreases s.len(),
{
    if s.len() > 0 && is_digit(s[0]) {
        seq![s[0]] + digit_run(s.drop_first())
    } else {
        Seq::empty()
    }
}

/// The number written by a string of decimal digits.
pub open spec fn digits_value(d: Seq<char>) -> nat
    decreases d.len(),
{
    if d.len() == 0 {
        0
    } else {
        digits_value(d.drop_last()) * 10 + ((d.last() as u32) - 48) as nat
    }
}

/// Where the lane index of an LPDDR4 data net starts in the name: after
/// `DQ`, past the strobe marker `S` of a `DQS` rider; after `DM` for a mask
/// rider.
pub open spec fn lane_digits_at(rest: Seq<char>) -> int {
    if has_prefix(rest, "DQ"@) && rest.len() > 2 && rest[2] == 'S' {
        3
    } else {
        2
    }
}

/// The length-match group a net belongs to, if any: LPDDR4 command/address
/// nets by channel (the name's last character), LPDDR4 data nets by byte
/// lane (the DQ index divided by eight, when it fits a `usize`; `DQS` strobe
/// and `DM` mask riders join the lane of their index), and every RGMII net
/// in one group.
pub open spec fn group_of(s: Seq<char>) -> Option<Seq<char>> {
    if has_prefix(s, "/LPDDR4 RAM/"@) {
        let rest = s.skip(12);
        if has_prefix(rest, "CA"@) || has_prefix(rest, "CKE"@) || has_prefix(rest, "CS"@) {
            Some("lpddr4-ca-"@.push(rest.last()))
        } else if has_prefix(rest, "DQ"@) || has_prefix(rest, "DM"@) {
            let d = digit_run(rest.skip(lane_digits_at(rest)));
            if d.len() > 0 && digits_value(d) <= usize::MAX {
                Some("lpddr4-dq-lane"@ + decimal(digits_value(d) / 8))
            } else {
                None
            }
        } else {
            None
        }
    } else if has_prefix(s, "/RGMII."@) {
        Some("rgmii"@)
    } else {
        None
    }
}

/// The nets of group `g`, in input order.
pub open spec fn members(nets: Seq<Seq<char>>, g: Seq<char>) -> Seq<Seq<char>> {
    nets.filter(|n: Seq<char>| group_of(n) == Some(g))
}

/// `groups` lists, by ascending name, exactly the groups of `nets` with
/// more than one member, each with its members in input order.
pub open spec fn groups_of(nets: Seq<Seq<char>>, groups: Seq<(String, Vec<String>)>) -> bool {
    &&& forall|i: int, j: int| 0 <= i < j < groups.len() ==> text_lt(#[trigger] groups[i].0@, #[trigger] groups[j].0@)
    &&& forall|i: int|
        0 <= i < groups.len() ==> texts(#[trigger] groups[i].1@) == members(nets, groups[i].0@) && groups[i].1@.len()
            > 1
    &&& forall|m: int|
        0 <= m < nets.len() && #[trigger] group_of(nets[m]) is Some && members(nets, group_of(nets[m])->0).len() > 1
            ==> exists|i: int| 0 <= i < groups.len() && groups[i].0@ == group_of(nets[m])->0
}

/// `x` is one leg of pair `p`.
pub open spec fn has_leg(p: (String, String), x: Seq<char>) -> bool {
    p.0@ == x || p.1@ == x
}

/// Recovered electrical intent for a board's nets.
pub struct NetClassifier {
    /// Differential pairs as `(positive, negative)` net names. Each net
    /// appears in at most one pair.
    pub pairs: Vec<(String, String)>,
    /// Length-match groups as `(name, member nets)`, by ascending name.
    pub match_groups: Vec<(String, Vec<String>)>,
}

impl Default for NetClassifier {
    fn default() -> (r: Self)
        ensures
            r.pairs@.len() == 0,
            r.match_groups@.len() == 0,
    {
        NetClassifier { pairs: Vec::new(), match_groups: Vec::new() }
    }
}

impl NetClassifier {
    /// True when `net` is one leg of a recognized differential pair.
    pub fn is_pair_member(&self, net: &str) -> (r: bool)
        ensures
            r == exists|i: int| 0 <= i < self.pairs@.len() && #[trigger] has_leg(self.pairs@[i], net@),
    {
        let x = chars_of(net);
        let mut i: usize = 0;
        while i < self.pairs.len()
            invariant
                i <= self.pairs@.len(),
                x@ == net@,
                forall|j: int| 0 <= j < i ==> !#[trigger] has_leg(self.pairs@[j], net@),
            decreases self.pairs@.len() - i,
        {
            let leg = &self.pairs[i];
            let p = chars_of(leg.0.as_str());
            let n = chars_of(leg.1.as_str());
            if same_chars(&p, &x) || same_chars(&n, &x) {
                proof {
                    assert(has_leg(self.pairs@[i as int], net@));
                }
                return true;
            }
            proof {
                assert(!has_leg(self.pairs@[i as int], net@));
            }
            i = i + 1;
        }
        false
    }

    /// The members of the match group named `name`.
    pub fn match_group(&self, name: &str) -> (r: Option<&Vec<String>>)
        ensures
            match r {
                Some(m) => exists|i: int|
                    0 <= i < self.match_groups@.len() && #[trigger] self.match_groups@[i].0@ == name@ && *m
                        == self.match_groups@[i].1,
                None => forall|i: int| 0 <= i < self.match_groups@.len() ==> #[trigger] self.match_groups@[i].0@ != name@,
            },
    {
        let x = chars_of(name);
        let mut i: usize = 0;
        while i < self.match_groups.len()
            invariant
                i <= self.match_groups@.len(),
                x@ == name@,
                forall|j: int| 0 <= j < i ==> #[trigger] self.match_groups@[j].0@ != name@,
            decreases self.match_groups@.len() - i,
        {
            let g = chars_of(self.match_groups[i].0.as_str());
            if same_chars(&g, &x) {
                return Some(&self.match_groups[i].1);
            }
            i = i + 1;
        }
        None
    }
}

/// `x` is the text of some entry of `list`.
pub open spec fn listed(list: Seq<Vec<char>>, x: Seq<char>) -> bool {
    exists|j: int| 0 <= j < list.len() && #[trigger] list[j]@ == x
}

/// `x` is one of the texts in `list`.
fn holds_text(list: &Vec<Vec<char>>, x: &Vec<char>) -> (r: bool)
    ensures
        r == listed(list@, x@),
{
    let mut j: usize = 0;
    while j < list.len()
        invariant
            j <= list@.len(),
            forall|i: int| 0 <= i < j ==> #[trigger] list@[i]@ != x@,
        decreases list@.len() - j,
    {
        if same_chars(&list[j], x) {
            return true;
        }
        j = j + 1;
    }
    false
}

/// A run of decimal digits.
pub open spec fn all_digits(d: Seq<char>) -> bool {
    forall|i: int| 0 <= i < d.len() ==> is_digit(#[trigger] d[i])
}

proof fn lemma_digits_value_push(d: Seq<char>, c: char)
    ensures
        digits_value(d.push(c)) == digits_value(d) * 10 + ((c as u32) - 48) as nat,
{
    assert(d.push(c).drop_last() =~= d);
}

/// Appending digits never lowers the value.
proof fn lemma_digits_value_prefix(a: Seq<char>, b: Seq<char>)
    requires
        all_digits(a + b),
    ensures
        digits_value(a) <= digits_value(a + b),
    decreases b.len(),
{
    if b.len() > 0 {
        let b1 = b.drop_last();
        assert((a + b1).push(b.last()) =~= a + b);
        assert(all_digits(a + b1)) by {
            assert forall|i: int| 0 <= i < (a + b1).len() implies is_digit(#[trigger] (a + b1)[i]) by {
                assert((a + b1)[i] == (a + b)[i]);
            }
        }
        lemma_digits_value_prefix(a, b1);
        lemma_digits_value_push(a + b1, b.last());
        assert(is_digit((a + b)[(a + b).len() - 1]));
    }
}

proof fn lemma_digit_run_at(s: Seq<char>, i: int)
    requires
        0 <= i <= s.len(),
    ensures
        i < s.len() && is_digit(s[i]) ==> digit_run(s.skip(i)) == seq![s[i]] + digit_run(s.skip(i + 1)),
        !(i < s.len() && is_digit(s[i])) ==> digit_run(s.skip(i)) == Seq::<char>::empty(),
{
    if i < s.len() {
        assert(s.skip(i).drop_first() =~= s.skip(i + 1));
    }
}

/// The leading run of digits of `cs` from `from`, read as a number when it
/// is non-empty and fits a `usize`.
fn lane_number(cs: &Vec<char>, from: usize) -> (r: Option<usize>)
    requires
        from <= cs@.len(),
    ensures
        match r {
            Some(v) => digit_run(cs@.skip(from as int)).len() > 0 && v == digits_value(digit_run(cs@.skip(from as int))),
            None => digit_run(cs@.skip(from as int)).len() == 0 || digits_value(digit_run(cs@.skip(from as int)))
                > usize::MAX,
        },
{
    let n = cs.len();
    let mut i = from;
    let mut v: usize = 0;
    proof {
        assert(cs@.subrange(from as int, from as int) =~= Seq::<char>::empty());
        assert(digit_run(cs@.skip(from as int)) =~= cs@.subrange(from as int, from as int) + digit_run(cs@.skip(from as int)));
    }
    while i < n && 48 <= (cs[i] as u32) && (cs[i] as u32) <= 57
        invariant
            n == cs@.len(),
            from <= i <= n,
            all_digits(cs@.subrange(from as int, i as int)),
            v == digits_value(cs@.subrange(from as int, i as int)),
            digit_run(cs@.skip(from as int)) == cs@.subrange(from as int, i as int) + digit_run(cs@.skip(i as int)),
        decreases n - i,
    {
        let d = ((cs[i] as u32) - 48) as usize;
        let ghost pre = cs@.subrange(from as int, i as int);
        proof {
            lemma_digit_run_at(cs@, i as int);
            assert(cs@.subrange(from as int, i + 1) =~= pre.push(cs@[i as int]));
            lemma_digits_value_push(pre, cs@[i as int]);
            assert(pre + (seq![cs@[i as int]] + digit_run(cs@.skip(i + 1))) =~= cs@.subrange(from as int, i + 1)
                + digit_run(cs@.skip(i + 1)));
        }
        let next = match v.checked_mul(10) {
            Some(t) => t.checked_add(d),
            None => None,
        };
        match next {
            Some(t) => {
                v = t;
            },
            None => {
                proof {
                    let whole = digit_run(cs@.skip(from as int));
                    let sub = cs@.subrange(from as int, i + 1);
                    assert(all_digits(whole)) by {
                        lemma_digit_run_digits(cs@.skip(from as int));
                    }
                    assert(whole =~= sub + digit_run(cs@.skip(i + 1)));
                    lemma_digits_value_prefix(sub, digit_run(cs@.skip(i + 1)));
                }
                return None;
            },
        }
        i = i + 1;
        proof {
            assert(all_digits(cs@.subrange(from as int, i as int))) by {
                assert forall|j: int| 0 <= j < cs@.subrange(from as int, i as int).len() implies is_digit(
                    #[trigger] cs@.subrange(from as int, i as int)[j],
                ) by {
                    if j < i - 1 - from {
                        assert(cs@.subrange(from as int, i as int)[j] == pre[j]);
                    }
                }
            }
        }
    }
    proof {
        lemma_digit_run_at(cs@, i as int);
        assert(cs@.subrange(from as int, i as int) + Seq::<char>::empty() =~= cs@.subrange(from as int, i as int));
    }
    if i == from {
        None
    } else {
        Some(v)
    }
}

/// A digit run holds digits only.
proof fn lemma_digit_run_digits(s: Seq<char>)
    ensures
        all_digits(digit_run(s)),
    decreases s.len(),
{
    if s.len() > 0 && is_digit(s[0]) {
        lemma_digit_run_digits(s.drop_first());
        let r = digit_run(s.drop_first());
        assert forall|i: int| 0 <= i < (seq![s[0]] + r).len() implies is_digit(#[trigger] (seq![s[0]] + r)[i]) by {
            if i > 0 {
                assert((seq![s[0]] + r)[i] == r[i - 1]);
            }
        }
    }
}

/// `cs` has `p` at position `at`.
fn has_prefix_at(cs: &Vec<char>, at: usize, p: &str) -> (r: bool)
    requires
        at <= cs@.len(),
    ensures
        r == has_prefix(cs@.skip(at as int), p@),
{
    let pc = chars_of(p);
    let n = cs.len();
    if pc.len() > n - at {
        return false;
    }
    let mut j: usize = 0;
    while j < pc.len()
        invariant
            pc@ == p@,
            n == cs@.len(),
            at <= cs@.len(),
            pc@.len() <= cs@.len() - at,
            j <= pc@.len(),
            forall|i: int| 0 <= i < j ==> cs@[at + i] == pc@[i],
        decreases pc@.len() - j,
    {
        if cs[at + j] != pc[j] {
            proof {
                assert(cs@.skip(at as int).take(pc@.len() as int)[j as int] == cs@[at + j]);
            }
            return false;
        }
        j = j + 1;
    }
    proof {
        assert(cs@.skip(at as int).take(pc@.len() as int) =~= pc@);
    }
    true
}

/// The length-match group of the net named `net`.
pub fn group_name(net: &str) -> (r: Option<String>)
    ensures
        opt_text(r) == group_of(net@),
{
    proof {
        reveal_strlit("/LPDDR4 RAM/");
        reveal_strlit("CA");
        reveal_strlit("CKE");
        reveal_strlit("CS");
        reveal_strlit("DQ");
        reveal_strlit("DM");
        reveal_strlit("/RGMII.");
    }
    let cs = chars_of(net);
    let n = cs.len();
    proof {
        assert(cs@.skip(0) =~= cs@);
    }
    if has_prefix_at(&cs, 0, "/LPDDR4 RAM/") {
        if has_prefix_at(&cs, 12, "CA") || has_prefix_at(&cs, 12, "CKE") || has_prefix_at(&cs, 12, "CS") {
            let last = net.substring_char(n - 1, n);
            let r = String::from_str("lpddr4-ca-").concat(last);
            proof {
                assert(last@ =~= seq![cs@[n - 1]]);
                assert(cs@.skip(12).last() == cs@[n - 1]);
                assert(r@ =~= "lpddr4-ca-"@.push(cs@.skip(12).last()));
            }
            Some(r)
        } else if has_prefix_at(&cs, 12, "DQ") || has_prefix_at(&cs, 12, "DM") {
            let dq = has_prefix_at(&cs, 12, "DQ");
            let from: usize = if dq && n > 14 && cs[14] == 'S' { 15 } else { 14 };
            proof {
                assert(cs@.skip(12).len() > 2 ==> cs@.skip(12)[2] == cs@[14]);
                assert(from == 12 + lane_digits_at(cs@.skip(12)));
                assert(cs@.skip(12).skip(lane_digits_at(cs@.skip(12))) =~= cs@.skip(from as int));
            }
            match lane_number(&cs, from) {
                Some(v) => Some(append_decimal(String::from_str("lpddr4-dq-lane"), v / 8)),
                None => None,
            }
        } else {
            None
        }
    } else if has_prefix_at(&cs, 0, "/RGMII.") {
        Some(String::from_str("rgmii"))
    } else {
        None
    }
}

/// The text of each name.
fn texts_of(nets: &[String]) -> (r: Vec<Vec<char>>)
    ensures
        r@.len() == nets@.len(),
        forall|j: int| 0 <= j < nets@.len() ==> #[trigger] r@[j]@ == nets@[j]@,
{
    let mut r: Vec<Vec<char>> = Vec::new();
    let mut k: usize = 0;
    while k < nets.len()
        invariant
            k <= nets@.len(),
            r@.len() == k,
            forall|j: int| 0 <= j < k ==> #[trigger] r@[j]@ == nets@[j]@,
        decreases nets@.len() - k,
    {
        r.push(chars_of(nets[k].as_str()));
        k = k + 1;
    }
    r
}

/// A net name is among the names whose texts are `nv`.
proof fn lemma_listed_texts(nets: Seq<String>, nv: Seq<Vec<char>>, x: Seq<char>)
    requires
        nv.len() == nets.len(),
        forall|j: int| 0 <= j < nets.len() ==> #[trigger] nv[j]@ == nets[j]@,
    ensures
        listed(nv, x) == texts(nets).contains(x),
{
    if listed(nv, x) {
        let j = choose|j: int| 0 <= j < nv.len() && #[trigger] nv[j]@ == x;
        assert(texts(nets)[j] == x);
    }
    if texts(nets).contains(x) {
        let j = choose|j: int| 0 <= j < texts(nets).len() && texts(nets)[j] == x;
        assert(nv[j]@ == x);
    }
}

/// The pairs of `nets`, scanning in order.
fn scan_pairs(nets: &[String], nv: &Vec<Vec<char>>) -> (r: Vec<(String, String)>)
    requires
        nv@.len() == nets@.len(),
        forall|j: int| 0 <= j < nets@.len() ==> #[trigger] nv@[j]@ == nets@[j]@,
    ensures
        pair_texts(r@) == pair_scan(texts(nets@), nets@.len() as int).0,
{
    let ghost ns = texts(nets@);
    let mut pairs: Vec<(String, String)> = Vec::new();
    let mut paired: Vec<Vec<char>> = Vec::new();
    let mut k: usize = 0;
    proof {
        assert(pair_texts(pairs@) =~= Seq::<(Seq<char>, Seq<char>)>::empty());
    }
    while k < nets.len()
        invariant
            k <= nets@.len(),
            ns == texts(nets@),
            nv@.len() == nets@.len(),
            forall|j: int| 0 <= j < nets@.len() ==> #[trigger] nv@[j]@ == nets@[j]@,
            pair_texts(pairs@) == pair_scan(ns, k as int).0,
            forall|x: Seq<char>| #[trigger] pair_scan(ns, k as int).1.contains(x) == listed(paired@, x),
        decreases nets@.len() - k,
    {
        let ghost before = pair_scan(ns, k as int);
        let ghost old_pairs = pairs@;
        let ghost old_paired = paired@;
        assert(ns[k as int] == nv@[k as int]@);
        if !holds_text(&paired, &nv[k]) {
            match pair_partner(nets[k].as_str()) {
                Some(p) => {
                    let pc = chars_of(p.as_str());
                    proof {
                        lemma_listed_texts(nets@, nv@, pc@);
                    }
                    if holds_text(nv, &pc) {
                        let c = &nv[k];
                        let neg_end = c.len() > 0 && (c[c.len() - 1] == 'N' || c[c.len() - 1] == 'M' || c[c.len()
                            - 1] == '-');
                        let (pos, neg) = if neg_end {
                            (p, nets[k].clone())
                        } else {
                            (nets[k].clone(), p)
                        };
                        let posc = chars_of(pos.as_str());
                        let negc = chars_of(neg.as_str());
                        if !holds_text(&paired, &posc) && !holds_text(&paired, &negc) {
                            paired.push(posc);
                            paired.push(negc);
                            pairs.push((pos, neg));
                            proof {
                                assert(pair_texts(pairs@) =~= pair_texts(old_pairs).push((pos@, neg@)));
                                assert forall|x: Seq<char>| #[trigger] before.1.insert(pos@).insert(neg@).contains(x)
                                    == listed(paired@, x) by {
                                    if listed(old_paired, x) {
                                        let j = choose|j: int| 0 <= j < old_paired.len() && #[trigger] old_paired[j]@ == x;
                                        assert(paired@[j]@ == x);
                                    }
                                    if x == pos@ {
                                        assert(paired@[old_paired.len() as int]@ == x);
                                    }
                                    if x == neg@ {
                                        assert(paired@[old_paired.len() as int + 1]@ == x);
                                    }
                                    if listed(paired@, x) {
                                        let j = choose|j: int| 0 <= j < paired@.len() && #[trigger] paired@[j]@ == x;
                                        if j < old_paired.len() {
                                            assert(old_paired[j]@ == x);
                                        }
                                    }
                                }
                            }
                        }
                    }
                },
                None => {},
            }
        }
        k = k + 1;
    }
    pairs
}


/// The names of `nmc` are strictly ascending.
pub open spec fn ascending(nmc: Seq<Vec<char>>) -> bool {
    forall|i: int, j: int| 0 <= i < j < nmc.len() ==> text_lt(#[trigger] nmc[i]@, #[trigger] nmc[j]@)
}

/// Insert `g` into the ascending name list unless already present.
fn insert_name(names: &mut Vec<String>, nmc: &mut Vec<Vec<char>>, g: &String)
    requires
        old(names)@.len() == old(nmc)@.len(),
        forall|i: int| 0 <= i < old(nmc)@.len() ==> #[trigger] old(nmc)@[i]@ == old(names)@[i]@,
        ascending(old(nmc)@),
    ensures
        final(names)@.len() == final(nmc)@.len(),
        forall|i: int| 0 <= i < final(nmc)@.len() ==> #[trigger] final(nmc)@[i]@ == final(names)@[i]@,
        ascending(final(nmc)@),
        forall|x: Seq<char>| #[trigger] listed(final(nmc)@, x) == (listed(old(nmc)@, x) || x == g@),
{
    let gc = chars_of(g.as_str());
    let mut p: usize = 0;
    while p < nmc.len() && chars_lt(&nmc[p], &gc)
        invariant
            p <= nmc@.len(),
            gc@ == g@,
            forall|i: int| 0 <= i < p ==> text_lt(#[trigger] nmc@[i]@, g@),
        decreases nmc@.len() - p,
    {
        p = p + 1;
    }
    if p < nmc.len() && same_chars(&nmc[p], &gc) {
        proof {
            assert(listed(nmc@, g@)) by {
                assert(nmc@[p as int]@ == g@);
            }
        }
        return;
    }
    let ghost old_nmc = nmc@;
    let ghost old_names = names@;
    proof {
        if p < old_nmc.len() {
            lemma_text_lt_total(old_nmc[p as int]@, g@);
        }
    }
    nmc.insert(p, gc);
    names.insert(p, g.clone());
    proof {
        assert forall|i: int| 0 <= i < nmc@.len() implies #[trigger] nmc@[i]@ == names@[i]@ by {
            if i < p {
                assert(nmc@[i] == old_nmc[i]);
            } else if i > p {
                assert(nmc@[i] == old_nmc[i - 1]);
                assert(old_nmc[i - 1]@ == old_names[i - 1]@);
            }
        }
        assert forall|i: int, j: int| 0 <= i < j < nmc@.len() implies text_lt(#[trigger] nmc@[i]@, #[trigger] nmc@[j]@) by {
            if j < p {
                assert(nmc@[i] == old_nmc[i] && nmc@[j] == old_nmc[j]);
            } else if j == p {
                assert(nmc@[i] == old_nmc[i]);
            } else if i < p {
                assert(nmc@[i] == old_nmc[i] && nmc@[j] == old_nmc[j - 1]);
                lemma_text_lt_trans(old_nmc[i]@, g@, old_nmc[p as int]@);
                if j - 1 > p {
                    lemma_text_lt_trans(old_nmc[i]@, old_nmc[p as int]@, old_nmc[j - 1]@);
                }
            } else if i == p {
                assert(nmc@[j] == old_nmc[j - 1]);
                if j - 1 > p {
                    lemma_text_lt_trans(g@, old_nmc[p as int]@, old_nmc[j - 1]@);
                }
            } else {
                assert(nmc@[i] == old_nmc[i - 1] && nmc@[j] == old_nmc[j - 1]);
            }
        }
        assert forall|x: Seq<char>| #[trigger] listed(nmc@, x) == (listed(old_nmc, x) || x == g@) by {
            if listed(old_nmc, x) {
                let j = choose|j: int| 0 <= j < old_nmc.len() && #[trigger] old_nmc[j]@ == x;
                if j < p {
                    assert(nmc@[j] == old_nmc[j]);
                } else {
                    assert(nmc@[j + 1] == old_nmc[j]);
                }
            }
            if x == g@ {
                assert(nmc@[p as int]@ == x);
            }
            if listed(nmc@, x) {
                let j = choose|j: int| 0 <= j < nmc@.len() && #[trigger] nmc@[j]@ == x;
                if j < p {
                    assert(old_nmc[j]@ == x);
                } else if j > p {
                    assert(old_nmc[j - 1]@ == x);
                }
            }
        }
    }
}

/// The nets of the group named `name`, in input order.
fn group_members(nets: &[String], gs: &Vec<Option<String>>, name: &Vec<char>) -> (r: Vec<String>)
    requires
        gs@.len() == nets@.len(),
        forall|j: int| 0 <= j < nets@.len() ==> opt_text(#[trigger] gs@[j]) == group_of(nets@[j]@),
    ensures
        texts(r@) == members(texts(nets@), name@),
{
    let ghost ns = texts(nets@);
    let ghost pred = |n: Seq<char>| group_of(n) == Some(name@);
    let mut r: Vec<String> = Vec::new();
    let mut k: usize = 0;
    proof {
        assert(ns.take(0) =~= Seq::<Seq<char>>::empty());
        assert(texts(r@) =~= ns.take(0).filter(pred));
    }
    while k < nets.len()
        invariant
            k <= nets@.len(),
            ns == texts(nets@),
            pred == (|n: Seq<char>| group_of(n) == Some(name@)),
            gs@.len() == nets@.len(),
            forall|j: int| 0 <= j < nets@.len() ==> opt_text(#[trigger] gs@[j]) == group_of(nets@[j]@),
            texts(r@) == ns.take(k as int).filter(pred),
        decreases nets@.len() - k,
    {
        let ghost old_r = r@;
        proof {
            assert(ns.take(k + 1) =~= ns.take(k as int).push(ns[k as int]));
            ns.take(k as int).lemma_filter_push(ns[k as int], pred);
        }
        match &gs[k] {
            Some(g) => {
                let gc = chars_of(g.as_str());
                if same_chars(&gc, name) {
                    r.push(nets[k].clone());
                    proof {
                        assert(texts(r@) =~= texts(old_r).push(nets@[k as int]@));
                    }
                }
            },
            None => {},
        }
        k = k + 1;
    }
    proof {
        assert(ns.take(nets@.len() as int) =~= ns);
    }
    r
}

/// The length-match groups of `nets` with more than one member.
fn collect_groups(nets: &[String]) -> (r: Vec<(String, Vec<String>)>)
    ensures
        groups_of(texts(nets@), r@),
{
    let ghost ns = texts(nets@);
    let mut gs: Vec<Option<String>> = Vec::new();
    let mut names: Vec<String> = Vec::new();
    let mut nmc: Vec<Vec<char>> = Vec::new();
    let mut k: usize = 0;
    while k < nets.len()
        invariant
            k <= nets@.len(),
            ns == texts(nets@),
            gs@.len() == k,
            forall|j: int| 0 <= j < k ==> opt_text(#[trigger] gs@[j]) == group_of(nets@[j]@),
            names@.len() == nmc@.len(),
            forall|i: int| 0 <= i < nmc@.len() ==> #[trigger] nmc@[i]@ == names@[i]@,
            ascending(nmc@),
            forall|x: Seq<char>|
                #[trigger] listed(nmc@, x) == exists|m: int| 0 <= m < k && #[trigger] group_of(nets@[m]@) == Some(x),
        decreases nets@.len() - k,
    {
        let g = group_name(nets[k].as_str());
        let ghost old_nmc = nmc@;
        match &g {
            Some(gn) => {
                insert_name(&mut names, &mut nmc, gn);
            },
            None => {},
        }
        gs.push(g);
        proof {
            assert forall|x: Seq<char>|
                #[trigger] listed(nmc@, x) == exists|m: int| 0 <= m < k + 1 && #[trigger] group_of(nets@[m]@) == Some(x) by {
                if exists|m: int| 0 <= m < k + 1 && #[trigger] group_of(nets@[m]@) == Some(x) {
                    let m = choose|m: int| 0 <= m < k + 1 && #[trigger] group_of(nets@[m]@) == Some(x);
                    if m < k {
                        assert(listed(old_nmc, x));
                    }
                }
                if listed(nmc@, x) && !listed(old_nmc, x) {
                    assert(group_of(nets@[k as int]@) == Some(x));
                }
            }
        }
        k = k + 1;
    }
    let mut out: Vec<(String, Vec<String>)> = Vec::new();
    let ghost mut idx: Seq<int> = Seq::empty();
    let mut i: usize = 0;
    while i < names.len()
        invariant
            ns == texts(nets@),
            gs@.len() == nets@.len(),
            forall|j: int| 0 <= j < nets@.len() ==> opt_text(#[trigger] gs@[j]) == group_of(nets@[j]@),
            names@.len() == nmc@.len(),
            forall|a: int| 0 <= a < nmc@.len() ==> #[trigger] nmc@[a]@ == names@[a]@,
            ascending(nmc@),
            forall|x: Seq<char>|
                #[trigger] listed(nmc@, x) == exists|m: int| 0 <= m < nets@.len() && #[trigger] group_of(nets@[m]@) == Some(x),
            i <= nmc@.len(),
            idx.len() == out@.len(),
            forall|t: int| 0 <= t < idx.len() ==> 0 <= #[trigger] idx[t] < i && out@[t].0@ == nmc@[idx[t]]@,
            forall|t: int, u: int| 0 <= t < u < idx.len() ==> #[trigger] idx[t] < #[trigger] idx[u],
            forall|t: int|
                0 <= t < out@.len() ==> texts(#[trigger] out@[t].1@) == members(ns, out@[t].0@) && out@[t].1@.len() > 1,
            forall|a: int|
                0 <= a < i && members(ns, #[trigger] nmc@[a]@).len() > 1 ==> exists|t: int|
                    0 <= t < out@.len() && out@[t].0@ == nmc@[a]@,
        decreases nmc@.len() - i,
    {
        let m = group_members(nets, &gs, &nmc[i]);
        if m.len() > 1 {
            let ghost old_out = out@;
            out.push((names[i].clone(), m));
            proof {
                idx = idx.push(i as int);
                assert forall|a: int|
                    0 <= a < i + 1 && members(ns, #[trigger] nmc@[a]@).len() > 1 implies exists|t: int|
                        0 <= t < out@.len() && out@[t].0@ == nmc@[a]@ by {
                    if a < i {
                        let t = choose|t: int| 0 <= t < old_out.len() && old_out[t].0@ == nmc@[a]@;
                        assert(out@[t] == old_out[t]);
                    } else {
                        assert(out@[out@.len() - 1].0@ == nmc@[a]@);
                    }
                }
                assert forall|t: int|
                    0 <= t < out@.len() implies texts(#[trigger] out@[t].1@) == members(ns, out@[t].0@)
                        && out@[t].1@.len() > 1 by {
                    if t < old_out.len() {
                        assert(out@[t] == old_out[t]);
                    }
                }
            }
        }
        i = i + 1;
    }
    proof {
        assert forall|a: int, b: int| 0 <= a < b < out@.len() implies text_lt(#[trigger] out@[a].0@, #[trigger] out@[b].0@) by {
            assert(idx[a] < idx[b]);
        }
        assert forall|m: int|
            0 <= m < ns.len() && #[trigger] group_of(ns[m]) is Some && members(ns, group_of(ns[m])->0).len() > 1
                implies exists|t: int| 0 <= t < out@.len() && out@[t].0@ == group_of(ns[m])->0 by {
            let x = group_of(ns[m])->0;
            assert(group_of(nets@[m]@) == Some(x));
            assert(listed(nmc@, x));
            let a = choose|a: int| 0 <= a < nmc@.len() && #[trigger] nmc@[a]@ == x;
            assert(members(ns, nmc@[a]@).len() > 1);
        }
    }
    out
}


/// The rest of an LPDDR4 net name after its `/LPDDR4 RAM/` prefix.
proof fn lemma_lpddr4_rest(r: Seq<char>)
    ensures
        has_prefix("/LPDDR4 RAM/"@ + r, "/LPDDR4 RAM/"@),
        ("/LPDDR4 RAM/"@ + r).skip(12) == r,
{
    reveal_strlit("/LPDDR4 RAM/");
    assert(("/LPDDR4 RAM/"@ + r).take(12) =~= "/LPDDR4 RAM/"@);
    assert(("/LPDDR4 RAM/"@ + r).skip(12) =~= r);
}

/// Strobe and mask riders join the byte lane of their index: for any tail
/// `x` that starts with a digit, `/LPDDR4 RAM/DQS` + `x` and
/// `/LPDDR4 RAM/DM` + `x` fall in the group of `/LPDDR4 RAM/DQ` + `x`.
pub proof fn lemma_riders_join_their_lane(x: Seq<char>)
    requires
        x.len() > 0,
        is_digit(x[0]),
    ensures
        group_of("/LPDDR4 RAM/"@ + (seq!['D', 'Q', 'S'] + x)) == group_of("/LPDDR4 RAM/"@ + (seq!['D', 'Q'] + x)),
        group_of("/LPDDR4 RAM/"@ + (seq!['D', 'M'] + x)) == group_of("/LPDDR4 RAM/"@ + (seq!['D', 'Q'] + x)),
{
    reveal_strlit("CA");
    reveal_strlit("CKE");
    reveal_strlit("CS");
    reveal_strlit("DQ");
    reveal_strlit("DM");
    let rs = seq!['D', 'Q', 'S'] + x;
    let rq = seq!['D', 'Q'] + x;
    let rm = seq!['D', 'M'] + x;
    lemma_lpddr4_rest(rs);
    lemma_lpddr4_rest(rq);
    lemma_lpddr4_rest(rm);
    assert(rs.take(2) =~= "DQ"@);
    assert(rq.take(2) =~= "DQ"@);
    assert(rm.take(2) =~= "DM"@);
    assert(rs.take(2)[0] != "CA"@[0] && rs.take(3)[0] != "CKE"@[0] && rs.take(2)[0] != "CS"@[0]);
    assert(rq.take(2)[0] != "CA"@[0] && rq.take(3)[0] != "CKE"@[0] && rq.take(2)[0] != "CS"@[0]);
    assert(rm.take(2)[0] != "CA"@[0] && rm.take(3)[0] != "CKE"@[0] && rm.take(2)[0] != "CS"@[0]);
    assert(rm.take(2)[1] != "DQ"@[1]);
    assert(rq[2] == x[0] && x[0] != 'S');
    assert(rs.skip(3) =~= x);
    assert(rq.skip(2) =~= x);
    assert(rm.skip(2) =~= x);
}

/// LPDDR4 command/address nets are grouped by channel alone: `CA`, `CKE`
/// and `CS` nets ending in the same channel character share one group, and
/// nets of different channels do not.
pub proof fn lemma_command_nets_by_channel(x: Seq<char>, y: Seq<char>)
    requires
        x.len() > 0,
        y.len() > 0,
    ensures
        group_of("/LPDDR4 RAM/"@ + (seq!['C', 'A'] + x)) is Some,
        group_of("/LPDDR4 RAM/"@ + (seq!['C', 'A'] + x)) == group_of("/LPDDR4 RAM/"@ + (seq!['C', 'K', 'E'] + x)),
        group_of("/LPDDR4 RAM/"@ + (seq!['C', 'A'] + x)) == group_of("/LPDDR4 RAM/"@ + (seq!['C', 'S'] + x)),
        x.last() == y.last() ==> group_of("/LPDDR4 RAM/"@ + (seq!['C', 'A'] + x)) == group_of(
            "/LPDDR4 RAM/"@ + (seq!['C', 'A'] + y),
        ),
        x.last() != y.last() ==> group_of("/LPDDR4 RAM/"@ + (seq!['C', 'A'] + x)) != group_of(
            "/LPDDR4 RAM/"@ + (seq!['C', 'A'] + y),
        ),
{
    reveal_strlit("CA");
    reveal_strlit("CKE");
    reveal_strlit("CS");
    let ra = seq!['C', 'A'] + x;
    let rk = seq!['C', 'K', 'E'] + x;
    let rc = seq!['C', 'S'] + x;
    let ry = seq!['C', 'A'] + y;
    lemma_lpddr4_rest(ra);
    lemma_lpddr4_rest(rk);
    lemma_lpddr4_rest(rc);
    lemma_lpddr4_rest(ry);
    assert(ra.take(2) =~= "CA"@);
    assert(ry.take(2) =~= "CA"@);
    assert(rk.take(3) =~= "CKE"@);
    assert(rk.take(2)[1] != "CA"@[1]);
    assert(rc.take(2) =~= "CS"@);
    assert(rc.take(2)[1] != "CA"@[1]);
    assert(rc.take(3)[1] != "CKE"@[1]);
    assert(ra.last() == x.last() && rk.last() == x.last() && rc.last() == x.last() && ry.last() == y.last());
    let gx = "lpddr4-ca-"@.push(x.last());
    let gy = "lpddr4-ca-"@.push(y.last());
    if x.last() != y.last() {
        assert(gx[gx.len() - 1] != gy[gy.len() - 1]);
    }
}

/// Every RGMII net falls in one and the same group.
pub proof fn lemma_rgmii_one_group(x: Seq<char>, y: Seq<char>)
    ensures
        group_of("/RGMII."@ + x) is Some,
        group_of("/RGMII."@ + x) == group_of("/RGMII."@ + y),
{
    reveal_strlit("/RGMII.");
    reveal_strlit("/LPDDR4 RAM/");
    let sx = "/RGMII."@ + x;
    let sy = "/RGMII."@ + y;
    assert(sx.take(7) =~= "/RGMII."@);
    assert(sy.take(7) =~= "/RGMII."@);
    if sx.len() >= 12 {
        assert(sx.take(12)[1] != "/LPDDR4 RAM/"@[1]);
    }
    if sy.len() >= 12 {
        assert(sy.take(12)[1] != "/LPDDR4 RAM/"@[1]);
    }
}

/// A name that does not start with `/` belongs to no length-match group.
pub proof fn lemma_unrooted_no_group(s: Seq<char>)
    requires
        s.len() == 0 || s[0] != '/',
    ensures
        group_of(s) is None,
{
    reveal_strlit("/RGMII.");
    reveal_strlit("/LPDDR4 RAM/");
    if s.len() >= 12 {
        assert(s.take(12)[0] != "/LPDDR4 RAM/"@[0]);
    }
    if s.len() >= 7 {
        assert(s.take(7)[0] != "/RGMII."@[0]);
    }
}

/// Pairs are found soundly and none is missed: among the first `k` nets,
/// both legs of every pair found are nets of the list and one names the
/// other as its partner; the nets recorded as paired are exactly the legs of
/// the pairs found; and every net whose partner is also a net ends up with
/// itself or that partner in some pair.
pub proof fn lemma_pairs_sound_and_maximal(nets: Seq<Seq<char>>, k: int)
    requires
        0 <= k <= nets.len(),
    ensures
        forall|i: int|
            0 <= i < pair_scan(nets, k).0.len() ==> {
                let pr = #[trigger] pair_scan(nets, k).0[i];
                &&& nets.contains(pr.0)
                &&& nets.contains(pr.1)
                &&& (partner_name(pr.0) == Some(pr.1) || partner_name(pr.1) == Some(pr.0))
            },
        forall|x: Seq<char>|
            #[trigger] pair_scan(nets, k).1.contains(x) ==> exists|i: int|
                0 <= i < pair_scan(nets, k).0.len() && (pair_scan(nets, k).0[i].0 == x || pair_scan(nets, k).0[i].1 == x),
        forall|m: int|
            0 <= m < k && (#[trigger] partner_name(nets[m])) is Some && nets.contains(partner_name(nets[m])->0) ==> exists|
                i: int,
            |
                0 <= i < pair_scan(nets, k).0.len() && (pair_scan(nets, k).0[i].0 == nets[m] || pair_scan(nets, k).0[i].1
                    == nets[m] || pair_scan(nets, k).0[i].0 == partner_name(nets[m])->0 || pair_scan(nets, k).0[i].1
                    == partner_name(nets[m])->0),
    decreases k,
{
    if k > 0 {
        lemma_pairs_sound_and_maximal(nets, k - 1);
        let prev = pair_scan(nets, k - 1);
        let cur = pair_scan(nets, k);
        let net = nets[k - 1];
        assert(nets.contains(net)) by {
            assert(nets[k - 1] == net);
        }
        assert(forall|i: int| 0 <= i < prev.0.len() ==> cur.0[i] == prev.0[i]) by {
            if cur != prev {
                assert(cur.0 == prev.0.push(cur.0[cur.0.len() - 1]));
            }
        }
        assert(prev.0.len() <= cur.0.len());
        assert forall|i: int| 0 <= i < cur.0.len() implies {
            let pr = #[trigger] cur.0[i];
            &&& nets.contains(pr.0)
            &&& nets.contains(pr.1)
            &&& (partner_name(pr.0) == Some(pr.1) || partner_name(pr.1) == Some(pr.0))
        } by {
            if i < prev.0.len() {
                assert(cur.0[i] == prev.0[i]);
            }
        }
        assert forall|x: Seq<char>| #[trigger] cur.1.contains(x) implies exists|i: int|
            0 <= i < cur.0.len() && (cur.0[i].0 == x || cur.0[i].1 == x) by {
            if prev.1.contains(x) {
                let i = choose|i: int| 0 <= i < prev.0.len() && (prev.0[i].0 == x || prev.0[i].1 == x);
                assert(cur.0[i] == prev.0[i]);
            } else {
                assert(cur.0[cur.0.len() - 1].0 == x || cur.0[cur.0.len() - 1].1 == x);
            }
        }
        assert forall|m: int|
            0 <= m < k && (#[trigger] partner_name(nets[m])) is Some && nets.contains(partner_name(nets[m])->0) implies exists|
                i: int,
            |
                0 <= i < cur.0.len() && (cur.0[i].0 == nets[m] || cur.0[i].1 == nets[m] || cur.0[i].0 == partner_name(
                    nets[m],
                )->0 || cur.0[i].1 == partner_name(nets[m])->0) by {
            let q = partner_name(nets[m])->0;
            if m < k - 1 {
                let i = choose|i: int|
                    0 <= i < prev.0.len() && (prev.0[i].0 == nets[m] || prev.0[i].1 == nets[m] || prev.0[i].0 == q
                        || prev.0[i].1 == q);
                assert(cur.0[i] == prev.0[i]);
            } else if prev.1.contains(net) {
                let i = choose|i: int| 0 <= i < prev.0.len() && (prev.0[i].0 == net || prev.0[i].1 == net);
                assert(cur.0[i] == prev.0[i]);
            } else {
                let pn = oriented(net, q);
                if !prev.1.contains(pn.0) && !prev.1.contains(pn.1) {
                    assert(cur.0[cur.0.len() - 1] == pn);
                } else if prev.1.contains(q) {
                    let i = choose|i: int| 0 <= i < prev.0.len() && (prev.0[i].0 == q || prev.0[i].1 == q);
                    assert(cur.0[i] == prev.0[i]);
                }
            }
        }
    }
}

/// Positive leg first: in every pair found among the first `k` nets, the
/// first leg's name ends in a negative-leg marker (`N`, `M` or `-`) only
/// when the second leg's name does too.
pub proof fn lemma_pairs_positive_first(nets: Seq<Seq<char>>, k: int)
    requires
        0 <= k <= nets.len(),
    ensures
        forall|i: int|
            0 <= i < pair_scan(nets, k).0.len() ==> {
                let p = (#[trigger] pair_scan(nets, k).0[i]).0;
                let n = pair_scan(nets, k).0[i].1;
                p.len() > 0 && (p.last() == 'N' || p.last() == 'M' || p.last() == '-') ==> n.len() > 0 && (n.last() == 'N'
                    || n.last() == 'M' || n.last() == '-')
            },
    decreases k,
{
    if k > 0 {
        lemma_pairs_positive_first(nets, k - 1);
        let prev = pair_scan(nets, k - 1);
        let cur = pair_scan(nets, k);
        assert forall|i: int| 0 <= i < cur.0.len() implies {
            let p = (#[trigger] cur.0[i]).0;
            let n = cur.0[i].1;
            p.len() > 0 && (p.last() == 'N' || p.last() == 'M' || p.last() == '-') ==> n.len() > 0 && (n.last() == 'N'
                || n.last() == 'M' || n.last() == '-')
        } by {
            if i < prev.0.len() {
                assert(cur.0[i] == prev.0[i]);
            }
        }
    }
}

/// A USB pair is listed positive leg first whichever leg comes first: for a
/// name `b` ending in a separator (`.`, `_` or `-`) with no inner DDR token,
/// the nets `b + "DM"`, `b + "DP"` (in either order) pair as
/// `(b + "DP", b + "DM")`.
pub proof fn lemma_usb_pair_positive_first(b: Seq<char>)
    requires
        b.len() >= 1,
        b.last() == '.' || b.last() == '_' || b.last() == '-',
        forall|i: int|
            0 < i && i + 3 <= b.len() ==> #[trigger] b.subrange(i, i + 3) != seq!['_', 'C', '_'] && b.subrange(i, i + 3)
                != seq!['_', 'T', '_'],
    ensures
        pair_scan(seq![b + seq!['D', 'M'], b + seq!['D', 'P']], 2).0 == seq![(b + seq!['D', 'P'], b + seq!['D', 'M'])],
        pair_scan(seq![b + seq!['D', 'P'], b + seq!['D', 'M']], 2).0 == seq![(b + seq!['D', 'P'], b + seq!['D', 'M'])],
{
    let dp = b + seq!['D', 'P'];
    let dm = b + seq!['D', 'M'];
    crate::pair::lemma_usb_legs_are_partners(b, seq!['D', 'P'], seq!['D', 'M']);
    assert(dp.last() == 'P' && dm.last() == 'M');
    assert(dp != dm) by {
        assert(dp[dp.len() - 1] != dm[dm.len() - 1]);
    }
    let n1 = seq![dm, dp];
    assert(n1[0] == dm && n1[1] == dp);
    assert(n1.contains(dp));
    assert(pair_scan(n1, 0).1 =~= Set::<Seq<char>>::empty());
    let s1 = pair_scan(n1, 1);
    assert(s1.1.contains(dp));
    let n2 = seq![dp, dm];
    assert(n2[0] == dp && n2[1] == dm);
    assert(n2.contains(dm));
    assert(pair_scan(n2, 0).1 =~= Set::<Seq<char>>::empty());
    let s2 = pair_scan(n2, 1);
    assert(s2.1.contains(dm));
}

/// Each net is a leg of at most one declared pair, and every leg of a
/// declared pair is recorded as paired.
pub proof fn lemma_pair_legs_unique(nets: Seq<Seq<char>>, k: int)
    requires
        0 <= k <= nets.len(),
    ensures
        forall|i: int| 0 <= i < pair_scan(nets, k).0.len() ==> #[trigger] pair_scan(nets, k).1.contains(
            pair_scan(nets, k).0[i].0,
        ) && pair_scan(nets, k).1.contains(pair_scan(nets, k).0[i].1),
        forall|i: int, j: int|
            0 <= i < j < pair_scan(nets, k).0.len() ==> {
                let a = #[trigger] pair_scan(nets, k).0[i];
                let b = #[trigger] pair_scan(nets, k).0[j];
                a.0 != b.0 && a.0 != b.1 && a.1 != b.0 && a.1 != b.1
            },
    decreases k,
{
    if k > 0 {
        lemma_pair_legs_unique(nets, k - 1);
        let prev = pair_scan(nets, k - 1);
        let cur = pair_scan(nets, k);
        if cur != prev {
            let n = cur.0.len() - 1;
            assert(cur.0 == prev.0.push(cur.0[n]));
            assert forall|i: int| 0 <= i < cur.0.len() implies #[trigger] cur.1.contains(cur.0[i].0) && cur.1.contains(
                cur.0[i].1,
            ) by {
                if i < n {
                    assert(0 <= i < prev.0.len());
                    assert(cur.0[i] == prev.0[i]);
                    assert(prev.1.contains(prev.0[i].0));
                    assert(prev.1.contains(prev.0[i].1));
                }
            }
            assert forall|i: int, j: int| 0 <= i < j < cur.0.len() implies {
                let a = #[trigger] cur.0[i];
                let b = #[trigger] cur.0[j];
                a.0 != b.0 && a.0 != b.1 && a.1 != b.0 && a.1 != b.1
            } by {
                assert(i < n);
                assert(0 <= i < prev.0.len());
                assert(cur.0[i] == prev.0[i]);
                assert(prev.1.contains(prev.0[i].0));
                assert(prev.1.contains(prev.0[i].1));
                if j < n {
                    assert(cur.0[j] == prev.0[j]);
                }
            }
        }
    }
}

/// Scan `nets` and recover pairs and match groups from their names.
pub fn classify_nets(nets: &[String]) -> (c: NetClassifier)
    ensures
        pair_texts(c.pairs@) == pair_scan(texts(nets@), nets@.len() as int).0,
        forall|i: int, j: int|
            0 <= i < j < c.pairs@.len() ==> !has_leg(#[trigger] c.pairs@[j], (#[trigger] c.pairs@[i]).0@) && !has_leg(
                c.pairs@[j],
                c.pairs@[i].1@,
            ),
        groups_of(texts(nets@), c.match_groups@),
        forall|i: int|
            0 <= i < c.pairs@.len() ==> {
                let p = (#[trigger] c.pairs@[i]).0@;
                let n = c.pairs@[i].1@;
                p.len() > 0 && (p.last() == 'N' || p.last() == 'M' || p.last() == '-') ==> n.len() > 0 && (n.last() == 'N'
                    || n.last() == 'M' || n.last() == '-')
            },
        forall|i: int|
            0 <= i < c.pairs@.len() ==> {
                let p = (#[trigger] c.pairs@[i]).0@;
                let n = c.pairs@[i].1@;
                &&& texts(nets@).contains(p)
                &&& texts(nets@).contains(n)
                &&& (partner_name(p) == Some(n) || partner_name(n) == Some(p))
            },
        forall|m: int|
            0 <= m < nets@.len() && (#[trigger] partner_name(nets@[m]@)) is Some && texts(nets@).contains(
                partner_name(nets@[m]@)->0,
            ) ==> exists|i: int|
                0 <= i < c.pairs@.len() && (has_leg(c.pairs@[i], nets@[m]@) || has_leg(
                    c.pairs@[i],
                    partner_name(nets@[m]@)->0,
                )),
{
    proof {
        lemma_pair_legs_unique(texts(nets@), nets@.len() as int);
        lemma_pairs_positive_first(texts(nets@), nets@.len() as int);
        lemma_pairs_sound_and_maximal(texts(nets@), nets@.len() as int);
    }
    let nv = texts_of(nets);
    let pairs = scan_pairs(nets, &nv);
    let match_groups = collect_groups(nets);
    proof {
        let ps = pair_scan(texts(nets@), nets@.len() as int).0;
        assert forall|i: int, j: int|
            0 <= i < j < pairs@.len() implies !has_leg(#[trigger] pairs@[j], (#[trigger] pairs@[i]).0@) && !has_leg(
                pairs@[j],
                pairs@[i].1@,
            ) by {
            assert(pair_texts(pairs@)[i] == ps[i]);
            assert(pair_texts(pairs@)[j] == ps[j]);
        }
        assert forall|i: int| 0 <= i < pairs@.len() implies {
            let p = (#[trigger] pairs@[i]).0@;
            let n = pairs@[i].1@;
            p.len() > 0 && (p.last() == 'N' || p.last() == 'M' || p.last() == '-') ==> n.len() > 0 && (n.last() == 'N'
                || n.last() == 'M' || n.last() == '-')
        } by {
            assert(pair_texts(pairs@)[i] == ps[i]);
        }
        assert forall|i: int| 0 <= i < pairs@.len() implies {
            let p = (#[trigger] pairs@[i]).0@;
            let n = pairs@[i].1@;
            &&& texts(nets@).contains(p)
            &&& texts(nets@).contains(n)
            &&& (partner_name(p) == Some(n) || partner_name(n) == Some(p))
        } by {
            assert(pair_texts(pairs@)[i] == ps[i]);
        }
        let tn = texts(nets@);
        assert forall|m: int|
            0 <= m < nets@.len() && (#[trigger] partner_name(nets@[m]@)) is Some && tn.contains(
                partner_name(nets@[m]@)->0,
            ) implies exists|i: int|
                0 <= i < pairs@.len() && (has_leg(pairs@[i], nets@[m]@) || has_leg(pairs@[i], partner_name(nets@[m]@)->0)) by {
            assert(tn[m] == nets@[m]@);
            assert(partner_name(tn[m]) is Some);
            let i = choose|i: int|
                0 <= i < ps.len() && (ps[i].0 == tn[m] || ps[i].1 == tn[m] || ps[i].0 == partner_name(tn[m])->0
                    || ps[i].1 == partner_name(tn[m])->0);
            assert(pair_texts(pairs@)[i] == ps[i]);
        }
    }
    NetClassifier { pairs, match_groups }
}

} // verus!
