use vstd::prelude::*;

use crate::balance::entries_of;
use crate::user::OwedInGroup;

verus! {

/// One cancellation of the cross-group netting: in currency `currency_id`,
/// `amount` of the debt in `positive_group` is offset against the opposite
/// debt in `negative_group`.
#[derive(Debug)]
pub struct Settlement {
    pub currency_id: String,
    pub positive_group: String,
    pub negative_group: String,
    pub amount: i64,
}

impl Settlement {
    pub open spec fn view(&self) -> (Seq<char>, Seq<char>, Seq<char>, int) {
        (self.currency_id@, self.positive_group@, self.negative_group@, self.amount as int)
    }
}

/// The settlements of a list, as tuples.
pub open spec fn settlements_of(v: Seq<Settlement>) -> Seq<(Seq<char>, Seq<char>, Seq<char>, int)> {
    v.map_values(|s: Settlement| s.view())
}

/// The amount of the `k`-th (group, amount) pair, or zero past the end.
pub open spec fn head(s: Seq<(Seq<char>, int)>, k: int) -> int {
    if 0 <= k < s.len() {
        s[k].1
    } else {
        0
    }
}

/// The greedy pairing of positive balances against negative ones in currency
/// `c`. The cursors `i` and `j` point at the current positive and negative
/// entries, of which `rp` and `rn` are still open. Each step settles the
/// smaller of the two open amounts and moves past every entry it used up.
pub open spec fn pairings(
    c: Seq<char>,
    pos: Seq<(Seq<char>, int)>,
    neg: Seq<(Seq<char>, int)>,
    i: int,
    j: int,
    rp: int,
    rn: int,
) -> Seq<(Seq<char>, Seq<char>, Seq<char>, int)>
    decreases pos.len() - i + neg.len() - j,
{
    if i < 0 || j < 0 || i >= pos.len() || j >= neg.len() {
        seq![]
    } else if rp < rn {
        seq![(c, pos[i].0, neg[j].0, rp)] + pairings(c, pos, neg, i + 1, j, head(pos, i + 1), rn - rp)
    } else if rp > rn {
        seq![(c, pos[i].0, neg[j].0, rn)] + pairings(c, pos, neg, i, j + 1, rp - rn, head(neg, j + 1))
    } else {
        seq![(c, pos[i].0, neg[j].0, rp)] + pairings(
            c,
            pos,
            neg,
            i + 1,
            j + 1,
            head(pos, i + 1),
            head(neg, j + 1),
        )
    }
}

/// The currencies of a list of balances, in order of first appearance.
pub open spec fn currencies_in(es: Seq<(Seq<char>, Seq<char>, int)>) -> Seq<Seq<char>>
    decreases es.len(),
{
    if es.len() == 0 {
        seq![]
    } else {
        let cs = currencies_in(es.drop_last());
        if cs.contains(es.last().1) {
            cs
        } else {
            cs.push(es.last().1)
        }
    }
}

/// The (group, amount) pairs of the positive balances in currency `c`, in order.
pub open spec fn positives(es: Seq<(Seq<char>, Seq<char>, int)>, c: Seq<char>) -> Seq<(Seq<char>, int)>
    decreases es.len(),
{
    if es.len() == 0 {
        seq![]
    } else {
        let p = positives(es.drop_last(), c);
        let e = es.last();
        if e.1 == c && e.2 > 0 {
            p.push((e.0, e.2))
        } else {
            p
        }
    }
}

/// The (group, size) pairs of the negative balances in currency `c`, in order.
pub open spec fn negatives(es: Seq<(Seq<char>, Seq<char>, int)>, c: Seq<char>) -> Seq<(Seq<char>, int)>
    decreases es.len(),
{
    if es.len() == 0 {
        seq![]
    } else {
        let p = negatives(es.drop_last(), c);
        let e = es.last();
        if e.1 == c && e.2 < 0 {
            p.push((e.0, -e.2))
        } else {
            p
        }
    }
}

/// The settlements of currency `c`.
pub open spec fn bucket_plan(es: Seq<(Seq<char>, Seq<char>, int)>, c: Seq<char>) -> Seq<(Seq<char>, Seq<char>, Seq<char>, int)> {
    let pos = positives(es, c);
    let neg = negatives(es, c);
    pairings(c, pos, neg, 0, 0, head(pos, 0), head(neg, 0))
}

/// The settlements of each currency of `cs`, one currency after the other.
pub open spec fn plan_over(es: Seq<(Seq<char>, Seq<char>, int)>, cs: Seq<Seq<char>>) -> Seq<(Seq<char>, Seq<char>, Seq<char>, int)>
    decreases cs.len(),
{
    if cs.len() == 0 {
        seq![]
    } else {
        plan_over(es, cs.drop_last()) + bucket_plan(es, cs.last())
    }
}

/// All settlements for a list of balances: currency by currency, in order of
/// first appearance.
pub open spec fn cross_group_plan(es: Seq<(Seq<char>, Seq<char>, int)>) -> Seq<(Seq<char>, Seq<char>, Seq<char>, int)> {
    plan_over(es, currencies_in(es))
}

/// The texts of a list of strings.
pub open spec fn names_of(v: Seq<String>) -> Seq<Seq<char>> {
    v.map_values(|s: String| s@)
}

/// The (group, amount) pairs of a list, as tuples.
pub open spec fn pairs_of(v: Seq<(String, i64)>) -> Seq<(Seq<char>, int)> {
    v.map_values(|p: (String, i64)| (p.0@, p.1 as int))
}

/// Whether every balance can be negated.
pub open spec fn negatable(v: Seq<OwedInGroup>) -> bool {
    forall|k: int| 0 <= k < v.len() ==> #[trigger] v[k].amount.amount > i64::MIN
}

/// Whether every amount of a list of pairs is positive.
pub open spec fn all_positive(v: Seq<(Seq<char>, int)>) -> bool {
    forall|k: int| 0 <= k < v.len() ==> #[trigger] v[k].1 > 0
}

/// Appends the greedy pairing of `pos` against `neg` in currency `c` to `out`.
fn pair_off(c: &String, pos: &Vec<(String, i64)>, neg: &Vec<(String, i64)>, out: &mut Vec<Settlement>)
    requires
        all_positive(pairs_of(pos@)),
        all_positive(pairs_of(neg@)),
    ensures
        settlements_of(final(out)@) == settlements_of(old(out)@) + pairings(
            c@,
            pairs_of(pos@),
            pairs_of(neg@),
            0,
            0,
            head(pairs_of(pos@), 0),
            head(pairs_of(neg@), 0),
        ),
{
    let ghost pv = pairs_of(pos@);
    let ghost nv = pairs_of(neg@);
    let ghost target = settlements_of(old(out)@) + pairings(c@, pv, nv, 0, 0, head(pv, 0), head(nv, 0));
    let mut i: usize = 0;
    let mut j: usize = 0;
    let mut rp: i64 = if pos.len() > 0 { pos[0].1 } else { 0 };
    let mut rn: i64 = if neg.len() > 0 { neg[0].1 } else { 0 };
    assert(rp == head(pv, 0));
    assert(rn == head(nv, 0));
    while i < pos.len() && j < neg.len()
        invariant
            0 <= i <= pos.len(),
            0 <= j <= neg.len(),
            pv == pairs_of(pos@),
            nv == pairs_of(neg@),
            all_positive(pv),
            all_positive(nv),
            i < pos.len() ==> 0 < rp <= pv[i as int].1,
            j < neg.len() ==> 0 < rn <= nv[j as int].1,
            settlements_of(out@) + pairings(c@, pv, nv, i as int, j as int, rp as int, rn as int) == target,
        decreases pos.len() - i + neg.len() - j,
    {
        let ghost before = settlements_of(out@);
        let ghost i0 = i as int;
        let ghost j0 = j as int;
        let ghost rp0 = rp as int;
        let ghost rn0 = rn as int;
        assert(pv[i0] == (pos@[i0].0@, pos@[i0].1 as int));
        assert(nv[j0] == (neg@[j0].0@, neg@[j0].1 as int));
        let amount: i64 = if rp <= rn { rp } else { rn };
        let s = Settlement {
            currency_id: c.clone(),
            positive_group: pos[i].0.clone(),
            negative_group: neg[j].0.clone(),
            amount,
        };
        out.push(s);
        assert(settlements_of(out@) =~= before.push((c@, pv[i0].0, nv[j0].0, amount as int)));
        if rp < rn {
            rn = rn - rp;
            i = i + 1;
            rp = if i < pos.len() { pos[i].1 } else { 0 };
            assert(rp == head(pv, i0 + 1));
            assert(pos@.len() == pv.len());
        } else if rp > rn {
            rp = rp - rn;
            j = j + 1;
            rn = if j < neg.len() { neg[j].1 } else { 0 };
            assert(rn == head(nv, j0 + 1));
            assert(neg@.len() == nv.len());
        } else {
            i = i + 1;
            j = j + 1;
            rp = if i < pos.len() { pos[i].1 } else { 0 };
            rn = if j < neg.len() { neg[j].1 } else { 0 };
            assert(rp == head(pv, i0 + 1));
            assert(rn == head(nv, j0 + 1));
            assert(pos@.len() == pv.len());
            assert(neg@.len() == nv.len());
        }
        assert(pairings(c@, pv, nv, i0, j0, rp0, rn0) == seq![(c@, pv[i0].0, nv[j0].0, amount as int)]
            + pairings(c@, pv, nv, i as int, j as int, rp as int, rn as int));
        assert(settlements_of(out@) + pairings(c@, pv, nv, i as int, j as int, rp as int, rn as int)
            =~= before + pairings(c@, pv, nv, i0, j0, rp0, rn0));
    }
    assert(pos@.len() == pv.len());
    assert(neg@.len() == nv.len());
    assert(pairings(c@, pv, nv, i as int, j as int, rp as int, rn as int) =~= seq![]);
    assert(settlements_of(out@) =~= target);
}

/// Whether `cs` holds `c`.
fn has_currency(cs: &Vec<String>, c: &String) -> (r: bool)
    ensures
        r == names_of(cs@).contains(c@),
{
    let mut i: usize = 0;
    while i < cs.len()
        invariant
            0 <= i <= cs.len(),
            forall|k: int| 0 <= k < i ==> #[trigger] names_of(cs@)[k] != c@,
        decreases cs.len() - i,
    {
        if cs[i] == *c {
            assert(names_of(cs@)[i as int] == c@);
            return true;
        }
        i = i + 1;
    }
    false
}

/// The currencies of `es`, in order of first appearance.
fn collect_currencies(es: &Vec<OwedInGroup>) -> (cs: Vec<String>)
    ensures
        names_of(cs@) == currencies_in(entries_of(es@)),
{
    let ghost ev = entries_of(es@);
    let mut cs: Vec<String> = Vec::new();
    let mut i: usize = 0;
    while i < es.len()
        invariant
            0 <= i <= es.len(),
            ev == entries_of(es@),
            names_of(cs@) == currencies_in(ev.take(i as int)),
        decreases es.len() - i,
    {
        proof {
            let t = ev.take(i as int + 1);
            assert(t.drop_last() =~= ev.take(i as int));
            assert(t.last() == ev[i as int]);
        }
        let c = &es[i].amount.currency_id;
        if !has_currency(&cs, c) {
            cs.push(c.clone());
            assert(names_of(cs@) =~= currencies_in(ev.take(i as int)).push(c@));
        }
        i = i + 1;
    }
    assert(ev.take(es.len() as int) =~= ev);
    cs
}

/// The positive and the negated negative balances of currency `c`, in order.
fn split_signs(es: &Vec<OwedInGroup>, c: &String) -> (r: (Vec<(String, i64)>, Vec<(String, i64)>))
    requires
        negatable(es@),
    ensures
        pairs_of(r.0@) == positives(entries_of(es@), c@),
        pairs_of(r.1@) == negatives(entries_of(es@), c@),
        all_positive(pairs_of(r.0@)),
        all_positive(pairs_of(r.1@)),
{
    let ghost ev = entries_of(es@);
    let mut pos: Vec<(String, i64)> = Vec::new();
    let mut neg: Vec<(String, i64)> = Vec::new();
    let mut i: usize = 0;
    while i < es.len()
        invariant
            0 <= i <= es.len(),
            negatable(es@),
            ev == entries_of(es@),
            pairs_of(pos@) == positives(ev.take(i as int), c@),
            pairs_of(neg@) == negatives(ev.take(i as int), c@),
            all_positive(pairs_of(pos@)),
            all_positive(pairs_of(neg@)),
        decreases es.len() - i,
    {
        proof {
            let t = ev.take(i as int + 1);
            assert(t.drop_last() =~= ev.take(i as int));
            assert(t.last() == ev[i as int]);
        }
        let e = &es[i];
        assert(e.amount.amount > i64::MIN);
        if e.amount.currency_id == *c {
            if e.amount.amount > 0 {
                pos.push((e.group_id.clone(), e.amount.amount));
                assert(pairs_of(pos@) =~= positives(ev.take(i as int), c@).push((e.group_id@, e.amount.amount as int)));
            } else if e.amount.amount < 0 {
                neg.push((e.group_id.clone(), -e.amount.amount));
                assert(pairs_of(neg@) =~= negatives(ev.take(i as int), c@).push((e.group_id@, -e.amount.amount)));
            }
        }
        i = i + 1;
    }
    assert(ev.take(es.len() as int) =~= ev);
    (pos, neg)
}

/// The cross-group netting plan for a list of balances between two users
/// (positive: the second owes the first): per currency, in order of first
/// appearance, the positive balances are paired greedily against the negative
/// ones, with one cursor over the negatives shared by all positives.
pub fn plan_cross_group(entries: &Vec<OwedInGroup>) -> (r: Vec<Settlement>)
    requires
        negatable(entries@),
    ensures
        settlements_of(r@) == cross_group_plan(entries_of(entries@)),
{
    let ghost ev = entries_of(entries@);
    let cs = collect_currencies(entries);
    let ghost cv = names_of(cs@);
    let mut out: Vec<Settlement> = Vec::new();
    let mut k: usize = 0;
    while k < cs.len()
        invariant
            0 <= k <= cs.len(),
            negatable(entries@),
            ev == entries_of(entries@),
            cv == names_of(cs@),
            cv == currencies_in(ev),
            settlements_of(out@) == plan_over(ev, cv.take(k as int)),
        decreases cs.len() - k,
    {
        let c = &cs[k];
        proof {
            let t = cv.take(k as int + 1);
            assert(t.drop_last() =~= cv.take(k as int));
            assert(t.last() == cv[k as int]);
        }
        let (pos, neg) = split_signs(entries, c);
        pair_off(c, &pos, &neg, &mut out);
        k = k + 1;
    }
    assert(cv.take(cs.len() as int) =~= cv);
    out
}

} // verus!
