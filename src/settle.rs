use vstd::prelude::*;

use crate::balance::entries_of;
use crate::netting::pairs_of;
use crate::user::OwedInGroup;

verus! {

/// The (group, amount) pairs of the balances in currency `c`, in order.
pub open spec fn in_currency(es: Seq<(Seq<char>, Seq<char>, int)>, c: Seq<char>) -> Seq<(Seq<char>, int)>
    decreases es.len(),
{
    if es.len() == 0 {
        seq![]
    } else {
        let p = in_currency(es.drop_last(), c);
        let e = es.last();
        if e.1 == c {
            p.push((e.0, e.2))
        } else {
            p
        }
    }
}

/// `x` placed into `s` after every leading pair whose amount is at least its own.
pub open spec fn insert_desc(s: Seq<(Seq<char>, int)>, x: (Seq<char>, int)) -> Seq<(Seq<char>, int)>
    decreases s.len(),
{
    if s.len() == 0 {
        seq![x]
    } else if s[0].1 >= x.1 {
        seq![s[0]] + insert_desc(s.drop_first(), x)
    } else {
        seq![x] + s
    }
}

/// `s` sorted by amount, largest first; pairs of equal amount keep their order.
pub open spec fn sort_desc(s: Seq<(Seq<char>, int)>) -> Seq<(Seq<char>, int)>
    decreases s.len(),
{
    if s.len() == 0 {
        seq![]
    } else {
        insert_desc(sort_desc(s.drop_last()), s.last())
    }
}

/// The greedy application of `remaining` to `debts` in order: each positive
/// debt receives the smaller of itself and what is left, until nothing is left.
pub open spec fn allocate(debts: Seq<(Seq<char>, int)>, remaining: int) -> Seq<(Seq<char>, int)>
    decreases debts.len(),
{
    if debts.len() == 0 || remaining <= 0 {
        seq![]
    } else if debts[0].1 > 0 {
        let pay = if debts[0].1 <= remaining { debts[0].1 } else { remaining };
        seq![(debts[0].0, pay)] + allocate(debts.drop_first(), remaining - pay)
    } else {
        allocate(debts.drop_first(), remaining)
    }
}

/// What is left of `remaining` once `allocate` has covered the debts.
pub open spec fn leftover(debts: Seq<(Seq<char>, int)>, remaining: int) -> int
    decreases debts.len(),
{
    if debts.len() == 0 || remaining <= 0 {
        remaining
    } else if debts[0].1 > 0 {
        let pay = if debts[0].1 <= remaining { debts[0].1 } else { remaining };
        leftover(debts.drop_first(), remaining - pay)
    } else {
        leftover(debts.drop_first(), remaining)
    }
}

/// The debts in currency `c`, largest first.
pub open spec fn ranked_debts(es: Seq<(Seq<char>, Seq<char>, int)>, c: Seq<char>) -> Seq<(Seq<char>, int)> {
    sort_desc(in_currency(es, c))
}

proof fn lemma_insert_desc_at(s: Seq<(Seq<char>, int)>, x: (Seq<char>, int), p: int)
    requires
        0 <= p <= s.len(),
        forall|k: int| 0 <= k < p ==> #[trigger] s[k].1 >= x.1,
        p < s.len() ==> s[p].1 < x.1,
    ensures
        insert_desc(s, x) == s.insert(p, x),
    decreases p,
{
    if p == 0 {
        assert(s.insert(0, x) =~= seq![x] + s);
    } else {
        let t = s.drop_first();
        assert forall|k: int| 0 <= k < p - 1 implies #[trigger] t[k].1 >= x.1 by {
            assert(t[k] == s[k + 1]);
        }
        assert(s[0].1 >= x.1);
        lemma_insert_desc_at(t, x, p - 1);
        assert(seq![s[0]] + t.insert(p - 1, x) =~= s.insert(p, x));
    }
}

/// Places `x` into `v`, sorted largest first, after every pair whose amount is at least its own.
fn insert_ranked(v: &mut Vec<(String, i64)>, x: (String, i64))
    ensures
        pairs_of(final(v)@) == insert_desc(pairs_of(old(v)@), (x.0@, x.1 as int)),
{
    let ghost s = pairs_of(v@);
    let ghost xv = (x.0@, x.1 as int);
    let mut p: usize = 0;
    while p < v.len() && v[p].1 >= x.1
        invariant
            0 <= p <= v.len(),
            s == pairs_of(v@),
            xv == (x.0@, x.1 as int),
            forall|k: int| 0 <= k < p ==> #[trigger] s[k].1 >= xv.1,
        decreases v.len() - p,
    {
        assert(s[p as int] == (v@[p as int].0@, v@[p as int].1 as int));
        p = p + 1;
    }
    proof {
        lemma_insert_desc_at(s, xv, p as int);
    }
    v.insert(p, x);
    proof {
        s.insert_ensures(p as int, xv);
        assert(pairs_of(v@) =~= s.insert(p as int, xv));
    }
}

/// The balances in currency `c`, largest first; equal ones keep their order.
pub fn rank_debts(entries: &Vec<OwedInGroup>, c: &String) -> (r: Vec<(String, i64)>)
    ensures
        pairs_of(r@) == ranked_debts(entries_of(entries@), c@),
{
    let ghost ev = entries_of(entries@);
    let mut out: Vec<(String, i64)> = Vec::new();
    let mut i: usize = 0;
    let ghost mut picked: Seq<(Seq<char>, int)> = seq![];
    while i < entries.len()
        invariant
            0 <= i <= entries.len(),
            ev == entries_of(entries@),
            picked == in_currency(ev.take(i as int), c@),
            pairs_of(out@) == sort_desc(picked),
        decreases entries.len() - i,
    {
        proof {
            let t = ev.take(i as int + 1);
            assert(t.drop_last() =~= ev.take(i as int));
            assert(t.last() == ev[i as int]);
        }
        let e = &entries[i];
        if e.amount.currency_id == *c {
            let x = (e.group_id.clone(), e.amount.amount);
            insert_ranked(&mut out, x);
            proof {
                let np = picked.push((e.group_id@, e.amount.amount as int));
                assert(np.drop_last() =~= picked);
                picked = np;
            }
        }
        i = i + 1;
    }
    assert(ev.take(entries.len() as int) =~= ev);
    out
}

/// The payments that a lump sum `amount` makes against `debts`, taken in order,
/// and what is left of it.
pub fn allocate_payment(debts: &Vec<(String, i64)>, amount: i64) -> (r: (Vec<(String, i64)>, i64))
    ensures
        pairs_of(r.0@) == allocate(pairs_of(debts@), amount as int),
        r.1 == leftover(pairs_of(debts@), amount as int),
{
    let ghost dv = pairs_of(debts@);
    let mut out: Vec<(String, i64)> = Vec::new();
    let mut remaining: i64 = amount;
    let mut k: usize = 0;
    assert(dv.skip(0) =~= dv);
    assert(pairs_of(out@) =~= seq![]);
    while k < debts.len() && remaining > 0
        invariant
            0 <= k <= debts.len(),
            dv == pairs_of(debts@),
            pairs_of(out@) + allocate(dv.skip(k as int), remaining as int) == allocate(dv, amount as int),
            leftover(dv.skip(k as int), remaining as int) == leftover(dv, amount as int),
        decreases debts.len() - k,
    {
        let ghost before = pairs_of(out@);
        let ghost rest = dv.skip(k as int);
        let ghost r0 = remaining as int;
        assert(rest.drop_first() =~= dv.skip(k as int + 1));
        assert(rest[0] == dv[k as int]);
        assert(dv[k as int] == (debts@[k as int].0@, debts@[k as int].1 as int));
        let owed = debts[k].1;
        if owed > 0 {
            let pay: i64 = if owed <= remaining { owed } else { remaining };
            out.push((debts[k].0.clone(), pay));
            remaining = remaining - pay;
            assert(pairs_of(out@) =~= before.push((dv[k as int].0, pay as int)));
            assert(allocate(rest, r0) == seq![(dv[k as int].0, pay as int)] + allocate(dv.skip(k as int + 1), remaining as int));
            assert(pairs_of(out@) + allocate(dv.skip(k as int + 1), remaining as int) =~= before + allocate(rest, r0));
        }
        k = k + 1;
    }
    assert(allocate(dv.skip(k as int), remaining as int) =~= seq![]) by {
        if k < debts.len() {
            assert(remaining <= 0);
        } else {
            assert(dv.skip(k as int).len() == 0);
        }
    }
    assert(pairs_of(out@) =~= allocate(dv, amount as int));
    (out, remaining)
}

} // verus!
