use vstd::prelude::*;

use crate::balance::{
    balances, between, currency_net, net_owed, owed_model, pair_keys, signed_amount,
};
use crate::ledger::{netting_legs, netting_pair};
use crate::netting::{cross_group_plan, head, negatives, pairings, plan_over, positives};
use crate::settle::{allocate, leftover};
use crate::split::Split;

verus! {

/// Balances are recomputed from the rows alone: after any rows are appended,
/// the balance in every group and currency is the old one plus the signed sum
/// of the new rows, so no sequence of writes lets a balance drift from its rows.
pub proof fn balance_follows_rows(
    rows: Seq<Split>,
    extra: Seq<Split>,
    a: Seq<char>,
    b: Seq<char>,
    g: Seq<char>,
    c: Seq<char>,
)
    ensures
        net_owed(rows + extra, a, b, g, c) == net_owed(rows, a, b, g, c) + net_owed(extra, a, b, g, c),
    decreases extra.len(),
{
    if extra.len() == 0 {
        assert(rows + extra =~= rows);
    } else {
        balance_follows_rows(rows, extra.drop_last(), a, b, g, c);
        assert((rows + extra).drop_last() =~= rows + extra.drop_last());
    }
}

/// Every reported balance is the signed sum of the rows of its group and
/// currency between the two users, and is not zero; and every group and
/// currency whose rows sum to something other than zero is reported.
pub proof fn reported_balances_are_row_sums(rows: Seq<Split>, a: Seq<char>, b: Seq<char>)
    ensures
        forall|k: int|
            0 <= k < owed_model(rows, a, b).len() ==> {
                let e = #[trigger] owed_model(rows, a, b)[k];
                &&& e.2 == net_owed(rows, a, b, e.0, e.1)
                &&& e.2 != 0
            },
        forall|g: Seq<char>, c: Seq<char>|
            #[trigger] net_owed(rows, a, b, g, c) != 0 ==> owed_model(rows, a, b).contains(
                (g, c, net_owed(rows, a, b, g, c)),
            ),
{
    lemma_balances_are_nets(rows, pair_keys(rows, a, b), a, b);
    assert forall|g: Seq<char>, c: Seq<char>|
        #[trigger] net_owed(rows, a, b, g, c) != 0 implies owed_model(rows, a, b).contains(
            (g, c, net_owed(rows, a, b, g, c)),
        ) by {
        if !pair_keys(rows, a, b).contains((g, c)) {
            lemma_unseen_key_has_no_balance(rows, a, b, (g, c));
        }
        lemma_key_is_reported(rows, pair_keys(rows, a, b), a, b, (g, c));
    }
}

/// The reported balances name each group and currency at most once, and only
/// pairs in which the two users have a row.
pub proof fn reported_pairs_are_distinct_and_seen(rows: Seq<Split>, a: Seq<char>, b: Seq<char>)
    ensures
        forall|i: int, j: int|
            0 <= i < j < owed_model(rows, a, b).len() ==> (#[trigger] owed_model(rows, a, b)[i].0, owed_model(rows, a, b)[i].1)
                != (#[trigger] owed_model(rows, a, b)[j].0, owed_model(rows, a, b)[j].1),
        forall|k: int|
            0 <= k < owed_model(rows, a, b).len() ==> exists|q: int|
                0 <= q < rows.len() && between(#[trigger] rows[q], a, b) && rows[q].group_id@ == (
                #[trigger] owed_model(rows, a, b)[k]).0 && rows[q].currency_id@ == owed_model(rows, a, b)[k].1,
{
    let keys = pair_keys(rows, a, b);
    let m = owed_model(rows, a, b);
    lemma_pair_keys_distinct(rows, a, b);
    lemma_balances_keys(rows, keys, a, b);
    lemma_pair_keys_seen(rows, a, b);
    assert forall|k: int| 0 <= k < m.len() implies exists|q: int|
        0 <= q < rows.len() && between(#[trigger] rows[q], a, b) && rows[q].group_id@ == (#[trigger] m[k]).0
            && rows[q].currency_id@ == m[k].1 by {
        assert(keys.contains((m[k].0, m[k].1)));
    }
}

proof fn lemma_balances_keys(
    rows: Seq<Split>,
    keys: Seq<(Seq<char>, Seq<char>)>,
    a: Seq<char>,
    b: Seq<char>,
)
    requires
        keys.no_duplicates(),
    ensures
        forall|k: int|
            0 <= k < balances(rows, keys, a, b).len() ==> keys.contains(
                ((#[trigger] balances(rows, keys, a, b)[k]).0, balances(rows, keys, a, b)[k].1),
            ),
        forall|i: int, j: int|
            0 <= i < j < balances(rows, keys, a, b).len() ==> (#[trigger] balances(rows, keys, a, b)[i].0, balances(
                rows,
                keys,
                a,
                b,
            )[i].1) != (#[trigger] balances(rows, keys, a, b)[j].0, balances(rows, keys, a, b)[j].1),
    decreases keys.len(),
{
    if keys.len() > 0 {
        let k0 = keys.drop_last();
        assert(k0.no_duplicates()) by {
            assert forall|i: int, j: int| 0 <= i < k0.len() && 0 <= j < k0.len() && i != j implies k0[i] != k0[j] by {
                assert(k0[i] == keys[i]);
                assert(k0[j] == keys[j]);
            }
        }
        lemma_balances_keys(rows, k0, a, b);
        let prev = balances(rows, k0, a, b);
        let cur = balances(rows, keys, a, b);
        let last = keys.last();
        assert forall|k: int| 0 <= k < prev.len() implies keys.contains((prev[k].0, prev[k].1)) && (prev[k].0, prev[k].1)
            != last by {
            let i = choose|i: int| 0 <= i < k0.len() && k0[i] == (prev[k].0, prev[k].1);
            assert(keys[i] == k0[i]);
            assert(i != keys.len() - 1);
        }
        assert forall|k: int| 0 <= k < cur.len() implies keys.contains(((#[trigger] cur[k]).0, cur[k].1)) by {
            if k < prev.len() {
                assert(cur[k] == prev[k]);
            } else {
                assert(keys[keys.len() - 1] == last);
            }
        }
        assert forall|i: int, j: int| 0 <= i < j < cur.len() implies (#[trigger] cur[i].0, cur[i].1) != (
        #[trigger] cur[j].0, cur[j].1) by {
            assert(cur[i] == prev[i]);
            if j < prev.len() {
                assert(cur[j] == prev[j]);
            }
        }
    }
}

proof fn lemma_pair_keys_seen(rows: Seq<Split>, a: Seq<char>, b: Seq<char>)
    ensures
        forall|k: int|
            0 <= k < pair_keys(rows, a, b).len() ==> exists|q: int|
                0 <= q < rows.len() && between(#[trigger] rows[q], a, b) && rows[q].group_id@ == (
                #[trigger] pair_keys(rows, a, b)[k]).0 && rows[q].currency_id@ == pair_keys(rows, a, b)[k].1,
    decreases rows.len(),
{
    if rows.len() > 0 {
        let p = rows.drop_last();
        lemma_pair_keys_seen(p, a, b);
        let pk = pair_keys(p, a, b);
        let keys = pair_keys(rows, a, b);
        assert forall|k: int| 0 <= k < keys.len() implies exists|q: int|
            0 <= q < rows.len() && between(#[trigger] rows[q], a, b) && rows[q].group_id@ == (#[trigger] keys[k]).0
                && rows[q].currency_id@ == keys[k].1 by {
            if k < pk.len() {
                assert(keys[k] == pk[k]);
                let q = choose|q: int|
                    0 <= q < p.len() && between(#[trigger] p[q], a, b) && p[q].group_id@ == pk[k].0 && p[q].currency_id@
                        == pk[k].1;
                assert(rows[q] == p[q]);
            } else {
                assert(rows[rows.len() - 1] == rows.last());
            }
        }
    }
}

proof fn lemma_key_is_reported(
    rows: Seq<Split>,
    keys: Seq<(Seq<char>, Seq<char>)>,
    a: Seq<char>,
    b: Seq<char>,
    k: (Seq<char>, Seq<char>),
)
    requires
        keys.contains(k),
        net_owed(rows, a, b, k.0, k.1) != 0,
    ensures
        balances(rows, keys, a, b).contains((k.0, k.1, net_owed(rows, a, b, k.0, k.1))),
    decreases keys.len(),
{
    let e = (k.0, k.1, net_owed(rows, a, b, k.0, k.1));
    let prev = balances(rows, keys.drop_last(), a, b);
    let cur = balances(rows, keys, a, b);
    if keys.last() == k {
        assert(cur == prev.push(e));
        assert(cur[prev.len() as int] == e);
    } else {
        let i = choose|i: int| 0 <= i < keys.len() && keys[i] == k;
        assert(keys.drop_last()[i] == k);
        lemma_key_is_reported(rows, keys.drop_last(), a, b, k);
        let j = choose|j: int| 0 <= j < prev.len() && prev[j] == e;
        let last = keys.last();
        if net_owed(rows, a, b, last.0, last.1) != 0 {
            assert(cur[j] == e);
        } else {
            assert(cur[j] == e);
        }
    }
}

proof fn lemma_balances_are_nets(
    rows: Seq<Split>,
    keys: Seq<(Seq<char>, Seq<char>)>,
    a: Seq<char>,
    b: Seq<char>,
)
    ensures
        forall|k: int|
            0 <= k < balances(rows, keys, a, b).len() ==> {
                let e = #[trigger] balances(rows, keys, a, b)[k];
                &&& e.2 == net_owed(rows, a, b, e.0, e.1)
                &&& e.2 != 0
            },
    decreases keys.len(),
{
    if keys.len() > 0 {
        lemma_balances_are_nets(rows, keys.drop_last(), a, b);
        let prev = balances(rows, keys.drop_last(), a, b);
        let cur = balances(rows, keys, a, b);
        assert forall|k: int| 0 <= k < cur.len() implies {
            let e = #[trigger] cur[k];
            &&& e.2 == net_owed(rows, a, b, e.0, e.1)
            &&& e.2 != 0
        } by {
            if k < prev.len() {
                assert(cur[k] == prev[k]);
            }
        }
    }
}

/// What `b` owes `a` in one currency, over all groups, is the old amount plus
/// that of the appended rows.
proof fn lemma_currency_net_concat(rows: Seq<Split>, extra: Seq<Split>, a: Seq<char>, b: Seq<char>, c: Seq<char>)
    ensures
        currency_net(rows + extra, a, b, c) == currency_net(rows, a, b, c) + currency_net(extra, a, b, c),
    decreases extra.len(),
{
    if extra.len() == 0 {
        assert(rows + extra =~= rows);
    } else {
        lemma_currency_net_concat(rows, extra.drop_last(), a, b, c);
        assert((rows + extra).drop_last() =~= rows + extra.drop_last());
    }
}

/// The rows of a netting between two different users cancel in every currency.
proof fn lemma_netting_legs_cancel(
    legs: Seq<Split>,
    plan: Seq<(Seq<char>, Seq<char>, Seq<char>, int)>,
    a: Seq<char>,
    b: Seq<char>,
    c: Seq<char>,
)
    requires
        a != b,
        netting_legs(legs, plan, a, b),
    ensures
        currency_net(legs, a, b, c) == 0,
    decreases plan.len(),
{
    if plan.len() > 0 {
        let n = plan.len() - 1;
        let front = legs.take(2 * n);
        let p = plan.drop_last();
        assert forall|k: int| 0 <= k < p.len() implies netting_pair(front[2 * k], front[2 * k + 1], #[trigger] p[k], a, b) by {
            assert(netting_pair(legs[2 * k], legs[2 * k + 1], plan[k], a, b));
            assert(front[2 * k] == legs[2 * k]);
            assert(front[2 * k + 1] == legs[2 * k + 1]);
        }
        lemma_netting_legs_cancel(front, p, a, b, c);
        assert(netting_pair(legs[2 * n], legs[2 * n + 1], plan[n], a, b));
        assert(legs.drop_last().drop_last() =~= front);
        assert(legs.drop_last().last() == legs[2 * n]);
        assert(legs.last() == legs[2 * n + 1]);
        let x = legs[2 * n];
        let y = legs[2 * n + 1];
        assert(signed_amount(x, a, b) == -(x.amount as int));
        assert(signed_amount(y, a, b) == y.amount as int);
        assert(x.currency_id@ == y.currency_id@);
        assert(currency_net(legs, a, b, c) == currency_net(legs.drop_last(), a, b, c) + if y.currency_id@ == c {
            signed_amount(y, a, b)
        } else {
            0
        });
        assert(currency_net(legs.drop_last(), a, b, c) == currency_net(front, a, b, c) + if x.currency_id@ == c {
            signed_amount(x, a, b)
        } else {
            0
        });
    }
}

/// Between a user and themselves every balance is at least zero.
proof fn lemma_self_net_nonnegative(rows: Seq<Split>, a: Seq<char>, g: Seq<char>, c: Seq<char>)
    requires
        forall|k: int| 0 <= k < rows.len() ==> #[trigger] rows[k].amount >= 0,
    ensures
        net_owed(rows, a, a, g, c) >= 0,
    decreases rows.len(),
{
    if rows.len() > 0 {
        let p = rows.drop_last();
        assert forall|k: int| 0 <= k < p.len() implies #[trigger] p[k].amount >= 0 by {
            assert(p[k] == rows[k]);
        }
        assert(rows[rows.len() - 1].amount >= 0);
        lemma_self_net_nonnegative(p, a, g, c);
    }
}

proof fn lemma_self_balances_nonnegative(
    rows: Seq<Split>,
    keys: Seq<(Seq<char>, Seq<char>)>,
    a: Seq<char>,
)
    requires
        forall|k: int| 0 <= k < rows.len() ==> #[trigger] rows[k].amount >= 0,
    ensures
        forall|k: int| 0 <= k < balances(rows, keys, a, a).len() ==> (#[trigger] balances(rows, keys, a, a)[k]).2 >= 0,
    decreases keys.len(),
{
    if keys.len() > 0 {
        lemma_self_balances_nonnegative(rows, keys.drop_last(), a);
        lemma_self_net_nonnegative(rows, a, keys.last().0, keys.last().1);
        let prev = balances(rows, keys.drop_last(), a, a);
        let cur = balances(rows, keys, a, a);
        assert forall|k: int| 0 <= k < cur.len() implies (#[trigger] cur[k]).2 >= 0 by {
            if k < prev.len() {
                assert(cur[k] == prev[k]);
            }
        }
    }
}

proof fn lemma_no_negatives(es: Seq<(Seq<char>, Seq<char>, int)>, c: Seq<char>)
    requires
        forall|k: int| 0 <= k < es.len() ==> (#[trigger] es[k]).2 >= 0,
    ensures
        negatives(es, c).len() == 0,
    decreases es.len(),
{
    if es.len() > 0 {
        let p = es.drop_last();
        assert forall|k: int| 0 <= k < p.len() implies (#[trigger] p[k]).2 >= 0 by {
            assert(p[k] == es[k]);
        }
        assert(es[es.len() - 1].2 >= 0);
        lemma_no_negatives(p, c);
    }
}

proof fn lemma_plan_empty(es: Seq<(Seq<char>, Seq<char>, int)>, cs: Seq<Seq<char>>)
    requires
        forall|k: int| 0 <= k < es.len() ==> (#[trigger] es[k]).2 >= 0,
    ensures
        plan_over(es, cs).len() == 0,
    decreases cs.len(),
{
    if cs.len() > 0 {
        lemma_plan_empty(es, cs.drop_last());
        lemma_no_negatives(es, cs.last());
        let pos = positives(es, cs.last());
        let neg = negatives(es, cs.last());
        assert(pairings(cs.last(), pos, neg, 0, 0, head(pos, 0), head(neg, 0)).len() == 0);
    }
}

/// Netting never changes what one user owes the other in a currency, summed
/// over all groups: the rows that `simplify_cross_group` appends for its plan
/// cancel currency by currency.
pub proof fn netting_conserves_currency_totals(
    rows: Seq<Split>,
    legs: Seq<Split>,
    a: Seq<char>,
    b: Seq<char>,
    c: Seq<char>,
)
    requires
        forall|k: int| 0 <= k < rows.len() ==> #[trigger] rows[k].amount >= 0,
        netting_legs(legs, cross_group_plan(owed_model(rows, a, b)), a, b),
    ensures
        currency_net(rows + legs, a, b, c) == currency_net(rows, a, b, c),
        reported_total(owed_model(rows + legs, a, b), c) == reported_total(owed_model(rows, a, b), c),
{
    reported_balances_sum_to_currency_net(rows, a, b, c);
    reported_balances_sum_to_currency_net(rows + legs, a, b, c);
    netting_keeps_every_pair_total(rows, legs, a, b, b, c);
}

/// The rows of a netting between `a` and `b` do not touch what `a` and any
/// third user owe each other.
proof fn lemma_netting_legs_elsewhere(
    legs: Seq<Split>,
    plan: Seq<(Seq<char>, Seq<char>, Seq<char>, int)>,
    a: Seq<char>,
    b: Seq<char>,
    x: Seq<char>,
    c: Seq<char>,
)
    requires
        a != b,
        x != b,
        netting_legs(legs, plan, a, b),
    ensures
        currency_net(legs, a, x, c) == 0,
    decreases plan.len(),
{
    if plan.len() > 0 {
        let n = plan.len() - 1;
        let front = legs.take(2 * n);
        let p = plan.drop_last();
        assert forall|k: int| 0 <= k < p.len() implies netting_pair(front[2 * k], front[2 * k + 1], #[trigger] p[k], a, b) by {
            assert(netting_pair(legs[2 * k], legs[2 * k + 1], plan[k], a, b));
            assert(front[2 * k] == legs[2 * k]);
            assert(front[2 * k + 1] == legs[2 * k + 1]);
        }
        lemma_netting_legs_elsewhere(front, p, a, b, x, c);
        assert(netting_pair(legs[2 * n], legs[2 * n + 1], plan[n], a, b));
        assert(legs.drop_last().drop_last() =~= front);
        assert(legs.drop_last().last() == legs[2 * n]);
        assert(legs.last() == legs[2 * n + 1]);
        assert(signed_amount(legs[2 * n], a, x) == 0);
        assert(signed_amount(legs[2 * n + 1], a, x) == 0);
        assert(currency_net(legs, a, x, c) == currency_net(legs.drop_last(), a, x, c));
        assert(currency_net(legs.drop_last(), a, x, c) == currency_net(front, a, x, c));
    }
}

/// Netting between `a` and `b` never changes what `a` and any user owe each
/// other in a currency, summed over all groups: not for `b`, whose debts only
/// move between groups, and not for anyone else, whom its rows do not touch.
pub proof fn netting_keeps_every_pair_total(
    rows: Seq<Split>,
    legs: Seq<Split>,
    a: Seq<char>,
    b: Seq<char>,
    x: Seq<char>,
    c: Seq<char>,
)
    requires
        forall|k: int| 0 <= k < rows.len() ==> #[trigger] rows[k].amount >= 0,
        netting_legs(legs, cross_group_plan(owed_model(rows, a, b)), a, b),
    ensures
        currency_net(rows + legs, a, x, c) == currency_net(rows, a, x, c),
{
    lemma_currency_net_concat(rows, legs, a, x, c);
    if a == b {
        let es = owed_model(rows, a, b);
        lemma_self_balances_nonnegative(rows, pair_keys(rows, a, b), a);
        lemma_plan_empty(es, crate::netting::currencies_in(es));
        assert(legs =~= Seq::<Split>::empty());
    } else if x == b {
        lemma_netting_legs_cancel(legs, cross_group_plan(owed_model(rows, a, b)), a, b, c);
    } else {
        lemma_netting_legs_elsewhere(legs, cross_group_plan(owed_model(rows, a, b)), a, b, x, c);
    }
}

/// Whether `g` is the group of some pair of `s`.
pub open spec fn has_group_in(s: Seq<(Seq<char>, int)>, g: Seq<char>) -> bool {
    exists|k: int| 0 <= k < s.len() && (#[trigger] s[k]).0 == g
}

/// Whether settlement `p` offsets a positive balance of its currency against
/// a negative one of the same currency.
pub open spec fn from_opposite_balances(es: Seq<(Seq<char>, Seq<char>, int)>, p: (Seq<char>, Seq<char>, Seq<char>, int)) -> bool {
    has_group_in(positives(es, p.0), p.1) && has_group_in(negatives(es, p.0), p.2)
}

proof fn lemma_pairings_groups(
    es: Seq<(Seq<char>, Seq<char>, int)>,
    c: Seq<char>,
    i: int,
    j: int,
    rp: int,
    rn: int,
)
    ensures
        forall|k: int|
            0 <= k < pairings(c, positives(es, c), negatives(es, c), i, j, rp, rn).len() ==> {
                let p = #[trigger] pairings(c, positives(es, c), negatives(es, c), i, j, rp, rn)[k];
                p.0 == c && from_opposite_balances(es, p)
            },
    decreases positives(es, c).len() - i + negatives(es, c).len() - j,
{
    let pos = positives(es, c);
    let neg = negatives(es, c);
    if !(i < 0 || j < 0 || i >= pos.len() || j >= neg.len()) {
        let (ni, nj, nrp, nrn) = if rp < rn {
            (i + 1, j, head(pos, i + 1), rn - rp)
        } else if rp > rn {
            (i, j + 1, rp - rn, head(neg, j + 1))
        } else {
            (i + 1, j + 1, head(pos, i + 1), head(neg, j + 1))
        };
        lemma_pairings_groups(es, c, ni, nj, nrp, nrn);
        let all = pairings(c, pos, neg, i, j, rp, rn);
        let rest = pairings(c, pos, neg, ni, nj, nrp, nrn);
        assert(all.len() == rest.len() + 1);
        assert forall|k: int| 0 <= k < all.len() implies {
            let p = #[trigger] all[k];
            p.0 == c && from_opposite_balances(es, p)
        } by {
            if k == 0 {
                assert(has_group_in(pos, pos[i].0));
                assert(has_group_in(neg, neg[j].0));
            } else {
                assert(all[k] == rest[k - 1]);
            }
        }
    }
}

proof fn lemma_plan_over_groups(es: Seq<(Seq<char>, Seq<char>, int)>, cs: Seq<Seq<char>>)
    ensures
        forall|k: int| 0 <= k < plan_over(es, cs).len() ==> from_opposite_balances(es, #[trigger] plan_over(es, cs)[k]),
    decreases cs.len(),
{
    if cs.len() > 0 {
        lemma_plan_over_groups(es, cs.drop_last());
        let c = cs.last();
        let pos = positives(es, c);
        let neg = negatives(es, c);
        lemma_pairings_groups(es, c, 0, 0, head(pos, 0), head(neg, 0));
        let prev = plan_over(es, cs.drop_last());
        let b = pairings(c, pos, neg, 0, 0, head(pos, 0), head(neg, 0));
        let all = plan_over(es, cs);
        assert(all == prev + b);
        assert forall|k: int| 0 <= k < all.len() implies from_opposite_balances(es, #[trigger] all[k]) by {
            if k < prev.len() {
                assert(all[k] == prev[k]);
            } else {
                assert(all[k] == b[k - prev.len()]);
            }
        }
    }
}

proof fn lemma_positives_from(es: Seq<(Seq<char>, Seq<char>, int)>, c: Seq<char>)
    ensures
        forall|k: int| 0 <= k < positives(es, c).len() ==> exists|q: int|
            0 <= q < es.len() && (#[trigger] es[q]).0 == (#[trigger] positives(es, c)[k]).0 && es[q].1 == c && es[q].2 > 0,
        forall|k: int| 0 <= k < negatives(es, c).len() ==> exists|q: int|
            0 <= q < es.len() && (#[trigger] es[q]).0 == (#[trigger] negatives(es, c)[k]).0 && es[q].1 == c && es[q].2 < 0,
    decreases es.len(),
{
    if es.len() > 0 {
        let p = es.drop_last();
        lemma_positives_from(p, c);
        let last = es.len() - 1;
        assert forall|k: int| 0 <= k < positives(es, c).len() implies exists|q: int|
            0 <= q < es.len() && (#[trigger] es[q]).0 == (#[trigger] positives(es, c)[k]).0 && es[q].1 == c && es[q].2 > 0 by {
            if k < positives(p, c).len() {
                assert(positives(es, c)[k] == positives(p, c)[k]);
                let q = choose|q: int| 0 <= q < p.len() && (#[trigger] p[q]).0 == positives(p, c)[k].0 && p[q].1 == c && p[q].2 > 0;
                assert(es[q] == p[q]);
            } else {
                assert(es[last] == es.last());
            }
        }
        assert forall|k: int| 0 <= k < negatives(es, c).len() implies exists|q: int|
            0 <= q < es.len() && (#[trigger] es[q]).0 == (#[trigger] negatives(es, c)[k]).0 && es[q].1 == c && es[q].2 < 0 by {
            if k < negatives(p, c).len() {
                assert(negatives(es, c)[k] == negatives(p, c)[k]);
                let q = choose|q: int| 0 <= q < p.len() && (#[trigger] p[q]).0 == negatives(p, c)[k].0 && p[q].1 == c && p[q].2 < 0;
                assert(es[q] == p[q]);
            } else {
                assert(es[last] == es.last());
            }
        }
    }
}

/// Netting never offsets a group against itself: each settlement's two groups
/// differ.
pub proof fn netting_pairs_distinct_groups(rows: Seq<Split>, a: Seq<char>, b: Seq<char>)
    ensures
        forall|k: int|
            0 <= k < cross_group_plan(owed_model(rows, a, b)).len() ==> (#[trigger] cross_group_plan(
                owed_model(rows, a, b),
            )[k]).1 != cross_group_plan(owed_model(rows, a, b))[k].2,
{
    let es = owed_model(rows, a, b);
    let plan = cross_group_plan(es);
    reported_pairs_are_distinct_and_seen(rows, a, b);
    lemma_plan_over_groups(es, crate::netting::currencies_in(es));
    assert forall|k: int| 0 <= k < plan.len() implies (#[trigger] plan[k]).1 != plan[k].2 by {
        let p = plan[k];
        assert(from_opposite_balances(es, p));
        lemma_positives_from(es, p.0);
        let pos = positives(es, p.0);
        let neg = negatives(es, p.0);
        let x = choose|x: int| 0 <= x < pos.len() && (#[trigger] pos[x]).0 == p.1;
        let y = choose|y: int| 0 <= y < neg.len() && (#[trigger] neg[y]).0 == p.2;
        let qx = choose|q: int| 0 <= q < es.len() && (#[trigger] es[q]).0 == pos[x].0 && es[q].1 == p.0 && es[q].2 > 0;
        let qy = choose|q: int| 0 <= q < es.len() && (#[trigger] es[q]).0 == neg[y].0 && es[q].1 == p.0 && es[q].2 < 0;
        if p.1 == p.2 {
            if qx < qy {
                assert((es[qx].0, es[qx].1) != (es[qy].0, es[qy].1));
            } else {
                assert((es[qy].0, es[qy].1) != (es[qx].0, es[qx].1));
            }
        }
    }
}

/// The sum of the reported balances in currency `c`.
pub open spec fn reported_total(es: Seq<(Seq<char>, Seq<char>, int)>, c: Seq<char>) -> int
    decreases es.len(),
{
    if es.len() == 0 {
        0
    } else {
        reported_total(es.drop_last(), c) + if es.last().1 == c { es.last().2 } else { 0 }
    }
}

/// The sum of the balances of the keys in currency `c`.
spec fn keys_total(rows: Seq<Split>, keys: Seq<(Seq<char>, Seq<char>)>, a: Seq<char>, b: Seq<char>, c: Seq<char>) -> int
    decreases keys.len(),
{
    if keys.len() == 0 {
        0
    } else {
        keys_total(rows, keys.drop_last(), a, b, c) + if keys.last().1 == c {
            net_owed(rows, a, b, keys.last().0, keys.last().1)
        } else {
            0
        }
    }
}

proof fn lemma_reported_is_keys_total(
    rows: Seq<Split>,
    keys: Seq<(Seq<char>, Seq<char>)>,
    a: Seq<char>,
    b: Seq<char>,
    c: Seq<char>,
)
    ensures
        reported_total(balances(rows, keys, a, b), c) == keys_total(rows, keys, a, b, c),
    decreases keys.len(),
{
    if keys.len() > 0 {
        lemma_reported_is_keys_total(rows, keys.drop_last(), a, b, c);
        let prev = balances(rows, keys.drop_last(), a, b);
        let k = keys.last();
        let n = net_owed(rows, a, b, k.0, k.1);
        if n != 0 {
            assert(prev.push((k.0, k.1, n)).drop_last() =~= prev);
        }
    }
}

proof fn lemma_pair_keys_distinct(rows: Seq<Split>, a: Seq<char>, b: Seq<char>)
    ensures
        pair_keys(rows, a, b).no_duplicates(),
    decreases rows.len(),
{
    if rows.len() > 0 {
        lemma_pair_keys_distinct(rows.drop_last(), a, b);
    }
}

proof fn lemma_pair_keys_grow(rows: Seq<Split>, a: Seq<char>, b: Seq<char>, k: (Seq<char>, Seq<char>))
    requires
        rows.len() > 0,
        pair_keys(rows.drop_last(), a, b).contains(k),
    ensures
        pair_keys(rows, a, b).contains(k),
{
    let p = pair_keys(rows.drop_last(), a, b);
    let i = choose|i: int| 0 <= i < p.len() && p[i] == k;
    let r = rows.last();
    if between(r, a, b) && !p.contains((r.group_id@, r.currency_id@)) {
        assert(p.push((r.group_id@, r.currency_id@))[i] == k);
    }
}

proof fn lemma_unseen_key_has_no_balance(rows: Seq<Split>, a: Seq<char>, b: Seq<char>, k: (Seq<char>, Seq<char>))
    requires
        !pair_keys(rows, a, b).contains(k),
    ensures
        net_owed(rows, a, b, k.0, k.1) == 0,
    decreases rows.len(),
{
    if rows.len() > 0 {
        let p = rows.drop_last();
        let r = rows.last();
        if pair_keys(p, a, b).contains(k) {
            lemma_pair_keys_grow(rows, a, b, k);
        }
        lemma_unseen_key_has_no_balance(p, a, b, k);
        if between(r, a, b) {
            let kr = (r.group_id@, r.currency_id@);
            let pk = pair_keys(p, a, b);
            if !pk.contains(kr) {
                assert(pk.push(kr)[pk.len() as int] == kr);
            }
            assert(pair_keys(rows, a, b).contains(kr));
        }
    }
}

proof fn lemma_keys_total_step(
    rows: Seq<Split>,
    keys: Seq<(Seq<char>, Seq<char>)>,
    a: Seq<char>,
    b: Seq<char>,
    c: Seq<char>,
)
    requires
        rows.len() > 0,
        keys.no_duplicates(),
    ensures
        keys_total(rows, keys, a, b, c) == keys_total(rows.drop_last(), keys, a, b, c) + if rows.last().currency_id@ == c
            && keys.contains((rows.last().group_id@, rows.last().currency_id@)) {
            signed_amount(rows.last(), a, b)
        } else {
            0
        },
    decreases keys.len(),
{
    if keys.len() > 0 {
        let k0 = keys.drop_last();
        assert(k0.no_duplicates()) by {
            assert forall|i: int, j: int| 0 <= i < k0.len() && 0 <= j < k0.len() && i != j implies k0[i] != k0[j] by {
                assert(k0[i] == keys[i]);
                assert(k0[j] == keys[j]);
            }
        }
        lemma_keys_total_step(rows, k0, a, b, c);
        let r = rows.last();
        let kr = (r.group_id@, r.currency_id@);
        let k = keys.last();
        if k == kr {
            assert(!k0.contains(kr)) by {
                if k0.contains(kr) {
                    let i = choose|i: int| 0 <= i < k0.len() && k0[i] == kr;
                    assert(keys[i] == keys[keys.len() - 1]);
                }
            }
        } else {
            if keys.contains(kr) {
                let i = choose|i: int| 0 <= i < keys.len() && keys[i] == kr;
                assert(k0[i] == kr);
            }
            if k0.contains(kr) {
                let i = choose|i: int| 0 <= i < k0.len() && k0[i] == kr;
                assert(keys[i] == kr);
            }
        }
    }
}

proof fn lemma_keys_total_is_currency_net(rows: Seq<Split>, a: Seq<char>, b: Seq<char>, c: Seq<char>)
    ensures
        keys_total(rows, pair_keys(rows, a, b), a, b, c) == currency_net(rows, a, b, c),
    decreases rows.len(),
{
    if rows.len() > 0 {
        let p = rows.drop_last();
        let r = rows.last();
        let kr = (r.group_id@, r.currency_id@);
        let pk = pair_keys(p, a, b);
        let keys = pair_keys(rows, a, b);
        lemma_keys_total_is_currency_net(p, a, b, c);
        lemma_pair_keys_distinct(rows, a, b);
        lemma_keys_total_step(rows, keys, a, b, c);
        if between(r, a, b) {
            if !pk.contains(kr) {
                assert(keys == pk.push(kr));
                assert(keys.drop_last() =~= pk);
                lemma_unseen_key_has_no_balance(p, a, b, kr);
                assert(keys[keys.len() - 1] == kr);
            } else {
                assert(keys == pk);
            }
        } else {
            assert(keys == pk);
            assert(signed_amount(r, a, b) == 0);
        }
    }
}

/// The reported balances of a currency add up to what one user owes the other
/// in it over all groups.
pub proof fn reported_balances_sum_to_currency_net(rows: Seq<Split>, a: Seq<char>, b: Seq<char>, c: Seq<char>)
    ensures
        reported_total(owed_model(rows, a, b), c) == currency_net(rows, a, b, c),
{
    lemma_reported_is_keys_total(rows, pair_keys(rows, a, b), a, b, c);
    lemma_keys_total_is_currency_net(rows, a, b, c);
}

/// The sum of the positive debts of a list.
pub open spec fn positive_total(debts: Seq<(Seq<char>, int)>) -> int
    decreases debts.len(),
{
    if debts.len() == 0 {
        0
    } else {
        positive_total(debts.drop_first()) + if debts[0].1 > 0 { debts[0].1 } else { 0 }
    }
}

/// The positive debts of a list, in order.
pub open spec fn positive_debts(debts: Seq<(Seq<char>, int)>) -> Seq<(Seq<char>, int)>
    decreases debts.len(),
{
    if debts.len() == 0 {
        seq![]
    } else {
        let rest = positive_debts(debts.drop_first());
        if debts[0].1 > 0 {
            seq![debts[0]] + rest
        } else {
            rest
        }
    }
}

/// A lump sum larger than all debts together pays each positive debt in full,
/// one payment per debt in order, and leaves the excess over.
pub proof fn overpayment_leaves_excess(debts: Seq<(Seq<char>, int)>, amount: int)
    requires
        amount > positive_total(debts),
    ensures
        allocate(debts, amount) == positive_debts(debts),
        leftover(debts, amount) == amount - positive_total(debts),
        leftover(debts, amount) > 0,
    decreases debts.len(),
{
    lemma_positive_total_nonnegative(debts);
    if debts.len() > 0 {
        let rest = debts.drop_first();
        lemma_positive_total_nonnegative(rest);
        if debts[0].1 > 0 {
            overpayment_leaves_excess(rest, amount - debts[0].1);
        } else {
            overpayment_leaves_excess(rest, amount);
        }
    }
}

proof fn lemma_positive_total_nonnegative(debts: Seq<(Seq<char>, int)>)
    ensures
        positive_total(debts) >= 0,
    decreases debts.len(),
{
    if debts.len() > 0 {
        lemma_positive_total_nonnegative(debts.drop_first());
    }
}

} // verus!
