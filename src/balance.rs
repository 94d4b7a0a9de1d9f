use vstd::prelude::*;

use crate::amount::Amount;
use crate::split::Split;
use crate::user::OwedInGroup;

verus! {

/// What row `r` contributes to the balance of the pair (`a`, `b`):
/// positive when `b` owes `a`, negative when `a` owes `b`.
pub open spec fn signed_amount(r: Split, a: Seq<char>, b: Seq<char>) -> int {
    if r.from_user@ == b && r.to_user@ == a {
        r.amount as int
    } else if r.from_user@ == a && r.to_user@ == b {
        -(r.amount as int)
    } else {
        0
    }
}

/// Whether row `r` runs between `a` and `b`, in either direction.
pub open spec fn between(r: Split, a: Seq<char>, b: Seq<char>) -> bool {
    (r.from_user@ == a && r.to_user@ == b) || (r.from_user@ == b && r.to_user@ == a)
}

/// Whether row `r` is booked in group `g` and currency `c`.
pub open spec fn in_bucket(r: Split, g: Seq<char>, c: Seq<char>) -> bool {
    r.group_id@ == g && r.currency_id@ == c
}

/// The net that `b` owes `a` in group `g` and currency `c`: the sum of the rows
/// from `b` to `a` less the sum of the rows from `a` to `b`.
pub open spec fn net_owed(
    rows: Seq<Split>,
    a: Seq<char>,
    b: Seq<char>,
    g: Seq<char>,
    c: Seq<char>,
) -> int
    decreases rows.len(),
{
    if rows.len() == 0 {
        0
    } else {
        let r = rows.last();
        net_owed(rows.drop_last(), a, b, g, c) + if in_bucket(r, g, c) {
            signed_amount(r, a, b)
        } else {
            0
        }
    }
}

/// The net that `b` owes `a` in currency `c`, over all groups.
pub open spec fn currency_net(rows: Seq<Split>, a: Seq<char>, b: Seq<char>, c: Seq<char>) -> int
    decreases rows.len(),
{
    if rows.len() == 0 {
        0
    } else {
        let r = rows.last();
        currency_net(rows.drop_last(), a, b, c) + if r.currency_id@ == c {
            signed_amount(r, a, b)
        } else {
            0
        }
    }
}

/// The sum of the amounts of all rows.
pub open spec fn total_amount(rows: Seq<Split>) -> int
    decreases rows.len(),
{
    if rows.len() == 0 {
        0
    } else {
        total_amount(rows.drop_last()) + rows.last().amount
    }
}

/// Every row holds a positive amount.
pub open spec fn amounts_positive(rows: Seq<Split>) -> bool {
    forall|i: int| 0 <= i < rows.len() ==> #[trigger] rows[i].amount > 0
}

/// Every row is positive and all amounts together fit in an `i64`, so that
/// every balance does too.
pub open spec fn rows_fit(rows: Seq<Split>) -> bool {
    amounts_positive(rows) && total_amount(rows) <= i64::MAX
}

/// The (group, currency) pairs in which `a` and `b` have rows, in the order in
/// which each first appears.
pub open spec fn pair_keys(rows: Seq<Split>, a: Seq<char>, b: Seq<char>) -> Seq<(Seq<char>, Seq<char>)>
    decreases rows.len(),
{
    if rows.len() == 0 {
        seq![]
    } else {
        let k = pair_keys(rows.drop_last(), a, b);
        let r = rows.last();
        if between(r, a, b) && !k.contains((r.group_id@, r.currency_id@)) {
            k.push((r.group_id@, r.currency_id@))
        } else {
            k
        }
    }
}

/// For each key, in order, its group, currency and net, where the net is not zero.
pub open spec fn balances(
    rows: Seq<Split>,
    keys: Seq<(Seq<char>, Seq<char>)>,
    a: Seq<char>,
    b: Seq<char>,
) -> Seq<(Seq<char>, Seq<char>, int)>
    decreases keys.len(),
{
    if keys.len() == 0 {
        seq![]
    } else {
        let prev = balances(rows, keys.drop_last(), a, b);
        let k = keys.last();
        let n = net_owed(rows, a, b, k.0, k.1);
        if n != 0 {
            prev.push((k.0, k.1, n))
        } else {
            prev
        }
    }
}

/// The non-zero balances between `a` and `b` (positive: `b` owes `a`), one per
/// group and currency, in the order in which the pair first appears.
pub open spec fn owed_model(rows: Seq<Split>, a: Seq<char>, b: Seq<char>) -> Seq<(Seq<char>, Seq<char>, int)> {
    balances(rows, pair_keys(rows, a, b), a, b)
}

/// The entries of a list of balances.
pub open spec fn entries_of(v: Seq<OwedInGroup>) -> Seq<(Seq<char>, Seq<char>, int)> {
    v.map_values(|e: OwedInGroup| e.entry())
}

/// The keys of a list of (group, currency) pairs.
pub open spec fn keys_of(v: Seq<(String, String)>) -> Seq<(Seq<char>, Seq<char>)> {
    v.map_values(|k: (String, String)| (k.0@, k.1@))
}

/// A balance is bounded by the sum of all amounts.
pub proof fn lemma_net_bounded(rows: Seq<Split>, a: Seq<char>, b: Seq<char>, g: Seq<char>, c: Seq<char>)
    requires
        amounts_positive(rows),
    ensures
        -total_amount(rows) <= net_owed(rows, a, b, g, c) <= total_amount(rows),
        0 <= total_amount(rows),
    decreases rows.len(),
{
    if rows.len() > 0 {
        let p = rows.drop_last();
        assert(amounts_positive(p)) by {
            assert forall|i: int| 0 <= i < p.len() implies #[trigger] p[i].amount > 0 by {
                assert(p[i] == rows[i]);
            }
        }
        assert(rows.last().amount > 0) by {
            assert(rows[rows.len() - 1].amount > 0);
        }
        lemma_net_bounded(p, a, b, g, c);
    }
}

/// The sum of the amounts of a prefix is at most that of the whole.
pub proof fn lemma_total_prefix(rows: Seq<Split>, i: int)
    requires
        amounts_positive(rows),
        0 <= i <= rows.len(),
    ensures
        total_amount(rows.take(i)) <= total_amount(rows),
        amounts_positive(rows.take(i)),
    decreases rows.len(),
{
    if i == rows.len() {
        assert(rows.take(i) =~= rows);
    } else {
        let p = rows.drop_last();
        assert(amounts_positive(p)) by {
            assert forall|k: int| 0 <= k < p.len() implies #[trigger] p[k].amount > 0 by {
                assert(p[k] == rows[k]);
            }
        }
        assert(rows.last().amount > 0) by {
            assert(rows[rows.len() - 1].amount > 0);
        }
        lemma_total_prefix(p, i);
        assert(p.take(i) =~= rows.take(i));
    }
}

/// Every balance between two users is bounded by the sum of all amounts.
pub proof fn lemma_balances_bounded(
    rows: Seq<Split>,
    keys: Seq<(Seq<char>, Seq<char>)>,
    a: Seq<char>,
    b: Seq<char>,
)
    requires
        amounts_positive(rows),
    ensures
        forall|k: int|
            0 <= k < balances(rows, keys, a, b).len() ==> -total_amount(rows) <= (
            #[trigger] balances(rows, keys, a, b)[k]).2 <= total_amount(rows),
    decreases keys.len(),
{
    if keys.len() > 0 {
        lemma_balances_bounded(rows, keys.drop_last(), a, b);
        let k = keys.last();
        lemma_net_bounded(rows, a, b, k.0, k.1);
        let prev = balances(rows, keys.drop_last(), a, b);
        let cur = balances(rows, keys, a, b);
        assert forall|i: int| 0 <= i < cur.len() implies -total_amount(rows) <= (#[trigger] cur[i]).2 <= total_amount(rows) by {
            if i < prev.len() {
                assert(cur[i] == prev[i]);
            }
        }
    }
}

/// The net that `b` owes `a` in group `g` and currency `c`.
pub fn net_between(rows: &Vec<Split>, a: &String, b: &String, g: &String, c: &String) -> (r: i64)
    requires
        rows_fit(rows@),
    ensures
        r == net_owed(rows@, a@, b@, g@, c@),
{
    let mut acc: i64 = 0;
    let mut i: usize = 0;
    while i < rows.len()
        invariant
            0 <= i <= rows.len(),
            rows_fit(rows@),
            acc == net_owed(rows@.take(i as int), a@, b@, g@, c@),
        decreases rows.len() - i,
    {
        let r = &rows[i];
        proof {
            let t = rows@.take(i as int + 1);
            assert(t.drop_last() =~= rows@.take(i as int));
            assert(t.last() == rows@[i as int]);
            lemma_total_prefix(rows@, i as int + 1);
            lemma_net_bounded(t, a@, b@, g@, c@);
        }
        if r.group_id == *g && r.currency_id == *c {
            if r.from_user == *b && r.to_user == *a {
                acc = acc + r.amount;
            } else if r.from_user == *a && r.to_user == *b {
                acc = acc - r.amount;
            }
        }
        i = i + 1;
    }
    assert(rows@.take(rows.len() as int) =~= rows@);
    acc
}

/// Whether `keys` holds the pair (`g`, `c`).
fn has_key(keys: &Vec<(String, String)>, g: &String, c: &String) -> (r: bool)
    ensures
        r == keys_of(keys@).contains((g@, c@)),
{
    let mut i: usize = 0;
    while i < keys.len()
        invariant
            0 <= i <= keys.len(),
            forall|k: int| 0 <= k < i ==> keys_of(keys@)[k] != (g@, c@),
        decreases keys.len() - i,
    {
        if keys[i].0 == *g && keys[i].1 == *c {
            assert(keys_of(keys@)[i as int] == (g@, c@));
            return true;
        }
        i = i + 1;
    }
    false
}

/// The (group, currency) pairs in which `a` and `b` have rows, in order of first appearance.
fn collect_keys(rows: &Vec<Split>, a: &String, b: &String) -> (keys: Vec<(String, String)>)
    ensures
        keys_of(keys@) == pair_keys(rows@, a@, b@),
{
    let mut keys: Vec<(String, String)> = Vec::new();
    let mut i: usize = 0;
    while i < rows.len()
        invariant
            0 <= i <= rows.len(),
            keys_of(keys@) == pair_keys(rows@.take(i as int), a@, b@),
        decreases rows.len() - i,
    {
        let r = &rows[i];
        proof {
            let t = rows@.take(i as int + 1);
            assert(t.drop_last() =~= rows@.take(i as int));
            assert(t.last() == rows@[i as int]);
        }
        let is_between = (r.from_user == *a && r.to_user == *b) || (r.from_user == *b && r.to_user == *a);
        if is_between && !has_key(&keys, &r.group_id, &r.currency_id) {
            let k = (r.group_id.clone(), r.currency_id.clone());
            keys.push(k);
            assert(keys_of(keys@) =~= pair_keys(rows@.take(i as int), a@, b@).push((r.group_id@, r.currency_id@)));
        }
        i = i + 1;
    }
    assert(rows@.take(rows.len() as int) =~= rows@);
    keys
}

/// The non-zero balances between `a` and `b`, one per group and currency, in
/// the order in which each pair first appears; positive where `b` owes `a`.
pub fn owed_between(rows: &Vec<Split>, a: &String, b: &String) -> (r: Vec<OwedInGroup>)
    requires
        rows_fit(rows@),
    ensures
        entries_of(r@) == owed_model(rows@, a@, b@),
{
    let keys = collect_keys(rows, a, b);
    let ghost kv = keys_of(keys@);
    let mut out: Vec<OwedInGroup> = Vec::new();
    let mut j: usize = 0;
    while j < keys.len()
        invariant
            0 <= j <= keys.len(),
            rows_fit(rows@),
            kv == keys_of(keys@),
            kv == pair_keys(rows@, a@, b@),
            entries_of(out@) == balances(rows@, kv.take(j as int), a@, b@),
        decreases keys.len() - j,
    {
        let g = &keys[j].0;
        let c = &keys[j].1;
        let n = net_between(rows, a, b, g, c);
        proof {
            let t = kv.take(j as int + 1);
            assert(t.drop_last() =~= kv.take(j as int));
            assert(t.last() == kv[j as int]);
        }
        if n != 0 {
            let e = OwedInGroup { group_id: g.clone(), amount: Amount { amount: n, currency_id: c.clone() } };
            out.push(e);
            assert(entries_of(out@) =~= balances(rows@, kv.take(j as int), a@, b@).push((g@, c@, n as int)));
        }
        j = j + 1;
    }
    assert(kv.take(keys.len() as int) =~= kv);
    out
}

} // verus!
