use vstd::prelude::*;

use crate::outside::now_millis;

verus! {

struct ExpiringEntry<V> {
    key: String,
    value: V,
    expiration: i128,
}

/// The index of the first entry with key `k`, or -1.
pub open spec fn find_key<V>(s: Seq<(Seq<char>, V, int)>, k: Seq<char>) -> int
    decreases s.len(),
{
    if s.len() == 0 {
        -1
    } else {
        let i = find_key(s.drop_last(), k);
        if i >= 0 {
            i
        } else if s.last().0 == k {
            s.len() - 1
        } else {
            -1
        }
    }
}

/// The entries that expire after `now`, in order.
pub open spec fn unexpired<V>(s: Seq<(Seq<char>, V, int)>, now: int) -> Seq<(Seq<char>, V, int)>
    decreases s.len(),
{
    if s.len() == 0 {
        seq![]
    } else {
        let p = unexpired(s.drop_last(), now);
        if s.last().2 > now {
            p.push(s.last())
        } else {
            p
        }
    }
}

/// No two entries share a key.
pub open spec fn keys_unique<V>(s: Seq<(Seq<char>, V, int)>) -> bool {
    forall|i: int, j: int| 0 <= i < j < s.len() ==> (#[trigger] s[i]).0 != (#[trigger] s[j]).0
}

/// The entries `s` after `value` is written under `k` with expiration `exp`:
/// the first entry of `k` is replaced, or a new one is added at the end.
pub open spec fn written<V>(s: Seq<(Seq<char>, V, int)>, k: Seq<char>, value: V, exp: int) -> Seq<(Seq<char>, V, int)> {
    let i = find_key(s, k);
    if i >= 0 {
        s.update(i, (k, value, exp))
    } else {
        s.push((k, value, exp))
    }
}

/// A map from text keys to values in which each entry lapses a fixed time
/// after it was last written. Times are milliseconds since the Unix epoch.
pub struct ExpiringHashMap<V> {
    entries: Vec<ExpiringEntry<V>>,
    default_ttl: u64,
}

impl<V> ExpiringHashMap<V> {
    /// The entries as (key, value, expiration), in order.
    pub closed spec fn view(&self) -> Seq<(Seq<char>, V, int)> {
        self.entries@.map_values(|e: ExpiringEntry<V>| (e.key@, e.value, e.expiration as int))
    }

    /// The map's invariant: each key has at most one entry.
    pub open spec fn wf(&self) -> bool {
        keys_unique(self@)
    }

    /// How long an entry lives, in milliseconds.
    pub closed spec fn ttl(&self) -> nat {
        self.default_ttl as nat
    }

    /// An empty map whose entries live `default_ttl` milliseconds.
    pub fn new(default_ttl: u64) -> (r: Self)
        ensures
            r@ == Seq::<(Seq<char>, V, int)>::empty(),
            r.ttl() == default_ttl,
            r.wf(),
    {
        ExpiringHashMap { entries: Vec::new(), default_ttl }
    }

    fn index_of(&self, key: &String) -> (r: Option<usize>)
        ensures
            find_key(self@, key@) == -1 <==> r is None,
            r is Some ==> r->0 == find_key(self@, key@) && r->0 < self@.len() && self@[r->0 as int].0 == key@,
            -1 <= find_key(self@, key@) < self@.len(),
    {
        proof {
            lemma_find_range(self@, key@);
        }
        let mut i: usize = 0;
        while i < self.entries.len()
            invariant
                0 <= i <= self.entries.len(),
                forall|k: int| 0 <= k < i ==> (#[trigger] self@[k]).0 != key@,
            decreases self.entries.len() - i,
        {
            if self.entries[i].key == *key {
                proof {
                    lemma_find_first(self@, key@, i as int);
                }
                return Some(i);
            }
            i = i + 1;
        }
        proof {
            lemma_find_none(self@, key@);
        }
        None
    }

    /// Writes `value` under `key` at time `now`; the entry expires `ttl` later.
    pub fn insert_at(&mut self, key: String, value: V, now: i64)
        requires
            old(self).wf(),
        ensures
            final(self).wf(),
            final(self).ttl() == old(self).ttl(),
            final(self)@ == written(old(self)@, key@, value, now + old(self).ttl()),
    {
        let expiration = now as i128 + self.default_ttl as i128;
        let ghost e = (key@, value, expiration as int);
        match self.index_of(&key) {
            Some(i) => {
                let entry = ExpiringEntry { key, value, expiration };
                self.entries.set(i, entry);
                assert(self@ =~= old(self)@.update(i as int, e));
            },
            None => {
                let entry = ExpiringEntry { key, value, expiration };
                self.entries.push(entry);
                assert(self@ =~= old(self)@.push(e));
            },
        }
        proof {
            lemma_written_unique(old(self)@, e.0, e.1, e.2);
        }
    }

    /// Writes `value` under `key` at the current time.
    pub fn insert(&mut self, key: String, value: V)
        requires
            old(self).wf(),
        ensures
            final(self).wf(),
            final(self).ttl() == old(self).ttl(),
            exists|now: int| final(self)@ == #[trigger] written(old(self)@, key@, value, now + old(self).ttl()),
    {
        let now = now_millis();
        self.insert_at(key, value, now);
    }

    /// Drops every entry that expired at or before `now`.
    pub fn cleanup_expired_keys_at(&mut self, now: i64)
        requires
            old(self).wf(),
        ensures
            final(self).wf(),
            final(self).ttl() == old(self).ttl(),
            final(self)@ == unexpired(old(self)@, now as int),
    {
        let ghost orig = self@;
        let mut i: usize = 0;
        let mut j: usize = 0;
        let n = self.entries.len();
        assert(orig.len() == n);
        while i < self.entries.len()
            invariant
                0 <= j <= orig.len(),
                orig.len() == n,
                self.default_ttl == old(self).default_ttl,
                orig == old(self)@,
                i == unexpired(orig.take(j as int), now as int).len(),
                self@ == unexpired(orig.take(j as int), now as int) + orig.skip(j as int),
            decreases self.entries.len() - i,
        {
            let ghost pre = unexpired(orig.take(j as int), now as int);
            proof {
                assert(self.entries@.len() == self@.len());
                assert(self@.len() == i + orig.len() - j);
                let t = orig.take(j as int + 1);
                assert(t.drop_last() =~= orig.take(j as int));
                assert(self@[i as int] == orig[j as int]);
                assert(t.last() == orig[j as int]);
            }
            let ghost before = self@;
            if self.entries[i].expiration <= now as i128 {
                self.entries.remove(i);
                assert(unexpired(orig.take(j as int + 1), now as int) == pre);
                assert(self@ =~= before.remove(i as int));
                assert(before.remove(i as int) =~= pre + orig.skip(j as int + 1));
            } else {
                i = i + 1;
                assert(self@ =~= before);
                assert(self@ =~= unexpired(orig.take(j as int + 1), now as int) + orig.skip(j as int + 1));
            }
            j = j + 1;
        }
        assert(j == orig.len()) by {
            assert(self@.len() == i + orig.skip(j as int).len());
        }
        assert(orig.take(j as int) =~= orig);
        assert(self@ =~= unexpired(orig, now as int));
        proof {
            lemma_unexpired_unique(orig, now as int);
        }
    }

    /// Drops the entries that expired by now.
    fn cleanup_expired_keys(&mut self)
        requires
            old(self).wf(),
        ensures
            final(self).wf(),
            final(self).ttl() == old(self).ttl(),
            exists|now: int| final(self)@ == #[trigger] unexpired(old(self)@, now),
    {
        let now = now_millis();
        self.cleanup_expired_keys_at(now);
    }

    /// The value under `key`, if any.
    fn lookup(&self, key: &String) -> (r: Option<&V>)
        ensures
            find_key(self@, key@) == -1 <==> r is None,
            r is Some ==> *r->0 == self@[find_key(self@, key@)].1,
    {
        match self.index_of(key) {
            Some(i) => Some(&self.entries[i].value),
            None => None,
        }
    }

    /// Drops what expired at or before `now`, then gives the value under `key`.
    pub fn get_at(&mut self, key: &String, now: i64) -> (r: Option<&V>)
        requires
            old(self).wf(),
        ensures
            final(self).wf(),
            final(self).ttl() == old(self).ttl(),
            final(self)@ == unexpired(old(self)@, now as int),
            find_key(final(self)@, key@) == -1 <==> r is None,
            r is Some ==> *r->0 == final(self)@[find_key(final(self)@, key@)].1,
    {
        self.cleanup_expired_keys_at(now);
        self.lookup(key)
    }

    /// Drops what expired by now, then gives the value under `key`.
    pub fn get(&mut self, key: &String) -> (r: Option<&V>)
        requires
            old(self).wf(),
        ensures
            final(self).wf(),
            final(self).ttl() == old(self).ttl(),
            exists|now: int| final(self)@ == #[trigger] unexpired(old(self)@, now),
            find_key(final(self)@, key@) == -1 <==> r is None,
            r is Some ==> *r->0 == final(self)@[find_key(final(self)@, key@)].1,
    {
        self.cleanup_expired_keys();
        self.lookup(key)
    }

    /// Drops the entry under `key`. Gives nothing back.
    pub fn remove(&mut self, key: &String) -> (r: Option<V>)
        requires
            old(self).wf(),
        ensures
            final(self).wf(),
            r is None,
            final(self).ttl() == old(self).ttl(),
            -1 <= find_key(old(self)@, key@) < old(self)@.len(),
            find_key(old(self)@, key@) >= 0 ==> final(self)@ == old(self)@.remove(find_key(old(self)@, key@)),
            find_key(old(self)@, key@) < 0 ==> final(self)@ == old(self)@,
            find_key(final(self)@, key@) == -1,
    {
        proof {
            lemma_find_range(self@, key@);
        }
        match self.index_of(key) {
            Some(i) => {
                self.entries.remove(i);
                assert(self@ =~= old(self)@.remove(i as int));
                proof {
                    let o = old(self)@;
                    assert forall|q: int| 0 <= q < self@.len() implies (#[trigger] self@[q]).0 != key@ by {
                        if q < i {
                            assert(self@[q] == o[q]);
                        } else {
                            assert(self@[q] == o[q + 1]);
                        }
                    }
                    lemma_find_none(self@, key@);
                    assert forall|p: int, q: int| 0 <= p < q < self@.len() implies (#[trigger] self@[p]).0
                        != (#[trigger] self@[q]).0 by {
                        let pp = if p < i { p } else { p + 1 };
                        let qq = if q < i { q } else { q + 1 };
                        assert(self@[p] == o[pp]);
                        assert(self@[q] == o[qq]);
                    }
                }
            },
            None => {},
        }
        None
    }

    /// Drops what expired at or before `now`, then tells whether `key` has a value.
    pub fn contains_key_at(&mut self, key: &String, now: i64) -> (r: bool)
        requires
            old(self).wf(),
        ensures
            final(self).wf(),
            final(self).ttl() == old(self).ttl(),
            final(self)@ == unexpired(old(self)@, now as int),
            r == (find_key(final(self)@, key@) >= 0),
    {
        self.cleanup_expired_keys_at(now);
        self.index_of(key).is_some()
    }

    /// Drops what expired by now, then tells whether `key` has a value.
    pub fn contains_key(&mut self, key: &String) -> (r: bool)
        requires
            old(self).wf(),
        ensures
            final(self).wf(),
            final(self).ttl() == old(self).ttl(),
            exists|now: int| final(self)@ == #[trigger] unexpired(old(self)@, now),
            r == (find_key(final(self)@, key@) >= 0),
    {
        self.cleanup_expired_keys();
        self.index_of(key).is_some()
    }

    /// Drops every entry.
    pub fn clear(&mut self)
        requires
            old(self).wf(),
        ensures
            final(self).wf(),
            final(self).ttl() == old(self).ttl(),
            final(self)@ == Seq::<(Seq<char>, V, int)>::empty(),
    {
        self.entries.clear();
        assert(self@ =~= Seq::<(Seq<char>, V, int)>::empty());
    }
}

proof fn lemma_find_missing<V>(s: Seq<(Seq<char>, V, int)>, k: Seq<char>)
    requires
        find_key(s, k) == -1,
    ensures
        forall|q: int| 0 <= q < s.len() ==> (#[trigger] s[q]).0 != k,
    decreases s.len(),
{
    if s.len() > 0 {
        let p = s.drop_last();
        lemma_find_missing(p, k);
        assert forall|q: int| 0 <= q < s.len() implies (#[trigger] s[q]).0 != k by {
            if q < p.len() {
                assert(s[q] == p[q]);
            }
        }
    }
}

proof fn lemma_written_unique<V>(s: Seq<(Seq<char>, V, int)>, k: Seq<char>, value: V, exp: int)
    requires
        keys_unique(s),
    ensures
        keys_unique(written(s, k, value, exp)),
{
    lemma_find_range(s, k);
    let w = written(s, k, value, exp);
    let i = find_key(s, k);
    if i < 0 {
        lemma_find_missing(s, k);
        assert forall|p: int, q: int| 0 <= p < q < w.len() implies (#[trigger] w[p]).0 != (#[trigger] w[q]).0 by {
            assert(w[p] == s[p]);
            if q < s.len() {
                assert(w[q] == s[q]);
            }
        }
    } else {
        assert forall|p: int, q: int| 0 <= p < q < w.len() implies (#[trigger] w[p]).0 != (#[trigger] w[q]).0 by {
            assert(w[p].0 == s[p].0);
            assert(w[q].0 == s[q].0);
        }
    }
}

/// Every entry of `unexpired(s, now)` is an entry of `s`, and keys stay unique.
proof fn lemma_unexpired_unique<V>(s: Seq<(Seq<char>, V, int)>, now: int)
    requires
        keys_unique(s),
    ensures
        keys_unique(unexpired(s, now)),
        forall|j: int| 0 <= j < unexpired(s, now).len() ==> exists|q: int| 0 <= q < s.len() && #[trigger] unexpired(s, now)[j] == s[q],
    decreases s.len(),
{
    if s.len() > 0 {
        let p = s.drop_last();
        assert(keys_unique(p)) by {
            assert forall|i: int, j: int| 0 <= i < j < p.len() implies (#[trigger] p[i]).0 != (#[trigger] p[j]).0 by {
                assert(p[i] == s[i] && p[j] == s[j]);
            }
        }
        lemma_unexpired_unique(p, now);
        let u = unexpired(p, now);
        let w = unexpired(s, now);
        assert forall|j: int| 0 <= j < w.len() implies exists|q: int| 0 <= q < s.len() && #[trigger] w[j] == s[q] by {
            if j < u.len() {
                let q = choose|q: int| 0 <= q < p.len() && #[trigger] u[j] == p[q];
                assert(w[j] == u[j]);
                assert(s[q] == p[q]);
            } else {
                assert(w[j] == s[s.len() - 1]);
            }
        }
        assert forall|i: int, j: int| 0 <= i < j < w.len() implies (#[trigger] w[i]).0 != (#[trigger] w[j]).0 by {
            assert(w[i] == u[i]);
            let qi = choose|q: int| 0 <= q < p.len() && #[trigger] u[i] == p[q];
            if j < u.len() {
                assert(w[j] == u[j]);
            } else {
                assert(w[j] == s[s.len() - 1]);
                assert(s[qi] == p[qi]);
            }
        }
    }
}

proof fn lemma_find_range<V>(s: Seq<(Seq<char>, V, int)>, k: Seq<char>)
    ensures
        -1 <= find_key(s, k) < s.len(),
        find_key(s, k) >= 0 ==> s[find_key(s, k)].0 == k,
    decreases s.len(),
{
    if s.len() > 0 {
        lemma_find_range(s.drop_last(), k);
        let i = find_key(s.drop_last(), k);
        if i >= 0 {
            assert(s.drop_last()[i] == s[i]);
        }
    }
}

proof fn lemma_find_first<V>(s: Seq<(Seq<char>, V, int)>, k: Seq<char>, i: int)
    requires
        0 <= i < s.len(),
        s[i].0 == k,
        forall|q: int| 0 <= q < i ==> (#[trigger] s[q]).0 != k,
    ensures
        find_key(s, k) == i,
    decreases s.len(),
{
    if i < s.len() - 1 {
        let p = s.drop_last();
        assert(p[i] == s[i]);
        assert forall|q: int| 0 <= q < i implies (#[trigger] p[q]).0 != k by {
            assert(p[q] == s[q]);
        }
        lemma_find_first(p, k, i);
    } else {
        lemma_find_none(s.drop_last(), k);
    }
}

proof fn lemma_find_none<V>(s: Seq<(Seq<char>, V, int)>, k: Seq<char>)
    requires
        forall|q: int| 0 <= q < s.len() ==> (#[trigger] s[q]).0 != k,
    ensures
        find_key(s, k) == -1,
    decreases s.len(),
{
    if s.len() > 0 {
        let p = s.drop_last();
        assert forall|q: int| 0 <= q < p.len() implies (#[trigger] p[q]).0 != k by {
            assert(p[q] == s[q]);
        }
        lemma_find_none(p, k);
        assert(s[s.len() - 1].0 != k);
    }
}

} // verus!
