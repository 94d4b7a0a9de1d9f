use vstd::prelude::*;

use crate::balance::{
    amounts_positive, currency_net, entries_of, lemma_balances_bounded, lemma_net_bounded, net_between, net_owed,
    owed_between, owed_model, pair_keys, rows_fit, total_amount,
};
use crate::convert::{convert_amount, converted, convertible};
use crate::currency::Currency;
use crate::expense::{Expense, NonGroupExpense, SplitInput};
use crate::group::{copy_text, Group, GroupMembership};
use crate::netting::{cross_group_plan, names_of, pairs_of, plan_cross_group, settlements_of};
use crate::outside::{new_id, now_rfc3339, to_utc_rfc3339, utc_rfc3339};
use crate::settle::{allocate, allocate_payment, leftover, rank_debts, ranked_debts};
use crate::split::{copy_rows, kind_name, Split, TransactionType};
use crate::user::OwedInGroup;

verus! {

/// Why a ledger operation was refused. Nothing is written in any case.
#[derive(Clone, Copy, Debug, PartialEq, Eq, Structural)]
pub enum LedgerError {
    /// An amount is not positive, or cannot be represented.
    InvalidAmount,
    /// A share or a payment names someone outside the group.
    NotAGroupMember,
    /// The creator of an expense is among its shares.
    SelfSplitNotAllowed,
    /// A group or a currency does not exist, or no single direct group fits.
    NotFound,
    /// The store refused the write: a row identifier is taken, an amount is
    /// not positive, or the amounts no longer fit.
    Store,
}

/// The identifiers of `legs` are distinct from each other and from those of `rows`.
pub open spec fn ids_fresh(rows: Seq<Split>, legs: Seq<Split>) -> bool {
    &&& forall|i: int, k: int|
        0 <= i < legs.len() && 0 <= k < rows.len() ==> #[trigger] legs[i].id@ != #[trigger] rows[k].id@
    &&& forall|i: int, j: int| 0 <= i < j < legs.len() ==> #[trigger] legs[i].id@ != #[trigger] legs[j].id@
}

/// No correlation identifier of `legs` is already used by a row of `rows`.
pub open spec fn parts_fresh(rows: Seq<Split>, legs: Seq<Split>) -> bool {
    forall|i: int, k: int|
        0 <= i < legs.len() && 0 <= k < rows.len() && (#[trigger] legs[i]).part_transaction is Some ==> !text_is(
            (#[trigger] rows[k]).part_transaction,
            legs[i].part_transaction->0@,
        )
}

/// Whether the store accepts `legs` after `rows`.
pub open spec fn appendable(rows: Seq<Split>, legs: Seq<Split>) -> bool {
    &&& ids_fresh(rows, legs)
    &&& parts_fresh(rows, legs)
    &&& amounts_positive(legs)
    &&& total_amount(rows) + total_amount(legs) <= i64::MAX
}

/// The sum of the amounts of two lists of rows, one after the other.
pub proof fn lemma_total_concat(rows: Seq<Split>, legs: Seq<Split>)
    ensures
        total_amount(rows + legs) == total_amount(rows) + total_amount(legs),
    decreases legs.len(),
{
    if legs.len() == 0 {
        assert(rows + legs =~= rows);
    } else {
        lemma_total_concat(rows, legs.drop_last());
        assert((rows + legs).drop_last() =~= rows + legs.drop_last());
    }
}

/// The append-only store of ledger rows, expenses, groups, memberships and
/// currencies.
pub struct Ledger {
    splits: Vec<Split>,
    expenses: Vec<Expense>,
    groups: Vec<Group>,
    memberships: Vec<GroupMembership>,
    currencies: Vec<Currency>,
    total: i64,
}

impl Ledger {
    /// The ledger rows, oldest first.
    pub closed spec fn rows(&self) -> Seq<Split> {
        self.splits@
    }

    /// The expenses, oldest first.
    pub closed spec fn expense_rows(&self) -> Seq<Expense> {
        self.expenses@
    }

    /// The groups, oldest first.
    pub closed spec fn group_rows(&self) -> Seq<Group> {
        self.groups@
    }

    /// The memberships, oldest first.
    pub closed spec fn membership_rows(&self) -> Seq<GroupMembership> {
        self.memberships@
    }

    /// The known currencies.
    pub closed spec fn currency_rows(&self) -> Seq<Currency> {
        self.currencies@
    }

    /// Every row is positive, all amounts together fit in an `i64`, and the
    /// running total is their sum.
    pub closed spec fn wf(&self) -> bool {
        &&& rows_fit(self.splits@)
        &&& self.total == total_amount(self.splits@)
    }

    /// Whether `user` belongs to group `group`.
    pub open spec fn member(&self, group: Seq<char>, user: Seq<char>) -> bool {
        member_in(self.membership_rows(), group, user)
    }

    /// The members of group `group`.
    pub open spec fn members(&self, group: Seq<char>) -> Set<Seq<char>> {
        Set::new(|u: Seq<char>| self.member(group, u))
    }

    /// Whether a group with identifier `group` exists.
    pub open spec fn has_group(&self, group: Seq<char>) -> bool {
        exists|k: int| 0 <= k < self.group_rows().len() && #[trigger] self.group_rows()[k].id@ == group
    }

    /// The index of the first currency with identifier `id`, or -1.
    pub open spec fn currency_index(&self, id: Seq<char>) -> int {
        first_currency(self.currency_rows(), id)
    }

    /// Whether `a` and `b` differ at most in their rows.
    pub open spec fn same_but_rows(a: Ledger, b: Ledger) -> bool {
        &&& a.expense_rows() == b.expense_rows()
        &&& a.group_rows() == b.group_rows()
        &&& a.membership_rows() == b.membership_rows()
        &&& a.currency_rows() == b.currency_rows()
    }

    /// An empty ledger.
    pub fn new() -> (r: Ledger)
        ensures
            r.wf(),
            r.rows() == Seq::<Split>::empty(),
            r.expense_rows() == Seq::<Expense>::empty(),
            r.group_rows() == Seq::<Group>::empty(),
            r.membership_rows() == Seq::<GroupMembership>::empty(),
            r.currency_rows() == Seq::<Currency>::empty(),
    {
        Ledger {
            splits: Vec::new(),
            expenses: Vec::new(),
            groups: Vec::new(),
            memberships: Vec::new(),
            currencies: Vec::new(),
            total: 0,
        }
    }

    /// The ledger rows, oldest first.
    pub fn splits(&self) -> (r: &Vec<Split>)
        ensures
            r@ == self.rows(),
    {
        &self.splits
    }

    /// The expenses, oldest first.
    pub fn expenses(&self) -> (r: &Vec<Expense>)
        ensures
            r@ == self.expense_rows(),
    {
        &self.expenses
    }

    /// The groups, oldest first.
    pub fn groups(&self) -> (r: &Vec<Group>)
        ensures
            r@ == self.group_rows(),
    {
        &self.groups
    }

    /// Adds a currency; a lookup finds the first one added under an identifier.
    pub fn add_currency(&mut self, c: Currency)
        requires
            old(self).wf(),
        ensures
            final(self).wf(),
            final(self).currency_rows() == old(self).currency_rows().push(c),
            final(self).rows() == old(self).rows(),
            final(self).expense_rows() == old(self).expense_rows(),
            final(self).group_rows() == old(self).group_rows(),
            final(self).membership_rows() == old(self).membership_rows(),
    {
        self.currencies.push(c);
    }

    /// The first currency added under identifier `id`.
    pub fn currency(&self, id: &String) -> (r: Option<&Currency>)
        ensures
            self.currency_index(id@) == -1 <==> r is None,
            r is Some ==> *r->0 == self.currency_rows()[self.currency_index(id@)],
    {
        let mut i: usize = 0;
        while i < self.currencies.len()
            invariant
                0 <= i <= self.currencies.len(),
                forall|k: int| 0 <= k < i ==> #[trigger] self.currencies@[k].id@ != id@,
            decreases self.currencies.len() - i,
        {
            if self.currencies[i].id == *id {
                proof {
                    lemma_first_currency(self.currencies@, id@, i as int);
                }
                return Some(&self.currencies[i]);
            }
            i = i + 1;
        }
        proof {
            lemma_no_currency(self.currencies@, id@);
        }
        None
    }

    /// Whether group `group` exists.
    pub fn group_exists(&self, group: &String) -> (r: bool)
        ensures
            r == self.has_group(group@),
    {
        let mut i: usize = 0;
        while i < self.groups.len()
            invariant
                0 <= i <= self.groups.len(),
                forall|k: int| 0 <= k < i ==> #[trigger] self.groups@[k].id@ != group@,
            decreases self.groups.len() - i,
        {
            if self.groups[i].id == *group {
                return true;
            }
            i = i + 1;
        }
        false
    }

    /// Whether `user` belongs to group `group`.
    pub fn is_member(&self, group: &String, user: &String) -> (r: bool)
        ensures
            r == self.member(group@, user@),
    {
        let mut i: usize = 0;
        while i < self.memberships.len()
            invariant
                0 <= i <= self.memberships.len(),
                forall|k: int|
                    0 <= k < i ==> !(#[trigger] self.memberships@[k].group_id@ == group@
                        && self.memberships@[k].user_id@ == user@),
            decreases self.memberships.len() - i,
        {
            if self.memberships[i].group_id == *group && self.memberships[i].user_id == *user {
                assert(self.membership_rows()[i as int].group_id@ == group@);
                return true;
            }
            i = i + 1;
        }
        false
    }

    /// Appends `legs` in one step: all of them, or none where the store
    /// refuses one of them.
    pub fn insert_all(&mut self, mut legs: Vec<Split>) -> (r: Result<(), LedgerError>)
        requires
            old(self).wf(),
        ensures
            final(self).wf(),
            Ledger::same_but_rows(*final(self), *old(self)),
            r is Ok <==> appendable(old(self).rows(), legs@),
            r is Ok ==> final(self).rows() == old(self).rows() + legs@,
            r is Err ==> r == Err::<(), LedgerError>(LedgerError::Store) && *final(self) == *old(self),
    {
        let mut sum: i64 = self.total;
        let mut i: usize = 0;
        while i < legs.len()
            invariant
                0 <= i <= legs.len(),
                self.wf(),
                sum == self.total + total_amount(legs@.take(i as int)),
                amounts_positive(legs@.take(i as int)),
            decreases legs.len() - i,
        {
            proof {
                let t = legs@.take(i as int + 1);
                assert(t.drop_last() =~= legs@.take(i as int));
            }
            if legs[i].amount <= 0 {
                proof {
                    assert(!amounts_positive(legs@));
                }
                return Err(LedgerError::Store);
            }
            match sum.checked_add(legs[i].amount) {
                Some(s) => {
                    sum = s;
                },
                None => {
                    proof {
                        lemma_total_prefix_grows(legs@, i as int + 1);
                    }
                    return Err(LedgerError::Store);
                },
            }
            i = i + 1;
        }
        assert(legs@.take(legs.len() as int) =~= legs@);
        let mut i: usize = 0;
        while i < legs.len()
            invariant
                0 <= i <= legs.len(),
                self.wf(),
                forall|p: int, k: int|
                    0 <= p < i && 0 <= k < self.splits@.len() ==> #[trigger] legs@[p].id@ != #[trigger] self.splits@[k].id@,
                forall|p: int, q: int| 0 <= p < q < i ==> #[trigger] legs@[p].id@ != #[trigger] legs@[q].id@,
                forall|p: int, k: int|
                    0 <= p < i && 0 <= k < self.splits@.len() && (#[trigger] legs@[p]).part_transaction is Some ==> !text_is(
                        (#[trigger] self.splits@[k]).part_transaction,
                        legs@[p].part_transaction->0@,
                    ),
            decreases legs.len() - i,
        {
            let mut k: usize = 0;
            while k < self.splits.len()
                invariant
                    0 <= i < legs.len(),
                    self.wf(),
                    0 <= k <= self.splits.len(),
                    forall|q: int| 0 <= q < k ==> #[trigger] self.splits@[q].id@ != legs@[i as int].id@,
                    forall|q: int| 0 <= q < k && legs@[i as int].part_transaction is Some ==> !text_is(
                        (#[trigger] self.splits@[q]).part_transaction,
                        legs@[i as int].part_transaction->0@,
                    ),
                decreases self.splits.len() - k,
            {
                if part_clash(&legs[i].part_transaction, &self.splits[k].part_transaction) {
                    assert(!parts_fresh(self.splits@, legs@));
                    return Err(LedgerError::Store);
                }
                if self.splits[k].id == legs[i].id {
                    assert(legs@[i as int].id@ == self.splits@[k as int].id@);
                    assert(!ids_fresh(self.splits@, legs@));
                    return Err(LedgerError::Store);
                }
                k = k + 1;
            }
            let mut q: usize = 0;
            while q < i
                invariant
                    0 <= q <= i < legs.len(),
                    self.wf(),
                    forall|p: int| 0 <= p < q ==> #[trigger] legs@[p].id@ != legs@[i as int].id@,
                decreases i - q,
            {
                if legs[q].id == legs[i].id {
                    assert(legs@[q as int].id@ == legs@[i as int].id@);
                    assert(!ids_fresh(self.splits@, legs@));
                    return Err(LedgerError::Store);
                }
                q = q + 1;
            }
            i = i + 1;
        }
        proof {
            lemma_total_concat(self.splits@, legs@);
        }
        let ghost before = self.splits@;
        let ghost lv = legs@;
        self.splits.append(&mut legs);
        self.total = sum;
        proof {
            assert(amounts_positive(self.splits@)) by {
                assert forall|k: int| 0 <= k < self.splits@.len() implies #[trigger] self.splits@[k].amount > 0 by {
                    if k < before.len() {
                        assert(self.splits@[k] == before[k]);
                    } else {
                        assert(self.splits@[k] == lv[k - before.len()]);
                    }
                }
            }
        }
        Ok(())
    }

    /// Whether group `k` is a direct group whose members are exactly `users`.
    pub open spec fn direct_for(&self, k: int, users: Set<Seq<char>>) -> bool {
        &&& self.group_rows()[k].direct
        &&& self.members(self.group_rows()[k].id@) == users
    }

    /// Whether exactly one group, the `k`-th, is a direct group of `users`.
    pub open spec fn sole_direct(&self, k: int, users: Set<Seq<char>>) -> bool {
        &&& 0 <= k < self.group_rows().len()
        &&& self.direct_for(k, users)
        &&& forall|q: int| 0 <= q < self.group_rows().len() && #[trigger] self.direct_for(q, users) ==> q == k
    }

    /// Whether the members of group `group` are exactly the users of `users`.
    fn has_exactly(&self, group: &String, users: &Vec<String>) -> (r: bool)
        ensures
            r == (self.members(group@) == names_of(users@).to_set()),
    {
        let ghost want = names_of(users@).to_set();
        let mut i: usize = 0;
        while i < users.len()
            invariant
                0 <= i <= users.len(),
                want == names_of(users@).to_set(),
                forall|p: int| 0 <= p < i ==> self.member(group@, #[trigger] names_of(users@)[p]),
            decreases users.len() - i,
        {
            if !self.is_member(group, &users[i]) {
                proof {
                    assert(want.contains(names_of(users@)[i as int]));
                    assert(!self.members(group@).contains(names_of(users@)[i as int]));
                }
                return false;
            }
            i = i + 1;
        }
        let mut k: usize = 0;
        while k < self.memberships.len()
            invariant
                0 <= k <= self.memberships.len(),
                want == names_of(users@).to_set(),
                forall|p: int| 0 <= p < users.len() ==> self.member(group@, #[trigger] names_of(users@)[p]),
                forall|q: int|
                    0 <= q < k && #[trigger] self.memberships@[q].group_id@ == group@ ==> names_of(users@).contains(
                        self.memberships@[q].user_id@,
                    ),
            decreases self.memberships.len() - k,
        {
            if self.memberships[k].group_id == *group {
                if !has_name(users, &self.memberships[k].user_id) {
                    proof {
                        let u = self.memberships@[k as int].user_id@;
                        assert(self.membership_rows()[k as int].group_id@ == group@);
                        assert(self.members(group@).contains(u));
                        assert(!want.contains(u));
                    }
                    return false;
                }
            }
            k = k + 1;
        }
        proof {
            assert forall|u: Seq<char>| self.members(group@).contains(u) <==> want.contains(u) by {
                if self.members(group@).contains(u) {
                    let q = choose|q: int|
                        0 <= q < self.membership_rows().len() && #[trigger] self.membership_rows()[q].group_id@
                            == group@ && self.membership_rows()[q].user_id@ == u;
                    assert(self.memberships@[q].group_id@ == group@);
                }
                if want.contains(u) {
                    let p = choose|p: int| 0 <= p < names_of(users@).len() && names_of(users@)[p] == u;
                    assert(self.member(group@, names_of(users@)[p]));
                }
            }
            assert(self.members(group@) =~= want);
        }
        true
    }

    /// The one direct group whose members are exactly `users`; `NotFound`
    /// where there is none, or more than one.
    pub fn find_direct_group(&self, users: &Vec<String>) -> (r: Result<Group, LedgerError>)
        ensures
            (exists|k: int| self.sole_direct(k, names_of(users@).to_set())) <==> r is Ok,
            r is Ok ==> exists|k: int|
                self.sole_direct(k, names_of(users@).to_set()) && r->Ok_0 == self.group_rows()[k],
            r is Err ==> r == Err::<Group, LedgerError>(LedgerError::NotFound),
    {
        let ghost want = names_of(users@).to_set();
        let mut found: Option<usize> = None;
        let mut i: usize = 0;
        while i < self.groups.len()
            invariant
                0 <= i <= self.groups.len(),
                want == names_of(users@).to_set(),
                found is None ==> forall|q: int| 0 <= q < i ==> !#[trigger] self.direct_for(q, want),
                found is Some ==> {
                    &&& found->0 < i
                    &&& self.direct_for(found->0 as int, want)
                    &&& forall|q: int| 0 <= q < i && #[trigger] self.direct_for(q, want) ==> q == found->0
                },
            decreases self.groups.len() - i,
        {
            if self.groups[i].direct && self.has_exactly(&self.groups[i].id, users) {
                match found {
                    Some(f) => {
                        proof {
                            assert(self.direct_for(f as int, want));
                            assert(self.direct_for(i as int, want));
                            assert forall|k: int| !self.sole_direct(k, want) by {
                                if self.sole_direct(k, want) {
                                    assert(f as int == k);
                                    assert(i as int == k);
                                }
                            }
                        }
                        return Err(LedgerError::NotFound);
                    },
                    None => {
                        found = Some(i);
                    },
                }
            }
            i = i + 1;
        }
        match found {
            Some(f) => {
                assert(self.sole_direct(f as int, want));
                Ok(self.groups[f].copy())
            },
            None => {
                proof {
                    assert forall|k: int| !self.sole_direct(k, want) by {
                        if self.sole_direct(k, want) {
                            assert(self.direct_for(k, want));
                        }
                    }
                }
                Err(LedgerError::NotFound)
            },
        }
    }

    /// Makes a group created by `creator`, with `creator` as its only member.
    /// A group without a name is a direct group.
    pub fn create_group(&mut self, creator: &String, name: Option<String>) -> (r: Result<Group, LedgerError>)
        requires
            old(self).wf(),
        ensures
            final(self).wf(),
            r is Err ==> r == Err::<Group, LedgerError>(LedgerError::Store) && *final(self) == *old(self),
            r is Ok ==> {
                let g = r->Ok_0;
                &&& !old(self).group_id_used(g.id@)
                &&& final(self).rows() == old(self).rows()
                &&& final(self).expense_rows() == old(self).expense_rows()
                &&& final(self).currency_rows() == old(self).currency_rows()
                &&& final(self).group_rows() == old(self).group_rows().push(g)
                &&& g.name == name
                &&& g.direct == (name is None)
                &&& g.creator_id@ == creator@
                &&& forall|gg: Seq<char>, u: Seq<char>|
                    final(self).member(gg, u) <==> old(self).member(gg, u) || (gg == g.id@ && u == creator@)
            },
    {
        let id = new_id();
        if self.group_in_use(&id) {
            return Err(LedgerError::Store);
        }
        let now = now_rfc3339();
        let direct = name.is_none();
        let g = Group { id, name, created_at: now, creator_id: creator.clone(), direct };
        let r = g.copy();
        let m = GroupMembership { group_id: g.id.clone(), user_id: creator.clone() };
        self.groups.push(g);
        self.memberships.push(m);
        proof {
            lemma_member_push(old(self).membership_rows(), self.membership_rows().last());
            assert(old(self).membership_rows().push(self.membership_rows().last()) =~= self.membership_rows());
        }
        Ok(r)
    }

    /// Whether identifier `id` names a group or appears in a membership.
    pub open spec fn group_id_used(&self, id: Seq<char>) -> bool {
        self.has_group(id) || exists|k: int|
            0 <= k < self.membership_rows().len() && #[trigger] self.membership_rows()[k].group_id@ == id
    }

    /// A well-formed ledger holds only positive rows whose amounts together fit
    /// in an `i64`.
    pub proof fn lemma_wf_rows(&self)
        requires
            self.wf(),
        ensures
            rows_fit(self.rows()),
            forall|k: int| 0 <= k < self.rows().len() ==> #[trigger] self.rows()[k].amount >= 0,
    {
        assert forall|k: int| 0 <= k < self.rows().len() implies #[trigger] self.rows()[k].amount >= 0 by {
            assert(self.splits@[k].amount > 0);
        }
    }

    /// Adds `user` to group `group`; `NotFound` where the group does not exist.
    pub fn add_to_group(&mut self, group: &String, user: &String) -> (r: Result<(), LedgerError>)
        requires
            old(self).wf(),
        ensures
            final(self).wf(),
            final(self).rows() == old(self).rows(),
            final(self).expense_rows() == old(self).expense_rows(),
            final(self).currency_rows() == old(self).currency_rows(),
            final(self).group_rows() == old(self).group_rows(),
            r is Ok <==> old(self).has_group(group@),
            r is Err ==> r == Err::<(), LedgerError>(LedgerError::NotFound) && *final(self) == *old(self),
            r is Ok ==> forall|g: Seq<char>, u: Seq<char>|
                final(self).member(g, u) <==> old(self).member(g, u) || (g == group@ && u == user@),
    {
        if !self.group_exists(group) {
            return Err(LedgerError::NotFound);
        }
        if self.is_member(group, user) {
            return Ok(());
        }
        let m = GroupMembership { group_id: group.clone(), user_id: user.clone() };
        self.memberships.push(m);
        proof {
            lemma_member_push(old(self).membership_rows(), self.membership_rows().last());
            assert(old(self).membership_rows().push(self.membership_rows().last()) =~= self.membership_rows());
        }
        Ok(())
    }

    /// The non-zero balances between `a` and `b` per group and currency
    /// (positive: `b` owes `a`), in the order in which each pair first appears.
    pub fn owed_between(&self, a: &String, b: &String) -> (r: Vec<OwedInGroup>)
        requires
            self.wf(),
        ensures
            entries_of(r@) == owed_model(self.rows(), a@, b@),
    {
        owed_between(&self.splits, a, b)
    }

    /// Records an expense of `amount` paid by `creator` for group `group`, and
    /// for each share of a positive amount a row from the share's user to
    /// `creator`, all in one step. Shares of zero or less are dropped. Refused,
    /// in this order: a share names `creator`; `amount` is not positive; the
    /// group or the currency is unknown; a kept share names a non-member.
    pub fn create_expense(
        &mut self,
        creator: &String,
        group: &String,
        title: String,
        amount: i64,
        currency: &String,
        shares: &Vec<SplitInput>,
        category: String,
        note: Option<String>,
        image_id: Option<String>,
        transaction_at: Option<String>,
    ) -> (r: Result<Expense, LedgerError>)
        requires
            old(self).wf(),
        ensures
            final(self).wf(),
            old(self).expense_refusal(creator@, group@, amount, currency@, shares@) is Some ==> r == Err::<Expense, LedgerError>(
                old(self).expense_refusal(creator@, group@, amount, currency@, shares@)->0,
            ),
            old(self).expense_refusal(creator@, group@, amount, currency@, shares@) is None ==> r is Ok || r == Err::<
                Expense,
                LedgerError,
            >(LedgerError::Store),
            r is Err ==> *final(self) == *old(self),
            r == Err::<Expense, LedgerError>(LedgerError::Store) ==> exists|legs: Seq<Split>, eid: Seq<char>|
                expense_legs(legs, kept_shares(shares@), group@, creator@, currency@, eid)
                    && !appendable(old(self).rows(), legs),
            r is Ok ==> {
                let e = r->Ok_0;
                &&& e.created_by@ == creator@
                &&& e.group_id@ == group@
                &&& e.amount == amount
                &&& e.currency_id@ == currency@
                &&& e.title == title
                &&& e.transaction_at@ == stated_time(transaction_at, e.created_at@)
                &&& final(self).expense_rows() == old(self).expense_rows().push(e)
                &&& appendable(old(self).rows(), final(self).rows().skip(old(self).rows().len() as int))
                &&& final(self).group_rows() == old(self).group_rows()
                &&& final(self).membership_rows() == old(self).membership_rows()
                &&& final(self).currency_rows() == old(self).currency_rows()
                &&& final(self).rows() == old(self).rows() + final(self).rows().skip(old(self).rows().len() as int)
                &&& expense_legs(
                    final(self).rows().skip(old(self).rows().len() as int),
                    kept_shares(shares@),
                    group@,
                    creator@,
                    currency@,
                    e.id@,
                )
            },
    {
        let mut i: usize = 0;
        while i < shares.len()
            invariant
                0 <= i <= shares.len(),
                self.wf(),
                *self == *old(self),
                forall|k: int| 0 <= k < i ==> (#[trigger] shares@[k]).user_id@ != creator@,
            decreases shares.len() - i,
        {
            if shares[i].user_id == *creator {
                return Err(LedgerError::SelfSplitNotAllowed);
            }
            i = i + 1;
        }
        if amount <= 0 {
            return Err(LedgerError::InvalidAmount);
        }
        if !self.group_exists(group) || self.currency(currency).is_none() {
            return Err(LedgerError::NotFound);
        }
        let expense_id = new_id();
        let now = now_rfc3339();
        let at = match &transaction_at {
            Some(t) => match to_utc_rfc3339(t.as_str()) {
                Some(u) => u,
                None => now.clone(),
            },
            None => now.clone(),
        };
        let mut legs: Vec<Split> = Vec::new();
        let mut i: usize = 0;
        while i < shares.len()
            invariant
                0 <= i <= shares.len(),
                self.wf(),
                *self == *old(self),
                amount > 0,
                self.has_group(group@),
                self.currency_index(currency@) != -1,
                !self_share(shares@, creator@),
                forall|k: int| 0 <= k < i ==> #[trigger] shares@[k].amount > 0 ==> self.member(group@, shares@[k].user_id@),
                expense_legs(legs@, kept_shares(shares@.take(i as int)), group@, creator@, currency@, expense_id@),
            decreases shares.len() - i,
        {
            proof {
                let t = shares@.take(i as int + 1);
                assert(t.drop_last() =~= shares@.take(i as int));
                assert(t.last() == shares@[i as int]);
            }
            let share = &shares[i];
            if share.amount > 0 {
                if !self.is_member(group, &share.user_id) {
                    assert(!self.shares_in_group(shares@, group@)) by {
                        assert(shares@[i as int].amount > 0);
                    }
                    return Err(LedgerError::NotAGroupMember);
                }
                let mut leg = make_leg(group, &share.user_id, creator, share.amount, currency, TransactionType::ExpenseSplit, creator, &now);
                leg.expense_id = Some(expense_id.clone());
                leg.transaction_at = at.clone();
                legs.push(leg);
            }
            i = i + 1;
        }
        assert(shares@.take(shares.len() as int) =~= shares@);
        let ghost n = self.splits@.len();
        let copies = copy_rows(&legs);
        match self.insert_all(copies) {
            Ok(()) => {},
            Err(_) => {
                assert(expense_legs(legs@, kept_shares(shares@), group@, creator@, currency@, expense_id@)
                    && !appendable(old(self).rows(), legs@));
                return Err(LedgerError::Store);
            },
        }
        assert(self.rows().skip(n as int) =~= legs@);
        let e = Expense {
            id: expense_id,
            title,
            created_at: now.clone(),
            created_by: creator.clone(),
            group_id: group.clone(),
            amount,
            currency_id: currency.clone(),
            category,
            note,
            image_id,
            updated_at: now,
            transaction_at: at,
        };
        let r = e.copy();
        self.expenses.push(e);
        Ok(r)
    }

    /// Records an expense outside any named group. Its participants are
    /// `creator` and the users of `shares`; it goes into their one direct
    /// group, which is made where there is not exactly one. Refused before
    /// anything is written where a share names `creator`, `amount` is not
    /// positive, or the currency is unknown.
    pub fn add_non_group_expense(
        &mut self,
        creator: &String,
        title: String,
        amount: i64,
        currency: &String,
        shares: &Vec<SplitInput>,
        category: String,
        note: Option<String>,
        image_id: Option<String>,
        transaction_at: Option<String>,
    ) -> (r: Result<NonGroupExpense, LedgerError>)
        requires
            old(self).wf(),
        ensures
            final(self).wf(),
            self_share(shares@, creator@) ==> r == Err::<NonGroupExpense, LedgerError>(LedgerError::SelfSplitNotAllowed),
            !self_share(shares@, creator@) && amount <= 0 ==> r == Err::<NonGroupExpense, LedgerError>(LedgerError::InvalidAmount),
            !self_share(shares@, creator@) && amount > 0 && old(self).currency_index(currency@) == -1
                ==> r == Err::<NonGroupExpense, LedgerError>(LedgerError::NotFound),
            !self_share(shares@, creator@) && amount > 0 && old(self).currency_index(currency@) != -1
                ==> r is Ok || r == Err::<NonGroupExpense, LedgerError>(LedgerError::Store),
            r is Err ==> final(self).rows() == old(self).rows() && Ledger::same_but_rows(*final(self), *old(self)),
            ({
                let reuse = exists|k: int| old(self).sole_direct(k, participants(creator@, shares@));
                &&& r == Err::<NonGroupExpense, LedgerError>(LedgerError::Store) ==> !reuse || exists|
                    legs: Seq<Split>,
                    g: Seq<char>,
                    eid: Seq<char>,
                | expense_legs(legs, kept_shares(shares@), g, creator@, currency@, eid) && !appendable(old(self).rows(), legs)
                &&& r is Ok && reuse ==> final(self).group_rows() == old(self).group_rows() && exists|k: int|
                    old(self).sole_direct(k, participants(creator@, shares@)) && r->Ok_0.group == old(self).group_rows()[k]
                &&& r is Ok && !reuse ==> final(self).group_rows().drop_last() == old(self).group_rows()
                    && r->Ok_0.group == final(self).group_rows().last()
                &&& r is Ok ==> appendable(old(self).rows(), final(self).rows().skip(old(self).rows().len() as int))
            }),
            r is Ok ==> {
                let g = r->Ok_0.group;
                let e = r->Ok_0.expense;
                &&& g.direct
                &&& final(self).is_direct_group(g.id@, participants(creator@, shares@))
                &&& e.created_by@ == creator@
                &&& e.group_id@ == g.id@
                &&& e.amount == amount
                &&& e.currency_id@ == currency@
                &&& e.title == title
                &&& final(self).expense_rows() == old(self).expense_rows().push(e)
                &&& final(self).currency_rows() == old(self).currency_rows()
                &&& final(self).rows() == old(self).rows() + final(self).rows().skip(old(self).rows().len() as int)
                &&& expense_legs(
                    final(self).rows().skip(old(self).rows().len() as int),
                    kept_shares(shares@),
                    g.id@,
                    creator@,
                    currency@,
                    e.id@,
                )
            },
    {
        let mut i: usize = 0;
        while i < shares.len()
            invariant
                0 <= i <= shares.len(),
                self.wf(),
                *self == *old(self),
                forall|k: int| 0 <= k < i ==> (#[trigger] shares@[k]).user_id@ != creator@,
            decreases shares.len() - i,
        {
            if shares[i].user_id == *creator {
                return Err(LedgerError::SelfSplitNotAllowed);
            }
            i = i + 1;
        }
        if amount <= 0 {
            return Err(LedgerError::InvalidAmount);
        }
        if self.currency(currency).is_none() {
            return Err(LedgerError::NotFound);
        }
        let mut users: Vec<String> = Vec::new();
        users.push(creator.clone());
        let mut i: usize = 0;
        while i < shares.len()
            invariant
                0 <= i <= shares.len(),
                self.wf(),
                *self == *old(self),
                amount > 0,
                self.currency_index(currency@) != -1,
                !self_share(shares@, creator@),
                names_of(users@) == seq![creator@] + share_users(shares@.take(i as int)),
            decreases shares.len() - i,
        {
            let ghost before = names_of(users@);
            users.push(shares[i].user_id.clone());
            assert(names_of(users@) =~= before.push(shares@[i as int].user_id@));
            assert(share_users(shares@.take(i as int + 1)) =~= share_users(shares@.take(i as int)).push(shares@[i as int].user_id@));
            assert(names_of(users@) =~= seq![creator@] + share_users(shares@.take(i as int + 1)));
            i = i + 1;
        }
        assert(shares@.take(shares.len() as int) =~= shares@);
        let ghost want = participants(creator@, shares@);
        assert(names_of(users@).to_set() == want);
        let n_members = self.memberships.len();
        let mut fresh = false;
        let ghost mut gk: int = 0;
        let group = match self.find_direct_group(&users) {
            Ok(g) => {
                proof {
                    gk = choose|k: int| self.sole_direct(k, want) && g == self.group_rows()[k];
                }
                g
            },
            Err(_) => {
                let id = new_id();
                if self.group_in_use(&id) {
                    assert(!(exists|k: int| old(self).sole_direct(k, participants(creator@, shares@))));
                    return Err(LedgerError::Store);
                }
                let now = now_rfc3339();
                let ghost gid = id@;
                self.add_direct_group(id, creator, &users, now);
                fresh = true;
                proof {
                    assert(names_of(users@)[0] == creator@);
                    assert forall|u: Seq<char>| self.member(gid, u) <==> want.contains(u) by {
                        if old(self).member(gid, u) {
                            let q = choose|q: int|
                                0 <= q < old(self).membership_rows().len() && #[trigger] old(self).membership_rows()[q].group_id@
                                    == gid && old(self).membership_rows()[q].user_id@ == u;
                            assert(old(self).membership_rows()[q].group_id@ == gid);
                        }
                    }
                    assert(self.members(gid) =~= want);
                    assert(self.direct_for(self.group_rows().len() - 1, want));
                    gk = self.group_rows().len() - 1;
                }
                self.groups[self.groups.len() - 1].copy()
            },
        };
        let ghost mid = *self;
        assert(mid.rows() == old(self).rows());
        assert(!fresh ==> mid.group_rows() == old(self).group_rows() && old(self).sole_direct(gk, want));
        assert(fresh ==> !(exists|k: int| old(self).sole_direct(k, want)) && mid.group_rows().drop_last() == old(self).group_rows()
            && group == mid.group_rows().last());
        assert(0 <= gk < self.group_rows().len() && self.group_rows()[gk] == group && self.direct_for(gk, want));
        proof {
            assert(self.has_group(group.id@));
            assert forall|k: int| 0 <= k < shares@.len() && #[trigger] shares@[k].amount > 0 implies self.member(
                group.id@,
                shares@[k].user_id@,
            ) by {
                let u = shares@[k].user_id@;
                assert((seq![creator@] + share_users(shares@))[k + 1] == u);
                assert(want.contains(u));
            }
            assert(self.shares_in_group(shares@, group.id@));
        }
        match self.create_expense(creator, &group.id, title, amount, currency, shares, category, note, image_id, transaction_at) {
            Ok(e) => {
                proof {
                    assert(self.members(group.id@) =~= mid.members(group.id@));
                    assert(self.direct_for(gk, want));
                    assert(self.group_rows()[gk].id@ == group.id@);
                }
                Ok(NonGroupExpense { group, expense: e })
            },
            Err(err) => {
                proof {
                    if err == LedgerError::Store {
                        let (lw, ew) = choose|lw: Seq<Split>, ew: Seq<char>|
                            expense_legs(lw, kept_shares(shares@), group.id@, creator@, currency@, ew)
                                && !appendable(mid.rows(), lw);
                        assert(expense_legs(lw, kept_shares(shares@), group.id@, creator@, currency@, ew)
                            && !appendable(old(self).rows(), lw));
                    }
                }
                if fresh {
                    self.groups.pop();
                    self.memberships.truncate(n_members);
                    assert(self.groups@ =~= old(self).groups@);
                    assert(self.memberships@ =~= old(self).memberships@);
                }
                Err(err)
            },
        }
    }

    /// Why an expense of `amount` by `creator` in group `group` would be
    /// refused, checked in this order: a share names `creator`; `amount` is
    /// not positive; the group or the currency is unknown; a share of a
    /// positive amount names a non-member. `None` where it is not refused.
    pub open spec fn expense_refusal(
        &self,
        creator: Seq<char>,
        group: Seq<char>,
        amount: i64,
        currency: Seq<char>,
        shares: Seq<SplitInput>,
    ) -> Option<LedgerError> {
        if self_share(shares, creator) {
            Some(LedgerError::SelfSplitNotAllowed)
        } else if amount <= 0 {
            Some(LedgerError::InvalidAmount)
        } else if !self.has_group(group) || self.currency_index(currency) == -1 {
            Some(LedgerError::NotFound)
        } else if !self.shares_in_group(shares, group) {
            Some(LedgerError::NotAGroupMember)
        } else {
            None
        }
    }

    /// Records an expense as `create_expense` does, then nets `creator`
    /// against each distinct user of a kept share, as `simplify_with_each`
    /// does. A failed netting does not fail the expense.
    pub fn add_expense(
        &mut self,
        creator: &String,
        group: &String,
        title: String,
        amount: i64,
        currency: &String,
        shares: &Vec<SplitInput>,
        category: String,
        note: Option<String>,
        image_id: Option<String>,
        transaction_at: Option<String>,
    ) -> (r: Result<Expense, LedgerError>)
        requires
            old(self).wf(),
        ensures
            final(self).wf(),
            old(self).expense_refusal(creator@, group@, amount, currency@, shares@) is Some ==> r == Err::<Expense, LedgerError>(
                old(self).expense_refusal(creator@, group@, amount, currency@, shares@)->0,
            ),
            old(self).expense_refusal(creator@, group@, amount, currency@, shares@) is None ==> r is Ok || r == Err::<
                Expense,
                LedgerError,
            >(LedgerError::Store),
            r is Err ==> *final(self) == *old(self),
            r == Err::<Expense, LedgerError>(LedgerError::Store) ==> exists|legs: Seq<Split>, eid: Seq<char>|
                expense_legs(legs, kept_shares(shares@), group@, creator@, currency@, eid)
                    && !appendable(old(self).rows(), legs),
            r is Ok ==> {
                let e = r->Ok_0;
                &&& e.created_by@ == creator@
                &&& e.group_id@ == group@
                &&& e.amount == amount
                &&& e.currency_id@ == currency@
                &&& e.title == title
                &&& e.transaction_at@ == stated_time(transaction_at, e.created_at@)
                &&& final(self).expense_rows() == old(self).expense_rows().push(e)
                &&& final(self).group_rows() == old(self).group_rows()
                &&& final(self).membership_rows() == old(self).membership_rows()
                &&& final(self).currency_rows() == old(self).currency_rows()
                &&& exists|legs: Seq<Split>, states: Seq<Seq<Split>>| {
                    &&& expense_legs(legs, kept_shares(shares@), group@, creator@, currency@, e.id@)
                    &&& appendable(old(self).rows(), legs)
                    &&& #[trigger] netting_passes(
                        states,
                        old(self).rows() + legs,
                        final(self).rows(),
                        creator@,
                        distinct_names(share_users(kept_shares(shares@))),
                    )
                }
            },
    {
        let e = match self.create_expense(
            creator,
            group,
            title,
            amount,
            currency,
            shares,
            category,
            note,
            image_id,
            transaction_at,
        ) {
            Ok(e) => e,
            Err(err) => {
                return Err(err);
            },
        };
        let ghost mid = *self;
        let ghost legs = self.rows().skip(old(self).rows().len() as int);
        let mut users: Vec<String> = Vec::new();
        let mut i: usize = 0;
        while i < shares.len()
            invariant
                0 <= i <= shares.len(),
                names_of(users@) == share_users(kept_shares(shares@.take(i as int))),
            decreases shares.len() - i,
        {
            proof {
                let t = shares@.take(i as int + 1);
                assert(t.drop_last() =~= shares@.take(i as int));
                assert(t.last() == shares@[i as int]);
            }
            if shares[i].amount > 0 {
                let ghost before = names_of(users@);
                users.push(shares[i].user_id.clone());
                assert(names_of(users@) =~= before.push(shares@[i as int].user_id@));
                assert(share_users(kept_shares(shares@.take(i as int + 1))) =~= share_users(kept_shares(shares@.take(i as int))).push(
                    shares@[i as int].user_id@,
                ));
            }
            i = i + 1;
        }
        assert(shares@.take(shares.len() as int) =~= shares@);
        self.simplify_with_each(creator, &users);
        proof {
            let states = choose|states: Seq<Seq<Split>>|
                netting_passes(states, mid.rows(), self.rows(), creator@, distinct_names(names_of(users@)));
            assert(mid.rows() == old(self).rows() + legs);
            assert(expense_legs(legs, kept_shares(shares@), group@, creator@, currency@, e.id@));
            assert(netting_passes(states, old(self).rows() + legs, self.rows(), creator@, distinct_names(share_users(kept_shares(shares@)))));
        }
        Ok(e)
    }

    /// Whether every share of a positive amount names a member of `group`.
    pub open spec fn shares_in_group(&self, shares: Seq<SplitInput>, group: Seq<char>) -> bool {
        forall|k: int| 0 <= k < shares.len() ==> #[trigger] shares[k].amount > 0 ==> self.member(group, shares[k].user_id@)
    }

    /// Records that `payer` paid `payee` `amount` in group `group`: one cash
    /// row from `payer` to `payee`. By the balance rule, in which a row's
    /// `from_user` owes its `to_user`, this row adds to what `payer` owes
    /// `payee`; `auto_settle`, whose rows run from `payee` to `payer`, lowers it. Refused, in this order: `amount` is not
    /// positive; the group or the currency is unknown; either user is not a
    /// member of the group.
    pub fn settle_in_group(
        &mut self,
        payer: &String,
        payee: &String,
        group: &String,
        amount: i64,
        currency: &String,
        note: Option<String>,
        image_id: Option<String>,
        transaction_metadata: Option<String>,
    ) -> (r: Result<Split, LedgerError>)
        requires
            old(self).wf(),
        ensures
            final(self).wf(),
            Ledger::same_but_rows(*final(self), *old(self)),
            amount <= 0 ==> r == Err::<Split, LedgerError>(LedgerError::InvalidAmount),
            amount > 0 && (!old(self).has_group(group@) || old(self).currency_index(currency@) == -1)
                ==> r == Err::<Split, LedgerError>(LedgerError::NotFound),
            amount > 0 && old(self).has_group(group@) && old(self).currency_index(currency@) != -1
                && !(old(self).member(group@, payer@) && old(self).member(group@, payee@))
                ==> r == Err::<Split, LedgerError>(LedgerError::NotAGroupMember),
            amount > 0 && old(self).has_group(group@) && old(self).currency_index(currency@) != -1
                && old(self).member(group@, payer@) && old(self).member(group@, payee@)
                ==> r is Ok || r == Err::<Split, LedgerError>(LedgerError::Store),
            r is Err ==> *final(self) == *old(self),
            r == Err::<Split, LedgerError>(LedgerError::Store) ==> exists|row: Split|
                #[trigger] leg_is(row, group@, payer@, payee@, amount as int, currency@, TransactionType::CashPaid)
                    && !appendable(old(self).rows(), seq![row]),
            r is Ok ==> {
                let row = r->Ok_0;
                &&& leg_is(row, group@, payer@, payee@, amount as int, currency@, TransactionType::CashPaid)
                &&& row.part_transaction is None
                &&& row.expense_id is None
                &&& row.with_group_id is None
                &&& appendable(old(self).rows(), seq![row])
                &&& row.created_by@ == payer@
                &&& final(self).rows() == old(self).rows().push(row)
            },
    {
        if amount <= 0 {
            return Err(LedgerError::InvalidAmount);
        }
        if !self.group_exists(group) || self.currency(currency).is_none() {
            return Err(LedgerError::NotFound);
        }
        if !self.is_member(group, payer) || !self.is_member(group, payee) {
            return Err(LedgerError::NotAGroupMember);
        }
        let now = now_rfc3339();
        let mut leg = make_leg(group, payer, payee, amount, currency, TransactionType::CashPaid, payer, &now);
        leg.note = note;
        leg.image_id = image_id;
        leg.transaction_metadata = transaction_metadata;
        let r = leg.copy();
        let mut legs: Vec<Split> = Vec::new();
        legs.push(leg);
        assert(legs@ =~= seq![r]);
        match self.insert_all(legs) {
            Ok(()) => {},
            Err(_) => {
                assert(leg_is(r, group@, payer@, payee@, amount as int, currency@, TransactionType::CashPaid)
                    && !appendable(old(self).rows(), seq![r]));
                return Err(LedgerError::Store);
            },
        }
        assert(self.rows() =~= old(self).rows().push(r));
        Ok(r)
    }

    /// Whether some group is a direct group with identifier `g` and members `users`.
    pub open spec fn is_direct_group(&self, g: Seq<char>, users: Set<Seq<char>>) -> bool {
        exists|k: int| 0 <= k < self.group_rows().len() && #[trigger] self.group_rows()[k].id@ == g && self.direct_for(k, users)
    }

    /// Whether identifier `id` names a group or appears in a membership.
    fn group_in_use(&self, id: &String) -> (r: bool)
        ensures
            r == self.group_id_used(id@),
    {
        if self.group_exists(id) {
            return true;
        }
        let mut k: usize = 0;
        while k < self.memberships.len()
            invariant
                0 <= k <= self.memberships.len(),
                forall|q: int| 0 <= q < k ==> #[trigger] self.memberships@[q].group_id@ != id@,
            decreases self.memberships.len() - k,
        {
            if self.memberships[k].group_id == *id {
                assert(self.membership_rows()[k as int].group_id@ == id@);
                return true;
            }
            k = k + 1;
        }
        false
    }

    /// Adds the direct group `id`, created by `creator`, with `creator` and
    /// every user of `users` as members.
    fn add_direct_group(&mut self, id: String, creator: &String, users: &Vec<String>, now: String)
        requires
            old(self).wf(),
        ensures
            final(self).wf(),
            final(self).rows() == old(self).rows(),
            final(self).expense_rows() == old(self).expense_rows(),
            final(self).currency_rows() == old(self).currency_rows(),
            final(self).group_rows() == old(self).group_rows().push(final(self).group_rows().last()),
            final(self).group_rows().last().id@ == id@,
            final(self).group_rows().last().direct,
            final(self).membership_rows().len() >= old(self).membership_rows().len(),
            final(self).membership_rows().take(old(self).membership_rows().len() as int) == old(self).membership_rows(),
            forall|g: Seq<char>, u: Seq<char>|
                final(self).member(g, u) <==> old(self).member(g, u) || (g == id@ && (u == creator@
                    || names_of(users@).contains(u))),
    {
        let g = Group { id: id.clone(), name: None, created_at: now, creator_id: creator.clone(), direct: true };
        self.groups.push(g);
        let mc = GroupMembership { group_id: id.clone(), user_id: creator.clone() };
        let ghost m0 = self.memberships@;
        self.memberships.push(mc);
        proof {
            lemma_member_push(m0, self.memberships@.last());
            assert(m0.push(self.memberships@.last()) =~= self.memberships@);
        }
        let mut i: usize = 0;
        while i < users.len()
            invariant
                0 <= i <= users.len(),
                self.wf(),
                self.splits@ == old(self).splits@,
                self.expenses@ == old(self).expenses@,
                self.currencies@ == old(self).currencies@,
                self.groups@ == old(self).groups@.push(self.groups@.last()),
                self.groups@.last().id@ == id@,
                self.groups@.last().direct,
                self.memberships@.len() >= old(self).memberships@.len(),
                self.memberships@.take(old(self).memberships@.len() as int) == old(self).memberships@,
                forall|g: Seq<char>, u: Seq<char>|
                    self.member(g, u) <==> old(self).member(g, u) || (g == id@ && (u == creator@
                        || names_of(users@).take(i as int).contains(u))),
            decreases users.len() - i,
        {
            let m = GroupMembership { group_id: id.clone(), user_id: users[i].clone() };
            let ghost before = self.memberships@;
            self.memberships.push(m);
            proof {
                lemma_member_push(before, self.memberships@.last());
                assert(before.push(self.memberships@.last()) =~= self.memberships@);
                assert(self.memberships@.take(old(self).memberships@.len() as int) =~= before.take(old(self).memberships@.len() as int));
                let t = names_of(users@).take(i as int + 1);
                let p = names_of(users@).take(i as int);
                assert(t =~= p.push(users@[i as int]@));
                assert forall|u: Seq<char>| t.contains(u) <==> p.contains(u) || u == users@[i as int]@ by {
                    if t.contains(u) {
                        let k = choose|k: int| 0 <= k < t.len() && t[k] == u;
                        if k < i {
                            assert(p[k] == u);
                        }
                    }
                    if p.contains(u) {
                        let k = choose|k: int| 0 <= k < p.len() && p[k] == u;
                        assert(t[k] == u);
                    }
                    if u == users@[i as int]@ {
                        assert(t[i as int] == u);
                    }
                }
            }
            i = i + 1;
        }
        assert(names_of(users@).take(users.len() as int) =~= names_of(users@));
    }

    /// What `auto_settle` does when it turns `before` into `after` with
    /// result `r`.
    pub open spec fn auto_settled(
        before: Ledger,
        after: Ledger,
        payer: Seq<char>,
        payee: Seq<char>,
        amount: i64,
        currency: Seq<char>,
        r: Result<Vec<Split>, LedgerError>,
    ) -> bool {
        let debts = ranked_debts(owed_model(before.rows(), payee, payer), currency);
        let plan = allocate(debts, amount as int);
        let left = leftover(debts, amount as int);
        let reuse = left <= 0 || exists|k: int| before.sole_direct(k, set![payer, payee]);
        &&& amount <= 0 ==> r == Err::<Vec<Split>, LedgerError>(LedgerError::InvalidAmount)
        &&& amount > 0 && before.currency_index(currency) == -1 ==> r == Err::<Vec<Split>, LedgerError>(LedgerError::NotFound)
        &&& amount > 0 && before.currency_index(currency) != -1 ==> r is Ok || r == Err::<Vec<Split>, LedgerError>(LedgerError::Store)
        &&& r is Err ==> after == before
        &&& r == Err::<Vec<Split>, LedgerError>(LedgerError::Store) ==> !reuse || exists|legs: Seq<Split>|
            settle_legs(legs, plan, left, payer, payee, currency) && !appendable(before.rows(), legs)
        &&& r is Ok ==> {
            let legs = r->Ok_0@;
            &&& settle_legs(legs, plan, left, payer, payee, currency)
            &&& appendable(before.rows(), legs)
            &&& after.rows() == before.rows() + legs
            &&& after.expense_rows() == before.expense_rows()
            &&& after.currency_rows() == before.currency_rows()
            &&& left > 0 ==> after.is_direct_group(legs.last().group_id@, set![payer, payee])
            &&& reuse ==> after.group_rows() == before.group_rows()
            &&& !reuse ==> after.group_rows().drop_last() == before.group_rows()
        }
    }

    /// Applies a lump sum as `auto_settle` does, then nets `payer` against
    /// `payee` across groups as `simplify_with_each` does. A failed netting
    /// does not fail the payment.
    pub fn auto_settle_with_user(
        &mut self,
        payer: &String,
        payee: &String,
        amount: i64,
        currency: &String,
        note: Option<String>,
        image_id: Option<String>,
        transaction_metadata: Option<String>,
    ) -> (r: Result<Vec<Split>, LedgerError>)
        requires
            old(self).wf(),
        ensures
            final(self).wf(),
            exists|mid: Ledger| {
                &&& #[trigger] Ledger::auto_settled(*old(self), mid, payer@, payee@, amount, currency@, r)
                &&& r is Err ==> *final(self) == mid
                &&& r is Ok ==> Ledger::same_but_rows(*final(self), mid) && exists|states: Seq<Seq<Split>>|
                    netting_passes(states, mid.rows(), final(self).rows(), payer@, seq![payee@])
            },
    {
        let r = self.auto_settle(payer, payee, amount, currency, note, image_id, transaction_metadata);
        let ghost mid = *self;
        if r.is_ok() {
            let others = vec![payee.clone()];
            self.simplify_with_each(payer, &others);
            proof {
                assert(names_of(others@) =~= seq![payee@]);
                let one = seq![payee@];
                assert(one.drop_last() =~= Seq::<Seq<char>>::empty());
                assert(distinct_names(one.drop_last()) =~= Seq::<Seq<char>>::empty());
                assert(distinct_names(one) =~= seq![payee@]);
            }
        }
        assert(Ledger::auto_settled(*old(self), mid, payer@, payee@, amount, currency@, r));
        r
    }

    /// Applies a lump sum that `payer` paid `payee` against what `payer` owes
    /// `payee` in currency `currency`: the debts are taken largest first, and
    /// each receives the smaller of itself and what is left of `amount`. What
    /// is left after all debts goes, as a debt of `payee` to `payer`, into the
    /// direct group of the two, which is made where there is not exactly one.
    /// Every row is a cash row from `payee` to `payer`; all share one
    /// correlation identifier and are written in one step. Refused where
    /// `amount` is not positive or the currency is unknown.
    pub fn auto_settle(
        &mut self,
        payer: &String,
        payee: &String,
        amount: i64,
        currency: &String,
        note: Option<String>,
        image_id: Option<String>,
        transaction_metadata: Option<String>,
    ) -> (r: Result<Vec<Split>, LedgerError>)
        requires
            old(self).wf(),
        ensures
            final(self).wf(),
            Ledger::auto_settled(*old(self), *final(self), payer@, payee@, amount, currency@, r),
    {
        if amount <= 0 {
            return Err(LedgerError::InvalidAmount);
        }
        if self.currency(currency).is_none() {
            return Err(LedgerError::NotFound);
        }
        let entries = self.owed_between(payee, payer);
        let debts = rank_debts(&entries, currency);
        let (payments, left) = allocate_payment(&debts, amount);
        let ghost plan = pairs_of(payments@);
        let part = new_id();
        let now = now_rfc3339();
        let mut legs: Vec<Split> = Vec::new();
        let mut k: usize = 0;
        while k < payments.len()
            invariant
                0 <= k <= payments.len(),
                plan == pairs_of(payments@),
                legs@.len() == k,
                forall|q: int| 0 <= q < k ==>
                    leg_is(#[trigger] legs@[q], plan[q].0, payee@, payer@, plan[q].1, currency@, TransactionType::CashPaid),
                forall|q: int| 0 <= q < k ==> (#[trigger] legs@[q]).part_transaction == Some(part),
                forall|q: int| 0 <= q < k ==> (#[trigger] legs@[q]).expense_id is None && legs@[q].with_group_id is None,
            decreases payments.len() - k,
        {
            let mut leg = make_leg(&payments[k].0, payee, payer, payments[k].1, currency, TransactionType::CashPaid, payer, &now);
            leg.part_transaction = Some(part.clone());
            leg.note = copy_text(&note);
            leg.image_id = copy_text(&image_id);
            leg.transaction_metadata = copy_text(&transaction_metadata);
            legs.push(leg);
            k = k + 1;
        }
        let ghost users_set = set![payer@, payee@];
        let mut fresh_group: Option<String> = None;
        let ghost mut found_k: int = 0;
        let users = vec![payer.clone(), payee.clone()];
        assert(names_of(users@).to_set() =~= users_set) by {
            assert(names_of(users@)[0] == payer@);
            assert(names_of(users@)[1] == payee@);
        }
        if left > 0 {
            let gid = match self.find_direct_group(&users) {
                Ok(g) => {
                    proof {
                        found_k = choose|k: int| self.sole_direct(k, users_set) && g == self.group_rows()[k];
                    }
                    g.id
                },
                Err(_) => {
                    let id = new_id();
                    if self.group_in_use(&id) {
                        assert(!(exists|k: int| old(self).sole_direct(k, set![payer@, payee@])));
                        return Err(LedgerError::Store);
                    }
                    fresh_group = Some(id.clone());
                    id
                },
            };
            let mut leg = make_leg(&gid, payee, payer, left, currency, TransactionType::CashPaid, payer, &now);
            leg.part_transaction = Some(part.clone());
            leg.note = note;
            leg.image_id = image_id;
            leg.transaction_metadata = transaction_metadata;
            legs.push(leg);
            assert(forall|q: int| 0 <= q < legs@.len() ==> (#[trigger] legs@[q]).part_transaction == Some(part));
        }
        assert(forall|q: int| 0 <= q < legs@.len() ==> (#[trigger] legs@[q]).part_transaction == Some(part));
        assert(left > 0 && fresh_group is None ==> old(self).sole_direct(found_k, users_set)
            && legs@.last().group_id@ == old(self).group_rows()[found_k].id@);
        assert(fresh_group is Some ==> !(exists|k: int| old(self).sole_direct(k, set![payer@, payee@])));
        proof {
            assert(settle_legs(legs@, plan, left as int, payer@, payee@, currency@)) by {
                assert forall|q: int| 0 <= q < legs@.len() implies {
                    &&& (#[trigger] legs@[q]).part_transaction is Some
                    &&& legs@[q].part_transaction == legs@[0].part_transaction
                    &&& legs@[q].expense_id is None
                    &&& legs@[q].with_group_id is None
                } by {
                    assert(legs@[q].part_transaction == Some(part));
                    assert(legs@[0].part_transaction == Some(part));
                }
            }
        }
        let ghost mid = *self;
        let copies = copy_rows(&legs);
        match self.insert_all(copies) {
            Ok(()) => {},
            Err(_) => {
                assert(!appendable(old(self).rows(), legs@));
                return Err(LedgerError::Store);
            },
        }
        match fresh_group {
            Some(id) => {
                let ghost gid = id@;
                self.add_direct_group(id, payer, &users, now);
                proof {
                    assert(self.members(gid) =~= users_set) by {
                        assert forall|u: Seq<char>| self.member(gid, u) <==> users_set.contains(u) by {
                            assert(names_of(users@).to_set().contains(u) == users_set.contains(u));
                            if mid.member(gid, u) {
                                let q = choose|q: int|
                                    0 <= q < mid.membership_rows().len() && #[trigger] mid.membership_rows()[q].group_id@ == gid
                                        && mid.membership_rows()[q].user_id@ == u;
                                assert(old(self).membership_rows()[q].group_id@ == gid);
                            }
                        }
                    }
                    let kk = self.group_rows().len() - 1;
                    assert(self.group_rows()[kk].id@ == gid);
                    assert(self.direct_for(kk, users_set));
                    assert(self.group_rows().drop_last() =~= old(self).group_rows());
                }
            },
            None => {
                proof {
                    assert(self.group_rows() == old(self).group_rows());
                    if left > 0 {
                        let k0 = found_k;
                        assert(old(self).sole_direct(k0, set![payer@, payee@]));
                        assert(self.membership_rows() == old(self).membership_rows());
                        assert(self.members(old(self).group_rows()[k0].id@) =~= old(self).members(old(self).group_rows()[k0].id@));
                        assert(self.group_rows()[k0].id@ == legs@.last().group_id@);
                        assert(self.direct_for(k0, users_set));
                    }
                }
            },
        }
        Ok(legs)
    }

    /// Cancels debt between `a` and `b` across groups: per currency, each
    /// balance that `b` owes `a` in one group is offset against balances that
    /// `a` owes `b` in other groups, as `plan_cross_group` pairs them. Each
    /// pairing writes two rows of the settled amount under a fresh correlation
    /// identifier: one from `a` to `b` in the first group and its mirror from
    /// `b` to `a` in the second. All rows are written in one step.
    pub fn simplify_cross_group(&mut self, a: &String, b: &String) -> (r: Result<Vec<Split>, LedgerError>)
        requires
            old(self).wf(),
        ensures
            final(self).wf(),
            Ledger::same_but_rows(*final(self), *old(self)),
            r is Ok || r == Err::<Vec<Split>, LedgerError>(LedgerError::Store),
            r is Err ==> *final(self) == *old(self),
            r is Err ==> exists|legs: Seq<Split>|
                netting_legs(legs, cross_group_plan(owed_model(old(self).rows(), a@, b@)), a@, b@)
                    && !appendable(old(self).rows(), legs),
            r is Ok ==> {
                &&& final(self).rows() == old(self).rows() + r->Ok_0@
                &&& netting_legs(r->Ok_0@, cross_group_plan(owed_model(old(self).rows(), a@, b@)), a@, b@)
                &&& appendable(old(self).rows(), r->Ok_0@)
                &&& forall|k: int| 0 <= k < r->Ok_0@.len() / 2 ==>
                    (#[trigger] r->Ok_0@[2 * k]).group_id@ != r->Ok_0@[2 * k + 1].group_id@
            },
    {
        let entries = self.owed_between(a, b);
        proof {
            let rows = self.rows();
            lemma_balances_bounded(rows, pair_keys(rows, a@, b@), a@, b@);
            assert forall|k: int| 0 <= k < entries@.len() implies #[trigger] entries@[k].amount.amount > i64::MIN by {
                assert(entries_of(entries@)[k] == entries@[k].entry());
            }
        }
        let plan = plan_cross_group(&entries);
        let ghost pv = settlements_of(plan@);
        let now = now_rfc3339();
        let mut legs: Vec<Split> = Vec::new();
        let mut k: usize = 0;
        while k < plan.len()
            invariant
                0 <= k <= plan.len(),
                pv == settlements_of(plan@),
                legs@.len() == 2 * k,
                forall|q: int| 0 <= q < k ==> netting_pair(legs@[2 * q], legs@[2 * q + 1], #[trigger] pv[q], a@, b@),
            decreases plan.len() - k,
        {
            let s = &plan[k];
            let part = new_id();
            let mut x = make_leg(&s.positive_group, a, b, s.amount, &s.currency_id, TransactionType::CrossGroupSettlement, a, &now);
            x.with_group_id = Some(s.negative_group.clone());
            x.part_transaction = Some(part.clone());
            let mut y = make_leg(&s.negative_group, b, a, s.amount, &s.currency_id, TransactionType::CrossGroupSettlement, a, &now);
            y.with_group_id = Some(s.positive_group.clone());
            y.part_transaction = Some(part);
            let ghost before = legs@;
            legs.push(x);
            legs.push(y);
            proof {
                assert(pv[k as int] == s.view());
                assert forall|q: int| 0 <= q < k + 1 implies netting_pair(legs@[2 * q], legs@[2 * q + 1], #[trigger] pv[q], a@, b@) by {
                    if q < k {
                        assert(legs@[2 * q] == before[2 * q]);
                        assert(legs@[2 * q + 1] == before[2 * q + 1]);
                    }
                }
            }
            k = k + 1;
        }
        assert(netting_legs(legs@, pv, a@, b@));
        proof {
            crate::laws::netting_pairs_distinct_groups(old(self).rows(), a@, b@);
            assert forall|q: int| 0 <= q < legs@.len() / 2 implies (#[trigger] legs@[2 * q]).group_id@ != legs@[2 * q
                + 1].group_id@ by {
                assert(netting_pair(legs@[2 * q], legs@[2 * q + 1], pv[q], a@, b@));
            }
        }
        let copies = copy_rows(&legs);
        match self.insert_all(copies) {
            Ok(()) => {},
            Err(_) => {
                assert(!appendable(old(self).rows(), legs@));
                return Err(LedgerError::Store);
            },
        }
        Ok(legs)
    }

    /// The follow-up to a write: cross-group netting between `user` and each
    /// distinct user of `others`, in order. A netting that fails is skipped;
    /// what `user` and anyone owe each other per currency stays the same.
    pub fn simplify_with_each(&mut self, user: &String, others: &Vec<String>)
        requires
            old(self).wf(),
        ensures
            final(self).wf(),
            Ledger::same_but_rows(*final(self), *old(self)),
            final(self).rows().len() >= old(self).rows().len(),
            final(self).rows().take(old(self).rows().len() as int) == old(self).rows(),
            forall|x: Seq<char>, c: Seq<char>|
                #[trigger] currency_net(final(self).rows(), user@, x, c) == currency_net(old(self).rows(), user@, x, c),
            exists|states: Seq<Seq<Split>>|
                netting_passes(states, old(self).rows(), final(self).rows(), user@, distinct_names(names_of(others@))),
    {
        let mut done: Vec<String> = Vec::new();
        let ghost mut states: Seq<Seq<Split>> = seq![self.rows()];
        let mut i: usize = 0;
        while i < others.len()
            invariant
                0 <= i <= others.len(),
                self.wf(),
                Ledger::same_but_rows(*self, *old(self)),
                self.rows().len() >= old(self).rows().len(),
                self.rows().take(old(self).rows().len() as int) == old(self).rows(),
                forall|x: Seq<char>, c: Seq<char>|
                    #[trigger] currency_net(self.rows(), user@, x, c) == currency_net(old(self).rows(), user@, x, c),
                names_of(done@) == distinct_names(names_of(others@).take(i as int)),
                netting_passes(states, old(self).rows(), self.rows(), user@, names_of(done@)),
            decreases others.len() - i,
        {
            let other = &others[i];
            proof {
                let t = names_of(others@).take(i as int + 1);
                assert(t.drop_last() =~= names_of(others@).take(i as int));
                assert(t.last() == other@);
            }
            let ghost d = names_of(done@);
            if !has_name(&done, other) {
                let ghost before = self.rows();
                match self.simplify_cross_group(user, other) {
                    Ok(legs) => {
                        proof {
                            assert forall|x: Seq<char>, c: Seq<char>|
                                #[trigger] currency_net(self.rows(), user@, x, c) == currency_net(old(self).rows(), user@, x, c) by {
                                assert(forall|k: int| 0 <= k < before.len() ==> #[trigger] before[k].amount >= 0);
                                crate::laws::netting_keeps_every_pair_total(before, legs@, user@, other@, x, c);
                            }
                            assert(self.rows().take(old(self).rows().len() as int) =~= before.take(old(self).rows().len() as int));
                            assert(netting_pass(before, self.rows(), user@, other@));
                        }
                    },
                    Err(_) => {
                        assert(netting_pass(before, self.rows(), user@, other@));
                    },
                }
                done.push(other.clone());
                proof {
                    assert(names_of(done@) =~= d.push(other@));
                    assert(names_of(done@).drop_last() =~= d);
                    let ns = states.push(self.rows());
                    assert forall|k: int| 0 <= k < names_of(done@).len() implies netting_pass(
                        #[trigger] ns[k],
                        ns[k + 1],
                        user@,
                        names_of(done@)[k],
                    ) by {
                        if k < d.len() {
                            assert(ns[k] == states[k] && ns[k + 1] == states[k + 1]);
                            assert(netting_pass(states[k], states[k + 1], user@, d[k]));
                        }
                    }
                    states = ns;
                }
            }
            i = i + 1;
        }
        assert(names_of(others@).take(others.len() as int) =~= names_of(others@));
        assert(netting_passes(states, old(self).rows(), self.rows(), user@, distinct_names(names_of(others@))));
    }

    /// Moves the balance between `a` and `b` in group `group` from currency
    /// `from` to currency `to` at the current rates. Where the balance is zero
    /// nothing is written and the result is empty. Otherwise two conversion
    /// rows share a fresh correlation identifier: one of the full balance in
    /// `from` that cancels it, and one of the converted amount in `to` in the
    /// direction of the original debt. Refused where a currency is unknown, or
    /// the converted amount cannot be computed or is zero.
    pub fn convert_currency(
        &mut self,
        a: &String,
        b: &String,
        group: &String,
        from: &String,
        to: &String,
    ) -> (r: Result<Vec<Split>, LedgerError>)
        requires
            old(self).wf(),
        ensures
            final(self).wf(),
            Ledger::same_but_rows(*final(self), *old(self)),
            ({
                let owed = net_owed(old(self).rows(), b@, a@, group@, from@);
                let fi = old(self).currency_index(from@);
                let ti = old(self).currency_index(to@);
                let size = if owed < 0 { -owed } else { owed };
                &&& owed == 0 ==> r is Ok && r->Ok_0@.len() == 0 && *final(self) == *old(self)
                &&& owed != 0 && (fi == -1 || ti == -1) ==> r == Err::<Vec<Split>, LedgerError>(LedgerError::NotFound)
                &&& owed != 0 && fi != -1 && ti != -1 ==> {
                    let fc = old(self).currency_rows()[fi];
                    let tc = old(self).currency_rows()[ti];
                    &&& (!convertible(size, fc, tc) || converted(size, fc, tc) == 0)
                        ==> r == Err::<Vec<Split>, LedgerError>(LedgerError::InvalidAmount)
                    &&& (convertible(size, fc, tc) && converted(size, fc, tc) != 0)
                        ==> r is Ok || r == Err::<Vec<Split>, LedgerError>(LedgerError::Store)
                    &&& r == Err::<Vec<Split>, LedgerError>(LedgerError::Store) ==> exists|legs: Seq<Split>|
                        conversion_legs(legs, group@, a@, b@, owed, converted(size, fc, tc), from@, to@)
                            && !appendable(old(self).rows(), legs)
                    &&& r is Ok ==> {
                        let legs = r->Ok_0@;
                        &&& conversion_legs(legs, group@, a@, b@, owed, converted(size, fc, tc), from@, to@)
                        &&& appendable(old(self).rows(), legs)
                        &&& final(self).rows() == old(self).rows() + legs
                    }
                }
            }),
            r is Err ==> *final(self) == *old(self),
    {
        let owed = net_between(&self.splits, b, a, group, from);
        if owed == 0 {
            return Ok(Vec::new());
        }
        let (fc, tc) = match (self.currency(from), self.currency(to)) {
            (Some(f), Some(t)) => (f, t),
            _ => {
                return Err(LedgerError::NotFound);
            },
        };
        proof {
            lemma_net_bounded(self.rows(), b@, a@, group@, from@);
        }
        let size: i64 = if owed < 0 { -owed } else { owed };
        let to_amount = match convert_amount(size, fc, tc) {
            Some(v) => v,
            None => {
                return Err(LedgerError::InvalidAmount);
            },
        };
        if to_amount == 0 {
            return Err(LedgerError::InvalidAmount);
        }
        let (debtor, creditor) = if owed > 0 { (a, b) } else { (b, a) };
        let now = now_rfc3339();
        let part = new_id();
        let mut back = make_leg(group, creditor, debtor, size, from, TransactionType::CurrencyConversion, a, &now);
        back.part_transaction = Some(part.clone());
        let mut forth = make_leg(group, debtor, creditor, to_amount, to, TransactionType::CurrencyConversion, a, &now);
        forth.part_transaction = Some(part);
        let mut legs: Vec<Split> = Vec::new();
        legs.push(back);
        legs.push(forth);
        let ghost fi = old(self).currency_index(from@);
        let ghost ti = old(self).currency_index(to@);
        assert(conversion_legs(legs@, group@, a@, b@, owed as int, converted(size as int, old(self).currency_rows()[fi], old(self).currency_rows()[ti]), from@, to@));
        let copies = copy_rows(&legs);
        match self.insert_all(copies) {
            Ok(()) => {},
            Err(_) => {
                assert(!appendable(old(self).rows(), legs@));
                return Err(LedgerError::Store);
            },
        }
        Ok(legs)
    }
}

/// The texts of `s` without repeats, each where it first appears.
pub open spec fn distinct_names(s: Seq<Seq<char>>) -> Seq<Seq<char>>
    decreases s.len(),
{
    if s.len() == 0 {
        seq![]
    } else {
        let d = distinct_names(s.drop_last());
        if d.contains(s.last()) {
            d
        } else {
            d.push(s.last())
        }
    }
}

/// Whether `after` is `before` followed by one netting pass between `a` and
/// `b`: its rows, or nothing where the store refused them.
pub open spec fn netting_pass(before: Seq<Split>, after: Seq<Split>, a: Seq<char>, b: Seq<char>) -> bool {
    let plan = cross_group_plan(owed_model(before, a, b));
    ||| exists|legs: Seq<Split>| #[trigger] netting_legs(legs, plan, a, b) && appendable(before, legs) && after == before + legs
    ||| after == before && exists|legs: Seq<Split>| #[trigger] netting_legs(legs, plan, a, b) && !appendable(before, legs)
}

/// Whether `states` runs from `start` to `rows` by one netting pass between
/// `user` and each of `others`, in order.
pub open spec fn netting_passes(
    states: Seq<Seq<Split>>,
    start: Seq<Split>,
    rows: Seq<Split>,
    user: Seq<char>,
    others: Seq<Seq<char>>,
) -> bool {
    &&& states.len() == others.len() + 1
    &&& states[0] == start
    &&& states.last() == rows
    &&& forall|i: int| 0 <= i < others.len() ==> netting_pass(#[trigger] states[i], states[i + 1], user, others[i])
}

/// Whether `legs` are the rows of a lump sum that `payer` paid `payee`: one
/// cash row from `payee` to `payer` per payment of `plan`, in order, then one
/// for what is `left`, if anything is; all share one correlation identifier
/// and belong to no expense and no other group.
pub open spec fn settle_legs(
    legs: Seq<Split>,
    plan: Seq<(Seq<char>, int)>,
    left: int,
    payer: Seq<char>,
    payee: Seq<char>,
    c: Seq<char>,
) -> bool {
    &&& legs.len() == plan.len() + if left > 0 { 1int } else { 0int }
    &&& forall|k: int| 0 <= k < plan.len() ==>
        leg_is(#[trigger] legs[k], plan[k].0, payee, payer, plan[k].1, c, TransactionType::CashPaid)
    &&& left > 0 ==> leg_is(legs.last(), legs.last().group_id@, payee, payer, left, c, TransactionType::CashPaid)
    &&& forall|k: int| 0 <= k < legs.len() ==> {
        &&& (#[trigger] legs[k]).part_transaction is Some
        &&& legs[k].part_transaction == legs[0].part_transaction
        &&& legs[k].expense_id is None
        &&& legs[k].with_group_id is None
    }
}

/// Whether `legs` are the two rows that move a balance `owed` (positive: `a`
/// owes `b`) in group `g` from currency `from` to `to_amount` of currency `to`:
/// one that cancels the balance and one that owes the converted amount in the
/// same direction, sharing a correlation identifier.
pub open spec fn conversion_legs(
    legs: Seq<Split>,
    g: Seq<char>,
    a: Seq<char>,
    b: Seq<char>,
    owed: int,
    to_amount: int,
    from: Seq<char>,
    to: Seq<char>,
) -> bool {
    let (debtor, creditor) = if owed > 0 { (a, b) } else { (b, a) };
    let size = if owed < 0 { -owed } else { owed };
    &&& legs.len() == 2
    &&& leg_is(legs[0], g, creditor, debtor, size, from, TransactionType::CurrencyConversion)
    &&& leg_is(legs[1], g, debtor, creditor, to_amount, to, TransactionType::CurrencyConversion)
    &&& legs[0].part_transaction is Some
    &&& legs[0].part_transaction == legs[1].part_transaction
    &&& legs[0].expense_id is None && legs[1].expense_id is None
    &&& legs[0].with_group_id is None && legs[1].with_group_id is None
}

/// Whether `x` and `y` are the two rows of settlement `p` between `a` and `b`:
/// `x` from `a` to `b` in the positive group, `y` its mirror in the negative
/// group, each pointing at the other group and sharing a correlation identifier.
pub open spec fn netting_pair(
    x: Split,
    y: Split,
    p: (Seq<char>, Seq<char>, Seq<char>, int),
    a: Seq<char>,
    b: Seq<char>,
) -> bool {
    &&& leg_is(x, p.1, a, b, p.3, p.0, TransactionType::CrossGroupSettlement)
    &&& text_is(x.with_group_id, p.2)
    &&& leg_is(y, p.2, b, a, p.3, p.0, TransactionType::CrossGroupSettlement)
    &&& text_is(y.with_group_id, p.1)
    &&& x.part_transaction is Some
    &&& x.part_transaction == y.part_transaction
}

/// Whether `legs` are the rows of the settlements `plan`, two per settlement, in order.
pub open spec fn netting_legs(
    legs: Seq<Split>,
    plan: Seq<(Seq<char>, Seq<char>, Seq<char>, int)>,
    a: Seq<char>,
    b: Seq<char>,
) -> bool {
    &&& legs.len() == 2 * plan.len()
    &&& forall|k: int| 0 <= k < plan.len() ==> netting_pair(legs[2 * k], legs[2 * k + 1], #[trigger] plan[k], a, b)
}

/// Whether `a` holds a text that `b` holds too.
fn part_clash(a: &Option<String>, b: &Option<String>) -> (r: bool)
    ensures
        r == (a is Some && text_is(*b, a->0@)),
{
    match (a, b) {
        (Some(x), Some(y)) => *x == *y,
        _ => false,
    }
}

/// The time of an expense: the stated one written in UTC where it is an
/// RFC 3339 time, else `now`.
pub open spec fn stated_time(stated: Option<String>, now: Seq<char>) -> Seq<char> {
    match stated {
        Some(t) => match utc_rfc3339(t@) {
            Some(u) => u,
            None => now,
        },
        None => now,
    }
}

/// Whether `o` holds the text `s`.
pub open spec fn text_is(o: Option<String>, s: Seq<char>) -> bool {
    o is Some && o->0@ == s
}

/// The users that `shares` name, in order.
pub open spec fn share_users(shares: Seq<SplitInput>) -> Seq<Seq<char>> {
    shares.map_values(|s: SplitInput| s.user_id@)
}

/// The participants of an expense: its creator and the users of its shares.
pub open spec fn participants(creator: Seq<char>, shares: Seq<SplitInput>) -> Set<Seq<char>> {
    (seq![creator] + share_users(shares)).to_set()
}

/// Whether some share names `creator`.
pub open spec fn self_share(shares: Seq<SplitInput>, creator: Seq<char>) -> bool {
    exists|k: int| 0 <= k < shares.len() && (#[trigger] shares[k]).user_id@ == creator
}

/// The shares of a positive amount, in order.
pub open spec fn kept_shares(shares: Seq<SplitInput>) -> Seq<SplitInput>
    decreases shares.len(),
{
    if shares.len() == 0 {
        seq![]
    } else {
        let k = kept_shares(shares.drop_last());
        if shares.last().amount > 0 {
            k.push(shares.last())
        } else {
            k
        }
    }
}

/// Whether `r` is a `kind` row of `amount` in group `g` and currency `c`, from `from` to `to`.
pub open spec fn leg_is(
    r: Split,
    g: Seq<char>,
    from: Seq<char>,
    to: Seq<char>,
    amount: int,
    c: Seq<char>,
    kind: TransactionType,
) -> bool {
    &&& r.group_id@ == g
    &&& r.from_user@ == from
    &&& r.to_user@ == to
    &&& r.amount == amount
    &&& r.currency_id@ == c
    &&& r.transaction_type@ == kind_name(kind)
}

/// Whether `legs` are the rows of an expense `e` by `creator`: one per kept
/// share, in order, from the share's user to `creator`.
pub open spec fn expense_legs(
    legs: Seq<Split>,
    kept: Seq<SplitInput>,
    g: Seq<char>,
    creator: Seq<char>,
    c: Seq<char>,
    e: Seq<char>,
) -> bool {
    &&& legs.len() == kept.len()
    &&& forall|k: int|
        0 <= k < legs.len() ==> {
            &&& leg_is(#[trigger] legs[k], g, kept[k].user_id@, creator, kept[k].amount as int, c, TransactionType::ExpenseSplit)
            &&& text_is(legs[k].expense_id, e)
            &&& legs[k].part_transaction is None
        }
}

/// A new row with a fresh identifier and no notes.
fn make_leg(
    group: &String,
    from: &String,
    to: &String,
    amount: i64,
    currency: &String,
    kind: TransactionType,
    creator: &String,
    now: &String,
) -> (r: Split)
    ensures
        leg_is(r, group@, from@, to@, amount as int, currency@, kind),
        r.expense_id is None,
        r.part_transaction is None,
        r.with_group_id is None,
        r.created_by@ == creator@,
{
    Split {
        id: new_id(),
        expense_id: None,
        group_id: group.clone(),
        amount,
        currency_id: currency.clone(),
        from_user: from.clone(),
        to_user: to.clone(),
        transaction_type: kind.name(),
        part_transaction: None,
        created_at: now.clone(),
        created_by: creator.clone(),
        with_group_id: None,
        note: None,
        image_id: None,
        updated_at: now.clone(),
        transaction_at: now.clone(),
        transaction_metadata: None,
    }
}

/// Whether `ms` records `user` as a member of `group`.
pub open spec fn member_in(ms: Seq<GroupMembership>, group: Seq<char>, user: Seq<char>) -> bool {
    exists|k: int| 0 <= k < ms.len() && #[trigger] ms[k].group_id@ == group && ms[k].user_id@ == user
}

proof fn lemma_member_push(ms: Seq<GroupMembership>, m: GroupMembership)
    ensures
        forall|g: Seq<char>, u: Seq<char>|
            #[trigger] member_in(ms.push(m), g, u) <==> member_in(ms, g, u) || (g == m.group_id@ && u == m.user_id@),
{
    let t = ms.push(m);
    assert forall|g: Seq<char>, u: Seq<char>|
        #[trigger] member_in(t, g, u) <==> member_in(ms, g, u) || (g == m.group_id@ && u == m.user_id@) by {
        if member_in(t, g, u) {
            let q = choose|q: int| 0 <= q < t.len() && #[trigger] t[q].group_id@ == g && t[q].user_id@ == u;
            if q < ms.len() {
                assert(ms[q] == t[q]);
            }
        }
        if member_in(ms, g, u) {
            let q = choose|q: int| 0 <= q < ms.len() && #[trigger] ms[q].group_id@ == g && ms[q].user_id@ == u;
            assert(ms[q] == t[q]);
        }
        if g == m.group_id@ && u == m.user_id@ {
            assert(t[ms.len() as int].group_id@ == g);
        }
    }
}

/// Whether `names` holds `s`.
fn has_name(names: &Vec<String>, s: &String) -> (r: bool)
    ensures
        r == names_of(names@).contains(s@),
{
    let mut i: usize = 0;
    while i < names.len()
        invariant
            0 <= i <= names.len(),
            forall|k: int| 0 <= k < i ==> #[trigger] names_of(names@)[k] != s@,
        decreases names.len() - i,
    {
        if names[i] == *s {
            assert(names_of(names@)[i as int] == s@);
            return true;
        }
        i = i + 1;
    }
    false
}

/// The index of the first currency with identifier `id` in `cs`, or -1.
pub open spec fn first_currency(cs: Seq<Currency>, id: Seq<char>) -> int
    decreases cs.len(),
{
    if cs.len() == 0 {
        -1
    } else {
        let k = first_currency(cs.drop_last(), id);
        if k >= 0 {
            k
        } else if cs.last().id@ == id {
            cs.len() - 1
        } else {
            -1
        }
    }
}

proof fn lemma_first_currency(cs: Seq<Currency>, id: Seq<char>, i: int)
    requires
        0 <= i < cs.len(),
        cs[i].id@ == id,
        forall|k: int| 0 <= k < i ==> #[trigger] cs[k].id@ != id,
    ensures
        first_currency(cs, id) == i,
    decreases cs.len(),
{
    if i < cs.len() - 1 {
        let p = cs.drop_last();
        assert(p[i] == cs[i]);
        assert forall|k: int| 0 <= k < i implies #[trigger] p[k].id@ != id by {
            assert(p[k] == cs[k]);
        }
        lemma_first_currency(p, id, i);
    } else {
        lemma_no_currency(cs.drop_last(), id);
    }
}

proof fn lemma_no_currency(cs: Seq<Currency>, id: Seq<char>)
    requires
        forall|k: int| 0 <= k < cs.len() ==> #[trigger] cs[k].id@ != id,
    ensures
        first_currency(cs, id) == -1,
    decreases cs.len(),
{
    if cs.len() > 0 {
        let p = cs.drop_last();
        assert forall|k: int| 0 <= k < p.len() implies #[trigger] p[k].id@ != id by {
            assert(p[k] == cs[k]);
        }
        lemma_no_currency(p, id);
        assert(cs[cs.len() - 1].id@ != id);
    }
}

/// The amounts of a list with positive amounts only grow along it.
proof fn lemma_total_prefix_grows(legs: Seq<Split>, i: int)
    requires
        0 <= i <= legs.len(),
        amounts_positive(legs.take(i)),
    ensures
        amounts_positive(legs) ==> total_amount(legs.take(i)) <= total_amount(legs),
{
    if amounts_positive(legs) {
        crate::balance::lemma_total_prefix(legs, i);
    }
}

} // verus!
