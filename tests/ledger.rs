use billdivide::balance::owed_between;
use billdivide::convert::convert_amount;
use billdivide::currency::Currency;
use billdivide::expense::SplitInput;
use billdivide::ledger::{Ledger, LedgerError};
use billdivide::split::{Split, TransactionType};

fn s(x: &str) -> String {
    x.to_string()
}

fn usd() -> Currency {
    Currency { id: s("USD"), display_name: s("US Dollar"), rate_nanos: 1_000_000_000, symbol: s("$"), decimals: 2 }
}

fn inr() -> Currency {
    Currency { id: s("INR"), display_name: s("Indian Rupee"), rate_nanos: 80_000_000_000, symbol: s("₹"), decimals: 0 }
}

fn group_with(l: &mut Ledger, creator: &str, others: &[&str]) -> String {
    let g = l.create_group(&s(creator), Some(s("Trip"))).unwrap();
    for u in others {
        l.add_to_group(&g.id, &s(u)).unwrap();
    }
    g.id
}

fn share(user: &str, amount: i64) -> SplitInput {
    SplitInput { amount, user_id: s(user) }
}

fn expense(l: &mut Ledger, creator: &str, group: &str, amount: i64, shares: Vec<SplitInput>) -> Result<(), LedgerError> {
    l.create_expense(&s(creator), &s(group), s("Dinner"), amount, &s("USD"), &shares, s("FOOD"), None, None, None)
        .map(|_| ())
}

fn row_sum(rows: &[Split], a: &str, b: &str, g: &str, c: &str) -> i64 {
    let mut t = 0;
    for r in rows {
        if r.group_id == g && r.currency_id == c {
            if r.from_user == b && r.to_user == a {
                t += r.amount;
            } else if r.from_user == a && r.to_user == b {
                t -= r.amount;
            }
        }
    }
    t
}

fn leg(id: &str, group: &str, from: &str, to: &str, amount: i64, part: &str) -> Split {
    Split {
        id: s(id),
        expense_id: None,
        group_id: s(group),
        amount,
        currency_id: s("USD"),
        from_user: s(from),
        to_user: s(to),
        transaction_type: s("CashPaid"),
        part_transaction: Some(s(part)),
        created_at: s("2024-01-01T00:00:00+00:00"),
        created_by: s(from),
        with_group_id: None,
        note: None,
        image_id: None,
        updated_at: s("2024-01-01T00:00:00+00:00"),
        transaction_at: s("2024-01-01T00:00:00+00:00"),
        transaction_metadata: None,
    }
}

#[test]
fn expense_creates_one_row_per_share() {
    let mut l = Ledger::new();
    l.add_currency(usd());
    let g = group_with(&mut l, "c", &["u1", "u2"]);
    let e = l
        .create_expense(&s("c"), &g, s("Dinner"), 100, &s("USD"), &vec![share("u1", 60), share("u2", 40)], s("FOOD"), None, None, None)
        .unwrap();
    assert_eq!(e.amount, 100);
    assert_eq!(l.expenses().len(), 1);
    let rows = l.splits();
    assert_eq!(rows.len(), 2);
    assert_eq!((rows[0].from_user.as_str(), rows[0].to_user.as_str(), rows[0].amount), ("u1", "c", 60));
    assert_eq!((rows[1].from_user.as_str(), rows[1].to_user.as_str(), rows[1].amount), ("u2", "c", 40));
    for r in rows {
        assert_eq!(r.get_transaction_type(), TransactionType::ExpenseSplit);
        assert_eq!(r.expense_id.as_deref(), Some(e.id.as_str()));
        assert_eq!(r.group_id, g);
    }
}

#[test]
fn expense_rejects_self_share_and_drops_empty_shares() {
    let mut l = Ledger::new();
    l.add_currency(usd());
    let g = group_with(&mut l, "c", &["u1", "u2"]);
    let r = expense(&mut l, "c", &g, 100, vec![share("u1", 60), share("c", 40)]);
    assert_eq!(r, Err(LedgerError::SelfSplitNotAllowed));
    let r = expense(&mut l, "c", &g, 100, vec![share("c", 0)]);
    assert_eq!(r, Err(LedgerError::SelfSplitNotAllowed));
    assert_eq!(l.splits().len(), 0);
    assert_eq!(l.expenses().len(), 0);
    expense(&mut l, "c", &g, 100, vec![share("u1", 100), share("u2", 0), share("u3", -5)]).unwrap();
    assert_eq!(l.splits().len(), 1);
    assert_eq!(l.splits()[0].from_user, "u1");
}

#[test]
fn expense_errors() {
    let mut l = Ledger::new();
    l.add_currency(usd());
    let g = group_with(&mut l, "c", &["u1"]);
    assert_eq!(expense(&mut l, "c", &g, 0, vec![share("u1", 10)]), Err(LedgerError::InvalidAmount));
    assert_eq!(expense(&mut l, "c", "nope", 10, vec![share("u1", 10)]), Err(LedgerError::NotFound));
    let r = l.create_expense(&s("c"), &g, s("Dinner"), 10, &s("EUR"), &vec![share("u1", 10)], s("FOOD"), None, None, None);
    assert!(matches!(r, Err(LedgerError::NotFound)));
    assert_eq!(expense(&mut l, "c", &g, 10, vec![share("u9", 10)]), Err(LedgerError::NotAGroupMember));
    assert_eq!(l.splits().len(), 0);
}

#[test]
fn expense_time_is_written_in_utc() {
    let mut l = Ledger::new();
    l.add_currency(usd());
    let g = group_with(&mut l, "c", &["u1"]);
    let e = l
        .create_expense(&s("c"), &g, s("Taxi"), 10, &s("USD"), &vec![share("u1", 10)], s("TRAVEL"), None, None, Some(s("2024-01-01T05:30:00+05:30")))
        .unwrap();
    assert_eq!(e.transaction_at, "2024-01-01T00:00:00+00:00");
    assert_eq!(l.splits()[0].transaction_at, "2024-01-01T00:00:00+00:00");
}

#[test]
fn balances_are_row_sums_after_any_writes() {
    let mut l = Ledger::new();
    l.add_currency(usd());
    let g1 = group_with(&mut l, "a", &["b"]);
    let g2 = group_with(&mut l, "b", &["a"]);
    expense(&mut l, "a", &g1, 300, vec![share("b", 100)]).unwrap();
    expense(&mut l, "b", &g2, 90, vec![share("a", 30)]).unwrap();
    l.settle_in_group(&s("b"), &s("a"), &g1, 25, &s("USD"), None, None, None).unwrap();
    l.auto_settle(&s("a"), &s("b"), 10, &s("USD"), None, None, None).unwrap();
    let owed = l.owed_between(&s("a"), &s("b"));
    assert!(!owed.is_empty());
    for e in &owed {
        assert_eq!(e.amount.amount, row_sum(l.splits(), "a", "b", &e.group_id, &e.amount.currency_id));
    }
    assert_eq!(owed[0].group_id, g1);
    assert_eq!(owed[0].amount.amount, 125);
    assert_eq!(owed[1].group_id, g2);
    assert_eq!(owed[1].amount.amount, -20);
    let free = owed_between(l.splits(), &s("a"), &s("b"));
    assert_eq!(free.len(), owed.len());
}

#[test]
fn zero_balances_are_not_reported() {
    let mut l = Ledger::new();
    l.add_currency(usd());
    let g = group_with(&mut l, "a", &["b"]);
    expense(&mut l, "a", &g, 100, vec![share("b", 50)]).unwrap();
    l.settle_in_group(&s("a"), &s("b"), &g, 50, &s("USD"), None, None, None).unwrap();
    assert!(l.owed_between(&s("a"), &s("b")).is_empty());
}

#[test]
fn settle_in_group_writes_one_cash_row() {
    let mut l = Ledger::new();
    l.add_currency(usd());
    let g = group_with(&mut l, "p", &["q"]);
    let r = l.settle_in_group(&s("p"), &s("q"), &g, 70, &s("USD"), Some(s("thanks")), None, None).unwrap();
    assert_eq!(r.get_transaction_type(), TransactionType::CashPaid);
    assert_eq!((r.from_user.as_str(), r.to_user.as_str(), r.amount), ("p", "q", 70));
    assert_eq!(r.part_transaction, None);
    assert_eq!(l.splits().len(), 1);
    assert_eq!(l.settle_in_group(&s("p"), &s("q"), &g, 0, &s("USD"), None, None, None).unwrap_err(), LedgerError::InvalidAmount);
    assert_eq!(l.settle_in_group(&s("p"), &s("z"), &g, 5, &s("USD"), None, None, None).unwrap_err(), LedgerError::NotAGroupMember);
    assert_eq!(l.settle_in_group(&s("p"), &s("q"), &s("x"), 5, &s("USD"), None, None, None).unwrap_err(), LedgerError::NotFound);
    assert_eq!(l.splits().len(), 1);
}

fn two_debts() -> (Ledger, String, String) {
    let mut l = Ledger::new();
    l.add_currency(usd());
    let g1 = group_with(&mut l, "payee", &["payer"]);
    let g2 = group_with(&mut l, "payee", &["payer"]);
    expense(&mut l, "payee", &g2, 80, vec![share("payer", 80)]).unwrap();
    expense(&mut l, "payee", &g1, 100, vec![share("payer", 100)]).unwrap();
    (l, g1, g2)
}

#[test]
fn auto_settle_pays_largest_debt_first() {
    let (mut l, g1, g2) = two_debts();
    let groups_before = l.groups().len();
    let legs = l.auto_settle(&s("payer"), &s("payee"), 150, &s("USD"), None, None, None).unwrap();
    assert_eq!(legs.len(), 2);
    assert_eq!((legs[0].group_id.as_str(), legs[0].amount), (g1.as_str(), 100));
    assert_eq!((legs[1].group_id.as_str(), legs[1].amount), (g2.as_str(), 50));
    for leg in &legs {
        assert_eq!((leg.from_user.as_str(), leg.to_user.as_str()), ("payee", "payer"));
        assert_eq!(leg.get_transaction_type(), TransactionType::CashPaid);
        assert!(leg.part_transaction.is_some());
        assert_eq!(leg.part_transaction, legs[0].part_transaction);
    }
    assert_eq!(l.groups().len(), groups_before);
    let owed = l.owed_between(&s("payee"), &s("payer"));
    assert_eq!(owed.len(), 1);
    assert_eq!((owed[0].group_id.as_str(), owed[0].amount.amount), (g2.as_str(), 30));
}

#[test]
fn auto_settle_overpayment_goes_to_direct_group() {
    let (mut l, g1, g2) = two_debts();
    let legs = l.auto_settle(&s("payer"), &s("payee"), 250, &s("USD"), None, None, None).unwrap();
    assert_eq!(legs.len(), 3);
    assert_eq!((legs[0].group_id.as_str(), legs[0].amount), (g1.as_str(), 100));
    assert_eq!((legs[1].group_id.as_str(), legs[1].amount), (g2.as_str(), 80));
    assert_eq!((legs[2].from_user.as_str(), legs[2].to_user.as_str(), legs[2].amount), ("payee", "payer", 70));
    let direct = l.find_direct_group(&vec![s("payer"), s("payee")]).unwrap();
    assert!(direct.direct);
    assert_eq!(direct.name, None);
    assert_eq!(legs[2].group_id, direct.id);
    let owed = l.owed_between(&s("payer"), &s("payee"));
    assert_eq!(owed.len(), 1);
    assert_eq!((owed[0].group_id.as_str(), owed[0].amount.amount), (direct.id.as_str(), 70));
    let again = l.auto_settle(&s("payer"), &s("payee"), 5, &s("USD"), None, None, None).unwrap();
    assert_eq!(again.len(), 1);
    assert_eq!(again[0].group_id, direct.id);
}

#[test]
fn auto_settle_errors() {
    let (mut l, _, _) = two_debts();
    assert_eq!(l.auto_settle(&s("payer"), &s("payee"), 0, &s("USD"), None, None, None).unwrap_err(), LedgerError::InvalidAmount);
    assert_eq!(l.auto_settle(&s("payer"), &s("payee"), 5, &s("EUR"), None, None, None).unwrap_err(), LedgerError::NotFound);
}

#[test]
fn netting_cancels_across_groups_and_keeps_totals() {
    let mut l = Ledger::new();
    l.add_currency(usd());
    let g1 = group_with(&mut l, "a", &["b"]);
    let g2 = group_with(&mut l, "a", &["b"]);
    expense(&mut l, "a", &g1, 100, vec![share("b", 100)]).unwrap();
    expense(&mut l, "b", &g2, 60, vec![share("a", 60)]).unwrap();
    let total_before: i64 = l.owed_between(&s("a"), &s("b")).iter().map(|e| e.amount.amount).sum();
    let legs = l.simplify_cross_group(&s("a"), &s("b")).unwrap();
    assert_eq!(legs.len(), 2);
    assert_eq!((legs[0].group_id.as_str(), legs[0].from_user.as_str(), legs[0].to_user.as_str(), legs[0].amount), (g1.as_str(), "a", "b", 60));
    assert_eq!(legs[0].with_group_id.as_deref(), Some(g2.as_str()));
    assert_eq!((legs[1].group_id.as_str(), legs[1].from_user.as_str(), legs[1].to_user.as_str(), legs[1].amount), (g2.as_str(), "b", "a", 60));
    assert_eq!(legs[1].with_group_id.as_deref(), Some(g1.as_str()));
    assert_eq!(legs[0].part_transaction, legs[1].part_transaction);
    assert_eq!(legs[0].get_transaction_type(), TransactionType::CrossGroupSettlement);
    let owed = l.owed_between(&s("a"), &s("b"));
    let total_after: i64 = owed.iter().map(|e| e.amount.amount).sum();
    assert_eq!(total_before, 40);
    assert_eq!(total_after, 40);
    assert_eq!(owed.len(), 1);
    assert_eq!((owed[0].group_id.as_str(), owed[0].amount.amount), (g1.as_str(), 40));
    let rows = l.splits().len();
    assert!(l.simplify_cross_group(&s("a"), &s("b")).unwrap().is_empty());
    assert_eq!(l.splits().len(), rows);
}

#[test]
fn convert_zero_balance_writes_nothing() {
    let mut l = Ledger::new();
    l.add_currency(usd());
    l.add_currency(inr());
    let g = group_with(&mut l, "a", &["b"]);
    let legs = l.convert_currency(&s("a"), &s("b"), &g, &s("USD"), &s("INR")).unwrap();
    assert!(legs.is_empty());
    assert_eq!(l.splits().len(), 0);
}

#[test]
fn convert_moves_balance_to_other_currency() {
    let mut l = Ledger::new();
    l.add_currency(usd());
    l.add_currency(inr());
    let g = group_with(&mut l, "b", &["a"]);
    expense(&mut l, "b", &g, 500, vec![share("a", 500)]).unwrap();
    let legs = l.convert_currency(&s("a"), &s("b"), &g, &s("USD"), &s("INR")).unwrap();
    assert_eq!(legs.len(), 2);
    assert_eq!((legs[0].from_user.as_str(), legs[0].to_user.as_str(), legs[0].amount, legs[0].currency_id.as_str()), ("b", "a", 500, "USD"));
    assert_eq!((legs[1].from_user.as_str(), legs[1].to_user.as_str(), legs[1].amount, legs[1].currency_id.as_str()), ("a", "b", 400, "INR"));
    assert_eq!(legs[0].part_transaction, legs[1].part_transaction);
    assert_eq!(legs[1].get_transaction_type(), TransactionType::CurrencyConversion);
    let owed = l.owed_between(&s("b"), &s("a"));
    assert_eq!(owed.len(), 1);
    assert_eq!((owed[0].amount.currency_id.as_str(), owed[0].amount.amount), ("INR", 400));
    assert_eq!(l.convert_currency(&s("a"), &s("b"), &g, &s("INR"), &s("EUR")).unwrap_err(), LedgerError::NotFound);
}

#[test]
fn conversion_formula() {
    assert_eq!(convert_amount(500, &usd(), &inr()), Some(400));
    assert_eq!(convert_amount(400, &inr(), &usd()), Some(500));
    assert_eq!(convert_amount(1, &inr(), &usd()), Some(1));
    assert_eq!(convert_amount(0, &usd(), &inr()), Some(0));
    let mut broken = usd();
    broken.rate_nanos = 0;
    assert_eq!(convert_amount(5, &broken, &inr()), None);
    let mut huge = inr();
    huge.decimals = 40;
    assert_eq!(convert_amount(5, &usd(), &huge), None);
}

#[test]
fn failed_batch_leaves_no_rows() {
    let mut l = Ledger::new();
    l.add_currency(usd());
    l.insert_all(vec![leg("r1", "g", "x", "y", 5, "batch-a")]).unwrap();
    let r = l.insert_all(vec![leg("r2", "g", "x", "y", 5, "batch-b"), leg("r1", "g", "x", "y", 7, "batch-b")]);
    assert_eq!(r, Err(LedgerError::Store));
    assert_eq!(l.splits().len(), 1);
    assert!(l.splits().iter().all(|r| r.part_transaction.as_deref() != Some("batch-b")));
    let r = l.insert_all(vec![leg("r3", "g", "x", "y", 5, "batch-c"), leg("r3", "g", "x", "y", 7, "batch-c")]);
    assert_eq!(r, Err(LedgerError::Store));
    let r = l.insert_all(vec![leg("r4", "g", "x", "y", 5, "batch-d"), leg("r5", "g", "x", "y", 0, "batch-d")]);
    assert_eq!(r, Err(LedgerError::Store));
    let r = l.insert_all(vec![leg("r6", "g", "x", "y", i64::MAX, "batch-e")]);
    assert_eq!(r, Err(LedgerError::Store));
    assert_eq!(l.splits().len(), 1);
}

#[test]
fn direct_group_lookup() {
    let mut l = Ledger::new();
    let users = vec![s("a"), s("b")];
    assert_eq!(l.find_direct_group(&users).unwrap_err(), LedgerError::NotFound);
    let named = l.create_group(&s("a"), Some(s("Flat"))).unwrap();
    l.add_to_group(&named.id, &s("b")).unwrap();
    assert_eq!(l.find_direct_group(&users).unwrap_err(), LedgerError::NotFound);
    let d1 = l.create_group(&s("a"), None).unwrap();
    l.add_to_group(&d1.id, &s("b")).unwrap();
    assert_eq!(l.find_direct_group(&vec![s("b"), s("a")]).unwrap().id, d1.id);
    assert_eq!(l.find_direct_group(&vec![s("a")]).unwrap_err(), LedgerError::NotFound);
    let d2 = l.create_group(&s("b"), None).unwrap();
    l.add_to_group(&d2.id, &s("a")).unwrap();
    assert_eq!(l.find_direct_group(&users).unwrap_err(), LedgerError::NotFound);
    assert_eq!(l.add_to_group(&s("missing"), &s("a")), Err(LedgerError::NotFound));
    assert!(l.is_member(&d2.id, &s("a")));
    assert!(!l.is_member(&d2.id, &s("c")));
}

#[test]
fn currency_lookup_finds_first() {
    let mut l = Ledger::new();
    l.add_currency(usd());
    let mut other = usd();
    other.symbol = s("US$");
    l.add_currency(other);
    assert_eq!(l.currency(&s("USD")).unwrap().symbol, "$");
    assert!(l.currency(&s("GBP")).is_none());
}

#[test]
fn non_group_expense_reuses_or_makes_direct_group() {
    let mut l = Ledger::new();
    l.add_currency(usd());
    let first = l
        .add_non_group_expense(&s("c"), s("Cab"), 90, &s("USD"), &vec![share("u1", 30), share("u2", 30)], s("TRAVEL"), None, None, None)
        .unwrap();
    assert!(first.group.direct);
    assert_eq!(first.group.name, None);
    assert_eq!(first.expense.group_id, first.group.id);
    assert!(l.is_member(&first.group.id, &s("c")));
    assert!(l.is_member(&first.group.id, &s("u1")));
    assert!(l.is_member(&first.group.id, &s("u2")));
    assert_eq!(l.splits().len(), 2);
    let again = l
        .add_non_group_expense(&s("c"), s("Lunch"), 40, &s("USD"), &vec![share("u2", 20), share("u1", 20)], s("FOOD"), None, None, None)
        .unwrap();
    assert_eq!(again.group.id, first.group.id);
    let pair = l
        .add_non_group_expense(&s("c"), s("Tea"), 10, &s("USD"), &vec![share("u1", 5)], s("FOOD"), None, None, None)
        .unwrap();
    assert_ne!(pair.group.id, first.group.id);
    assert_eq!(l.groups().len(), 2);
    assert_eq!(l.splits().len(), 5);
}

#[test]
fn non_group_expense_is_refused_before_any_write() {
    let mut l = Ledger::new();
    l.add_currency(usd());
    let r = l.add_non_group_expense(&s("c"), s("Cab"), 90, &s("USD"), &vec![share("c", 30)], s("TRAVEL"), None, None, None);
    assert!(matches!(r, Err(LedgerError::SelfSplitNotAllowed)));
    let r = l.add_non_group_expense(&s("c"), s("Cab"), 0, &s("USD"), &vec![share("u1", 30)], s("TRAVEL"), None, None, None);
    assert!(matches!(r, Err(LedgerError::InvalidAmount)));
    let r = l.add_non_group_expense(&s("c"), s("Cab"), 5, &s("EUR"), &vec![share("u1", 30)], s("TRAVEL"), None, None, None);
    assert!(matches!(r, Err(LedgerError::NotFound)));
    assert_eq!(l.groups().len(), 0);
    assert_eq!(l.splits().len(), 0);
}

#[test]
fn follow_up_netting_runs_once_per_participant() {
    let mut l = Ledger::new();
    l.add_currency(usd());
    let g1 = group_with(&mut l, "a", &["b", "c"]);
    let g2 = group_with(&mut l, "b", &["a", "c"]);
    expense(&mut l, "a", &g1, 150, vec![share("b", 100), share("c", 50)]).unwrap();
    expense(&mut l, "b", &g2, 60, vec![share("a", 60)]).unwrap();
    expense(&mut l, "c", &g2, 20, vec![share("a", 20)]).unwrap();
    let before = l.splits().len();
    l.simplify_with_each(&s("a"), &vec![s("b"), s("c"), s("b")]);
    assert_eq!(l.splits().len(), before + 4);
    let ab = l.owed_between(&s("a"), &s("b"));
    assert_eq!(ab.len(), 1);
    assert_eq!((ab[0].group_id.as_str(), ab[0].amount.amount), (g1.as_str(), 40));
    let ac = l.owed_between(&s("a"), &s("c"));
    assert_eq!(ac.len(), 1);
    assert_eq!((ac[0].group_id.as_str(), ac[0].amount.amount), (g1.as_str(), 30));
}

#[test]
fn add_expense_nets_afterwards() {
    let mut l = Ledger::new();
    l.add_currency(usd());
    let g1 = group_with(&mut l, "a", &["b"]);
    let g2 = group_with(&mut l, "b", &["a"]);
    expense(&mut l, "b", &g2, 60, vec![share("a", 60)]).unwrap();
    let e = l
        .add_expense(&s("a"), &g1, s("Hotel"), 100, &s("USD"), &vec![share("b", 100), share("c", 0)], s("STAY"), None, None, None)
        .unwrap();
    assert_eq!(e.group_id, g1);
    let rows = l.splits();
    assert_eq!(rows.len(), 4);
    assert_eq!(rows[1].get_transaction_type(), TransactionType::ExpenseSplit);
    assert_eq!(rows[2].get_transaction_type(), TransactionType::CrossGroupSettlement);
    let owed = l.owed_between(&s("a"), &s("b"));
    assert_eq!(owed.len(), 1);
    assert_eq!((owed[0].group_id.as_str(), owed[0].amount.amount), (g1.as_str(), 40));
    assert_eq!(
        l.add_expense(&s("a"), &g1, s("Hotel"), 100, &s("USD"), &vec![share("a", 1)], s("STAY"), None, None, None).unwrap_err(),
        LedgerError::SelfSplitNotAllowed
    );
}

#[test]
fn expense_with_only_dropped_shares_succeeds() {
    let mut l = Ledger::new();
    l.add_currency(usd());
    let g = group_with(&mut l, "c", &["u1"]);
    let e = l.create_expense(&s("c"), &g, s("Gift"), 30, &s("USD"), &vec![share("u1", 0)], s("MISC"), None, None, None).unwrap();
    assert_eq!(e.transaction_at, e.created_at);
    assert_eq!(l.splits().len(), 0);
    assert_eq!(l.expenses().len(), 1);
}

#[test]
fn auto_settle_with_user_nets_afterwards() {
    let (mut l, g1, g2) = two_debts();
    let g3 = group_with(&mut l, "payer", &["payee"]);
    expense(&mut l, "payer", &g3, 50, vec![share("payee", 50)]).unwrap();
    let before = l.splits().len();
    let legs = l.auto_settle_with_user(&s("payer"), &s("payee"), 20, &s("USD"), None, None, None).unwrap();
    assert_eq!(legs.len(), 1);
    assert_eq!((legs[0].group_id.as_str(), legs[0].amount), (g1.as_str(), 20));
    assert_eq!(l.splits().len(), before + 3);
    let owed = l.owed_between(&s("payee"), &s("payer"));
    let total: i64 = owed.iter().map(|e| e.amount.amount).sum();
    assert_eq!(total, 100 - 20 + 80 - 50);
    assert_eq!(owed.len(), 2);
    assert_eq!((owed[0].group_id.as_str(), owed[0].amount.amount), (g2.as_str(), 30));
    assert_eq!((owed[1].group_id.as_str(), owed[1].amount.amount), (g1.as_str(), 80));
    assert_eq!(l.auto_settle_with_user(&s("payer"), &s("payee"), -1, &s("USD"), None, None, None).unwrap_err(), LedgerError::InvalidAmount);
}
