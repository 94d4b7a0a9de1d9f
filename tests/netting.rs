use billdivide::amount::Amount;
use billdivide::netting::plan_cross_group;
use billdivide::settle::{allocate_payment, rank_debts};
use billdivide::user::OwedInGroup;

fn owed(g: &str, c: &str, amount: i64) -> OwedInGroup {
    OwedInGroup { group_id: g.to_string(), amount: Amount { amount, currency_id: c.to_string() } }
}

fn plan(entries: Vec<OwedInGroup>) -> Vec<(String, String, String, i64)> {
    plan_cross_group(&entries)
        .into_iter()
        .map(|s| (s.currency_id, s.positive_group, s.negative_group, s.amount))
        .collect()
}

fn t(c: &str, p: &str, n: &str, a: i64) -> (String, String, String, i64) {
    (c.to_string(), p.to_string(), n.to_string(), a)
}

#[test]
fn netting_shares_one_cursor_over_negatives() {
    let p = plan(vec![owed("ga", "USD", 50), owed("gx", "USD", -30), owed("gb", "USD", 40), owed("gy", "USD", -100)]);
    assert_eq!(p, vec![t("USD", "ga", "gx", 30), t("USD", "ga", "gy", 20), t("USD", "gb", "gy", 40)]);
}

#[test]
fn netting_stops_when_a_positive_is_used_up() {
    let p = plan(vec![owed("ga", "USD", 30), owed("gx", "USD", -30), owed("gy", "USD", -10), owed("gb", "USD", 5)]);
    assert_eq!(p, vec![t("USD", "ga", "gx", 30), t("USD", "gb", "gy", 5)]);
}

#[test]
fn netting_keeps_currencies_apart() {
    let p = plan(vec![owed("g1", "EUR", 10), owed("g2", "USD", 10), owed("g3", "USD", -4), owed("g4", "EUR", -25)]);
    assert_eq!(p, vec![t("EUR", "g1", "g4", 10), t("USD", "g2", "g3", 4)]);
    assert!(plan(vec![owed("g1", "USD", 10), owed("g2", "USD", 3)]).is_empty());
    assert!(plan(vec![]).is_empty());
}

#[test]
fn debts_are_ranked_largest_first_and_stably() {
    let es = vec![owed("a", "USD", 80), owed("b", "EUR", 500), owed("c", "USD", 100), owed("d", "USD", 80), owed("e", "USD", -5)];
    let r = rank_debts(&es, &"USD".to_string());
    let names: Vec<(&str, i64)> = r.iter().map(|(g, a)| (g.as_str(), *a)).collect();
    assert_eq!(names, vec![("c", 100), ("a", 80), ("d", 80), ("e", -5)]);
}

#[test]
fn lump_sum_is_applied_in_order() {
    let debts = vec![("g1".to_string(), 100), ("g2".to_string(), 80), ("g3".to_string(), -5)];
    let (pays, left) = allocate_payment(&debts, 150);
    assert_eq!(pays, vec![("g1".to_string(), 100), ("g2".to_string(), 50)]);
    assert_eq!(left, 0);
    let (pays, left) = allocate_payment(&debts, 250);
    assert_eq!(pays, vec![("g1".to_string(), 100), ("g2".to_string(), 80)]);
    assert_eq!(left, 70);
    let (pays, left) = allocate_payment(&debts, 0);
    assert!(pays.is_empty());
    assert_eq!(left, 0);
}
