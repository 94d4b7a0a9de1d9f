use billdivide::auth::{AuthResult, AuthTypes, Claims, TokenType, UserNotSignedUp, UserSignedUp};
use billdivide::expire_map::ExpiringHashMap;
use billdivide::split::{Split, TransactionType};
use billdivide::user::User;
use billdivide::validators::{DateTimeValidator, IdValidator, NameValidator, UpiIdValidator};

fn user() -> User {
    User { id: "u1".to_string(), name: Some("Ann".to_string()), phone: None, email: None, notification_token: None }
}

#[test]
fn auth_variants() {
    let a = AuthTypes::AuthorizedUser(user());
    assert_eq!(a.as_authorized_user().unwrap().id, "u1");
    assert!(AuthTypes::UnAuthorized.as_authorized_user().is_none());
    let claims = Claims { exp: 10, phone_number: None, email: Some("a@b.c".to_string()), user_id: None, token_type: TokenType::Signup };
    assert!(AuthTypes::AuthorizedNotSignedUp(claims).as_authorized_user().is_none());
}

#[test]
fn token_kinds() {
    assert!(TokenType::Access.is_access() && !TokenType::Access.is_refresh() && !TokenType::Access.is_signup());
    assert!(TokenType::Refresh.is_refresh() && !TokenType::Refresh.is_access());
    assert!(TokenType::Signup.is_signup() && !TokenType::Signup.is_access());
}

#[test]
fn auth_results() {
    let ok = AuthResult::UserSignedUp(UserSignedUp { access_token: "x".to_string(), refresh_token: "y".to_string() });
    assert_eq!(ok.as_user_signed_up().unwrap().refresh_token, "y");
    assert_eq!(ok.try_into_user_signed_up().ok().unwrap().access_token, "x");
    let pending = AuthResult::UserNotSignedUp(UserNotSignedUp { signup_token: "s".to_string() });
    assert!(pending.as_user_signed_up().is_none());
    match pending.try_into_user_signed_up() {
        Err(AuthResult::UserNotSignedUp(p)) => assert_eq!(p.signup_token, "s"),
        _ => panic!("expected the pending signup back"),
    }
}

fn row(kind: &str) -> Split {
    Split {
        id: "r".to_string(),
        expense_id: None,
        group_id: "g".to_string(),
        amount: 1,
        currency_id: "USD".to_string(),
        from_user: "a".to_string(),
        to_user: "b".to_string(),
        transaction_type: kind.to_string(),
        part_transaction: None,
        created_at: String::new(),
        created_by: "a".to_string(),
        with_group_id: None,
        note: None,
        image_id: None,
        updated_at: String::new(),
        transaction_at: String::new(),
        transaction_metadata: None,
    }
}

#[test]
fn transaction_type_names() {
    assert_eq!(row("ExpenseSplit").get_transaction_type(), TransactionType::ExpenseSplit);
    assert_eq!(row("CrossGroupSettlement").get_transaction_type(), TransactionType::CrossGroupSettlement);
    assert_eq!(row("CurrencyConversion").get_transaction_type(), TransactionType::CurrencyConversion);
    assert_eq!(row("CashPaid").get_transaction_type(), TransactionType::CashPaid);
    assert_eq!(row("whatever").get_transaction_type(), TransactionType::CashPaid);
    assert_eq!(TransactionType::CurrencyConversion.name(), "CurrencyConversion");
}

#[test]
fn expiring_map_lapses_entries() {
    let mut m: ExpiringHashMap<String> = ExpiringHashMap::new(1000);
    m.insert_at("a@b.c".to_string(), "1234".to_string(), 0);
    m.insert_at("x@y.z".to_string(), "9".to_string(), 500);
    assert_eq!(m.get_at(&"a@b.c".to_string(), 999).map(|v| v.as_str()), Some("1234"));
    assert!(m.contains_key_at(&"x@y.z".to_string(), 1000));
    assert_eq!(m.get_at(&"a@b.c".to_string(), 1000), None);
    assert!(!m.contains_key_at(&"a@b.c".to_string(), 1000));
    m.insert_at("x@y.z".to_string(), "10".to_string(), 1400);
    assert_eq!(m.get_at(&"x@y.z".to_string(), 2000).map(|v| v.as_str()), Some("10"));
    assert_eq!(m.remove(&"x@y.z".to_string()), None);
    assert!(!m.contains_key_at(&"x@y.z".to_string(), 0));
    m.insert_at("k".to_string(), "1".to_string(), 5000);
    m.insert_at("k".to_string(), "2".to_string(), 5100);
    assert_eq!(m.get_at(&"k".to_string(), 5050).map(|v| v.as_str()), Some("2"));
    m.remove(&"k".to_string());
    assert_eq!(m.get_at(&"k".to_string(), 5050), None);
}

#[test]
fn expiring_map_with_clock() {
    let mut m: ExpiringHashMap<u32> = ExpiringHashMap::new(60_000);
    m.insert("k".to_string(), 7);
    assert_eq!(m.get(&"k".to_string()), Some(&7));
    assert!(m.contains_key(&"k".to_string()));
    m.clear();
    assert!(!m.contains_key(&"k".to_string()));
    let mut gone: ExpiringHashMap<u32> = ExpiringHashMap::new(0);
    gone.insert("k".to_string(), 1);
    assert_eq!(gone.get(&"k".to_string()), None);
}

#[test]
fn name_validator_trims() {
    let v = NameValidator::new("title");
    assert!(v.check(&"Dinner".to_string()).is_ok());
    assert_eq!(v.check(&"   abc   ".to_string()), Err("Invalid title".to_string()));
    assert!(v.check(&"  abcd  ".to_string()).is_ok());
    assert!(v.check(&"x".repeat(60)).is_err());
    assert!(v.check(&"x".repeat(59)).is_ok());
}

#[test]
fn id_validator() {
    let v = IdValidator::new("group_id");
    assert!(v.check(&"550e8400-e29b-41d4-a716-446655440000".to_string()).is_ok());
    assert_eq!(v.check(&"not-an-id".to_string()), Err("Invalid group_id".to_string()));
}

#[test]
fn date_time_validator() {
    let v = DateTimeValidator::new("transaction_at");
    assert!(v.check(&"2024-03-01T10:00:00+05:30".to_string()).is_ok());
    assert_eq!(v.check(&"yesterday".to_string()), Err("Invalid transaction_at".to_string()));
}

#[test]
fn upi_id_validator() {
    let v = UpiIdValidator::new("upi_id");
    assert!(v.check(&"ann.k-1@okbank".to_string()).is_ok());
    assert!(v.check(&"a@okbank".to_string()).is_err());
    assert_eq!(v.check(&"ann@bank1".to_string()), Err("Invalid upi_id".to_string()));
}
