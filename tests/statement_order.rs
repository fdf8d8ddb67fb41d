use ledger::ledger::{AccountSpec, Ledger, LedgerError};
use ledger::statement::EntryKind;

fn ledger_with_book() -> (Ledger, u64) {
    let mut l = Ledger::new(true);
    let a = l.create_account(AccountSpec {
        name: "Acme".to_string(),
        email: Some("acme@example.com".to_string()),
        phone: None,
        address: None,
        created_at: "2024-01-01".to_string(),
        account_type: None,
    });
    let b = l.create_account_book(a, "Jan".to_string()).unwrap();
    (l, b)
}

#[test]
fn statement_merges_by_date_then_kind_then_id() {
    let (mut l, b) = ledger_with_book();
    let other = l.create_account_book(1, "Feb".to_string()).unwrap();
    let l1 = l.post_line(b, "a".to_string(), 100, 1, 0, 0, "2024-01-10".to_string()).unwrap();
    let p1 = l.post_payment(b, None, 30, "2024-01-05".to_string()).unwrap();
    let l2 = l.post_line(b, "b".to_string(), 50, 2, 0, 0, "2024-01-05".to_string()).unwrap();
    l.post_line(other, "c".to_string(), 1, 1, 0, 0, "2024-01-01".to_string()).unwrap();
    let l3 = l.post_line(b, "d".to_string(), 5, 1, 0, 0, "2024-01-05".to_string()).unwrap();
    let p2 = l.post_payment(b, Some("card".to_string()), 10, "2024-01-10".to_string()).unwrap();

    let st = l.get_statement(b).unwrap();
    let got: Vec<(String, EntryKind, u64, i64)> =
        st.iter().map(|e| (e.date.clone(), e.kind, e.id, e.amount)).collect();
    assert_eq!(
        got,
        vec![
            ("2024-01-05".to_string(), EntryKind::Line, l2, 100),
            ("2024-01-05".to_string(), EntryKind::Line, l3, 5),
            ("2024-01-05".to_string(), EntryKind::Payment, p1, 30),
            ("2024-01-10".to_string(), EntryKind::Line, l1, 100),
            ("2024-01-10".to_string(), EntryKind::Payment, p2, 10),
        ]
    );
}

#[test]
fn statement_of_empty_book_is_empty() {
    let (l, b) = ledger_with_book();
    assert_eq!(l.get_statement(b).map(|v| v.len()), Ok(0));
}

#[test]
fn statement_of_unknown_book_is_refused() {
    let (l, b) = ledger_with_book();
    assert!(matches!(l.get_statement(b + 1), Err(LedgerError::UnknownAccountBook)));
}

#[test]
fn statement_compares_dates_as_text() {
    let (mut l, b) = ledger_with_book();
    l.post_line(b, "x".to_string(), 1, 1, 0, 0, "2024-1-9".to_string()).unwrap();
    l.post_line(b, "y".to_string(), 2, 1, 0, 0, "2024-01-10".to_string()).unwrap();
    l.post_line(b, "z".to_string(), 3, 1, 0, 0, "2024-01-1".to_string()).unwrap();
    let st = l.get_statement(b).unwrap();
    let dates: Vec<&str> = st.iter().map(|e| e.date.as_str()).collect();
    assert_eq!(dates, vec!["2024-01-1", "2024-01-10", "2024-1-9"]);
}
