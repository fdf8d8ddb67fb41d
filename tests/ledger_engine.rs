use ledger::ledger::{AccountSpec, Ledger, LedgerError};
use ledger::pricing::total_price;

fn spec(name: &str) -> AccountSpec {
    AccountSpec {
        name: name.to_string(),
        email: None,
        phone: None,
        address: None,
        created_at: "2024-01-01 00:00:00".to_string(),
        account_type: None,
    }
}

fn book_debt(l: &Ledger, id: u64) -> i64 {
    l.books.iter().find(|b| b.id == id).unwrap().debt
}

fn book_balance(l: &Ledger, id: u64) -> i64 {
    l.books.iter().find(|b| b.id == id).unwrap().balance
}

fn account_debt(l: &Ledger, id: u64) -> i64 {
    l.accounts.iter().find(|a| a.id == id).unwrap().debt
}

fn account_balance(l: &Ledger, id: u64) -> i64 {
    l.accounts.iter().find(|a| a.id == id).unwrap().balance
}

#[test]
fn acme_line_then_payment() {
    let mut l = Ledger::new(true);
    let acme = l.create_account(spec("Acme"));
    assert_eq!(account_debt(&l, acme), 0);
    assert_eq!(account_balance(&l, acme), 0);
    let jan = l.create_account_book(acme, "Jan".to_string()).unwrap();
    let line = l.post_line(jan, "widgets".to_string(), 100, 2, 20, 0, "2024-01-05".to_string()).unwrap();
    let posted = l.lines.iter().find(|x| x.id == line).unwrap();
    assert_eq!(posted.total_price, 240);
    assert_eq!(posted.price, 200);
    assert_eq!(book_debt(&l, jan), 240);
    assert_eq!(account_debt(&l, acme), 240);
    let pay = l.post_payment(jan, None, 100, "2024-01-06".to_string()).unwrap();
    assert_eq!(book_debt(&l, jan), 140);
    assert_eq!(book_balance(&l, jan), 100);
    assert_eq!(account_debt(&l, acme), 140);
    assert_eq!(account_balance(&l, acme), 100);
    let p = l.payments.iter().find(|x| x.id == pay).unwrap();
    assert_eq!(p.old_debt, 240);
    assert_eq!(p.payment, 100);
}

#[test]
fn default_account_type_is_customer() {
    let mut l = Ledger::new(true);
    let id = l.create_account(spec("Acme"));
    assert_eq!(l.accounts[0].id, id);
    assert_eq!(l.accounts[0].account_type, "customer");
    let mut s = spec("Parts Inc");
    s.account_type = Some("supplier".to_string());
    l.create_account(s);
    assert_eq!(l.accounts[1].account_type, "supplier");
}

#[test]
fn aggregates_follow_a_sequence_of_postings() {
    let mut l = Ledger::new(true);
    let a = l.create_account(spec("A"));
    let b1 = l.create_account_book(a, "one".to_string()).unwrap();
    let b2 = l.create_account_book(a, "two".to_string()).unwrap();
    l.post_line(b1, "x".to_string(), 50, 3, 0, 0, "d1".to_string()).unwrap();
    l.post_line(b2, "y".to_string(), 1000, 1, 20, 10, "d1".to_string()).unwrap();
    l.post_payment(b1, Some("cash".to_string()), 30, "d2".to_string()).unwrap();
    l.post_line(b1, "z".to_string(), 7, 1, 0, 0, "d3".to_string()).unwrap();
    l.post_payment(b2, None, 80, "d4".to_string()).unwrap();
    for b in [b1, b2] {
        let lines: i64 = l.lines.iter().filter(|x| x.account_book_id == b).map(|x| x.total_price).sum();
        let paid: i64 = l.payments.iter().filter(|x| x.account_book_id == b).map(|x| x.payment).sum();
        assert_eq!(book_debt(&l, b), lines - paid);
        assert_eq!(book_balance(&l, b), paid);
    }
    assert_eq!(book_debt(&l, b1), 150 - 30 + 7);
    assert_eq!(book_debt(&l, b2), 1080 - 80);
    assert_eq!(account_debt(&l, a), book_debt(&l, b1) + book_debt(&l, b2));
    assert_eq!(account_balance(&l, a), 110);
}

#[test]
fn unknown_book_and_account_are_refused() {
    let mut l = Ledger::new(true);
    assert_eq!(l.create_account_book(9, "x".to_string()), Err(LedgerError::UnknownAccount));
    assert_eq!(
        l.post_line(3, "x".to_string(), 1, 1, 20, 0, "d".to_string()),
        Err(LedgerError::UnknownAccountBook)
    );
    assert_eq!(l.post_payment(3, None, 1, "d".to_string()), Err(LedgerError::UnknownAccountBook));
    assert_eq!(l.update_last_action(4, "sale".to_string()), Err(LedgerError::UnknownAccount));
    assert_eq!(l.delete_account(4), Err(LedgerError::UnknownAccount));
}

#[test]
fn discount_above_hundred_is_refused() {
    let mut l = Ledger::new(true);
    let a = l.create_account(spec("A"));
    let b = l.create_account_book(a, "b".to_string()).unwrap();
    assert_eq!(
        l.post_line(b, "x".to_string(), 10, 1, 20, 101, "d".to_string()),
        Err(LedgerError::InvalidDiscount)
    );
    assert!(l.lines.is_empty());
    assert_eq!(book_debt(&l, b), 0);
}

#[test]
fn payment_must_be_positive() {
    let mut l = Ledger::new(true);
    let a = l.create_account(spec("A"));
    let b = l.create_account_book(a, "b".to_string()).unwrap();
    assert_eq!(l.post_payment(b, None, 0, "d".to_string()), Err(LedgerError::InvalidAmount));
    assert_eq!(l.post_payment(b, None, -5, "d".to_string()), Err(LedgerError::InvalidAmount));
    assert!(l.payments.is_empty());
}

#[test]
fn overpayment_refused_when_not_allowed() {
    let mut l = Ledger::new(false);
    let a = l.create_account(spec("A"));
    let b = l.create_account_book(a, "b".to_string()).unwrap();
    l.post_line(b, "x".to_string(), 100, 1, 0, 0, "d".to_string()).unwrap();
    assert_eq!(l.post_payment(b, None, 101, "d".to_string()), Err(LedgerError::Overpayment));
    assert_eq!(book_debt(&l, b), 100);
    assert!(l.post_payment(b, None, 100, "d".to_string()).is_ok());
    assert_eq!(book_debt(&l, b), 0);
}

#[test]
fn overpayment_leaves_credit_when_allowed() {
    let mut l = Ledger::new(true);
    let a = l.create_account(spec("A"));
    let b = l.create_account_book(a, "b".to_string()).unwrap();
    l.post_line(b, "x".to_string(), 100, 1, 0, 0, "d".to_string()).unwrap();
    let p = l.post_payment(b, None, 150, "d".to_string()).unwrap();
    assert_eq!(book_debt(&l, b), -50);
    assert_eq!(account_debt(&l, a), -50);
    assert_eq!(l.payments.iter().find(|x| x.id == p).unwrap().old_debt, 100);
}

#[test]
fn amounts_that_do_not_fit_are_refused() {
    let mut l = Ledger::new(true);
    let a = l.create_account(spec("A"));
    let b = l.create_account_book(a, "b".to_string()).unwrap();
    assert_eq!(
        l.post_line(b, "x".to_string(), i64::MAX, 2, 0, 0, "d".to_string()),
        Err(LedgerError::AmountOverflow)
    );
    l.post_line(b, "x".to_string(), i64::MAX / 2, 1, 0, 0, "d".to_string()).unwrap();
    assert_eq!(
        l.post_line(b, "y".to_string(), i64::MAX / 2 + 10, 1, 0, 0, "d".to_string()),
        Err(LedgerError::AmountOverflow)
    );
    assert_eq!(l.lines.len(), 1);
    assert_eq!(book_debt(&l, b), i64::MAX / 2);
}

#[test]
fn deleting_an_account_removes_its_whole_hierarchy() {
    let mut l = Ledger::new(true);
    let gone = l.create_account(spec("Gone"));
    let kept = l.create_account(spec("Kept"));
    let mut gone_books = Vec::new();
    for n in 0..3 {
        let b = l.create_account_book(gone, format!("b{}", n)).unwrap();
        gone_books.push(b);
        for m in 0..2 {
            l.post_line(b, format!("l{}", m), 10, 1, 0, 0, "d".to_string()).unwrap();
            l.post_payment(b, None, 3, "d".to_string()).unwrap();
        }
    }
    let kb = l.create_account_book(kept, "k".to_string()).unwrap();
    l.post_line(kb, "k".to_string(), 40, 1, 0, 0, "d".to_string()).unwrap();
    l.post_payment(kb, None, 15, "d".to_string()).unwrap();

    assert_eq!(l.delete_account(gone), Ok(()));
    assert!(l.accounts.iter().all(|a| a.id != gone));
    assert!(l.books.iter().all(|b| b.account_id != gone));
    assert!(l.lines.iter().all(|x| !gone_books.contains(&x.account_book_id)));
    assert!(l.payments.iter().all(|x| !gone_books.contains(&x.account_book_id)));
    assert_eq!(l.accounts.len(), 1);
    assert_eq!(l.books.len(), 1);
    assert_eq!(l.lines.len(), 1);
    assert_eq!(l.payments.len(), 1);
    assert_eq!(book_debt(&l, kb), 25);
    assert_eq!(account_debt(&l, kept), 25);
    assert_eq!(account_balance(&l, kept), 15);
}

#[test]
fn last_action_is_recorded() {
    let mut l = Ledger::new(true);
    let a = l.create_account(spec("A"));
    assert_eq!(l.accounts[0].last_action, None);
    assert_eq!(l.update_last_action(a, "2024-02-01 sale".to_string()), Ok(()));
    assert_eq!(l.accounts[0].last_action, Some("2024-02-01 sale".to_string()));
}

#[test]
fn total_price_rounds_to_minor_units() {
    assert_eq!(total_price(100, 2, 20, 0), Some(240));
    assert_eq!(total_price(1000, 1, 20, 10), Some(1080));
    // 1 * 1 * 1.2 * 0.5 = 0.6
    assert_eq!(total_price(1, 1, 20, 50), Some(1));
    // 0.4 rounds down
    assert_eq!(total_price(1, 1, 0, 60), Some(0));
    // halves go away from zero
    assert_eq!(total_price(1, 1, 0, 50), Some(1));
    assert_eq!(total_price(-1, 1, 0, 50), Some(-1));
    assert_eq!(total_price(-100, 2, 20, 0), Some(-240));
    assert_eq!(total_price(5, 4, 20, 100), Some(0));
    assert_eq!(total_price(i64::MAX, 1, 0, 0), Some(i64::MAX));
    assert_eq!(total_price(i64::MAX, 1, 1, 0), None);
    assert_eq!(total_price(i64::MAX, i64::MAX, u32::MAX, 0), None);
}

#[test]
fn reconcile_recomputes_book_sums() {
    let mut l = Ledger::new(true);
    let a = l.create_account(spec("A"));
    let b = l.create_account_book(a, "b".to_string()).unwrap();
    let other = l.create_account_book(a, "c".to_string()).unwrap();
    l.post_line(b, "x".to_string(), 100, 2, 20, 0, "d".to_string()).unwrap();
    l.post_line(b, "y".to_string(), 10, 3, 0, 50, "d".to_string()).unwrap();
    l.post_line(other, "z".to_string(), 999, 1, 0, 0, "d".to_string()).unwrap();
    l.post_payment(b, None, 55, "d".to_string()).unwrap();
    let r = l.reconcile(b).unwrap();
    assert_eq!(r.charged, 255);
    assert_eq!(r.paid, 55);
    assert_eq!(r.debt, 200);
    assert_eq!(r.balance, 55);
    assert!(matches!(l.reconcile(99), Err(LedgerError::UnknownAccountBook)));
}
