use vstd::prelude::*;
use vstd::string::StringExecFns;
use crate::pricing::{total_price, total_price_of};

verus! {

/// A customer or supplier, with its debt and balance cached as the sums over its books.
pub struct Account {
    pub id: u64,
    pub name: String,
    pub email: Option<String>,
    pub phone: Option<String>,
    pub address: Option<String>,
    pub debt: i64,
    pub balance: i64,
    pub created_at: String,
    pub last_action: Option<String>,
    pub account_type: String,
}

/// What a caller supplies to open an account; `account_type` defaults to `"customer"`.
pub struct AccountSpec {
    pub name: String,
    pub email: Option<String>,
    pub phone: Option<String>,
    pub address: Option<String>,
    /// When the account is opened, as the caller's clock gives it.
    pub created_at: String,
    pub account_type: Option<String>,
}

/// A sub-ledger of an account: its debt is what its lines charged less what was paid.
pub struct AccountBook {
    pub id: u64,
    pub name: String,
    pub account_id: u64,
    pub debt: i64,
    pub balance: i64,
}

/// One charge posted to a book; `price` is `net_price * amount` before tax and discount.
pub struct AccountLine {
    pub id: u64,
    pub name: String,
    pub account_book_id: u64,
    pub net_price: i64,
    pub amount: i64,
    pub price: i64,
    pub tax: u32,
    pub discount: u32,
    pub total_price: i64,
    pub date: String,
}

/// One payment against a book, with the book's debt just before it.
pub struct Payment {
    pub id: u64,
    pub name: Option<String>,
    pub payment: i64,
    pub old_debt: i64,
    pub account_book_id: u64,
    pub date: String,
}

#[derive(Debug, Clone, Copy, PartialEq, Eq, Structural)]
pub enum LedgerError {
    UnknownAccount,
    UnknownAccountBook,
    InvalidDiscount,
    InvalidAmount,
    Overpayment,
    AmountOverflow,
}

/// A book's rows summed afresh, beside the debt and balance that the book caches.
pub struct BookReconciliation {
    pub charged: i128,
    pub paid: i128,
    pub debt: i64,
    pub balance: i64,
}

/// The account / book / line / payment hierarchy.
pub struct Ledger {
    pub accounts: Vec<Account>,
    pub books: Vec<AccountBook>,
    pub lines: Vec<AccountLine>,
    pub payments: Vec<Payment>,
    pub next_account_id: u64,
    pub next_book_id: u64,
    pub next_line_id: u64,
    pub next_payment_id: u64,
    /// Whether a payment may exceed the book's debt, leaving it negative (a credit).
    pub allow_overpayment: bool,
}

/// Sum of the totals of the lines posted to a book.
pub open spec fn lines_total(lines: Seq<AccountLine>, book_id: u64) -> int
    decreases lines.len(),
{
    if lines.len() == 0 {
        0
    } else {
        lines_total(lines.drop_last(), book_id) + if lines.last().account_book_id == book_id {
            lines.last().total_price as int
        } else {
            0
        }
    }
}

/// Sum of the payments made against a book.
pub open spec fn payments_total(payments: Seq<Payment>, book_id: u64) -> int
    decreases payments.len(),
{
    if payments.len() == 0 {
        0
    } else {
        payments_total(payments.drop_last(), book_id) + if payments.last().account_book_id
            == book_id {
            payments.last().payment as int
        } else {
            0
        }
    }
}

/// Sum of the debts of an account's books.
pub open spec fn books_debt(books: Seq<AccountBook>, account_id: u64) -> int
    decreases books.len(),
{
    if books.len() == 0 {
        0
    } else {
        books_debt(books.drop_last(), account_id) + if books.last().account_id == account_id {
            books.last().debt as int
        } else {
            0
        }
    }
}

/// Sum of the balances of an account's books.
pub open spec fn books_balance(books: Seq<AccountBook>, account_id: u64) -> int
    decreases books.len(),
{
    if books.len() == 0 {
        0
    } else {
        books_balance(books.drop_last(), account_id) + if books.last().account_id
            == account_id {
            books.last().balance as int
        } else {
            0
        }
    }
}

pub open spec fn account_exists(accounts: Seq<Account>, id: u64) -> bool {
    exists|k: int| 0 <= k < accounts.len() && (#[trigger] accounts[k]).id == id
}

pub open spec fn book_exists(books: Seq<AccountBook>, id: u64) -> bool {
    exists|k: int| 0 <= k < books.len() && (#[trigger] books[k]).id == id
}

/// Whether the book with this id belongs to the account.
pub open spec fn book_owned_by(books: Seq<AccountBook>, book_id: u64, account_id: u64) -> bool {
    exists|k: int|
        0 <= k < books.len() && (#[trigger] books[k]).id == book_id && books[k].account_id
            == account_id
}

/// The position of the book with this id.
pub open spec fn book_index(books: Seq<AccountBook>, id: u64) -> int {
    choose|k: int| 0 <= k < books.len() && (#[trigger] books[k]).id == id
}

/// A line's stored prices follow from its inputs.
pub open spec fn line_priced(l: AccountLine) -> bool {
    &&& l.discount <= 100
    &&& l.price == l.net_price * l.amount
    &&& l.total_price == total_price_of(
        l.net_price as int,
        l.amount as int,
        l.tax as int,
        l.discount as int,
    )
}

pub open spec fn account_kept(id: u64) -> spec_fn(Account) -> bool {
    |a: Account| a.id != id
}

pub open spec fn book_kept(account_id: u64) -> spec_fn(AccountBook) -> bool {
    |b: AccountBook| b.account_id != account_id
}

pub open spec fn line_kept(books: Seq<AccountBook>, account_id: u64) -> spec_fn(AccountLine) -> bool {
    |l: AccountLine| !book_owned_by(books, l.account_book_id, account_id)
}

pub open spec fn payment_kept(books: Seq<AccountBook>, account_id: u64) -> spec_fn(Payment) -> bool {
    |p: Payment| !book_owned_by(books, p.account_book_id, account_id)
}


pub open spec fn in_i64(x: int) -> bool {
    i64::MIN <= x <= i64::MAX
}

/// The position of the account with this id.
pub open spec fn account_index(accounts: Seq<Account>, id: u64) -> int {
    choose|k: int| 0 <= k < accounts.len() && (#[trigger] accounts[k]).id == id
}

/// Whether every value that posting this line stores fits in an `i64`.
pub open spec fn posting_fits(
    net_price: i64,
    amount: i64,
    tax: u32,
    discount: u32,
    book_debt: i64,
    account_debt: i64,
) -> bool {
    let t = total_price_of(net_price as int, amount as int, tax as int, discount as int);
    &&& in_i64(net_price * amount)
    &&& in_i64(t)
    &&& in_i64(book_debt + t)
    &&& in_i64(account_debt + t)
}

/// Whether every value that applying this payment stores fits in an `i64`.
pub open spec fn payment_fits(amount: i64, book: AccountBook, account: Account) -> bool {
    &&& in_i64(book.debt - amount)
    &&& in_i64(book.balance + amount)
    &&& in_i64(account.debt - amount)
    &&& in_i64(account.balance + amount)
}

proof fn lemma_books_update(books: Seq<AccountBook>, i: int, nb: AccountBook, a: u64)
    requires
        0 <= i < books.len(),
        nb.account_id == books[i].account_id,
    ensures
        books_debt(books.update(i, nb), a) == books_debt(books, a) + if books[i].account_id
            == a {
            nb.debt - books[i].debt
        } else {
            0
        },
        books_balance(books.update(i, nb), a) == books_balance(books, a) + if books[i].account_id
            == a {
            nb.balance - books[i].balance
        } else {
            0
        },
    decreases books.len(),
{
    let u = books.update(i, nb);
    if i == books.len() - 1 {
        assert(u.drop_last() =~= books.drop_last());
    } else {
        assert(u.drop_last() =~= books.drop_last().update(i, nb));
        lemma_books_update(books.drop_last(), i, nb, a);
    }
}

proof fn lemma_books_none(books: Seq<AccountBook>, a: u64)
    requires
        forall|k: int| 0 <= k < books.len() ==> (#[trigger] books[k]).account_id != a,
    ensures
        books_debt(books, a) == 0,
        books_balance(books, a) == 0,
    decreases books.len(),
{
    if books.len() > 0 {
        lemma_books_none(books.drop_last(), a);
    }
}

proof fn lemma_lines_none(lines: Seq<AccountLine>, b: u64)
    requires
        forall|k: int| 0 <= k < lines.len() ==> (#[trigger] lines[k]).account_book_id != b,
    ensures
        lines_total(lines, b) == 0,
    decreases lines.len(),
{
    if lines.len() > 0 {
        lemma_lines_none(lines.drop_last(), b);
    }
}

proof fn lemma_payments_none(payments: Seq<Payment>, b: u64)
    requires
        forall|k: int| 0 <= k < payments.len() ==> (#[trigger] payments[k]).account_book_id != b,
    ensures
        payments_total(payments, b) == 0,
    decreases payments.len(),
{
    if payments.len() > 0 {
        lemma_payments_none(payments.drop_last(), b);
    }
}

proof fn lemma_filter_from<A>(s: Seq<A>, p: spec_fn(A) -> bool)
    ensures
        forall|i: int|
            0 <= i < s.filter(p).len() ==> exists|j: int|
                0 <= j < s.len() && s[j] == #[trigger] s.filter(p)[i],
    decreases s.len(),
{
    reveal(Seq::filter);
    if s.len() > 0 {
        let d = s.drop_last();
        lemma_filter_from(d, p);
        let f = s.filter(p);
        assert forall|i: int| 0 <= i < f.len() implies exists|j: int|
            0 <= j < s.len() && s[j] == #[trigger] f[i] by {
            if i < d.filter(p).len() {
                assert(f[i] == d.filter(p)[i]);
                let j = choose|j: int| 0 <= j < d.len() && d[j] == #[trigger] d.filter(p)[i];
                assert(s[j] == d[j]);
            } else {
                assert(f[i] == s[s.len() - 1]);
            }
        }
    }
}

proof fn lemma_filter_ascending<A>(s: Seq<A>, p: spec_fn(A) -> bool, key: spec_fn(A) -> int)
    requires
        forall|i: int, j: int| 0 <= i < j < s.len() ==> key(#[trigger] s[i]) < key(#[trigger] s[j]),
    ensures
        forall|i: int, j: int|
            0 <= i < j < s.filter(p).len() ==> key(#[trigger] s.filter(p)[i]) < key(
                #[trigger] s.filter(p)[j],
            ),
    decreases s.len(),
{
    reveal(Seq::filter);
    if s.len() > 0 {
        let d = s.drop_last();
        let sub = d.filter(p);
        lemma_filter_ascending(d, p, key);
        lemma_filter_from(d, p);
        let f = s.filter(p);
        assert forall|i: int, j: int| 0 <= i < j < f.len() implies key(#[trigger] f[i]) < key(
            #[trigger] f[j],
        ) by {
            if j < sub.len() {
                assert(f[i] == sub[i] && f[j] == sub[j]);
            } else {
                assert(f[i] == sub[i]);
                let w = choose|w: int| 0 <= w < d.len() && d[w] == #[trigger] sub[i];
                assert(s[w] == d[w]);
                assert(key(s[w]) < key(s[s.len() - 1]));
            }
        }
    }
}

proof fn lemma_books_filter(books: Seq<AccountBook>, p: spec_fn(AccountBook) -> bool, a: u64)
    requires
        forall|k: int| 0 <= k < books.len() && (#[trigger] books[k]).account_id == a ==> p(books[k]),
    ensures
        books_debt(books.filter(p), a) == books_debt(books, a),
        books_balance(books.filter(p), a) == books_balance(books, a),
    decreases books.len(),
{
    reveal(Seq::filter);
    if books.len() > 0 {
        let d = books.drop_last();
        assert forall|k: int| 0 <= k < d.len() && (#[trigger] d[k]).account_id == a implies p(d[k]) by {
            assert(d[k] == books[k]);
        }
        lemma_books_filter(d, p, a);
        if p(books.last()) {
            assert(books.filter(p).drop_last() =~= d.filter(p));
        } else {
            assert(books[books.len() - 1].account_id != a);
        }
    }
}

proof fn lemma_lines_filter(lines: Seq<AccountLine>, p: spec_fn(AccountLine) -> bool, b: u64)
    requires
        forall|k: int|
            0 <= k < lines.len() && (#[trigger] lines[k]).account_book_id == b ==> p(lines[k]),
    ensures
        lines_total(lines.filter(p), b) == lines_total(lines, b),
    decreases lines.len(),
{
    reveal(Seq::filter);
    if lines.len() > 0 {
        let d = lines.drop_last();
        assert forall|k: int| 0 <= k < d.len() && (#[trigger] d[k]).account_book_id == b implies p(
            d[k],
        ) by {
            assert(d[k] == lines[k]);
        }
        lemma_lines_filter(d, p, b);
        if p(lines.last()) {
            assert(lines.filter(p).drop_last() =~= d.filter(p));
        } else {
            assert(lines[lines.len() - 1].account_book_id != b);
        }
    }
}

proof fn lemma_payments_filter(payments: Seq<Payment>, p: spec_fn(Payment) -> bool, b: u64)
    requires
        forall|k: int|
            0 <= k < payments.len() && (#[trigger] payments[k]).account_book_id == b ==> p(
                payments[k],
            ),
    ensures
        payments_total(payments.filter(p), b) == payments_total(payments, b),
    decreases payments.len(),
{
    reveal(Seq::filter);
    if payments.len() > 0 {
        let d = payments.drop_last();
        assert forall|k: int|
            0 <= k < d.len() && (#[trigger] d[k]).account_book_id == b implies p(d[k]) by {
            assert(d[k] == payments[k]);
        }
        lemma_payments_filter(d, p, b);
        if p(payments.last()) {
            assert(payments.filter(p).drop_last() =~= d.filter(p));
        } else {
            assert(payments[payments.len() - 1].account_book_id != b);
        }
    }
}

fn book_owned(books: &Vec<AccountBook>, book_id: u64, account_id: u64) -> (r: bool)
    ensures
        r == book_owned_by(books@, book_id, account_id),
{
    let mut i: usize = 0;
    while i < books.len()
        invariant
            0 <= i <= books@.len(),
            forall|k: int|
                0 <= k < i ==> !((#[trigger] books@[k]).id == book_id && books@[k].account_id
                    == account_id),
        decreases books@.len() - i,
    {
        if books[i].id == book_id && books[i].account_id == account_id {
            return true;
        }
        i += 1;
    }
    false
}

fn keep_accounts(src: Vec<Account>, id: u64) -> (r: Vec<Account>)
    ensures
        r@ == src@.filter(account_kept(id)),
{
    let ghost orig = src@;
    let mut rest = src;
    let mut kept: Vec<Account> = Vec::new();
    let ghost mut n: int = 0;
    while rest.len() > 0
        invariant
            0 <= n <= orig.len(),
            rest@ == orig.skip(n),
            kept@ == orig.take(n).filter(account_kept(id)),
        decreases rest@.len(),
    {
        let x = rest.remove(0);
        proof {
            assert(orig.take(n + 1) =~= orig.take(n).push(x));
            orig.take(n).lemma_filter_push(x, account_kept(id));
        }
        if x.id != id {
            kept.push(x);
        }
        proof {
            n = n + 1;
            assert(rest@ =~= orig.skip(n));
        }
    }
    assert(orig.take(n) =~= orig);
    kept
}

fn keep_books(src: Vec<AccountBook>, account_id: u64) -> (r: Vec<AccountBook>)
    ensures
        r@ == src@.filter(book_kept(account_id)),
{
    let ghost orig = src@;
    let mut rest = src;
    let mut kept: Vec<AccountBook> = Vec::new();
    let ghost mut n: int = 0;
    while rest.len() > 0
        invariant
            0 <= n <= orig.len(),
            rest@ == orig.skip(n),
            kept@ == orig.take(n).filter(book_kept(account_id)),
        decreases rest@.len(),
    {
        let x = rest.remove(0);
        proof {
            assert(orig.take(n + 1) =~= orig.take(n).push(x));
            orig.take(n).lemma_filter_push(x, book_kept(account_id));
        }
        if x.account_id != account_id {
            kept.push(x);
        }
        proof {
            n = n + 1;
            assert(rest@ =~= orig.skip(n));
        }
    }
    assert(orig.take(n) =~= orig);
    kept
}

fn keep_lines(src: Vec<AccountLine>, books: &Vec<AccountBook>, account_id: u64) -> (r: Vec<
    AccountLine,
>)
    ensures
        r@ == src@.filter(line_kept(books@, account_id)),
{
    let ghost orig = src@;
    let mut rest = src;
    let mut kept: Vec<AccountLine> = Vec::new();
    let ghost mut n: int = 0;
    while rest.len() > 0
        invariant
            0 <= n <= orig.len(),
            rest@ == orig.skip(n),
            kept@ == orig.take(n).filter(line_kept(books@, account_id)),
        decreases rest@.len(),
    {
        let x = rest.remove(0);
        proof {
            assert(orig.take(n + 1) =~= orig.take(n).push(x));
            orig.take(n).lemma_filter_push(x, line_kept(books@, account_id));
        }
        if !book_owned(books, x.account_book_id, account_id) {
            kept.push(x);
        }
        proof {
            n = n + 1;
            assert(rest@ =~= orig.skip(n));
        }
    }
    assert(orig.take(n) =~= orig);
    kept
}

fn keep_payments(src: Vec<Payment>, books: &Vec<AccountBook>, account_id: u64) -> (r: Vec<
    Payment,
>)
    ensures
        r@ == src@.filter(payment_kept(books@, account_id)),
{
    let ghost orig = src@;
    let mut rest = src;
    let mut kept: Vec<Payment> = Vec::new();
    let ghost mut n: int = 0;
    while rest.len() > 0
        invariant
            0 <= n <= orig.len(),
            rest@ == orig.skip(n),
            kept@ == orig.take(n).filter(payment_kept(books@, account_id)),
        decreases rest@.len(),
    {
        let x = rest.remove(0);
        proof {
            assert(orig.take(n + 1) =~= orig.take(n).push(x));
            orig.take(n).lemma_filter_push(x, payment_kept(books@, account_id));
        }
        if !book_owned(books, x.account_book_id, account_id) {
            kept.push(x);
        }
        proof {
            n = n + 1;
            assert(rest@ =~= orig.skip(n));
        }
    }
    assert(orig.take(n) =~= orig);
    kept
}

proof fn lemma_same_account_ids(a1: Seq<Account>, a2: Seq<Account>)
    requires
        a1.len() == a2.len(),
        forall|k: int| 0 <= k < a1.len() ==> (#[trigger] a1[k]).id == a2[k].id,
    ensures
        forall|id: u64| account_exists(a1, id) == account_exists(a2, id),
{
    assert forall|id: u64| account_exists(a1, id) implies account_exists(a2, id) by {
        let k = choose|k: int| 0 <= k < a1.len() && (#[trigger] a1[k]).id == id;
        assert(a2[k].id == id);
    }
    assert forall|id: u64| account_exists(a2, id) implies account_exists(a1, id) by {
        let k = choose|k: int| 0 <= k < a2.len() && (#[trigger] a2[k]).id == id;
        assert(a1[k].id == id);
    }
}

proof fn lemma_same_book_ids(b1: Seq<AccountBook>, b2: Seq<AccountBook>)
    requires
        b1.len() == b2.len(),
        forall|k: int| 0 <= k < b1.len() ==> (#[trigger] b1[k]).id == b2[k].id,
    ensures
        forall|id: u64| book_exists(b1, id) == book_exists(b2, id),
{
    assert forall|id: u64| book_exists(b1, id) implies book_exists(b2, id) by {
        let k = choose|k: int| 0 <= k < b1.len() && (#[trigger] b1[k]).id == id;
        assert(b2[k].id == id);
    }
    assert forall|id: u64| book_exists(b2, id) implies book_exists(b1, id) by {
        let k = choose|k: int| 0 <= k < b2.len() && (#[trigger] b2[k]).id == id;
        assert(b1[k].id == id);
    }
}

impl Ledger {
    /// Every account's debt and balance are the sums over its books, and every book's
    /// debt is what its lines charged less its payments, its balance what was paid.
    pub open spec fn aggregates_consistent(&self) -> bool {
        &&& forall|k: int|
            0 <= k < self.accounts@.len() ==> {
                let a = #[trigger] self.accounts@[k];
                &&& a.debt == books_debt(self.books@, a.id)
                &&& a.balance == books_balance(self.books@, a.id)
            }
        &&& forall|k: int|
            0 <= k < self.books@.len() ==> {
                let b = #[trigger] self.books@[k];
                &&& b.debt == lines_total(self.lines@, b.id) - payments_total(self.payments@, b.id)
                &&& b.balance == payments_total(self.payments@, b.id)
            }
    }

    /// Ids are unique and fresh, every row's parent exists, and every aggregate agrees
    /// with the rows below it.
    pub open spec fn wf(&self) -> bool {
        &&& forall|i: int, j: int|
            0 <= i < j < self.accounts@.len() ==> (#[trigger] self.accounts@[i]).id
                < (#[trigger] self.accounts@[j]).id
        &&& forall|k: int|
            0 <= k < self.accounts@.len() ==> (#[trigger] self.accounts@[k]).id
                < self.next_account_id
        &&& forall|i: int, j: int|
            0 <= i < j < self.books@.len() ==> (#[trigger] self.books@[i]).id
                < (#[trigger] self.books@[j]).id
        &&& forall|k: int|
            0 <= k < self.books@.len() ==> {
                let b = #[trigger] self.books@[k];
                &&& b.id < self.next_book_id
                &&& account_exists(self.accounts@, b.account_id)
            }
        &&& forall|i: int, j: int|
            0 <= i < j < self.lines@.len() ==> (#[trigger] self.lines@[i]).id
                < (#[trigger] self.lines@[j]).id
        &&& forall|i: int, j: int|
            0 <= i < j < self.payments@.len() ==> (#[trigger] self.payments@[i]).id
                < (#[trigger] self.payments@[j]).id
        &&& forall|k: int|
            0 <= k < self.lines@.len() ==> {
                let l = #[trigger] self.lines@[k];
                &&& l.id < self.next_line_id
                &&& book_exists(self.books@, l.account_book_id)
                &&& line_priced(l)
            }
        &&& forall|k: int|
            0 <= k < self.payments@.len() ==> {
                let p = #[trigger] self.payments@[k];
                &&& p.id < self.next_payment_id
                &&& book_exists(self.books@, p.account_book_id)
            }
        &&& self.aggregates_consistent()
    }

    pub fn new(allow_overpayment: bool) -> (r: Ledger)
        ensures
            r.wf(),
            r.accounts@.len() == 0,
            r.books@.len() == 0,
            r.lines@.len() == 0,
            r.payments@.len() == 0,
            r.allow_overpayment == allow_overpayment,
    {
        Ledger {
            accounts: Vec::new(),
            books: Vec::new(),
            lines: Vec::new(),
            payments: Vec::new(),
            next_account_id: 1,
            next_book_id: 1,
            next_line_id: 1,
            next_payment_id: 1,
            allow_overpayment,
        }
    }

    fn account_position(&self, id: u64) -> (r: Option<usize>)
        requires
            self.wf(),
        ensures
            r is None <==> !account_exists(self.accounts@, id),
            r matches Some(k) ==> k == account_index(self.accounts@, id) && k
                < self.accounts@.len() && self.accounts@[k as int].id == id,
    {
        let mut i: usize = 0;
        while i < self.accounts.len()
            invariant
                self.wf(),
                0 <= i <= self.accounts@.len(),
                forall|k: int| 0 <= k < i ==> (#[trigger] self.accounts@[k]).id != id,
            decreases self.accounts@.len() - i,
        {
            if self.accounts[i].id == id {
                proof {
                    assert(self.accounts@[i as int].id == id);
                    let c = account_index(self.accounts@, id);
                    assert(0 <= c < self.accounts@.len());
                    assert(self.accounts@[c].id == id);
                    if c < i {
                        assert(self.accounts@[c].id < self.accounts@[i as int].id);
                    } else if c > i {
                        assert(self.accounts@[i as int].id < self.accounts@[c].id);
                    }
                }
                return Some(i);
            }
            i += 1;
        }
        None
    }

    fn book_position(&self, id: u64) -> (r: Option<usize>)
        requires
            self.wf(),
        ensures
            r is None <==> !book_exists(self.books@, id),
            r matches Some(k) ==> k == book_index(self.books@, id) && k < self.books@.len()
                && self.books@[k as int].id == id,
    {
        let mut i: usize = 0;
        while i < self.books.len()
            invariant
                self.wf(),
                0 <= i <= self.books@.len(),
                forall|k: int| 0 <= k < i ==> (#[trigger] self.books@[k]).id != id,
            decreases self.books@.len() - i,
        {
            if self.books[i].id == id {
                proof {
                    assert(self.books@[i as int].id == id);
                    let c = book_index(self.books@, id);
                    assert(0 <= c < self.books@.len());
                    assert(self.books@[c].id == id);
                    if c < i {
                        assert(self.books@[c].id < self.books@[i as int].id);
                    } else if c > i {
                        assert(self.books@[i as int].id < self.books@[c].id);
                    }
                }
                return Some(i);
            }
            i += 1;
        }
        None
    }

    /// Opens an account with no debt and no balance; returns its id.
    pub fn create_account(&mut self, spec: AccountSpec) -> (r: u64)
        requires
            old(self).wf(),
            old(self).next_account_id < u64::MAX,
        ensures
            final(self).wf(),
            r == old(self).next_account_id,
            final(self).next_account_id == old(self).next_account_id + 1,
            final(self).accounts@ == old(self).accounts@.push(
                (Account {
                    id: r,
                    name: spec.name,
                    email: spec.email,
                    phone: spec.phone,
                    address: spec.address,
                    debt: 0,
                    balance: 0,
                    created_at: spec.created_at,
                    last_action: None,
                    account_type: match spec.account_type {
                        Some(t) => t,
                        None => final(self).accounts@.last().account_type,
                    },
                }),
            ),
            spec.account_type is None ==> final(self).accounts@.last().account_type@ == "customer"@,
            final(self).books@ == old(self).books@,
            final(self).lines@ == old(self).lines@,
            final(self).payments@ == old(self).payments@,
    {
        let id = self.next_account_id;
        let AccountSpec { name, email, phone, address, created_at, account_type } = spec;
        let account_type = match account_type {
            Some(t) => t,
            None => String::from_str("customer"),
        };
        self.accounts.push(
            Account {
                id,
                name,
                email,
                phone,
                address,
                debt: 0,
                balance: 0,
                created_at,
                last_action: None,
                account_type,
            },
        );
        self.next_account_id = id + 1;
        proof {
            lemma_books_none(self.books@, id);
            lemma_same_account_ids(old(self).accounts@, self.accounts@.drop_last());
            assert(self.accounts@.drop_last() =~= old(self).accounts@);
            assert forall|k: int| 0 <= k < self.books@.len() implies account_exists(
                self.accounts@,
                (#[trigger] self.books@[k]).account_id,
            ) by {
                let w = choose|j: int|
                    0 <= j < old(self).accounts@.len() && (#[trigger] old(self).accounts@[j]).id
                        == self.books@[k].account_id;
                assert(self.accounts@[w] == old(self).accounts@[w]);
            }
        }
        id
    }

    /// Opens a book with no debt and no balance under an existing account; returns its id.
    pub fn create_account_book(&mut self, account_id: u64, name: String) -> (r: Result<
        u64,
        LedgerError,
    >)
        requires
            old(self).wf(),
            old(self).next_book_id < u64::MAX,
        ensures
            final(self).wf(),
            r is Err <==> !account_exists(old(self).accounts@, account_id),
            r == Err::<u64, LedgerError>(LedgerError::UnknownAccount) <==> !account_exists(
                old(self).accounts@,
                account_id,
            ),
            r is Err ==> *final(self) == *old(self),
            r is Ok ==> {
                &&& r == Ok::<u64, LedgerError>(old(self).next_book_id)
                &&& final(self).next_book_id == old(self).next_book_id + 1
                &&& final(self).books@ == old(self).books@.push(
                    (AccountBook { id: old(self).next_book_id, name, account_id, debt: 0, balance: 0 }),
                )
                &&& final(self).accounts@ == old(self).accounts@
                &&& final(self).lines@ == old(self).lines@
                &&& final(self).payments@ == old(self).payments@
            },
    {
        if self.account_position(account_id).is_none() {
            return Err(LedgerError::UnknownAccount);
        }
        let id = self.next_book_id;
        let book = AccountBook { id, name, account_id, debt: 0, balance: 0 };
        self.books.push(book);
        self.next_book_id = id + 1;
        proof {
            let ob = old(self).books@;
            assert(self.books@.drop_last() =~= ob);
            lemma_lines_none(self.lines@, id);
            lemma_payments_none(self.payments@, id);
            assert forall|k: int| 0 <= k < self.lines@.len() implies book_exists(
                self.books@,
                (#[trigger] self.lines@[k]).account_book_id,
            ) by {
                let w = choose|j: int|
                    0 <= j < ob.len() && (#[trigger] ob[j]).id == self.lines@[k].account_book_id;
                assert(self.books@[w] == ob[w]);
            }
            assert forall|k: int| 0 <= k < self.payments@.len() implies book_exists(
                self.books@,
                (#[trigger] self.payments@[k]).account_book_id,
            ) by {
                let w = choose|j: int|
                    0 <= j < ob.len() && (#[trigger] ob[j]).id
                        == self.payments@[k].account_book_id;
                assert(self.books@[w] == ob[w]);
            }
        }
        Ok(id)
    }

    /// Records the latest action on an account.
    pub fn update_last_action(&mut self, account_id: u64, action: String) -> (r: Result<
        (),
        LedgerError,
    >)
        requires
            old(self).wf(),
        ensures
            final(self).wf(),
            r is Err <==> !account_exists(old(self).accounts@, account_id),
            r == Err::<(), LedgerError>(LedgerError::UnknownAccount) <==> !account_exists(
                old(self).accounts@,
                account_id,
            ),
            r is Err ==> *final(self) == *old(self),
            r is Ok ==> {
                let k = account_index(old(self).accounts@, account_id);
                &&& final(self).accounts@ == old(self).accounts@.update(
                    k,
                    (Account { last_action: Some(action), ..old(self).accounts@[k] }),
                )
                &&& final(self).books@ == old(self).books@
                &&& final(self).lines@ == old(self).lines@
                &&& final(self).payments@ == old(self).payments@
            },
    {
        match self.account_position(account_id) {
            None => Err(LedgerError::UnknownAccount),
            Some(k) => {
                self.accounts[k].last_action = Some(action);
                proof {
                    lemma_same_account_ids(old(self).accounts@, self.accounts@);
                }
                Ok(())
            },
        }
    }

    /// Posts a charge to a book and adds its total to the debt of the book and of the
    /// book's account; returns the line's id.
    pub fn post_line(
        &mut self,
        book_id: u64,
        name: String,
        net_price: i64,
        amount: i64,
        tax: u32,
        discount: u32,
        date: String,
    ) -> (r: Result<u64, LedgerError>)
        requires
            old(self).wf(),
            old(self).next_line_id < u64::MAX,
        ensures
            final(self).wf(),
            final(self).aggregates_consistent(),
            r == Err::<u64, LedgerError>(LedgerError::UnknownAccountBook) <==> !book_exists(
                old(self).books@,
                book_id,
            ),
            r is Err ==> *final(self) == *old(self),
            book_exists(old(self).books@, book_id) ==> {
                let bi = book_index(old(self).books@, book_id);
                let b = old(self).books@[bi];
                let ai = account_index(old(self).accounts@, b.account_id);
                let a = old(self).accounts@[ai];
                let t = total_price_of(net_price as int, amount as int, tax as int, discount as int);
                &&& r is Ok <==> discount <= 100 && posting_fits(
                    net_price,
                    amount,
                    tax,
                    discount,
                    b.debt,
                    a.debt,
                )
                &&& r == Err::<u64, LedgerError>(LedgerError::InvalidDiscount) <==> discount > 100
                &&& r == Err::<u64, LedgerError>(LedgerError::AmountOverflow) <==> discount <= 100
                    && !posting_fits(net_price, amount, tax, discount, b.debt, a.debt)
                &&& r is Ok ==> {
                    &&& r == Ok::<u64, LedgerError>(old(self).next_line_id)
                    &&& final(self).next_line_id == old(self).next_line_id + 1
                    &&& final(self).lines@ == old(self).lines@.push(
                        (AccountLine {
                            id: old(self).next_line_id,
                            name,
                            account_book_id: book_id,
                            net_price,
                            amount,
                            price: (net_price * amount) as i64,
                            tax,
                            discount,
                            total_price: t as i64,
                            date,
                        }),
                    )
                    &&& final(self).books@ == old(self).books@.update(
                        bi,
                        (AccountBook { debt: (b.debt + t) as i64, ..b }),
                    )
                    &&& final(self).accounts@ == old(self).accounts@.update(
                        ai,
                        (Account { debt: (a.debt + t) as i64, ..a }),
                    )
                    &&& final(self).payments@ == old(self).payments@
                }
            },
    {
        let bi = match self.book_position(book_id) {
            None => return Err(LedgerError::UnknownAccountBook),
            Some(k) => k,
        };
        if discount > 100 {
            return Err(LedgerError::InvalidDiscount);
        }
        let owner = self.books[bi].account_id;
        assert(account_exists(self.accounts@, owner));
        let ai = match self.account_position(owner) {
            None => return Err(LedgerError::UnknownAccount),
            Some(k) => k,
        };
        let price = match net_price.checked_mul(amount) {
            None => return Err(LedgerError::AmountOverflow),
            Some(p) => p,
        };
        let t = match total_price(net_price, amount, tax, discount) {
            None => return Err(LedgerError::AmountOverflow),
            Some(t) => t,
        };
        let book_debt = match self.books[bi].debt.checked_add(t) {
            None => return Err(LedgerError::AmountOverflow),
            Some(d) => d,
        };
        let account_debt = match self.accounts[ai].debt.checked_add(t) {
            None => return Err(LedgerError::AmountOverflow),
            Some(d) => d,
        };
        let id = self.next_line_id;
        self.lines.push(
            AccountLine {
                id,
                name,
                account_book_id: book_id,
                net_price,
                amount,
                price,
                tax,
                discount,
                total_price: t,
                date,
            },
        );
        self.books[bi].debt = book_debt;
        self.accounts[ai].debt = account_debt;
        self.next_line_id = id + 1;
        proof {
            let ob = old(self).books@;
            let oa = old(self).accounts@;
            let nb = self.books@[bi as int];
            assert(self.lines@.drop_last() =~= old(self).lines@);
            lemma_same_book_ids(ob, self.books@);
            lemma_same_account_ids(oa, self.accounts@);
            assert forall|id: u64|
                books_debt(self.books@, id) == books_debt(ob, id) + if owner == id {
                    t as int
                } else {
                    0
                } && books_balance(self.books@, id) == books_balance(ob, id) by {
                lemma_books_update(ob, bi as int, nb, id);
                assert(self.books@ =~= ob.update(bi as int, nb));
            }
            assert forall|k: int| 0 <= k < self.accounts@.len() implies {
                let a = #[trigger] self.accounts@[k];
                &&& a.debt == books_debt(self.books@, a.id)
                &&& a.balance == books_balance(self.books@, a.id)
            } by {
                if k < ai {
                    assert(oa[k].id < oa[ai as int].id);
                } else if k > ai {
                    assert(oa[ai as int].id < oa[k].id);
                }
            }
            assert forall|k: int| 0 <= k < self.books@.len() implies {
                let b = #[trigger] self.books@[k];
                &&& b.debt == lines_total(self.lines@, b.id) - payments_total(self.payments@, b.id)
                &&& b.balance == payments_total(self.payments@, b.id)
            } by {
                if k < bi {
                    assert(ob[k].id < ob[bi as int].id);
                } else if k > bi {
                    assert(ob[bi as int].id < ob[k].id);
                }
            }
            assert(self.lines@ =~= old(self).lines@.push(self.lines@.last()));
        }
        Ok(id)
    }

    /// Applies a payment to a book: records the book's debt just before it, then moves
    /// the amount from debt to balance on the book and on the book's account; returns
    /// the payment's id.
    pub fn post_payment(&mut self, book_id: u64, name: Option<String>, amount: i64, date: String) -> (r:
        Result<u64, LedgerError>)
        requires
            old(self).wf(),
            old(self).next_payment_id < u64::MAX,
        ensures
            final(self).wf(),
            final(self).aggregates_consistent(),
            r == Err::<u64, LedgerError>(LedgerError::UnknownAccountBook) <==> !book_exists(
                old(self).books@,
                book_id,
            ),
            r is Err ==> *final(self) == *old(self),
            book_exists(old(self).books@, book_id) ==> {
                let bi = book_index(old(self).books@, book_id);
                let b = old(self).books@[bi];
                let ai = account_index(old(self).accounts@, b.account_id);
                let a = old(self).accounts@[ai];
                &&& r is Ok <==> amount > 0 && (old(self).allow_overpayment || amount <= b.debt)
                    && payment_fits(amount, b, a)
                &&& r == Err::<u64, LedgerError>(LedgerError::InvalidAmount) <==> amount <= 0
                &&& r == Err::<u64, LedgerError>(LedgerError::Overpayment) <==> amount > 0
                    && !old(self).allow_overpayment && amount > b.debt
                &&& r == Err::<u64, LedgerError>(LedgerError::AmountOverflow) <==> amount > 0
                    && (old(self).allow_overpayment || amount <= b.debt) && !payment_fits(
                    amount,
                    b,
                    a,
                )
                &&& r is Ok ==> {
                    &&& r == Ok::<u64, LedgerError>(old(self).next_payment_id)
                    &&& final(self).next_payment_id == old(self).next_payment_id + 1
                    &&& final(self).payments@ == old(self).payments@.push(
                        (Payment {
                            id: old(self).next_payment_id,
                            name,
                            payment: amount,
                            old_debt: b.debt,
                            account_book_id: book_id,
                            date,
                        }),
                    )
                    &&& final(self).books@ == old(self).books@.update(
                        bi,
                        (AccountBook {
                            debt: (b.debt - amount) as i64,
                            balance: (b.balance + amount) as i64,
                            ..b
                        }),
                    )
                    &&& final(self).accounts@ == old(self).accounts@.update(
                        ai,
                        (Account {
                            debt: (a.debt - amount) as i64,
                            balance: (a.balance + amount) as i64,
                            ..a
                        }),
                    )
                    &&& final(self).lines@ == old(self).lines@
                }
            },
    {
        let bi = match self.book_position(book_id) {
            None => return Err(LedgerError::UnknownAccountBook),
            Some(k) => k,
        };
        if amount <= 0 {
            return Err(LedgerError::InvalidAmount);
        }
        let old_debt = self.books[bi].debt;
        if !self.allow_overpayment && amount > old_debt {
            return Err(LedgerError::Overpayment);
        }
        let owner = self.books[bi].account_id;
        assert(account_exists(self.accounts@, owner));
        let ai = match self.account_position(owner) {
            None => return Err(LedgerError::UnknownAccount),
            Some(k) => k,
        };
        let book_debt = match old_debt.checked_sub(amount) {
            None => return Err(LedgerError::AmountOverflow),
            Some(d) => d,
        };
        let book_balance = match self.books[bi].balance.checked_add(amount) {
            None => return Err(LedgerError::AmountOverflow),
            Some(d) => d,
        };
        let account_debt = match self.accounts[ai].debt.checked_sub(amount) {
            None => return Err(LedgerError::AmountOverflow),
            Some(d) => d,
        };
        let account_balance = match self.accounts[ai].balance.checked_add(amount) {
            None => return Err(LedgerError::AmountOverflow),
            Some(d) => d,
        };
        let id = self.next_payment_id;
        self.payments.push(
            Payment { id, name, payment: amount, old_debt, account_book_id: book_id, date },
        );
        self.books[bi].debt = book_debt;
        self.books[bi].balance = book_balance;
        self.accounts[ai].debt = account_debt;
        self.accounts[ai].balance = account_balance;
        self.next_payment_id = id + 1;
        proof {
            let ob = old(self).books@;
            let oa = old(self).accounts@;
            let nb = self.books@[bi as int];
            assert(self.payments@.drop_last() =~= old(self).payments@);
            lemma_same_book_ids(ob, self.books@);
            lemma_same_account_ids(oa, self.accounts@);
            assert forall|id: u64|
                books_debt(self.books@, id) == books_debt(ob, id) - if owner == id {
                    amount as int
                } else {
                    0
                } && books_balance(self.books@, id) == books_balance(ob, id) + if owner == id {
                    amount as int
                } else {
                    0
                } by {
                lemma_books_update(ob, bi as int, nb, id);
                assert(self.books@ =~= ob.update(bi as int, nb));
            }
            assert forall|k: int| 0 <= k < self.accounts@.len() implies {
                let a = #[trigger] self.accounts@[k];
                &&& a.debt == books_debt(self.books@, a.id)
                &&& a.balance == books_balance(self.books@, a.id)
            } by {
                if k < ai {
                    assert(oa[k].id < oa[ai as int].id);
                } else if k > ai {
                    assert(oa[ai as int].id < oa[k].id);
                }
            }
            assert forall|k: int| 0 <= k < self.books@.len() implies {
                let b = #[trigger] self.books@[k];
                &&& b.debt == lines_total(self.lines@, b.id) - payments_total(self.payments@, b.id)
                &&& b.balance == payments_total(self.payments@, b.id)
            } by {
                if k < bi {
                    assert(ob[k].id < ob[bi as int].id);
                } else if k > bi {
                    assert(ob[bi as int].id < ob[k].id);
                }
            }
        }
        Ok(id)
    }

    /// Deletes an account together with its books and every line and payment posted
    /// to those books, all at once.
    pub fn delete_account(&mut self, account_id: u64) -> (r: Result<(), LedgerError>)
        requires
            old(self).wf(),
        ensures
            final(self).wf(),
            r is Err <==> !account_exists(old(self).accounts@, account_id),
            r == Err::<(), LedgerError>(LedgerError::UnknownAccount) <==> !account_exists(
                old(self).accounts@,
                account_id,
            ),
            r is Err ==> *final(self) == *old(self),
            r is Ok ==> {
                &&& final(self).accounts@ == old(self).accounts@.filter(account_kept(account_id))
                &&& final(self).books@ == old(self).books@.filter(book_kept(account_id))
                &&& final(self).lines@ == old(self).lines@.filter(
                    line_kept(old(self).books@, account_id),
                )
                &&& final(self).payments@ == old(self).payments@.filter(
                    payment_kept(old(self).books@, account_id),
                )
                &&& final(self).next_account_id == old(self).next_account_id
                &&& final(self).next_book_id == old(self).next_book_id
                &&& final(self).next_line_id == old(self).next_line_id
                &&& final(self).next_payment_id == old(self).next_payment_id
                &&& final(self).allow_overpayment == old(self).allow_overpayment
                // nothing is left that refers to the account, at any level
                &&& !account_exists(final(self).accounts@, account_id)
                &&& forall|k: int|
                    0 <= k < final(self).books@.len() ==> (#[trigger] final(self).books@[k]).account_id
                        != account_id
                &&& forall|k: int|
                    0 <= k < final(self).lines@.len() ==> !book_owned_by(
                        old(self).books@,
                        (#[trigger] final(self).lines@[k]).account_book_id,
                        account_id,
                    )
                &&& forall|k: int|
                    0 <= k < final(self).payments@.len() ==> !book_owned_by(
                        old(self).books@,
                        (#[trigger] final(self).payments@[k]).account_book_id,
                        account_id,
                    )
            },
    {
        if self.account_position(account_id).is_none() {
            return Err(LedgerError::UnknownAccount);
        }
        let ghost oa = self.accounts@;
        let ghost ob = self.books@;
        let ghost ol = self.lines@;
        let ghost op = self.payments@;
        let mut lines: Vec<AccountLine> = Vec::new();
        std::mem::swap(&mut lines, &mut self.lines);
        self.lines = keep_lines(lines, &self.books, account_id);
        let mut payments: Vec<Payment> = Vec::new();
        std::mem::swap(&mut payments, &mut self.payments);
        self.payments = keep_payments(payments, &self.books, account_id);
        let mut books: Vec<AccountBook> = Vec::new();
        std::mem::swap(&mut books, &mut self.books);
        self.books = keep_books(books, account_id);
        let mut accounts: Vec<Account> = Vec::new();
        std::mem::swap(&mut accounts, &mut self.accounts);
        self.accounts = keep_accounts(accounts, account_id);
        proof {
            let na = self.accounts@;
            let nb = self.books@;
            let nl = self.lines@;
            let np = self.payments@;
            let pa = account_kept(account_id);
            let pb = book_kept(account_id);
            let pl = line_kept(ob, account_id);
            let pp = payment_kept(ob, account_id);
            broadcast use Seq::lemma_filter_pred, Seq::lemma_filter_contains;

            lemma_filter_from(oa, pa);
            lemma_filter_from(ob, pb);
            lemma_filter_from(ol, pl);
            lemma_filter_from(op, pp);
            lemma_filter_ascending(oa, pa, |a: Account| a.id as int);
            lemma_filter_ascending(ob, pb, |b: AccountBook| b.id as int);
            lemma_filter_ascending(ol, pl, |l: AccountLine| l.id as int);
            lemma_filter_ascending(op, pp, |p: Payment| p.id as int);
            assert forall|k: int| 0 <= k < na.len() implies (#[trigger] na[k]).id != account_id
                && na[k].id < self.next_account_id by {
                assert(pa(na[k]));
                let j = choose|j: int| 0 <= j < oa.len() && oa[j] == #[trigger] na[k];
                assert(oa[j].id < self.next_account_id);
            }
            // a kept book's account is kept
            assert forall|k: int| 0 <= k < nb.len() implies {
                let b = #[trigger] nb[k];
                &&& b.id < self.next_book_id
                &&& account_exists(na, b.account_id)
                &&& b.account_id != account_id
                &&& exists|j: int| 0 <= j < ob.len() && ob[j] == b
            } by {
                assert(pb(nb[k]));
                let j = choose|j: int| 0 <= j < ob.len() && ob[j] == #[trigger] nb[k];
                assert(ob[j].id < self.next_book_id);
                assert(account_exists(oa, ob[j].account_id));
                let w = choose|w: int| 0 <= w < oa.len() && (#[trigger] oa[w]).id == ob[j].account_id;
                assert(pa(oa[w]));
                assert(na.contains(oa[w]));
                let v = choose|v: int| 0 <= v < na.len() && na[v] == oa[w];
                assert(na[v].id == nb[k].account_id);
            }
            assert forall|k: int| 0 <= k < nl.len() implies {
                let l = #[trigger] nl[k];
                &&& l.id < self.next_line_id
                &&& book_exists(nb, l.account_book_id)
                &&& line_priced(l)
                &&& !book_owned_by(ob, l.account_book_id, account_id)
            } by {
                assert(pl(nl[k]));
                let j = choose|j: int| 0 <= j < ol.len() && ol[j] == #[trigger] nl[k];
                assert(ol[j].id < self.next_line_id && line_priced(ol[j]));
                assert(book_exists(ob, ol[j].account_book_id));
                let w = choose|w: int|
                    0 <= w < ob.len() && (#[trigger] ob[w]).id == ol[j].account_book_id;
                assert(pb(ob[w]));
                assert(nb.contains(ob[w]));
                let v = choose|v: int| 0 <= v < nb.len() && nb[v] == ob[w];
                assert(nb[v].id == nl[k].account_book_id);
            }
            assert forall|k: int| 0 <= k < np.len() implies {
                let p = #[trigger] np[k];
                &&& p.id < self.next_payment_id
                &&& book_exists(nb, p.account_book_id)
                &&& !book_owned_by(ob, p.account_book_id, account_id)
            } by {
                assert(pp(np[k]));
                let j = choose|j: int| 0 <= j < op.len() && op[j] == #[trigger] np[k];
                assert(op[j].id < self.next_payment_id);
                assert(book_exists(ob, op[j].account_book_id));
                let w = choose|w: int|
                    0 <= w < ob.len() && (#[trigger] ob[w]).id == op[j].account_book_id;
                assert(pb(ob[w]));
                assert(nb.contains(ob[w]));
                let v = choose|v: int| 0 <= v < nb.len() && nb[v] == ob[w];
                assert(nb[v].id == np[k].account_book_id);
            }
            assert forall|k: int| 0 <= k < na.len() implies {
                let a = #[trigger] na[k];
                &&& a.debt == books_debt(nb, a.id)
                &&& a.balance == books_balance(nb, a.id)
            } by {
                let j = choose|j: int| 0 <= j < oa.len() && oa[j] == #[trigger] na[k];
                lemma_books_filter(ob, pb, na[k].id);
            }
            assert forall|k: int| 0 <= k < nb.len() implies {
                let b = #[trigger] nb[k];
                &&& b.debt == lines_total(nl, b.id) - payments_total(np, b.id)
                &&& b.balance == payments_total(np, b.id)
            } by {
                let b = nb[k];
                let j = choose|j: int| 0 <= j < ob.len() && ob[j] == b;
                assert(ob[j] == b);
                assert forall|i: int| 0 <= i < ob.len() && (#[trigger] ob[i]).id == b.id implies ob[i].account_id != account_id by {
                    if i < j {
                        assert(ob[i].id < ob[j].id);
                    } else if i > j {
                        assert(ob[j].id < ob[i].id);
                    }
                }
                assert(!book_owned_by(ob, b.id, account_id));
                lemma_lines_filter(ol, pl, b.id);
                lemma_payments_filter(op, pp, b.id);
            }
            assert(!account_exists(na, account_id));
        }
        Ok(())
    }

    /// Sums a book's lines and payments afresh and returns them with the book's cached
    /// debt and balance; under the ledger's invariant the two always agree.
    pub fn reconcile(&self, book_id: u64) -> (r: Result<BookReconciliation, LedgerError>)
        requires
            self.wf(),
        ensures
            r is Err <==> !book_exists(self.books@, book_id),
            r is Err ==> r == Err::<BookReconciliation, LedgerError>(
                LedgerError::UnknownAccountBook,
            ),
            r matches Ok(x) ==> {
                let b = self.books@[book_index(self.books@, book_id)];
                &&& x.charged == lines_total(self.lines@, book_id)
                &&& x.paid == payments_total(self.payments@, book_id)
                &&& x.debt == b.debt
                &&& x.balance == b.balance
                &&& x.debt == x.charged - x.paid
                &&& x.balance == x.paid
            },
    {
        let bi = match self.book_position(book_id) {
            None => return Err(LedgerError::UnknownAccountBook),
            Some(k) => k,
        };
        let mut charged: i128 = 0;
        let mut i: usize = 0;
        while i < self.lines.len()
            invariant
                0 <= i <= self.lines@.len(),
                charged == lines_total(self.lines@.take(i as int), book_id),
                -(i as int) * 0x8000_0000_0000_0000 <= charged <= (i as int) * 0x8000_0000_0000_0000,
            decreases self.lines@.len() - i,
        {
            assert(self.lines@.take(i + 1).drop_last() =~= self.lines@.take(i as int));
            if self.lines[i].account_book_id == book_id {
                charged = charged + self.lines[i].total_price as i128;
            }
            i += 1;
        }
        assert(self.lines@.take(i as int) =~= self.lines@);
        let mut paid: i128 = 0;
        let mut i: usize = 0;
        while i < self.payments.len()
            invariant
                0 <= i <= self.payments@.len(),
                paid == payments_total(self.payments@.take(i as int), book_id),
                -(i as int) * 0x8000_0000_0000_0000 <= paid <= (i as int) * 0x8000_0000_0000_0000,
            decreases self.payments@.len() - i,
        {
            assert(self.payments@.take(i + 1).drop_last() =~= self.payments@.take(i as int));
            if self.payments[i].account_book_id == book_id {
                paid = paid + self.payments[i].payment as i128;
            }
            i += 1;
        }
        assert(self.payments@.take(i as int) =~= self.payments@);
        Ok(
            BookReconciliation {
                charged,
                paid,
                debt: self.books[bi].debt,
                balance: self.books[bi].balance,
            },
        )
    }
}

} // verus!
