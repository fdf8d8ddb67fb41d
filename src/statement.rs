use vstd::prelude::*;
use vstd::seq_lib::{to_multiset_build, to_multiset_insert};
use vstd::utf8::encode_utf8;
use crate::ledger::{book_exists, AccountLine, Ledger, LedgerError, Payment};

verus! {

#[derive(Debug, Clone, Copy, PartialEq, Eq, Structural)]
pub enum EntryKind {
    Line,
    Payment,
}

/// One row of a book's statement: a charge (a line's total) or a payment.
pub struct StatementEntry {
    pub date: String,
    pub kind: EntryKind,
    pub id: u64,
    pub amount: i64,
}

/// Lexicographic comparison of byte strings: negative, zero or positive.
pub open spec fn bytes_cmp(a: Seq<u8>, b: Seq<u8>) -> int
    decreases a.len(),
{
    if a.len() == 0 {
        if b.len() == 0 {
            0
        } else {
            -1
        }
    } else if b.len() == 0 {
        1
    } else if a[0] < b[0] {
        -1
    } else if a[0] > b[0] {
        1
    } else {
        bytes_cmp(a.skip(1), b.skip(1))
    }
}

pub open spec fn kind_rank(k: EntryKind) -> int {
    match k {
        EntryKind::Line => 0,
        EntryKind::Payment => 1,
    }
}

/// Statement order: by date (as UTF-8 text), then lines before payments, then by id.
pub open spec fn entry_le(a: StatementEntry, b: StatementEntry) -> bool {
    let c = bytes_cmp(encode_utf8(a.date@), encode_utf8(b.date@));
    ||| c < 0
    ||| c == 0 && kind_rank(a.kind) < kind_rank(b.kind)
    ||| c == 0 && a.kind == b.kind && a.id <= b.id
}

pub open spec fn line_entry(l: AccountLine) -> StatementEntry {
    StatementEntry { date: l.date, kind: EntryKind::Line, id: l.id, amount: l.total_price }
}

pub open spec fn payment_entry(p: Payment) -> StatementEntry {
    StatementEntry { date: p.date, kind: EntryKind::Payment, id: p.id, amount: p.payment }
}

/// The entries of a book's lines, in the order they were posted.
pub open spec fn line_entries(lines: Seq<AccountLine>, book_id: u64) -> Seq<StatementEntry>
    decreases lines.len(),
{
    if lines.len() == 0 {
        Seq::empty()
    } else if lines.last().account_book_id == book_id {
        line_entries(lines.drop_last(), book_id).push(line_entry(lines.last()))
    } else {
        line_entries(lines.drop_last(), book_id)
    }
}

/// The entries of a book's payments, in the order they were made.
pub open spec fn payment_entries(payments: Seq<Payment>, book_id: u64) -> Seq<StatementEntry>
    decreases payments.len(),
{
    if payments.len() == 0 {
        Seq::empty()
    } else if payments.last().account_book_id == book_id {
        payment_entries(payments.drop_last(), book_id).push(payment_entry(payments.last()))
    } else {
        payment_entries(payments.drop_last(), book_id)
    }
}

/// Places an entry into a sequence before the first entry that it does not follow.
pub open spec fn insert_entry(s: Seq<StatementEntry>, e: StatementEntry) -> Seq<StatementEntry>
    decreases s.len(),
{
    if s.len() == 0 {
        seq![e]
    } else if entry_le(e, s[0]) {
        seq![e] + s
    } else {
        seq![s[0]] + insert_entry(s.skip(1), e)
    }
}

/// Entries in statement order; entries with equal keys keep the order they came in.
pub open spec fn sort_entries(s: Seq<StatementEntry>) -> Seq<StatementEntry>
    decreases s.len(),
{
    if s.len() == 0 {
        s
    } else {
        insert_entry(sort_entries(s.drop_last()), s.last())
    }
}

/// A book's statement: its lines and payments merged in statement order.
pub open spec fn statement_of(
    lines: Seq<AccountLine>,
    payments: Seq<Payment>,
    book_id: u64,
) -> Seq<StatementEntry> {
    sort_entries(line_entries(lines, book_id) + payment_entries(payments, book_id))
}

fn compare_bytes(a: &[u8], b: &[u8]) -> (r: i8)
    ensures
        r as int == bytes_cmp(a@, b@),
{
    let mut i: usize = 0;
    assert(a@.skip(0) =~= a@ && b@.skip(0) =~= b@);
    while i < a.len() && i < b.len()
        invariant
            i <= a@.len(),
            i <= b@.len(),
            bytes_cmp(a@, b@) == bytes_cmp(a@.skip(i as int), b@.skip(i as int)),
        decreases a@.len() - i,
    {
        if a[i] < b[i] {
            return -1;
        }
        if a[i] > b[i] {
            return 1;
        }
        assert(a@.skip(i as int).skip(1) =~= a@.skip(i + 1));
        assert(b@.skip(i as int).skip(1) =~= b@.skip(i + 1));
        i += 1;
    }
    if i < a.len() {
        1
    } else if i < b.len() {
        -1
    } else {
        0
    }
}

fn entry_before_eq(a: &StatementEntry, b: &StatementEntry) -> (r: bool)
    ensures
        r == entry_le(*a, *b),
{
    let c = compare_bytes(a.date.as_str().as_bytes(), b.date.as_str().as_bytes());
    if c != 0 {
        return c < 0;
    }
    match (a.kind, b.kind) {
        (EntryKind::Line, EntryKind::Payment) => true,
        (EntryKind::Payment, EntryKind::Line) => false,
        _ => a.id <= b.id,
    }
}

proof fn lemma_insert_at(s: Seq<StatementEntry>, e: StatementEntry, k: int)
    requires
        0 <= k <= s.len(),
        forall|i: int| 0 <= i < k ==> !entry_le(e, #[trigger] s[i]),
        k < s.len() ==> entry_le(e, s[k]),
    ensures
        insert_entry(s, e) == s.take(k).push(e) + s.skip(k),
    decreases k,
{
    if k == 0 {
        assert(s.take(0).push(e) + s.skip(0) =~= seq![e] + s);
    } else {
        let t = s.skip(1);
        assert forall|i: int| 0 <= i < k - 1 implies !entry_le(e, #[trigger] t[i]) by {
            assert(t[i] == s[i + 1]);
        }
        lemma_insert_at(t, e, k - 1);
        assert(seq![s[0]] + (t.take(k - 1).push(e) + t.skip(k - 1)) =~= s.take(k).push(e)
            + s.skip(k));
    }
}

fn insert_in_order(v: &mut Vec<StatementEntry>, e: StatementEntry)
    ensures
        final(v)@ == insert_entry(old(v)@, e),
{
    let mut k: usize = 0;
    while k < v.len()
        invariant
            0 <= k <= v@.len(),
            v@ == old(v)@,
            forall|i: int| 0 <= i < k ==> !entry_le(e, #[trigger] v@[i]),
        ensures
            0 <= k <= v@.len(),
            v@ == old(v)@,
            forall|i: int| 0 <= i < k ==> !entry_le(e, #[trigger] v@[i]),
            k < v@.len() ==> entry_le(e, v@[k as int]),
        decreases v@.len() - k,
    {
        if entry_before_eq(&e, &v[k]) {
            break;
        }
        k += 1;
    }
    proof {
        lemma_insert_at(v@, e, k as int);
        assert(v@.insert(k as int, e) =~= v@.take(k as int).push(e) + v@.skip(k as int));
    }
    v.insert(k, e);
}

fn copy_date(s: &String) -> (r: String)
    ensures
        r == *s,
{
    s.clone()
}

proof fn lemma_cmp_antisymmetric(a: Seq<u8>, b: Seq<u8>)
    ensures
        bytes_cmp(a, b) == -bytes_cmp(b, a),
    decreases a.len(),
{
    if a.len() > 0 && b.len() > 0 && a[0] == b[0] {
        lemma_cmp_antisymmetric(a.skip(1), b.skip(1));
    }
}

proof fn lemma_cmp_zero(a: Seq<u8>, b: Seq<u8>)
    requires
        bytes_cmp(a, b) == 0,
    ensures
        a == b,
    decreases a.len(),
{
    if a.len() > 0 {
        lemma_cmp_zero(a.skip(1), b.skip(1));
        assert(a =~= seq![a[0]] + a.skip(1));
        assert(b =~= seq![b[0]] + b.skip(1));
    }
}

proof fn lemma_cmp_transitive(a: Seq<u8>, b: Seq<u8>, c: Seq<u8>)
    requires
        bytes_cmp(a, b) < 0,
        bytes_cmp(b, c) < 0,
    ensures
        bytes_cmp(a, c) < 0,
    decreases a.len(),
{
    if a.len() > 0 && b.len() > 0 && c.len() > 0 && a[0] == b[0] && b[0] == c[0] {
        lemma_cmp_transitive(a.skip(1), b.skip(1), c.skip(1));
    }
}

proof fn lemma_entry_order(a: StatementEntry, b: StatementEntry, c: StatementEntry)
    ensures
        entry_le(a, b) || entry_le(b, a),
        entry_le(a, b) && entry_le(b, c) ==> entry_le(a, c),
{
    let (x, y, z) = (encode_utf8(a.date@), encode_utf8(b.date@), encode_utf8(c.date@));
    lemma_cmp_antisymmetric(x, y);
    lemma_cmp_antisymmetric(x, z);
    lemma_cmp_antisymmetric(x, x);
    if bytes_cmp(x, y) == 0 {
        lemma_cmp_zero(x, y);
    }
    if bytes_cmp(y, z) == 0 {
        lemma_cmp_zero(y, z);
    }
    if bytes_cmp(x, y) < 0 && bytes_cmp(y, z) < 0 {
        lemma_cmp_transitive(x, y, z);
    }
}

/// Inserting into an ordered sequence keeps it ordered, and keeps any lower bound of
/// both the sequence and the new entry.
proof fn lemma_insert_sorted(s: Seq<StatementEntry>, e: StatementEntry, lo: StatementEntry)
    requires
        forall|i: int, j: int| 0 <= i < j < s.len() ==> entry_le(#[trigger] s[i], #[trigger] s[j]),
    ensures
        forall|i: int, j: int|
            0 <= i < j < insert_entry(s, e).len() ==> entry_le(
                #[trigger] insert_entry(s, e)[i],
                #[trigger] insert_entry(s, e)[j],
            ),
        (forall|i: int| 0 <= i < s.len() ==> entry_le(lo, #[trigger] s[i])) && entry_le(lo, e)
            ==> forall|i: int|
            0 <= i < insert_entry(s, e).len() ==> entry_le(lo, #[trigger] insert_entry(s, e)[i]),
    decreases s.len(),
{
    let r = insert_entry(s, e);
    if s.len() == 0 {
    } else if entry_le(e, s[0]) {
        assert forall|i: int, j: int| 0 <= i < j < r.len() implies entry_le(
            #[trigger] r[i],
            #[trigger] r[j],
        ) by {
            if i == 0 {
                if j > 1 {
                    lemma_entry_order(e, s[0], s[j - 1]);
                }
            } else {
                assert(r[i] == s[i - 1] && r[j] == s[j - 1]);
            }
        }
        if (forall|i: int| 0 <= i < s.len() ==> entry_le(lo, #[trigger] s[i])) && entry_le(lo, e) {
            assert forall|i: int| 0 <= i < r.len() implies entry_le(lo, #[trigger] r[i]) by {
                if i > 0 {
                    assert(r[i] == s[i - 1]);
                }
            }
        }
    } else {
        let t = s.skip(1);
        let rt = insert_entry(t, e);
        assert forall|i: int, j: int| 0 <= i < j < t.len() implies entry_le(
            #[trigger] t[i],
            #[trigger] t[j],
        ) by {
            assert(t[i] == s[i + 1] && t[j] == s[j + 1]);
        }
        lemma_entry_order(s[0], e, e);
        assert forall|i: int| 0 <= i < t.len() implies entry_le(s[0], #[trigger] t[i]) by {
            assert(t[i] == s[i + 1]);
        }
        lemma_insert_sorted(t, e, s[0]);
        assert(r == seq![s[0]] + rt);
        assert forall|i: int, j: int| 0 <= i < j < r.len() implies entry_le(
            #[trigger] r[i],
            #[trigger] r[j],
        ) by {
            assert(r[j] == rt[j - 1]);
            if i > 0 {
                assert(r[i] == rt[i - 1]);
            }
        }
        if (forall|i: int| 0 <= i < s.len() ==> entry_le(lo, #[trigger] s[i])) && entry_le(lo, e) {
            assert forall|i: int| 0 <= i < r.len() implies entry_le(lo, #[trigger] r[i]) by {
                assert(entry_le(lo, s[0]));
                if i > 0 {
                    assert(r[i] == rt[i - 1]);
                    lemma_entry_order(lo, s[0], rt[i - 1]);
                }
            }
        }
    }
}

proof fn lemma_insert_index(s: Seq<StatementEntry>, e: StatementEntry) -> (k: int)
    ensures
        0 <= k <= s.len(),
        insert_entry(s, e) == s.insert(k, e),
    decreases s.len(),
{
    if s.len() == 0 {
        assert(s.insert(0, e) =~= seq![e]);
        0
    } else if entry_le(e, s[0]) {
        assert(s.insert(0, e) =~= seq![e] + s);
        0
    } else {
        let k = lemma_insert_index(s.skip(1), e);
        assert(seq![s[0]] + s.skip(1).insert(k, e) =~= s.insert(k + 1, e));
        k + 1
    }
}

/// Statement order puts every entry no later than the ones after it.
pub proof fn lemma_statement_ordered(s: Seq<StatementEntry>)
    ensures
        forall|i: int, j: int|
            0 <= i < j < sort_entries(s).len() ==> entry_le(
                #[trigger] sort_entries(s)[i],
                #[trigger] sort_entries(s)[j],
            ),
    decreases s.len(),
{
    if s.len() > 0 {
        lemma_statement_ordered(s.drop_last());
        lemma_insert_sorted(sort_entries(s.drop_last()), s.last(), s.last());
    }
}

/// Statement order neither drops nor adds an entry.
pub proof fn lemma_statement_permutes(s: Seq<StatementEntry>)
    ensures
        sort_entries(s).to_multiset() == s.to_multiset(),
    decreases s.len(),
{
    if s.len() > 0 {
        let d = s.drop_last();
        lemma_statement_permutes(d);
        let k = lemma_insert_index(sort_entries(d), s.last());
        to_multiset_insert(sort_entries(d), k, s.last());
        to_multiset_build(d, s.last());
        assert(d.push(s.last()) =~= s);
    }
}

impl Ledger {
    /// The lines and payments of a book, merged in statement order: by date, then
    /// lines before payments, then by id.
    pub fn get_statement(&self, book_id: u64) -> (r: Result<Vec<StatementEntry>, LedgerError>)
        requires
            self.wf(),
        ensures
            r is Err <==> !book_exists(self.books@, book_id),
            r is Err ==> r == Err::<Vec<StatementEntry>, LedgerError>(
                LedgerError::UnknownAccountBook,
            ),
            r matches Ok(v) ==> v@ == statement_of(self.lines@, self.payments@, book_id),
    {
        let mut found = false;
        let mut i: usize = 0;
        while i < self.books.len()
            invariant
                0 <= i <= self.books@.len(),
                found <==> exists|k: int| 0 <= k < i && (#[trigger] self.books@[k]).id == book_id,
            decreases self.books@.len() - i,
        {
            if self.books[i].id == book_id {
                found = true;
            }
            i += 1;
        }
        if !found {
            return Err(LedgerError::UnknownAccountBook);
        }
        let mut items: Vec<StatementEntry> = Vec::new();
        let mut i: usize = 0;
        while i < self.lines.len()
            invariant
                0 <= i <= self.lines@.len(),
                items@ == line_entries(self.lines@.take(i as int), book_id),
            decreases self.lines@.len() - i,
        {
            let l = &self.lines[i];
            assert(self.lines@.take(i + 1).drop_last() =~= self.lines@.take(i as int));
            if l.account_book_id == book_id {
                items.push(
                    StatementEntry {
                        date: copy_date(&l.date),
                        kind: EntryKind::Line,
                        id: l.id,
                        amount: l.total_price,
                    },
                );
            }
            i += 1;
        }
        assert(self.lines@.take(self.lines@.len() as int) =~= self.lines@);
        let ghost from_lines = items@;
        let mut paid: Vec<StatementEntry> = Vec::new();
        let mut i: usize = 0;
        while i < self.payments.len()
            invariant
                0 <= i <= self.payments@.len(),
                paid@ == payment_entries(self.payments@.take(i as int), book_id),
            decreases self.payments@.len() - i,
        {
            let p = &self.payments[i];
            assert(self.payments@.take(i + 1).drop_last() =~= self.payments@.take(i as int));
            if p.account_book_id == book_id {
                paid.push(
                    StatementEntry {
                        date: copy_date(&p.date),
                        kind: EntryKind::Payment,
                        id: p.id,
                        amount: p.payment,
                    },
                );
            }
            i += 1;
        }
        assert(self.payments@.take(self.payments@.len() as int) =~= self.payments@);
        items.append(&mut paid);
        let ghost all = items@;
        assert(all == line_entries(self.lines@, book_id) + payment_entries(self.payments@, book_id));
        let mut sorted: Vec<StatementEntry> = Vec::new();
        let ghost mut n: int = 0;
        while items.len() > 0
            invariant
                0 <= n <= all.len(),
                items@ == all.skip(n),
                sorted@ == sort_entries(all.take(n)),
            decreases items@.len(),
        {
            let e = items.remove(0);
            proof {
                assert(all.take(n + 1).drop_last() =~= all.take(n));
                assert(all.take(n + 1).last() == e);
            }
            insert_in_order(&mut sorted, e);
            proof {
                n = n + 1;
                assert(items@ =~= all.skip(n));
            }
        }
        assert(all.take(n) =~= all);
        Ok(sorted)
    }
}

} // verus!
