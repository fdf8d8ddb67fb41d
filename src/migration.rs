use vstd::prelude::*;
use vstd::string::StringExecFns;

verus! {

// The scripts are kept exactly as they were first applied, column names included:
// a store that has run one checks it against what it recorded.
/// Schema script of version 1: create accounts table.
pub const ACCOUNTS_SQL: &'static str = "CREATE TABLE IF NOT EXISTS accounts (  
                id INTEGER PRIMARY KEY AUTOINCREMENT,  
                name TEXT NOT NULL,  
                email TEXT,
                phone TEXT,
                adress TEXT,
                debt INTEGER DEFAULT 0,
                balance INTEGER DEFAULT 0,
                created_at TEXT DEFAULT CURRENT_TIMESTAMP,
                last_action TEXT,
                account_type TEXT DEFAULT 'customer'
            )";

/// Schema script of version 2: create account book table.
pub const ACCOUNT_BOOK_SQL: &'static str = "CREATE TABLE IF NOT EXISTS account_book (  
                id INTEGER PRIMARY KEY AUTOINCREMENT,  
                name TEXT NOT NULL,
                account_id INTEGER NOT NULL,
                debt INTEGER DEFAULT 0,
                balance INTEGER DEFAULT 0,
                FOREIGN KEY (account_id) REFERENCES accounts(id) ON DELETE CASCADE
            )";

/// Schema script of version 3: create account line table.
pub const ACCOUNT_LINE_SQL: &'static str = "CREATE TABLE IF NOT EXISTS account_line (  
                id INTEGER PRIMARY KEY AUTOINCREMENT,  
                name TEXT NOT NULL,
                account_book_id INTEGER NOT NULL,
                net_price INTEGER NOT NULL,
                amount INTEGER NOT NULL,
                price INTEGER NOT NULL,
                tax INTEGER NOT NULL DEFAULT 20,
                discount INTEGER NOT NULL DEFAULT 0,
                total_price INTEGER NOT NULL,
                date TEXT NOT NULL,
                FOREIGN KEY (account_book_id) REFERENCES account_book(id) ON DELETE CASCADE
            )";

/// Schema script of version 4: create type table.
pub const TYPES_SQL: &'static str = "CREATE TABLE IF NOT EXISTS types (  
                id INTEGER PRIMARY KEY AUTOINCREMENT,  
                name TEXT NOT NULL UNIQUE
            )";

/// Schema script of version 5: create brand table.
pub const BRANDS_SQL: &'static str = "CREATE TABLE IF NOT EXISTS brands (  
                id INTEGER PRIMARY KEY AUTOINCREMENT,  
                name TEXT NOT NULL UNIQUE
            )";

/// Schema script of version 6: create products table.
pub const PRODUCTS_SQL: &'static str = "CREATE TABLE IF NOT EXISTS products (  
                id INTEGER PRIMARY KEY AUTOINCREMENT,  
                name TEXT NOT NULL,
                type TEXT,
                product_code TEXT,
                brand TEXT NOT NULL,
                supplier TEXT,
                barcode TEXT UNIQUE,
                count INTEGER NOT NULL DEFAULT 0,
                cost INTEGER,
                FOREIGN KEY (type) REFERENCES types(name),
                FOREIGN KEY (brand) REFERENCES brands(name)
            )";

/// Schema script of version 7: create payments table.
pub const PAYMENTS_SQL: &'static str = "CREATE TABLE IF NOT EXISTS payments (  
                id INTEGER PRIMARY KEY AUTOINCREMENT,  
                name TEXT DEFAULT NULL,
                payment NUMBER NOT NULL,
                old_debt NUMBER NOT NULL,
                account_book_id INTEGER NOT NULL,
                date TEXT NOT NULL,
                FOREIGN KEY (account_book_id) REFERENCES account_book(id) ON DELETE CASCADE
            )";

#[derive(Debug, Clone, Copy, PartialEq, Eq, Structural)]
pub enum MigrationKind {
    Up,
    Down,
}

/// One versioned schema change.
pub struct Migration {
    pub version: u64,
    pub description: String,
    pub sql: String,
    pub kind: MigrationKind,
}

#[derive(Debug, Clone, Copy, PartialEq, Eq, Structural)]
pub enum MigrationError {
    /// The versions of the sequence are not strictly increasing.
    OutOfOrder,
}

/// The schema version of a store and the versions applied to it, in order.
pub struct SchemaState {
    pub version: u64,
    pub applied: Vec<u64>,
}

pub open spec fn ascending(ms: Seq<Migration>) -> bool {
    forall|i: int, j: int| 0 <= i < j < ms.len() ==> (#[trigger] ms[i]).version < (#[trigger] ms[j]).version
}

/// The versions of the sequence above `current`, in order: those still to apply.
pub open spec fn pending(ms: Seq<Migration>, current: u64) -> Seq<u64>
    decreases ms.len(),
{
    if ms.len() == 0 {
        Seq::empty()
    } else if ms.last().version > current {
        pending(ms.drop_last(), current).push(ms.last().version)
    } else {
        pending(ms.drop_last(), current)
    }
}

/// The schema version after applying the sequence to a store at `current`.
pub open spec fn version_after(ms: Seq<Migration>, current: u64) -> u64 {
    if pending(ms, current).len() > 0 {
        pending(ms, current).last()
    } else {
        current
    }
}

proof fn lemma_pending_bounds(ms: Seq<Migration>, current: u64)
    requires
        ascending(ms),
    ensures
        forall|i: int|
            0 <= i < pending(ms, current).len() ==> current < #[trigger] pending(ms, current)[i]
                && pending(ms, current)[i] <= ms.last().version,
        forall|i: int, j: int|
            0 <= i < j < pending(ms, current).len() ==> #[trigger] pending(ms, current)[i]
                < #[trigger] pending(ms, current)[j],
        pending(ms, current).len() > 0 ==> pending(ms, current).last() == ms.last().version,
    decreases ms.len(),
{
    if ms.len() > 0 {
        let d = ms.drop_last();
        lemma_pending_bounds(d, current);
        if d.len() > 0 {
            assert(d.last().version < ms.last().version);
        }
    }
}

proof fn lemma_pending_none(ms: Seq<Migration>, current: u64)
    requires
        forall|i: int| 0 <= i < ms.len() ==> (#[trigger] ms[i]).version <= current,
    ensures
        pending(ms, current).len() == 0,
    decreases ms.len(),
{
    if ms.len() > 0 {
        lemma_pending_none(ms.drop_last(), current);
    }
}

/// Applying a sequence of migrations a second time applies none of them and leaves
/// the schema version where the first run put it.
pub proof fn lemma_apply_idempotent(ms: Seq<Migration>, current: u64)
    requires
        ascending(ms),
    ensures
        pending(ms, version_after(ms, current)).len() == 0,
        version_after(ms, version_after(ms, current)) == version_after(ms, current),
{
    lemma_pending_bounds(ms, current);
    let v = version_after(ms, current);
    assert forall|i: int| 0 <= i < ms.len() implies (#[trigger] ms[i]).version <= v by {
        if pending(ms, current).len() > 0 {
            if i < ms.len() - 1 {
                assert(ms[i].version < ms[ms.len() - 1].version);
            }
        } else {
            if ms[i].version > current {
                lemma_pending_member(ms, current, i);
            }
        }
    }
    lemma_pending_none(ms, v);
}

proof fn lemma_pending_member(ms: Seq<Migration>, current: u64, i: int)
    requires
        0 <= i < ms.len(),
        ms[i].version > current,
    ensures
        pending(ms, current).len() > 0,
    decreases ms.len(),
{
    if i < ms.len() - 1 {
        lemma_pending_member(ms.drop_last(), current, i);
    }
}

fn up_migration(version: u64, description: &str, sql: &str) -> (r: Migration)
    ensures
        r.version == version,
        r.description@ == description@,
        r.sql@ == sql@,
        r.kind == MigrationKind::Up,
{
    Migration {
        version,
        description: String::from_str(description),
        sql: String::from_str(sql),
        kind: MigrationKind::Up,
    }
}

/// The store's schema, oldest change first: accounts, books, lines, types, brands,
/// products, payments.
pub fn schema_migrations() -> (r: Vec<Migration>)
    ensures
        r@.len() == 7,
        forall|i: int|
            0 <= i < 7 ==> (#[trigger] r@[i]).version == i + 1 && r@[i].kind == MigrationKind::Up,
        ascending(r@),
        r@[0].description@ == "create accounts table"@,
        r@[0].sql@ == ACCOUNTS_SQL@,
        r@[1].description@ == "create account book table"@,
        r@[1].sql@ == ACCOUNT_BOOK_SQL@,
        r@[2].description@ == "create account line table"@,
        r@[2].sql@ == ACCOUNT_LINE_SQL@,
        r@[3].description@ == "create type table"@,
        r@[3].sql@ == TYPES_SQL@,
        r@[4].description@ == "create brand table"@,
        r@[4].sql@ == BRANDS_SQL@,
        r@[5].description@ == "create products table"@,
        r@[5].sql@ == PRODUCTS_SQL@,
        r@[6].description@ == "create payments table"@,
        r@[6].sql@ == PAYMENTS_SQL@,
{
    let mut r: Vec<Migration> = Vec::new();
    r.push(up_migration(1, "create accounts table", ACCOUNTS_SQL));
    r.push(up_migration(2, "create account book table", ACCOUNT_BOOK_SQL));
    r.push(up_migration(3, "create account line table", ACCOUNT_LINE_SQL));
    r.push(up_migration(4, "create type table", TYPES_SQL));
    r.push(up_migration(5, "create brand table", BRANDS_SQL));
    r.push(up_migration(6, "create products table", PRODUCTS_SQL));
    r.push(up_migration(7, "create payments table", PAYMENTS_SQL));
    r
}

impl SchemaState {
    /// The applied versions increase and none exceeds the current version.
    pub open spec fn wf(&self) -> bool {
        &&& forall|i: int, j: int|
            0 <= i < j < self.applied@.len() ==> (#[trigger] self.applied@[i]) < (
            #[trigger] self.applied@[j])
        &&& forall|i: int| 0 <= i < self.applied@.len() ==> #[trigger] self.applied@[i] <= self.version
    }

    /// A store with no schema.
    pub fn new() -> (r: SchemaState)
        ensures
            r.wf(),
            r.version == 0,
            r.applied@.len() == 0,
    {
        SchemaState { version: 0, applied: Vec::new() }
    }

    /// Applies, in order, the migrations whose version is above the current one;
    /// returns how many were applied.
    pub fn apply(&mut self, migrations: &Vec<Migration>) -> (r: Result<usize, MigrationError>)
        requires
            old(self).wf(),
        ensures
            final(self).wf(),
            r is Err <==> !ascending(migrations@),
            r is Err ==> *final(self) == *old(self),
            r is Ok ==> {
                let p = pending(migrations@, old(self).version);
                &&& r == Ok::<usize, MigrationError>(p.len() as usize)
                &&& final(self).applied@ == old(self).applied@ + p
                &&& final(self).version == version_after(migrations@, old(self).version)
            },
    {
        let ms = migrations;
        let mut i: usize = 1;
        while i < ms.len()
            invariant
                ms@ == migrations@,
                *self == *old(self),
                old(self).wf(),
                1 <= i,
                i <= ms@.len() || ms@.len() == 0,
                forall|a: int, b: int|
                    0 <= a < b < i && b < ms@.len() ==> (#[trigger] ms@[a]).version < (
                    #[trigger] ms@[b]).version,
            decreases ms@.len() + 1 - i,
        {
            if ms[i - 1].version >= ms[i].version {
                proof {
                    let x = i - 1;
                    assert(ms@[x].version >= ms@[x + 1].version);
                    if ascending(ms@) {
                        assert(ms@[x].version < ms@[x + 1].version);
                    }
                }
                return Err(MigrationError::OutOfOrder);
            }
            proof {
                assert forall|a: int| 0 <= a < i implies (#[trigger] ms@[a]).version
                    < ms@[i as int].version by {
                    if a < i - 1 {
                        assert(ms@[a].version < ms@[i - 1].version);
                    }
                }
            }
            i += 1;
        }
        let current = self.version;
        let mut count: usize = 0;
        let mut j: usize = 0;
        proof {
            lemma_pending_bounds(ms@, current);
        }
        while j < ms.len()
            invariant
                ms@ == migrations@,
                self.wf(),
                ascending(ms@),
                0 <= j <= ms@.len(),
                current == old(self).version,
                count == pending(ms@.take(j as int), current).len(),
                count <= j,
                self.applied@ == old(self).applied@ + pending(ms@.take(j as int), current),
                self.version == version_after(ms@.take(j as int), current),
            decreases ms@.len() - j,
        {
            let v = ms[j].version;
            proof {
                assert(ms@.take(j + 1).drop_last() =~= ms@.take(j as int));
                lemma_pending_bounds(ms@.take(j as int), current);
                lemma_pending_bounds(ms@.take(j + 1), current);
            }
            if v > current {
                self.applied.push(v);
                self.version = v;
                count = count + 1;
            }
            j = j + 1;
        }
        assert(ms@.take(j as int) =~= ms@);
        Ok(count)
    }
}

} // verus!
