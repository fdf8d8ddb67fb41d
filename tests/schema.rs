use ledger::migration::{
    schema_migrations, Migration, MigrationError, MigrationKind, SchemaState, ACCOUNTS_SQL,
    PAYMENTS_SQL,
};

fn m(version: u64) -> Migration {
    Migration {
        version,
        description: format!("v{}", version),
        sql: "CREATE TABLE IF NOT EXISTS t (id INTEGER)".to_string(),
        kind: MigrationKind::Up,
    }
}

#[test]
fn schema_has_seven_ordered_migrations() {
    let ms = schema_migrations();
    assert_eq!(ms.len(), 7);
    for (i, x) in ms.iter().enumerate() {
        assert_eq!(x.version, i as u64 + 1);
        assert_eq!(x.kind, MigrationKind::Up);
        assert!(x.sql.starts_with("CREATE TABLE IF NOT EXISTS"));
    }
    assert_eq!(ms[0].description, "create accounts table");
    assert_eq!(ms[0].sql, ACCOUNTS_SQL);
    assert_eq!(ms[6].description, "create payments table");
    assert_eq!(ms[6].sql, PAYMENTS_SQL);
}

#[test]
fn applying_twice_changes_nothing_the_second_time() {
    let ms = schema_migrations();
    let mut s = SchemaState::new();
    assert_eq!(s.apply(&ms), Ok(7));
    assert_eq!(s.version, 7);
    assert_eq!(s.applied, vec![1, 2, 3, 4, 5, 6, 7]);
    assert_eq!(s.apply(&ms), Ok(0));
    assert_eq!(s.version, 7);
    assert_eq!(s.applied, vec![1, 2, 3, 4, 5, 6, 7]);
}

#[test]
fn only_newer_migrations_are_applied() {
    let mut s = SchemaState::new();
    assert_eq!(s.apply(&vec![m(1), m(2), m(3)]), Ok(3));
    assert_eq!(s.apply(&vec![m(1), m(2), m(3), m(5), m(8)]), Ok(2));
    assert_eq!(s.version, 8);
    assert_eq!(s.applied, vec![1, 2, 3, 5, 8]);
}

#[test]
fn out_of_order_sequence_is_refused() {
    let mut s = SchemaState::new();
    assert_eq!(s.apply(&vec![m(1), m(3), m(2)]), Err(MigrationError::OutOfOrder));
    assert_eq!(s.apply(&vec![m(1), m(1)]), Err(MigrationError::OutOfOrder));
    assert_eq!(s.version, 0);
    assert!(s.applied.is_empty());
    assert_eq!(s.apply(&vec![]), Ok(0));
}
