use migren::applier::{cursor_id, cursor_position, migren_data, set_migren_data, Action, Stage};
use migren::commands::{new, status, to, top};
use migren::model::{DatabaseMigrenData, MigrationsData, MIGREN_VERSION};

fn cursor(at: i32) -> DatabaseMigrenData {
    DatabaseMigrenData { migren_version: "v".to_string(), last_migration_applied: at }
}

#[test]
fn new_names_the_two_scripts_to_write() {
    let mut chain = MigrationsData::default();
    let stubs = new(&mut chain, "users");
    assert_eq!(stubs.len(), 2);
    assert_eq!(stubs[0].file, "1_users_up.sql");
    assert_eq!(stubs[0].text, "-- 1 - users up query");
    assert_eq!(stubs[1].file, "1_users_down.sql");
    assert_eq!(stubs[1].text, "-- 1 - users down query");
    assert_eq!(chain.migrations_counter, 1);
    assert_eq!(chain.migrations.len(), 2);
    assert_eq!(chain.migrations[1].files.up_migration_file, "1_users_up.sql");
}

#[test]
fn to_and_top_start_with_the_cursor() {
    let (run, first) = to(4);
    assert_eq!(first, Action::FetchCursor);
    assert_eq!(run.target, 4);
    assert_eq!(run.stage, Stage::Rows);
    let mut chain = MigrationsData::default();
    chain.new_migration("a");
    chain.new_migration("b");
    let (run, first) = top(&chain);
    assert_eq!(first, Action::FetchCursor);
    assert_eq!(run.target, 2);
}

#[test]
fn status_puts_chain_and_database_side_by_side() {
    let mut chain = MigrationsData::default();
    chain.new_migration("a");
    chain.new_migration("b");
    let report = status(&chain, &cursor(1));
    assert_eq!(report.migrations_counter, 2);
    assert_eq!(report.migren_version, MIGREN_VERSION);
    assert_eq!(report.database_at, 1);
    assert_eq!(report.database_version, "v");
    assert_eq!(report.database_migration.map(|m| m.name), Some("a".to_string()));
    let lost = status(&chain, &cursor(9));
    assert_eq!(lost.database_at, 9);
    assert!(lost.database_migration.is_none());
}

#[test]
fn cursor_positions_and_ids_stand_for_each_other() {
    assert_eq!(cursor_position(0), 0);
    assert_eq!(cursor_position(17), 17);
    assert_eq!(cursor_position(2147483647), 2147483647);
    assert_eq!(cursor_position(2147483648), -2147483648);
    assert_eq!(cursor_position(4294967295), -1);
    assert_eq!(cursor_id(0), 0);
    assert_eq!(cursor_id(17), 17);
    assert_eq!(cursor_id(-1), 4294967295);
    assert_eq!(cursor_id(-2147483648), 2147483648);
    assert_eq!(cursor_id(cursor_position(3000000000)), 3000000000);
}

#[test]
fn empty_cursor_table_gives_the_fresh_cursor_to_store() {
    let (found, store) = migren_data(Vec::new());
    assert!(store);
    assert_eq!(found, DatabaseMigrenData::default());
    let (found, store) = migren_data(vec![cursor(3)]);
    assert!(!store);
    assert_eq!(found, cursor(3));
    let (found, _) = migren_data(vec![cursor(3), cursor(5)]);
    assert_eq!(found, cursor(5));
}

#[test]
fn cursor_is_replaced_whole() {
    let plan = set_migren_data(cursor(6));
    assert_eq!(plan, vec![Action::ClearCursor, Action::StoreCursor(cursor(6))]);
}
