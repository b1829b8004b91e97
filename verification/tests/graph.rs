use migren::model::{DatabaseMigrenData, MigrationData, MigrationFiles, MigrationsData, MIGREN_VERSION};

fn node(id: u32, prev: Option<u32>, next: Option<u32>) -> MigrationData {
    MigrationData {
        files: MigrationFiles {
            up_migration_file: format!("{}_m_up.sql", id),
            down_migration_file: format!("{}_m_down.sql", id),
        },
        name: "m".to_string(),
        id,
        prev_migration_id: prev,
        next_migration_id: next,
    }
}

#[test]
fn fresh_chain_holds_the_initial_migration_alone() {
    let chain = MigrationsData::default();
    assert_eq!(chain.migrations.len(), 1);
    assert_eq!(chain.migrations[0].id, 0);
    assert_eq!(chain.migrations[0].name, "initial");
    assert_eq!(chain.migrations[0].files.up_migration_file, "");
    assert_eq!(chain.migrations[0].files.down_migration_file, "");
    assert_eq!(chain.migrations[0].prev_migration_id, None);
    assert_eq!(chain.migrations[0].next_migration_id, None);
    assert_eq!(chain.migrations_counter, 0);
    assert_eq!(chain.migrations_start_id, None);
    assert_eq!(chain.migren_version, MIGREN_VERSION);
}

#[test]
fn fresh_cursor_stands_at_the_start() {
    let cursor = DatabaseMigrenData::default();
    assert_eq!(cursor.last_migration_applied, 0);
    assert_eq!(cursor.migren_version, MIGREN_VERSION);
}

#[test]
fn lookup_is_by_id_and_not_by_position() {
    let chain = MigrationsData {
        migrations: vec![node(7, Some(3), None), node(0, None, Some(3)), node(3, Some(0), Some(7))],
        migren_version: "x".to_string(),
        migrations_start_id: None,
        migrations_counter: 7,
    };
    assert_eq!(chain.migration_by_id(3), Some(&node(3, Some(0), Some(7))));
    assert_eq!(chain.migration_by_id(7).map(|m| m.id), Some(7));
    assert_eq!(chain.migration_by_id(1), None);
}

#[test]
fn lookup_finds_the_first_of_two_with_one_id() {
    let mut second = node(1, None, None);
    second.name = "second".to_string();
    let chain = MigrationsData {
        migrations: vec![node(1, None, None), second],
        migren_version: "x".to_string(),
        migrations_start_id: None,
        migrations_counter: 1,
    };
    assert_eq!(chain.migration_by_id(1).map(|m| m.name.clone()), Some("m".to_string()));
}

#[test]
fn mutable_lookup_changes_the_one_migration() {
    let mut chain = MigrationsData {
        migrations: vec![node(0, None, Some(1)), node(1, Some(0), None)],
        migren_version: "x".to_string(),
        migrations_start_id: None,
        migrations_counter: 1,
    };
    match chain.migration_by_id_mut(1) {
        Some(m) => m.name = "renamed".to_string(),
        None => panic!("migration 1 is in the chain"),
    }
    assert_eq!(chain.migrations[1].name, "renamed");
    assert_eq!(chain.migrations[0], node(0, None, Some(1)));
    assert!(chain.migration_by_id_mut(2).is_none());
}

#[test]
fn new_migration_is_linked_after_the_tail() {
    let mut chain = MigrationsData::default();
    let first = chain.new_migration("users").clone();
    assert_eq!(first.id, 1);
    assert_eq!(first.name, "users");
    assert_eq!(first.prev_migration_id, Some(0));
    assert_eq!(first.next_migration_id, None);
    assert_eq!(first.files.up_migration_file, "1_users_up.sql");
    assert_eq!(first.files.down_migration_file, "1_users_down.sql");
    let second = chain.new_migration("orders").clone();
    assert_eq!(second.id, 2);
    assert_eq!(second.prev_migration_id, Some(1));
    assert_eq!(second.files.up_migration_file, "2_orders_up.sql");
    assert_eq!(chain.migrations_counter, 2);
    assert_eq!(chain.migrations.len(), 3);
    assert_eq!(chain.migrations[0].next_migration_id, Some(1));
    assert_eq!(chain.migrations[1].next_migration_id, Some(2));
    assert_eq!(chain.migrations[2].next_migration_id, None);
    assert_eq!(chain.migrations_start_id, Some(1));
}

#[test]
fn first_migration_of_a_fresh_chain_is_its_start() {
    let mut chain = MigrationsData::default();
    assert_eq!(chain.migrations_start_id, None);
    chain.new_migration("a");
    assert_eq!(chain.migrations_start_id, Some(1));
    chain.new_migration("b");
    chain.new_migration("c");
    assert_eq!(chain.migrations_start_id, Some(1));
}

#[test]
fn start_of_a_chain_with_migrations_stays_as_it_was() {
    let mut chain = MigrationsData {
        migrations: vec![node(0, None, Some(3)), node(3, Some(0), None)],
        migren_version: "x".to_string(),
        migrations_start_id: None,
        migrations_counter: 3,
    };
    chain.new_migration("d");
    assert_eq!(chain.migrations_start_id, None);
    assert!(chain.has_real_migration());
    assert!(!MigrationsData::default().has_real_migration());
}

#[test]
fn new_migration_in_a_chain_without_tail_sets_the_start() {
    let mut chain = MigrationsData {
        migrations: vec![],
        migren_version: "x".to_string(),
        migrations_start_id: None,
        migrations_counter: 4,
    };
    let made = chain.new_migration("first").clone();
    assert_eq!(made.id, 5);
    assert_eq!(made.prev_migration_id, None);
    assert_eq!(chain.migrations_start_id, Some(5));
    assert_eq!(chain.migrations_counter, 5);
    assert_eq!(chain.migrations.len(), 1);
}
