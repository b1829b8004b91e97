use migren::errors::MigrenError;
use migren::files::{
    assert_migration_files_exists, create_migration_files, is_listed, script_file_name, script_stub,
};
use migren::model::{Direction, MigrationData, MigrationFiles};

fn node(id: u32) -> MigrationData {
    MigrationData {
        files: MigrationFiles {
            up_migration_file: format!("{}_m_up.sql", id),
            down_migration_file: format!("{}_m_down.sql", id),
        },
        name: "m".to_string(),
        id,
        prev_migration_id: None,
        next_migration_id: None,
    }
}

#[test]
fn scripts_are_named_by_id_name_and_direction() {
    assert_eq!(script_file_name(12, "add_users", Direction::Up), "12_add_users_up.sql");
    assert_eq!(script_file_name(12, "add_users", Direction::Down), "12_add_users_down.sql");
    let files = create_migration_files(3, "x");
    assert_eq!(files.up_migration_file, "3_x_up.sql");
    assert_eq!(files.down_migration_file, "3_x_down.sql");
}

#[test]
fn fresh_scripts_hold_a_comment() {
    assert_eq!(script_stub(12, "add_users", Direction::Up), "-- 12 - add_users up query");
    assert_eq!(script_stub(12, "add_users", Direction::Down), "-- 12 - add_users down query");
}

#[test]
fn both_scripts_must_be_listed() {
    let both = vec!["1_m_down.sql".to_string(), "1_m_up.sql".to_string()];
    let up_only = vec!["1_m_up.sql".to_string()];
    let down_only = vec!["1_m_down.sql".to_string()];
    assert_eq!(assert_migration_files_exists(&node(1), &both), Ok(()));
    assert_eq!(
        assert_migration_files_exists(&node(1), &up_only),
        Err(MigrenError::MigrationFilesDoesNotExsists(node(1)))
    );
    assert_eq!(
        assert_migration_files_exists(&node(1), &down_only),
        Err(MigrenError::MigrationFilesDoesNotExsists(node(1)))
    );
    assert_eq!(
        assert_migration_files_exists(&node(2), &both),
        Err(MigrenError::MigrationFilesDoesNotExsists(node(2)))
    );
}

#[test]
fn listing_is_searched_by_whole_names() {
    let names = vec!["a.sql".to_string(), "b.sql".to_string()];
    assert!(is_listed(&names, &"b.sql".to_string()));
    assert!(!is_listed(&names, &"b".to_string()));
    assert!(!is_listed(&Vec::new(), &"a.sql".to_string()));
}
