use migren::errors::{MigrenError, PathBreak};
use migren::model::{MigrationData, MigrationFiles, MigrationToApply, MigrationsData};

fn node(id: u32, prev: Option<u32>, next: Option<u32>) -> MigrationData {
    MigrationData {
        files: MigrationFiles {
            up_migration_file: format!("{}_m_up.sql", id),
            down_migration_file: format!("{}_m_down.sql", id),
        },
        name: "m".to_string(),
        id,
        prev_migration_id: prev,
        next_migration_id: next,
    }
}

fn chain_of(nodes: Vec<MigrationData>, counter: u32) -> MigrationsData {
    MigrationsData {
        migrations: nodes,
        migren_version: "x".to_string(),
        migrations_start_id: None,
        migrations_counter: counter,
    }
}

fn scripts_of(ids: &[u32]) -> Vec<String> {
    let mut names = Vec::new();
    for id in ids {
        names.push(format!("{}_m_up.sql", id));
        names.push(format!("{}_m_down.sql", id));
    }
    names
}

fn up(id: u32) -> MigrationToApply {
    MigrationToApply { id, file: format!("{}_m_up.sql", id) }
}

fn down(id: u32) -> MigrationToApply {
    MigrationToApply { id, file: format!("{}_m_down.sql", id) }
}

fn straight() -> MigrationsData {
    chain_of(
        vec![
            node(0, None, Some(1)),
            node(1, Some(0), Some(2)),
            node(2, Some(1), Some(3)),
            node(3, Some(2), None),
        ],
        3,
    )
}

#[test]
fn path_to_itself_is_empty() {
    let chain = straight();
    let disk: Vec<String> = Vec::new();
    assert_eq!(chain.build_migration_path(2, 2, &disk), Ok(vec![]));
    assert_eq!(chain.build_migration_path(0, 0, &disk), Ok(vec![]));
}

#[test]
fn path_up_runs_the_up_scripts_in_rising_order() {
    let chain = straight();
    let disk = scripts_of(&[1, 2, 3]);
    assert_eq!(chain.build_migration_path(0, 3, &disk), Ok(vec![up(1), up(2), up(3)]));
    assert_eq!(chain.build_migration_path(1, 2, &disk), Ok(vec![up(2)]));
}

#[test]
fn path_down_runs_the_down_scripts_in_falling_order() {
    let chain = straight();
    let disk = scripts_of(&[1, 2, 3]);
    assert_eq!(chain.build_migration_path(3, 0, &disk), Ok(vec![down(3), down(2), down(1)]));
    assert_eq!(chain.build_migration_path(3, 1, &disk), Ok(vec![down(3), down(2)]));
}

#[test]
fn paths_over_one_range_mirror_each_other() {
    let chain = chain_of(
        vec![
            node(9, Some(5), None),
            node(2, Some(0), Some(5)),
            node(0, None, Some(2)),
            node(5, Some(2), Some(9)),
        ],
        9,
    );
    let disk = scripts_of(&[2, 5, 9]);
    let there = chain.build_migration_path(0, 9, &disk).unwrap();
    let back = chain.build_migration_path(9, 0, &disk).unwrap();
    assert_eq!(there, vec![up(2), up(5), up(9)]);
    assert_eq!(back, vec![down(9), down(5), down(2)]);
    let mut ids_back: Vec<u32> = back.iter().map(|s| s.id).collect();
    ids_back.reverse();
    let ids_there: Vec<u32> = there.iter().map(|s| s.id).collect();
    assert_eq!(ids_there, ids_back);
}

#[test]
fn unknown_start_is_named() {
    let chain = straight();
    let disk = scripts_of(&[1, 2, 3]);
    assert_eq!(
        chain.build_migration_path(8, 2, &disk),
        Err(MigrenError::MigrationPathInvalid { from: 8, to: 2, reason: PathBreak::FromMissing })
    );
}

#[test]
fn unknown_target_is_named() {
    let chain = straight();
    let disk = scripts_of(&[1, 2, 3]);
    assert_eq!(
        chain.build_migration_path(1, 8, &disk),
        Err(MigrenError::MigrationPathInvalid { from: 1, to: 8, reason: PathBreak::ToMissing })
    );
    assert_eq!(
        chain.build_migration_path(7, 8, &disk),
        Err(MigrenError::MigrationPathInvalid { from: 7, to: 8, reason: PathBreak::FromMissing })
    );
}

#[test]
fn link_to_a_missing_migration_ends_the_walk_there() {
    let chain = chain_of(
        vec![
            node(0, None, Some(1)),
            node(1, Some(0), Some(2)),
            node(2, Some(1), Some(4)),
            node(5, Some(4), None),
        ],
        5,
    );
    let disk = scripts_of(&[1, 2, 5]);
    assert_eq!(
        chain.build_migration_path(0, 5, &disk),
        Err(MigrenError::MigrationPathInvalid {
            from: 0,
            to: 5,
            reason: PathBreak::NextNotFound(node(2, Some(1), Some(4))),
        })
    );
}

#[test]
fn missing_link_ends_the_walk_there() {
    let chain = chain_of(
        vec![node(0, None, Some(1)), node(1, Some(0), None), node(2, Some(1), None)],
        2,
    );
    let disk = scripts_of(&[1, 2]);
    assert_eq!(
        chain.build_migration_path(0, 2, &disk),
        Err(MigrenError::MigrationPathInvalid {
            from: 0,
            to: 2,
            reason: PathBreak::NextNotFound(node(1, Some(0), None)),
        })
    );
    let broken = chain_of(
        vec![node(0, None, Some(1)), node(1, None, Some(2)), node(2, Some(1), None)],
        2,
    );
    assert_eq!(
        broken.build_migration_path(2, 0, &disk),
        Err(MigrenError::MigrationPathInvalid {
            from: 2,
            to: 0,
            reason: PathBreak::NextNotFound(node(1, None, Some(2))),
        })
    );
}

#[test]
fn ring_of_next_links_is_a_circular_migration() {
    let chain = chain_of(
        vec![
            node(0, None, Some(1)),
            node(1, Some(0), Some(2)),
            node(2, Some(1), Some(1)),
            node(3, Some(2), None),
        ],
        3,
    );
    let disk = scripts_of(&[1, 2, 3]);
    assert_eq!(
        chain.build_migration_path(1, 3, &disk),
        Err(MigrenError::MigrationPathInvalid {
            from: 1,
            to: 3,
            reason: PathBreak::Circular(node(1, Some(0), Some(2))),
        })
    );
    assert_eq!(
        chain.build_migration_path(0, 3, &disk),
        Err(MigrenError::MigrationPathInvalid {
            from: 0,
            to: 3,
            reason: PathBreak::Circular(node(1, Some(0), Some(2))),
        })
    );
}

#[test]
fn ring_of_prev_links_is_a_circular_migration() {
    let chain = chain_of(
        vec![
            node(0, None, Some(1)),
            node(1, Some(2), Some(2)),
            node(2, Some(1), Some(3)),
            node(3, Some(2), None),
        ],
        3,
    );
    let disk = scripts_of(&[1, 2, 3]);
    assert_eq!(
        chain.build_migration_path(3, 0, &disk),
        Err(MigrenError::MigrationPathInvalid {
            from: 3,
            to: 0,
            reason: PathBreak::Circular(node(2, Some(1), Some(3))),
        })
    );
}

#[test]
fn missing_script_names_the_migration_that_lacks_it() {
    let chain = straight();
    let mut disk = scripts_of(&[1, 3]);
    disk.push("2_m_up.sql".to_string());
    assert_eq!(
        chain.build_migration_path(0, 3, &disk),
        Err(MigrenError::MigrationFilesDoesNotExsists(node(2, Some(1), Some(3))))
    );
    assert_eq!(
        chain.build_migration_path(3, 0, &disk),
        Err(MigrenError::MigrationFilesDoesNotExsists(node(2, Some(1), Some(3))))
    );
    assert_eq!(chain.build_migration_path(0, 1, &disk), Ok(vec![up(1)]));
}

#[test]
fn missing_script_comes_before_a_later_break() {
    let chain = chain_of(
        vec![node(0, None, Some(1)), node(1, Some(0), Some(2)), node(2, Some(1), Some(7)), node(9, None, None)],
        9,
    );
    let disk = scripts_of(&[2]);
    assert_eq!(
        chain.build_migration_path(0, 9, &disk),
        Err(MigrenError::MigrationFilesDoesNotExsists(node(1, Some(0), Some(2))))
    );
}

#[test]
fn initial_migration_is_never_a_step() {
    let chain = straight();
    let disk = scripts_of(&[1]);
    assert_eq!(chain.build_migration_path(1, 0, &disk), Ok(vec![down(1)]));
    assert_eq!(chain.build_migration_path(0, 1, &disk), Ok(vec![up(1)]));
}

#[test]
fn walks_start_at_the_node_given() {
    let chain = straight();
    let disk = scripts_of(&[1, 2, 3]);
    let start = node(1, Some(0), Some(2));
    let stop = node(3, Some(2), None);
    assert_eq!(chain.build_migration_path_up(&start, &stop, &disk), Ok(vec![up(2), up(3)]));
    assert_eq!(chain.build_migration_path_down(&stop, &start, &disk), Ok(vec![down(3), down(2)]));
    let stray = node(40, None, Some(3));
    assert_eq!(chain.build_migration_path_up(&stray, &stop, &disk), Ok(vec![up(3)]));
}
