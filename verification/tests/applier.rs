use migren::applier::{Action, Applier, Event, Stage, Verdict};
use migren::errors::{MigrenError, PathBreak};
use migren::model::{DatabaseMigrenData, MigrationsData, MIGREN_VERSION};

struct Db {
    cursor: Option<DatabaseMigrenData>,
    log: Vec<String>,
    pending: Option<(Option<DatabaseMigrenData>, Vec<String>)>,
}

fn db_at(position: Option<i32>) -> Db {
    Db {
        cursor: position.map(|at| DatabaseMigrenData {
            migren_version: MIGREN_VERSION.to_string(),
            last_migration_applied: at,
        }),
        log: Vec::new(),
        pending: None,
    }
}

fn chain_of_three() -> (MigrationsData, Vec<String>) {
    let mut chain = MigrationsData::default();
    let mut disk = Vec::new();
    for name in ["a", "b", "c"] {
        let made = chain.new_migration(name);
        disk.push(made.files.up_migration_file.clone());
        disk.push(made.files.down_migration_file.clone());
    }
    (chain, disk)
}

fn text_of(file: &str) -> String {
    match file {
        "1_a_up.sql" => "CREATE TABLE a (id INTEGER);\n".to_string(),
        "2_b_up.sql" => "CREATE TABLE b (id INTEGER);\n-- migren:split\nINSERT INTO b VALUES (1);\n"
            .to_string(),
        "3_c_up.sql" => "CREATE TABLE c (id INTEGER); CREATE TABLE d (id INTEGER);".to_string(),
        "1_a_down.sql" => "DROP TABLE a;\n".to_string(),
        "2_b_down.sql" => "DROP TABLE b;\n".to_string(),
        "3_c_down.sql" => "DROP TABLE d;\n-- migren:split\nDROP TABLE c;\n".to_string(),
        other => panic!("no script {}", other),
    }
}

fn perform(db: &mut Db, action: &Action, ok: bool) -> Event {
    if !ok {
        if matches!(action, Action::Commit | Action::Rollback) {
            db.pending = None;
        }
        return Event::Failed;
    }
    match action {
        Action::FetchCursor => {
            let seen = match &db.pending {
                Some((cursor, _)) => cursor.clone(),
                None => db.cursor.clone(),
            };
            Event::Rows(seen.into_iter().collect())
        }
        Action::ClearCursor => {
            match &mut db.pending {
                Some((cursor, _)) => *cursor = None,
                None => db.cursor = None,
            }
            Event::Done
        }
        Action::StoreCursor(data) => {
            match &mut db.pending {
                Some((cursor, _)) => *cursor = Some(data.clone()),
                None => db.cursor = Some(data.clone()),
            }
            Event::Done
        }
        Action::Begin => {
            db.pending = Some((db.cursor.clone(), db.log.clone()));
            Event::Done
        }
        Action::ReadScript(file) => Event::Script(text_of(file)),
        Action::Execute { sql, .. } => {
            match &mut db.pending {
                Some((_, log)) => log.push(sql.clone()),
                None => db.log.push(sql.clone()),
            }
            Event::Done
        }
        Action::Commit => {
            if let Some((cursor, log)) = db.pending.take() {
                db.cursor = cursor;
                db.log = log;
            }
            Event::Done
        }
        Action::Rollback => {
            db.pending = None;
            Event::Done
        }
        Action::Finish(_) => Event::Done,
    }
}

fn drive(
    target: u32,
    chain: &MigrationsData,
    disk: &Vec<String>,
    db: &mut Db,
    fail_at: Option<usize>,
) -> (Verdict, Vec<String>) {
    let (mut run, mut action) = Applier::new(target);
    let mut seen = Vec::new();
    let mut count = 0;
    loop {
        seen.push(format!("{:?}", action));
        if let Action::Finish(verdict) = action {
            return (verdict, seen);
        }
        assert!(count < 1000);
        let event = perform(db, &action, fail_at != Some(count));
        action = run.advance(event, chain, disk);
        count += 1;
    }
}

fn position(db: &Db) -> i32 {
    db.cursor.as_ref().map(|c| c.last_migration_applied).unwrap_or(0)
}

#[test]
fn run_to_the_current_position_only_reads_the_cursor() {
    let (chain, disk) = chain_of_three();
    let mut db = db_at(Some(2));
    let (verdict, seen) = drive(2, &chain, &disk, &mut db, None);
    assert_eq!(verdict, Verdict::AlreadyThere);
    assert_eq!(seen, vec!["FetchCursor".to_string(), "Finish(AlreadyThere)".to_string()]);
    assert_eq!(position(&db), 2);
    assert!(db.log.is_empty());
    assert!(db.pending.is_none());
}

#[test]
fn run_upwards_executes_every_group_in_one_transaction() {
    let (chain, disk) = chain_of_three();
    let mut db = db_at(Some(0));
    let (verdict, seen) = drive(3, &chain, &disk, &mut db, None);
    assert_eq!(verdict, Verdict::Applied);
    assert_eq!(
        seen,
        vec![
            "FetchCursor".to_string(),
            "Begin".to_string(),
            "ReadScript(\"1_a_up.sql\")".to_string(),
            "Execute { sql: \"CREATE TABLE a (id INTEGER);\\n\", several: false }".to_string(),
            "ReadScript(\"2_b_up.sql\")".to_string(),
            "Execute { sql: \"CREATE TABLE b (id INTEGER);\\n-- migren:split\\n\", several: false }"
                .to_string(),
            "Execute { sql: \"INSERT INTO b VALUES (1);\\n\", several: false }".to_string(),
            "ReadScript(\"3_c_up.sql\")".to_string(),
            "Execute { sql: \"CREATE TABLE c (id INTEGER); CREATE TABLE d (id INTEGER);\\n\", several: true }"
                .to_string(),
            "ClearCursor".to_string(),
            format!(
                "StoreCursor(DatabaseMigrenData {{ migren_version: {:?}, last_migration_applied: 3 }})",
                MIGREN_VERSION
            ),
            "Commit".to_string(),
            "Finish(Applied)".to_string(),
        ]
    );
    assert_eq!(position(&db), 3);
    assert_eq!(db.cursor.as_ref().map(|c| c.migren_version.clone()), Some(MIGREN_VERSION.to_string()));
    assert_eq!(
        db.log,
        vec![
            "CREATE TABLE a (id INTEGER);\n".to_string(),
            "CREATE TABLE b (id INTEGER);\n-- migren:split\n".to_string(),
            "INSERT INTO b VALUES (1);\n".to_string(),
            "CREATE TABLE c (id INTEGER); CREATE TABLE d (id INTEGER);\n".to_string(),
        ]
    );
    assert!(db.pending.is_none());
}

#[test]
fn failure_in_the_second_of_three_steps_leaves_no_trace() {
    let (chain, disk) = chain_of_three();
    let mut db = db_at(Some(0));
    let (verdict, seen) = drive(3, &chain, &disk, &mut db, Some(5));
    assert_eq!(verdict, Verdict::Aborted);
    assert_eq!(
        seen,
        vec![
            "FetchCursor".to_string(),
            "Begin".to_string(),
            "ReadScript(\"1_a_up.sql\")".to_string(),
            "Execute { sql: \"CREATE TABLE a (id INTEGER);\\n\", several: false }".to_string(),
            "ReadScript(\"2_b_up.sql\")".to_string(),
            "Execute { sql: \"CREATE TABLE b (id INTEGER);\\n-- migren:split\\n\", several: false }"
                .to_string(),
            "Rollback".to_string(),
            "Finish(Aborted)".to_string(),
        ]
    );
    assert_eq!(position(&db), 0);
    assert!(db.log.is_empty());
    assert!(db.pending.is_none());
}

#[test]
fn there_and_back_ends_where_it_began() {
    let (chain, disk) = chain_of_three();
    let mut db = db_at(Some(1));
    let (there, _) = drive(3, &chain, &disk, &mut db, None);
    assert_eq!(there, Verdict::Applied);
    assert_eq!(position(&db), 3);
    let (back, _) = drive(1, &chain, &disk, &mut db, None);
    assert_eq!(back, Verdict::Applied);
    assert_eq!(position(&db), 1);
    assert_eq!(
        db.log,
        vec![
            "CREATE TABLE b (id INTEGER);\n-- migren:split\n".to_string(),
            "INSERT INTO b VALUES (1);\n".to_string(),
            "CREATE TABLE c (id INTEGER); CREATE TABLE d (id INTEGER);\n".to_string(),
            "DROP TABLE d;\n-- migren:split\n".to_string(),
            "DROP TABLE c;\n".to_string(),
            "DROP TABLE b;\n".to_string(),
        ]
    );
}

#[test]
fn empty_cursor_table_is_seeded_before_anything_else() {
    let (chain, disk) = chain_of_three();
    let mut db = db_at(None);
    let (verdict, seen) = drive(0, &chain, &disk, &mut db, None);
    assert_eq!(verdict, Verdict::AlreadyThere);
    assert_eq!(
        seen,
        vec![
            "FetchCursor".to_string(),
            "ClearCursor".to_string(),
            format!(
                "StoreCursor(DatabaseMigrenData {{ migren_version: {:?}, last_migration_applied: 0 }})",
                MIGREN_VERSION
            ),
            "Finish(AlreadyThere)".to_string(),
        ]
    );
    assert_eq!(db.cursor, Some(DatabaseMigrenData::default()));
    let mut db = db_at(None);
    let (verdict, _) = drive(1, &chain, &disk, &mut db, None);
    assert_eq!(verdict, Verdict::Applied);
    assert_eq!(position(&db), 1);
    assert_eq!(db.log, vec!["CREATE TABLE a (id INTEGER);\n".to_string()]);
}

#[test]
fn unknown_target_is_refused_before_the_database_is_touched() {
    let (chain, disk) = chain_of_three();
    let mut db = db_at(Some(1));
    let (verdict, seen) = drive(9, &chain, &disk, &mut db, None);
    assert_eq!(
        verdict,
        Verdict::Refused(MigrenError::MigrationPathInvalid {
            from: 1,
            to: 9,
            reason: PathBreak::ToMissing,
        })
    );
    assert_eq!(seen.len(), 2);
    assert_eq!(seen[0], "FetchCursor");
    assert_eq!(position(&db), 1);
    assert!(db.log.is_empty());
}

#[test]
fn missing_script_is_refused_before_the_database_is_touched() {
    let (chain, mut disk) = chain_of_three();
    disk.retain(|name| name != "2_b_down.sql");
    let mut db = db_at(Some(0));
    let (verdict, seen) = drive(3, &chain, &disk, &mut db, None);
    assert!(matches!(
        verdict,
        Verdict::Refused(MigrenError::MigrationFilesDoesNotExsists(ref m)) if m.id == 2
    ));
    assert_eq!(seen.len(), 2);
    assert!(db.log.is_empty());
}

#[test]
fn failure_outside_the_transaction_ends_the_run_at_once() {
    let (chain, disk) = chain_of_three();
    let mut db = db_at(Some(0));
    let (verdict, seen) = drive(2, &chain, &disk, &mut db, Some(0));
    assert_eq!(verdict, Verdict::Aborted);
    assert_eq!(seen, vec!["FetchCursor".to_string(), "Finish(Aborted)".to_string()]);
    let (verdict, seen) = drive(2, &chain, &disk, &mut db, Some(1));
    assert_eq!(verdict, Verdict::Aborted);
    assert_eq!(
        seen,
        vec!["FetchCursor".to_string(), "Begin".to_string(), "Finish(Aborted)".to_string()]
    );
    assert_eq!(position(&db), 0);
}

#[test]
fn failure_inside_the_transaction_rolls_back() {
    let (chain, disk) = chain_of_three();
    for fail_at in 2..7 {
        let mut db = db_at(Some(0));
        let (verdict, seen) = drive(1, &chain, &disk, &mut db, Some(fail_at));
        assert_eq!(verdict, Verdict::Aborted);
        if fail_at < 6 {
            assert_eq!(seen[seen.len() - 2], "Rollback");
        } else {
            assert_eq!(seen[seen.len() - 2], "Commit");
        }
        assert_eq!(position(&db), 0);
        assert!(db.log.is_empty());
        assert!(db.pending.is_none());
    }
    let mut db = db_at(Some(0));
    let (verdict, _) = drive(1, &chain, &disk, &mut db, Some(7));
    assert_eq!(verdict, Verdict::Applied);
}

#[test]
fn finished_run_stays_finished() {
    let (chain, disk) = chain_of_three();
    let (mut run, _) = Applier::new(0);
    let zero = DatabaseMigrenData { migren_version: "v".to_string(), last_migration_applied: 0 };
    assert_eq!(
        run.advance(Event::Rows(vec![zero]), &chain, &disk),
        Action::Finish(Verdict::AlreadyThere)
    );
    assert_eq!(run.stage, Stage::Done);
    assert_eq!(run.advance(Event::Done, &chain, &disk), Action::Finish(Verdict::AlreadyThere));
    let (mut run, _) = Applier::new(0);
    assert_eq!(run.advance(Event::Done, &chain, &disk), Action::Finish(Verdict::Aborted));
    assert_eq!(run.stage, Stage::Failed);
    assert_eq!(run.advance(Event::Done, &chain, &disk), Action::Finish(Verdict::Aborted));
}
