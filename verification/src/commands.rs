//! What each command of the tool decides before anything is read or written.

use vstd::prelude::*;
use crate::applier::{id_of, cursor_id, Action, ActionView, Applier, ApplierView};
use crate::files::{script_file_name, script_name, script_stub, stub_text};
use crate::model::{DatabaseMigrenData, Direction, MigrationData, MigrationsData, Node};

verus! {

/// A script to write for a new migration.
#[derive(Debug)]
pub struct ScriptStub {
    pub file: String,
    pub text: String,
}

/// The chain and the database side by side.
#[derive(Debug)]
pub struct StatusReport {
    /// The id of the newest migration of the chain.
    pub migrations_counter: u32,
    /// The version that the chain was written with.
    pub migren_version: String,
    /// The position that the database records.
    pub database_at: i32,
    /// The migration of the chain at that position, if the chain has one.
    pub database_migration: Option<MigrationData>,
    /// The version that the database's cursor was written with.
    pub database_version: String,
}

/// The view of the migration that a report found, if it found one.
pub open spec fn found_node(found: Option<MigrationData>) -> Option<Node> {
    match found {
        Some(m) => Some(m@),
        None => None,
    }
}

/// Adds a migration called `name` to the chain and names the two scripts to
/// write for it, the up script first, each with the comment it starts with.
pub fn new(migration_data: &mut MigrationsData, name: &str) -> (r: Vec<ScriptStub>)
    requires
        old(migration_data).migrations_counter < u32::MAX,
    ensures
        final(migration_data)@ == old(migration_data)@.with_new(name@),
        old(migration_data)@.well_formed() ==> final(migration_data)@.well_formed(),
        r@.len() == 2,
        r@[0].file@ == script_name(final(migration_data).migrations_counter, name@, Direction::Up),
        r@[0].text@ == stub_text(final(migration_data).migrations_counter, name@, Direction::Up),
        r@[1].file@ == script_name(
            final(migration_data).migrations_counter,
            name@,
            Direction::Down,
        ),
        r@[1].text@ == stub_text(final(migration_data).migrations_counter, name@, Direction::Down),
{
    let id = migration_data.new_migration(name).id;
    let mut stubs: Vec<ScriptStub> = Vec::new();
    stubs.push(
        ScriptStub {
            file: script_file_name(id, name, Direction::Up),
            text: script_stub(id, name, Direction::Up),
        },
    );
    stubs.push(
        ScriptStub {
            file: script_file_name(id, name, Direction::Down),
            text: script_stub(id, name, Direction::Down),
        },
    );
    stubs
}

/// Starts a run that moves the database to the migration `migration_id`,
/// upwards or downwards.
pub fn to(migration_id: u32) -> (r: (Applier, Action))
    ensures
        r.0@ == ApplierView::start(migration_id),
        r.1@ == ActionView::FetchCursor,
{
    Applier::new(migration_id)
}

/// Starts a run that moves the database to the newest migration of the chain.
pub fn top(migrations_data: &MigrationsData) -> (r: (Applier, Action))
    ensures
        r.0@ == ApplierView::start(migrations_data.migrations_counter),
        r.1@ == ActionView::FetchCursor,
{
    Applier::new(migrations_data.migrations_counter)
}

/// Puts what the chain says and what the database says side by side, with the
/// migration at which the database stands looked up in the chain.
pub fn status(migrations_data: &MigrationsData, migren_data: &DatabaseMigrenData) -> (r:
    StatusReport)
    ensures
        r.migrations_counter == migrations_data.migrations_counter,
        r.migren_version@ == migrations_data.migren_version@,
        r.database_at == migren_data.last_migration_applied,
        found_node(r.database_migration) == migrations_data@.node(
            id_of(migren_data.last_migration_applied),
        ),
        r.database_version@ == migren_data.migren_version@,
{
    let found = match migrations_data.migration_by_id(
        cursor_id(migren_data.last_migration_applied),
    ) {
        Some(m) => Some(m.clone()),
        None => None,
    };
    StatusReport {
        migrations_counter: migrations_data.migrations_counter,
        migren_version: migrations_data.migren_version.clone(),
        database_at: migren_data.last_migration_applied,
        database_migration: found,
        database_version: migren_data.migren_version.clone(),
    }
}

} // verus!
