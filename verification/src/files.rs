//! The scripts of a migration, held against a listing of the migration
//! directory.

use vstd::prelude::*;
use vstd::string::StringExecFns;
use crate::errors::{Failure, MigrenError};
use crate::model::{Direction, MigrationData, MigrationFiles, Node};
use crate::text::{decimal, decimal_string};

verus! {

/// Both scripts of the node are among the files listed.
pub open spec fn files_present(on_disk: Seq<Seq<char>>, node: Node) -> bool {
    on_disk.contains(node.up_file) && on_disk.contains(node.down_file)
}

/// Whether `name` is among the files listed.
pub fn is_listed(on_disk: &Vec<String>, name: &String) -> (r: bool)
    ensures
        r == on_disk.deep_view().contains(name@),
{
    let mut i: usize = 0;
    while i < on_disk.len()
        invariant
            i <= on_disk@.len(),
            forall|j: int| 0 <= j < i ==> (#[trigger] on_disk.deep_view()[j]) != name@,
        decreases on_disk@.len() - i,
    {
        if on_disk[i] == *name {
            assert(on_disk.deep_view()[i as int] == name@);
            return true;
        }
        i += 1;
    }
    false
}

/// Accepts a migration whose two scripts are both listed, and names the
/// migration in the error where one is not.
pub fn assert_migration_files_exists(migration_data: &MigrationData, on_disk: &Vec<String>) -> (r:
    Result<(), MigrenError>)
    ensures
        r is Ok <==> files_present(on_disk.deep_view(), migration_data@),
        r matches Err(e) ==> e@ == Failure::FilesMissing(migration_data@),
{
    if !is_listed(on_disk, &migration_data.files.up_migration_file) || !is_listed(
        on_disk,
        &migration_data.files.down_migration_file,
    ) {
        return Err(MigrenError::MigrationFilesDoesNotExsists(migration_data.clone()));
    }
    Ok(())
}

/// The ending that tells the script of one direction from the other.
pub open spec fn script_ending(dir: Direction) -> Seq<char> {
    match dir {
        Direction::Up => "_up.sql"@,
        Direction::Down => "_down.sql"@,
    }
}

/// The name of a script: the id, the migration's name and the direction,
/// joined by underscores.
pub open spec fn script_name(id: u32, name: Seq<char>, dir: Direction) -> Seq<char> {
    decimal(id as nat) + "_"@ + name + script_ending(dir)
}

/// The word that a fresh script says of its direction.
pub open spec fn stub_ending(dir: Direction) -> Seq<char> {
    match dir {
        Direction::Up => " up query"@,
        Direction::Down => " down query"@,
    }
}

/// What a fresh script holds: a comment that names the migration.
pub open spec fn stub_text(id: u32, name: Seq<char>, dir: Direction) -> Seq<char> {
    "-- "@ + decimal(id as nat) + " - "@ + name + stub_ending(dir)
}

/// The name of the script that moves the migration `migration_id` in the
/// direction `dir`.
pub fn script_file_name(migration_id: u32, migration_name: &str, dir: Direction) -> (r: String)
    ensures
        r@ == script_name(migration_id, migration_name@, dir),
{
    let mut out = decimal_string(migration_id);
    out.append("_");
    out.append(migration_name);
    match dir {
        Direction::Up => out.append("_up.sql"),
        Direction::Down => out.append("_down.sql"),
    }
    out
}

/// The text that a fresh script of the migration `migration_id` starts with.
pub fn script_stub(migration_id: u32, migration_name: &str, dir: Direction) -> (r: String)
    ensures
        r@ == stub_text(migration_id, migration_name@, dir),
{
    let mut out = String::from_str("-- ");
    out.append(decimal_string(migration_id).as_str());
    out.append(" - ");
    out.append(migration_name);
    match dir {
        Direction::Up => out.append(" up query"),
        Direction::Down => out.append(" down query"),
    }
    out
}

/// The names of the two scripts of a new migration.
pub fn create_migration_files(migration_id: u32, migration_name: &str) -> (r: MigrationFiles)
    ensures
        r.up_migration_file@ == script_name(migration_id, migration_name@, Direction::Up),
        r.down_migration_file@ == script_name(migration_id, migration_name@, Direction::Down),
{
    MigrationFiles {
        up_migration_file: script_file_name(migration_id, migration_name, Direction::Up),
        down_migration_file: script_file_name(migration_id, migration_name, Direction::Down),
    }
}

} // verus!
