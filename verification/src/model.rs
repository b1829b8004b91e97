//! The records of a migration chain and their mathematical views.

use vstd::prelude::*;

verus! {

/// Version recorded in a fresh chain and a fresh cursor.
pub const MIGREN_VERSION: &'static str = "0.1.0";

/// The two scripts of a migration, named relative to the migration directory.
#[derive(Debug)]
pub struct MigrationFiles {
    pub up_migration_file: String,
    pub down_migration_file: String,
}

/// One reversible change of the chain.
#[derive(Debug)]
pub struct MigrationData {
    pub files: MigrationFiles,
    pub name: String,
    pub id: u32,
    pub prev_migration_id: Option<u32>,
    pub next_migration_id: Option<u32>,
}

/// One step of a resolved path: the migration and the script to run for it.
#[derive(Debug)]
pub struct MigrationToApply {
    pub id: u32,
    pub file: String,
}

/// The whole chain: the root record of the manifest.
#[derive(Debug)]
pub struct MigrationsData {
    pub migrations: Vec<MigrationData>,
    pub migren_version: String,
    pub migrations_start_id: Option<u32>,
    pub migrations_counter: u32,
}

/// The position that the database records for itself.
#[derive(Debug)]
pub struct DatabaseMigrenData {
    pub migren_version: String,
    pub last_migration_applied: i32,
}

/// The two ways along the chain: towards higher ids, running up scripts, or
/// towards lower ids, running down scripts.
#[derive(Debug, Clone, Copy, PartialEq, Eq, Structural)]
pub enum Direction {
    Up,
    Down,
}

/// A migration as contracts see it.
pub struct Node {
    pub id: u32,
    pub name: Seq<char>,
    pub up_file: Seq<char>,
    pub down_file: Seq<char>,
    pub prev: Option<u32>,
    pub next: Option<u32>,
}

/// A step of a path as contracts see it.
pub struct Step {
    pub id: u32,
    pub file: Seq<char>,
}

/// A chain as contracts see it.
pub struct Graph {
    pub nodes: Seq<Node>,
    pub version: Seq<char>,
    pub start_id: Option<u32>,
    pub counter: u32,
}

/// A database cursor as contracts see it.
pub struct Cursor {
    pub version: Seq<char>,
    pub last_applied: i32,
}

impl View for MigrationData {
    type V = Node;

    open spec fn view(&self) -> Node {
        Node {
            id: self.id,
            name: self.name@,
            up_file: self.files.up_migration_file@,
            down_file: self.files.down_migration_file@,
            prev: self.prev_migration_id,
            next: self.next_migration_id,
        }
    }
}

impl View for MigrationToApply {
    type V = Step;

    open spec fn view(&self) -> Step {
        Step { id: self.id, file: self.file@ }
    }
}

impl View for MigrationsData {
    type V = Graph;

    open spec fn view(&self) -> Graph {
        Graph {
            nodes: Seq::new(self.migrations@.len(), |i: int| self.migrations@[i]@),
            version: self.migren_version@,
            start_id: self.migrations_start_id,
            counter: self.migrations_counter,
        }
    }
}

impl View for DatabaseMigrenData {
    type V = Cursor;

    open spec fn view(&self) -> Cursor {
        Cursor { version: self.migren_version@, last_applied: self.last_migration_applied }
    }
}

impl Clone for MigrationFiles {
    fn clone(&self) -> (r: Self)
        ensures
            r == *self,
    {
        MigrationFiles {
            up_migration_file: self.up_migration_file.clone(),
            down_migration_file: self.down_migration_file.clone(),
        }
    }
}

impl Clone for MigrationData {
    fn clone(&self) -> (r: Self)
        ensures
            r == *self,
    {
        MigrationData {
            files: self.files.clone(),
            name: self.name.clone(),
            id: self.id,
            prev_migration_id: self.prev_migration_id,
            next_migration_id: self.next_migration_id,
        }
    }
}

impl Clone for MigrationToApply {
    fn clone(&self) -> (r: Self)
        ensures
            r == *self,
    {
        MigrationToApply { id: self.id, file: self.file.clone() }
    }
}

impl Clone for DatabaseMigrenData {
    fn clone(&self) -> (r: Self)
        ensures
            r == *self,
    {
        DatabaseMigrenData {
            migren_version: self.migren_version.clone(),
            last_migration_applied: self.last_migration_applied,
        }
    }
}

impl PartialEq for MigrationFiles {
    fn eq(&self, other: &Self) -> (r: bool) {
        self.up_migration_file == other.up_migration_file && self.down_migration_file
            == other.down_migration_file
    }
}

impl vstd::std_specs::cmp::PartialEqSpecImpl for MigrationFiles {
    open spec fn obeys_eq_spec() -> bool {
        true
    }

    open spec fn eq_spec(&self, other: &Self) -> bool {
        self.up_migration_file@ == other.up_migration_file@ && self.down_migration_file@
            == other.down_migration_file@
    }
}

impl PartialEq for MigrationToApply {
    fn eq(&self, other: &Self) -> (r: bool) {
        self.id == other.id && self.file == other.file
    }
}

impl vstd::std_specs::cmp::PartialEqSpecImpl for MigrationToApply {
    open spec fn obeys_eq_spec() -> bool {
        true
    }

    open spec fn eq_spec(&self, other: &Self) -> bool {
        self.id == other.id && self.file@ == other.file@
    }
}

impl PartialEq for DatabaseMigrenData {
    fn eq(&self, other: &Self) -> (r: bool) {
        self.migren_version == other.migren_version && self.last_migration_applied
            == other.last_migration_applied
    }
}

impl vstd::std_specs::cmp::PartialEqSpecImpl for DatabaseMigrenData {
    open spec fn obeys_eq_spec() -> bool {
        true
    }

    open spec fn eq_spec(&self, other: &Self) -> bool {
        self.migren_version@ == other.migren_version@ && self.last_migration_applied
            == other.last_migration_applied
    }
}

impl PartialEq for MigrationData {
    fn eq(&self, other: &Self) -> (r: bool) {
        self.files == other.files && self.name == other.name && self.id == other.id
            && self.prev_migration_id == other.prev_migration_id && self.next_migration_id
            == other.next_migration_id
    }
}

impl vstd::std_specs::cmp::PartialEqSpecImpl for MigrationData {
    open spec fn obeys_eq_spec() -> bool {
        true
    }

    open spec fn eq_spec(&self, other: &Self) -> bool {
        self@ == other@
    }
}

} // verus!
