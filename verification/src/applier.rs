//! The decisions of a transactional run that moves a database to a target
//! migration.
//!
//! The run itself belongs to the caller, who holds the connection: it carries
//! out the action it is given, reports what came of it, and is given the next
//! action, until the run is over. All statements of all scripts on the path,
//! and the new cursor, go into one transaction: a failure anywhere rolls all of
//! it back.

use vstd::prelude::*;
use crate::errors::{Failure, MigrenError};
use crate::model::{
    Cursor, DatabaseMigrenData, Graph, MigrationToApply, MigrationsData, Step, MIGREN_VERSION,
};
use crate::path::steps_of;
use crate::statements::{
    directives_of, has_several_statements, lemma_groups_not_empty, lines_of, several_statements,
    split_statements, statement_groups,
};

verus! {

/// The table that holds the cursor, made on every connect.
pub const TABLE_CREATE: &'static str =
    "\nCREATE TABLE IF NOT EXISTS migren_data (\n    migren_version TEXT,\n    last_migration_applied INTEGER\n);\n";

/// Reads the cursor.
pub const CURSOR_SELECT: &'static str = "SELECT * FROM migren_data LIMIT 1";

/// Removes the cursor.
pub const CURSOR_DELETE: &'static str = "DELETE FROM migren_data";

/// Stores a cursor: the version first, the position second.
pub const CURSOR_INSERT: &'static str =
    "INSERT INTO migren_data (migren_version, last_migration_applied) VALUES ($1, $2);";

/// How far a run has come: what it is waiting for.
#[derive(Debug, Clone, Copy, PartialEq, Eq, Structural)]
pub enum Stage {
    /// For the rows of the cursor table.
    Rows,
    /// For the removal of what an empty cursor table held, before the first
    /// cursor is stored.
    SeedCleared,
    /// For the first cursor to be stored.
    SeedStored,
    /// For the transaction to open.
    Begun,
    /// For the text of the script of the current step.
    Script,
    /// For the current statement group to be executed.
    Statement,
    /// For the old cursor to be removed, inside the transaction.
    CursorCleared,
    /// For the new cursor to be stored, inside the transaction.
    CursorStored,
    /// For the transaction to be committed.
    Committed,
    /// For nothing: the database is at the target.
    Done,
    /// For nothing: the run has failed.
    Failed,
}

/// How a run ended.
#[derive(Debug)]
pub enum Verdict {
    /// The database has been moved to the target.
    Applied,
    /// The database was at the target already; nothing was done.
    AlreadyThere,
    /// No path leads to the target; the database was not touched.
    Refused(MigrenError),
    /// The caller reported a failure; nothing of the run is kept.
    Aborted,
}

/// What the caller is to do next.
#[derive(Debug)]
pub enum Action {
    /// Read the rows of the cursor table.
    FetchCursor,
    /// Remove every row of the cursor table.
    ClearCursor,
    /// Store this cursor as the one row of the cursor table.
    StoreCursor(DatabaseMigrenData),
    /// Open the transaction.
    Begin,
    /// Read the script with this name.
    ReadScript(String),
    /// Execute this statement group inside the transaction. `several` warns
    /// that it holds more than one semicolon.
    Execute { sql: String, several: bool },
    /// Commit the transaction.
    Commit,
    /// Roll the transaction back.
    Rollback,
    /// Stop: the run is over.
    Finish(Verdict),
}

/// What came of the last action.
#[derive(Debug)]
pub enum Event {
    /// The rows of the cursor table.
    Rows(Vec<DatabaseMigrenData>),
    /// The text of the script.
    Script(String),
    /// The action was carried out; there is nothing to hand back.
    Done,
    /// The action failed.
    Failed,
}

/// A run towards `target`.
#[derive(Debug)]
pub struct Applier {
    pub stage: Stage,
    pub target: u32,
    pub path: Vec<MigrationToApply>,
    pub step: usize,
    pub groups: Vec<String>,
    pub group: usize,
}

/// A `Verdict` as contracts see it.
pub enum VerdictView {
    Applied,
    AlreadyThere,
    Refused(Failure),
    Aborted,
}

/// An `Action` as contracts see it.
pub enum ActionView {
    FetchCursor,
    ClearCursor,
    StoreCursor(Cursor),
    Begin,
    ReadScript(Seq<char>),
    Execute { sql: Seq<char>, several: bool },
    Commit,
    Rollback,
    Finish(VerdictView),
}

/// An `Event` as contracts see it.
pub enum EventView {
    Rows(Seq<Cursor>),
    Script(Seq<char>),
    Done,
    Failed,
}

/// An `Applier` as contracts see it.
pub struct ApplierView {
    pub stage: Stage,
    pub target: u32,
    pub path: Seq<Step>,
    pub step: nat,
    pub groups: Seq<Seq<char>>,
    pub group: nat,
}

impl View for Verdict {
    type V = VerdictView;

    open spec fn view(&self) -> VerdictView {
        match self {
            Verdict::Applied => VerdictView::Applied,
            Verdict::AlreadyThere => VerdictView::AlreadyThere,
            Verdict::Refused(e) => VerdictView::Refused(e@),
            Verdict::Aborted => VerdictView::Aborted,
        }
    }
}

impl View for Action {
    type V = ActionView;

    open spec fn view(&self) -> ActionView {
        match self {
            Action::FetchCursor => ActionView::FetchCursor,
            Action::ClearCursor => ActionView::ClearCursor,
            Action::StoreCursor(c) => ActionView::StoreCursor(c@),
            Action::Begin => ActionView::Begin,
            Action::ReadScript(file) => ActionView::ReadScript(file@),
            Action::Execute { sql, several } => ActionView::Execute {
                sql: sql@,
                several: *several,
            },
            Action::Commit => ActionView::Commit,
            Action::Rollback => ActionView::Rollback,
            Action::Finish(v) => ActionView::Finish(v@),
        }
    }
}

impl View for Event {
    type V = EventView;

    open spec fn view(&self) -> EventView {
        match self {
            Event::Rows(rows) => EventView::Rows(rows@.map_values(|c: DatabaseMigrenData| c@)),
            Event::Script(text) => EventView::Script(text@),
            Event::Done => EventView::Done,
            Event::Failed => EventView::Failed,
        }
    }
}

impl View for Applier {
    type V = ApplierView;

    open spec fn view(&self) -> ApplierView {
        ApplierView {
            stage: self.stage,
            target: self.target,
            path: steps_of(self.path@),
            step: self.step as nat,
            groups: self.groups.deep_view(),
            group: self.group as nat,
        }
    }
}

/// The cursor position that stands for the migration `id`: the same number
/// where it fits, and the number that the same 32 bits spell where it does
/// not.
pub open spec fn position_of(id: u32) -> i32 {
    if id <= i32::MAX {
        id as i32
    } else {
        (id - 0x1_0000_0000) as i32
    }
}

/// The migration that the cursor position `position` stands for.
pub open spec fn id_of(position: i32) -> u32 {
    if position >= 0 {
        position as u32
    } else {
        (position + 0x1_0000_0000) as u32
    }
}

/// The cursor of a database that stands at `target`.
pub open spec fn cursor_at(target: u32) -> Cursor {
    Cursor { version: MIGREN_VERSION@, last_applied: position_of(target) }
}

/// The cursor position that stands for the migration `id`.
pub fn cursor_position(id: u32) -> (r: i32)
    ensures
        r == position_of(id),
{
    if id <= 2147483647u32 {
        id as i32
    } else {
        let low: i32 = (id - 2147483648u32) as i32;
        low + i32::MIN
    }
}

/// The migration that the cursor position `position` stands for.
pub fn cursor_id(position: i32) -> (r: u32)
    ensures
        r == id_of(position),
{
    if position >= 0 {
        position as u32
    } else {
        let low: u32 = (position - i32::MIN) as u32;
        low + 2147483648u32
    }
}

/// The cursor that the rows of the cursor table stand for, and whether it has
/// yet to be stored: the last row where there is one, and else the cursor of an
/// untouched database, which is then to be stored.
pub fn migren_data(rows: Vec<DatabaseMigrenData>) -> (r: (DatabaseMigrenData, bool))
    ensures
        r.0@ == if rows@.len() == 0 {
            cursor_at(0)
        } else {
            rows@.last()@
        },
        r.1 == (rows@.len() == 0),
{
    let mut rows = rows;
    match rows.pop() {
        Some(found) => (found, false),
        None => (
            DatabaseMigrenData {
                migren_version: MIGREN_VERSION.to_owned(),
                last_migration_applied: 0,
            },
            true,
        ),
    }
}

/// What it takes to store `data` as the cursor: every row is removed, then
/// the one row is written, so that the table never holds two.
pub fn set_migren_data(data: DatabaseMigrenData) -> (r: Vec<Action>)
    ensures
        r@.len() == 2,
        r@[0]@ == ActionView::ClearCursor,
        r@[1]@ == ActionView::StoreCursor(data@),
{
    let mut plan: Vec<Action> = Vec::new();
    plan.push(Action::ClearCursor);
    plan.push(Action::StoreCursor(data));
    plan
}

impl ApplierView {
    /// A run towards `target` that has just asked for the cursor.
    pub open spec fn start(target: u32) -> ApplierView {
        ApplierView {
            stage: Stage::Rows,
            target,
            path: Seq::empty(),
            step: 0,
            groups: Seq::empty(),
            group: 0,
        }
    }

    /// The run at another stage.
    pub open spec fn at(self, stage: Stage) -> ApplierView {
        ApplierView { stage, ..self }
    }

    /// The run gives up: a transaction that is open is rolled back, and
    /// without one the run is over at once.
    pub open spec fn fail(self, in_transaction: bool) -> (ApplierView, ActionView) {
        (
            self.at(Stage::Failed),
            if in_transaction {
                ActionView::Rollback
            } else {
                ActionView::Finish(VerdictView::Aborted)
            },
        )
    }

    /// The run turns to the step `step` of its path: it asks for the step's
    /// script, or, past the last step, begins to replace the cursor.
    pub open spec fn enter_step(self, step: nat) -> (ApplierView, ActionView) {
        if step < self.path.len() {
            (
                ApplierView { stage: Stage::Script, step, ..self },
                ActionView::ReadScript(self.path[step as int].file),
            )
        } else {
            (ApplierView { stage: Stage::CursorCleared, step, ..self }, ActionView::ClearCursor)
        }
    }

    /// The run turns to the statement group `group` of the script at hand.
    pub open spec fn enter_group(self, group: nat) -> (ApplierView, ActionView) {
        (
            ApplierView { stage: Stage::Statement, group, ..self },
            ActionView::Execute {
                sql: self.groups[group as int],
                several: several_statements(self.groups[group as int]),
            },
        )
    }

    /// The run has learnt where the database stands: at the target there is
    /// nothing to do; else the path from there to the target decides.
    pub open spec fn decide(self, position: i32, graph: Graph, on_disk: Seq<Seq<char>>) -> (
        ApplierView,
        ActionView,
    ) {
        if position == position_of(self.target) {
            (self.at(Stage::Done), ActionView::Finish(VerdictView::AlreadyThere))
        } else {
            match graph.path(on_disk, id_of(position), self.target) {
                Err(f) => (self.at(Stage::Failed), ActionView::Finish(VerdictView::Refused(f))),
                Ok(path) => (
                    ApplierView { stage: Stage::Begun, path, step: 0, ..self },
                    ActionView::Begin,
                ),
            }
        }
    }

    /// The step after the current one.
    pub open spec fn following_step(self) -> nat {
        if self.step < self.path.len() {
            self.step + 1
        } else {
            self.step
        }
    }

    /// The run after `event`, and what the caller is to do next.
    pub open spec fn next(self, event: EventView, graph: Graph, on_disk: Seq<Seq<char>>) -> (
        ApplierView,
        ActionView,
    ) {
        match self.stage {
            Stage::Rows => match event {
                EventView::Rows(rows) => if rows.len() == 0 {
                    (self.at(Stage::SeedCleared), ActionView::ClearCursor)
                } else {
                    self.decide(rows.last().last_applied, graph, on_disk)
                },
                _ => self.fail(false),
            },
            Stage::SeedCleared => match event {
                EventView::Done => (
                    self.at(Stage::SeedStored),
                    ActionView::StoreCursor(cursor_at(0)),
                ),
                _ => self.fail(false),
            },
            Stage::SeedStored => match event {
                EventView::Done => self.decide(0, graph, on_disk),
                _ => self.fail(false),
            },
            Stage::Begun => match event {
                EventView::Done => self.enter_step(0),
                _ => self.fail(false),
            },
            Stage::Script => match event {
                EventView::Script(text) => (ApplierView {
                    groups: statement_groups(text),
                    ..self
                }).enter_group(0),
                _ => self.fail(true),
            },
            Stage::Statement => match event {
                EventView::Done => if self.group + 1 < self.groups.len() {
                    self.enter_group(self.group + 1)
                } else {
                    self.enter_step(self.following_step())
                },
                _ => self.fail(true),
            },
            Stage::CursorCleared => match event {
                EventView::Done => (
                    self.at(Stage::CursorStored),
                    ActionView::StoreCursor(cursor_at(self.target)),
                ),
                _ => self.fail(true),
            },
            Stage::CursorStored => match event {
                EventView::Done => (self.at(Stage::Committed), ActionView::Commit),
                _ => self.fail(true),
            },
            Stage::Committed => match event {
                EventView::Done => (self.at(Stage::Done), ActionView::Finish(VerdictView::Applied)),
                _ => self.fail(false),
            },
            Stage::Done => (self, ActionView::Finish(VerdictView::AlreadyThere)),
            Stage::Failed => (self, ActionView::Finish(VerdictView::Aborted)),
        }
    }
}

impl Applier {
    /// Starts a run towards `target`. The first action is to read the cursor.
    pub fn new(target: u32) -> (r: (Applier, Action))
        ensures
            r.0@ == ApplierView::start(target),
            r.1@ == ActionView::FetchCursor,
    {
        let run = Applier {
            stage: Stage::Rows,
            target,
            path: Vec::new(),
            step: 0,
            groups: Vec::new(),
            group: 0,
        };
        assert(run@.path =~= Seq::<Step>::empty());
        assert(run@.groups =~= Seq::<Seq<char>>::empty());
        (run, Action::FetchCursor)
    }

    fn fail(&mut self, in_transaction: bool) -> (r: Action)
        ensures
            (final(self)@, r@) == old(self)@.fail(in_transaction),
    {
        self.stage = Stage::Failed;
        if in_transaction {
            Action::Rollback
        } else {
            Action::Finish(Verdict::Aborted)
        }
    }

    fn enter_step(&mut self, step: usize) -> (r: Action)
        ensures
            (final(self)@, r@) == old(self)@.enter_step(step as nat),
    {
        self.step = step;
        if step < self.path.len() {
            self.stage = Stage::Script;
            Action::ReadScript(self.path[step].file.clone())
        } else {
            self.stage = Stage::CursorCleared;
            Action::ClearCursor
        }
    }

    fn enter_group(&mut self, group: usize) -> (r: Action)
        requires
            group < old(self).groups@.len(),
        ensures
            (final(self)@, r@) == old(self)@.enter_group(group as nat),
    {
        self.stage = Stage::Statement;
        self.group = group;
        let sql = self.groups[group].clone();
        let several = has_several_statements(sql.as_str());
        Action::Execute { sql, several }
    }

    fn decide(&mut self, position: i32, graph: &MigrationsData, on_disk: &Vec<String>) -> (r:
        Action)
        ensures
            (final(self)@, r@) == old(self)@.decide(position, graph@, on_disk.deep_view()),
    {
        if position == cursor_position(self.target) {
            self.stage = Stage::Done;
            Action::Finish(Verdict::AlreadyThere)
        } else {
            match graph.build_migration_path(cursor_id(position), self.target, on_disk) {
                Err(e) => {
                    self.stage = Stage::Failed;
                    Action::Finish(Verdict::Refused(e))
                },
                Ok(path) => {
                    self.stage = Stage::Begun;
                    self.path = path;
                    self.step = 0;
                    Action::Begin
                },
            }
        }
    }

    /// Takes what came of the last action and gives the next one. `graph` is
    /// the chain and `on_disk` the scripts that exist; both are read once, when
    /// the cursor is known.
    pub fn advance(&mut self, event: Event, graph: &MigrationsData, on_disk: &Vec<String>) -> (r:
        Action)
        ensures
            (final(self)@, r@) == old(self)@.next(event@, graph@, on_disk.deep_view()),
    {
        match self.stage {
            Stage::Rows => match event {
                Event::Rows(rows) => {
                    if rows.len() == 0 {
                        self.stage = Stage::SeedCleared;
                        Action::ClearCursor
                    } else {
                        let position = rows[rows.len() - 1].last_migration_applied;
                        self.decide(position, graph, on_disk)
                    }
                },
                _ => self.fail(false),
            },
            Stage::SeedCleared => match event {
                Event::Done => {
                    self.stage = Stage::SeedStored;
                    Action::StoreCursor(
                        DatabaseMigrenData {
                            migren_version: MIGREN_VERSION.to_owned(),
                            last_migration_applied: 0,
                        },
                    )
                },
                _ => self.fail(false),
            },
            Stage::SeedStored => match event {
                Event::Done => self.decide(0, graph, on_disk),
                _ => self.fail(false),
            },
            Stage::Begun => match event {
                Event::Done => self.enter_step(0),
                _ => self.fail(false),
            },
            Stage::Script => match event {
                Event::Script(text) => {
                    self.groups = split_statements(text.as_str());
                    proof {
                        lemma_groups_not_empty(
                            lines_of(text@),
                            directives_of(lines_of(text@)),
                            0,
                            Seq::empty(),
                        );
                    }
                    self.enter_group(0)
                },
                _ => self.fail(true),
            },
            Stage::Statement => match event {
                Event::Done => {
                    if self.groups.len() > 0 && self.group < self.groups.len() - 1 {
                        let group = self.group + 1;
                        self.enter_group(group)
                    } else {
                        let step = if self.step < self.path.len() {
                            self.step + 1
                        } else {
                            self.step
                        };
                        self.enter_step(step)
                    }
                },
                _ => self.fail(true),
            },
            Stage::CursorCleared => match event {
                Event::Done => {
                    self.stage = Stage::CursorStored;
                    Action::StoreCursor(
                        DatabaseMigrenData {
                            migren_version: MIGREN_VERSION.to_owned(),
                            last_migration_applied: cursor_position(self.target),
                        },
                    )
                },
                _ => self.fail(true),
            },
            Stage::CursorStored => match event {
                Event::Done => {
                    self.stage = Stage::Committed;
                    Action::Commit
                },
                _ => self.fail(true),
            },
            Stage::Committed => match event {
                Event::Done => {
                    self.stage = Stage::Done;
                    Action::Finish(Verdict::Applied)
                },
                _ => self.fail(false),
            },
            Stage::Done => Action::Finish(Verdict::AlreadyThere),
            Stage::Failed => Action::Finish(Verdict::Aborted),
        }
    }
}

impl PartialEq for Verdict {
    fn eq(&self, other: &Self) -> (r: bool) {
        match (self, other) {
            (Verdict::Applied, Verdict::Applied) => true,
            (Verdict::AlreadyThere, Verdict::AlreadyThere) => true,
            (Verdict::Refused(a), Verdict::Refused(b)) => *a == *b,
            (Verdict::Aborted, Verdict::Aborted) => true,
            _ => false,
        }
    }
}

impl vstd::std_specs::cmp::PartialEqSpecImpl for Verdict {
    open spec fn obeys_eq_spec() -> bool {
        true
    }

    open spec fn eq_spec(&self, other: &Self) -> bool {
        self@ == other@
    }
}

impl PartialEq for Action {
    fn eq(&self, other: &Self) -> (r: bool) {
        match (self, other) {
            (Action::FetchCursor, Action::FetchCursor) => true,
            (Action::ClearCursor, Action::ClearCursor) => true,
            (Action::StoreCursor(a), Action::StoreCursor(b)) => *a == *b,
            (Action::Begin, Action::Begin) => true,
            (Action::ReadScript(a), Action::ReadScript(b)) => *a == *b,
            (Action::Execute { sql: s1, several: m1 }, Action::Execute { sql: s2, several: m2 }) => {
                *s1 == *s2 && *m1 == *m2
            },
            (Action::Commit, Action::Commit) => true,
            (Action::Rollback, Action::Rollback) => true,
            (Action::Finish(a), Action::Finish(b)) => *a == *b,
            _ => false,
        }
    }
}

impl vstd::std_specs::cmp::PartialEqSpecImpl for Action {
    open spec fn obeys_eq_spec() -> bool {
        true
    }

    open spec fn eq_spec(&self, other: &Self) -> bool {
        self@ == other@
    }
}

} // verus!
