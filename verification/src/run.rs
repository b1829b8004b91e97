//! What a whole run does to a database.
//!
//! The database is taken for what a run can see and change of it: the cursor
//! row, and the statement groups that it has executed. A transaction holds a
//! second such state, which takes the place of the first on commit and is
//! dropped on rollback. Against this the run is played from its first action
//! to its last, each action succeeding or failing as a list of fates says.

use vstd::prelude::*;
use crate::applier::{cursor_at, id_of, position_of, ActionView, ApplierView, EventView, Stage,
    VerdictView};
use crate::errors::Failure;
use crate::files::files_present;
use crate::model::{Cursor, Graph, Step};
use crate::statements::{
    directives_of, lemma_groups_not_empty, lines_of, several_statements, statement_groups,
};

verus! {

/// What a database holds: its cursor row, if it has one, and the statement
/// groups that it has executed, in their order.
pub struct Database {
    pub cursor: Option<Cursor>,
    pub applied: Seq<Seq<char>>,
}

/// A connection: what the database has stored, and, while a transaction is
/// open, what it would store on commit.
pub struct Connection {
    pub stored: Database,
    pub pending: Option<Database>,
}

impl Database {
    /// Where the database stands: the position in its cursor row, or the
    /// start where it has none.
    pub open spec fn position(self) -> i32 {
        match self.cursor {
            Some(c) => c.last_applied,
            None => 0,
        }
    }

    /// The rows of the cursor table.
    pub open spec fn rows(self) -> Seq<Cursor> {
        match self.cursor {
            Some(c) => seq![c],
            None => Seq::empty(),
        }
    }

    /// The database after it has carried out `action`.
    pub open spec fn after(self, action: ActionView) -> Database {
        match action {
            ActionView::ClearCursor => Database { cursor: None, ..self },
            ActionView::StoreCursor(c) => Database { cursor: Some(c), ..self },
            ActionView::Execute { sql, several } => Database {
                applied: self.applied.push(sql),
                ..self
            },
            _ => self,
        }
    }
}

impl Connection {
    /// What statements see and change: the transaction's state while one is
    /// open, else what is stored.
    pub open spec fn current(self) -> Database {
        match self.pending {
            Some(db) => db,
            None => self.stored,
        }
    }

    /// The connection after `action` has succeeded.
    pub open spec fn after(self, action: ActionView) -> Connection {
        match action {
            ActionView::Begin => Connection { pending: Some(self.stored), ..self },
            ActionView::Commit => match self.pending {
                Some(db) => Connection { stored: db, pending: None },
                None => self,
            },
            ActionView::Rollback => Connection { pending: None, ..self },
            _ => match self.pending {
                Some(db) => Connection { pending: Some(db.after(action)), ..self },
                None => Connection { stored: self.stored.after(action), ..self },
            },
        }
    }

    /// The connection after `action` has failed: the action leaves no trace,
    /// and a transaction that could not be ended is lost.
    pub open spec fn after_failed(self, action: ActionView) -> Connection {
        match action {
            ActionView::Commit => Connection { pending: None, ..self },
            ActionView::Rollback => Connection { pending: None, ..self },
            _ => self,
        }
    }

    /// The connection after `action`, which succeeded if `ok`.
    pub open spec fn settled(self, action: ActionView, ok: bool) -> Connection {
        if ok {
            self.after(action)
        } else {
            self.after_failed(action)
        }
    }

    /// What the caller reports of `action`, which succeeded if `ok`.
    /// `scripts` gives the text of each script by its name.
    pub open spec fn answer(
        self,
        action: ActionView,
        scripts: Map<Seq<char>, Seq<char>>,
        ok: bool,
    ) -> EventView {
        if !ok {
            EventView::Failed
        } else {
            match action {
                ActionView::FetchCursor => EventView::Rows(self.current().rows()),
                ActionView::ReadScript(file) => EventView::Script(scripts[file]),
                _ => EventView::Done,
            }
        }
    }
}

/// The statement groups of the first `count` steps of `path`, in the order in
/// which a run executes them.
pub open spec fn executed(path: Seq<Step>, scripts: Map<Seq<char>, Seq<char>>, count: nat) -> Seq<
    Seq<char>,
>
    decreases count,
{
    if count == 0 || count > path.len() {
        Seq::empty()
    } else {
        executed(path, scripts, (count - 1) as nat) + statement_groups(
            scripts[path[count - 1].file],
        )
    }
}

/// A run played on from `state`, with `action` to be carried out next, until
/// it is over or `fates` has no more to say: the run, the last action given
/// and the connection as they are then.
pub open spec fn play(
    state: ApplierView,
    action: ActionView,
    conn: Connection,
    graph: Graph,
    on_disk: Seq<Seq<char>>,
    scripts: Map<Seq<char>, Seq<char>>,
    fates: Seq<bool>,
) -> (ApplierView, ActionView, Connection)
    decreases fates.len(),
{
    if action is Finish || fates.len() == 0 {
        (state, action, conn)
    } else {
        let event = conn.answer(action, scripts, fates[0]);
        let then = state.next(event, graph, on_disk);
        play(
            then.0,
            then.1,
            conn.settled(action, fates[0]),
            graph,
            on_disk,
            scripts,
            fates.drop_first(),
        )
    }
}

/// A run towards `target` played from its start.
pub open spec fn apply(
    target: u32,
    conn: Connection,
    graph: Graph,
    on_disk: Seq<Seq<char>>,
    scripts: Map<Seq<char>, Seq<char>>,
    fates: Seq<bool>,
) -> (ApplierView, ActionView, Connection) {
    play(ApplierView::start(target), ActionView::FetchCursor, conn, graph, on_disk, scripts, fates)
}

/// What is stored is what `first` held: the same statements executed, the
/// same position.
pub open spec fn untouched(conn: Connection, first: Database) -> bool {
    conn.stored.applied == first.applied && conn.stored.position() == first.position()
}

/// The transaction holds everything that the first `count` steps execute, and
/// then the first `more` groups of the script at hand.
pub open spec fn progressed(
    state: ApplierView,
    conn: Connection,
    first: Database,
    scripts: Map<Seq<char>, Seq<char>>,
    count: nat,
    more: nat,
) -> bool {
    &&& conn.pending is Some
    &&& conn.pending->0.applied == first.applied + executed(state.path, scripts, count)
        + state.groups.take(more as int)
}

/// The run has found the path from where the database stood to the target.
pub open spec fn on_path(
    state: ApplierView,
    first: Database,
    graph: Graph,
    on_disk: Seq<Seq<char>>,
) -> bool {
    graph.path(on_disk, id_of(first.position()), state.target) == Ok::<Seq<Step>, Failure>(state.path)
}

/// What holds at every point of a run that began on a connection that stored
/// `first` and had no transaction open.
pub open spec fn sound(
    state: ApplierView,
    action: ActionView,
    conn: Connection,
    first: Database,
    graph: Graph,
    on_disk: Seq<Seq<char>>,
    scripts: Map<Seq<char>, Seq<char>>,
) -> bool {
    match state.stage {
        Stage::Rows => {
            &&& action == ActionView::FetchCursor
            &&& conn.pending is None
            &&& conn.stored == first
        },
        Stage::SeedCleared => {
            &&& action == ActionView::ClearCursor
            &&& conn.pending is None
            &&& conn.stored == first
            &&& first.cursor is None
        },
        Stage::SeedStored => {
            &&& action == ActionView::StoreCursor(cursor_at(0))
            &&& conn.pending is None
            &&& conn.stored == first
            &&& first.cursor is None
        },
        Stage::Begun => {
            &&& action == ActionView::Begin
            &&& conn.pending is None
            &&& untouched(conn, first)
            &&& on_path(state, first, graph, on_disk)
        },
        Stage::Script => {
            &&& state.step < state.path.len()
            &&& action == ActionView::ReadScript(state.path[state.step as int].file)
            &&& untouched(conn, first)
            &&& on_path(state, first, graph, on_disk)
            &&& progressed(state, conn, first, scripts, state.step, 0)
        },
        Stage::Statement => {
            &&& state.step < state.path.len()
            &&& state.group < state.groups.len()
            &&& state.groups == statement_groups(scripts[state.path[state.step as int].file])
            &&& action == ActionView::Execute {
                sql: state.groups[state.group as int],
                several: several_statements(state.groups[state.group as int]),
            }
            &&& untouched(conn, first)
            &&& on_path(state, first, graph, on_disk)
            &&& progressed(state, conn, first, scripts, state.step, state.group)
        },
        Stage::CursorCleared => {
            &&& action == ActionView::ClearCursor
            &&& untouched(conn, first)
            &&& on_path(state, first, graph, on_disk)
            &&& progressed(state, conn, first, scripts, state.path.len(), 0)
        },
        Stage::CursorStored => {
            &&& action == ActionView::StoreCursor(cursor_at(state.target))
            &&& untouched(conn, first)
            &&& on_path(state, first, graph, on_disk)
            &&& progressed(state, conn, first, scripts, state.path.len(), 0)
        },
        Stage::Committed => {
            &&& action == ActionView::Commit
            &&& untouched(conn, first)
            &&& on_path(state, first, graph, on_disk)
            &&& progressed(state, conn, first, scripts, state.path.len(), 0)
            &&& conn.pending->0.cursor == Some(cursor_at(state.target))
        },
        Stage::Done => {
            &&& conn.pending is None
            &&& action is Finish
            &&& match action->Finish_0 {
                VerdictView::Applied => {
                    &&& on_path(state, first, graph, on_disk)
                    &&& conn.stored.cursor == Some(cursor_at(state.target))
                    &&& conn.stored.applied == first.applied + executed(
                        state.path,
                        scripts,
                        state.path.len(),
                    )
                },
                VerdictView::AlreadyThere => {
                    &&& untouched(conn, first)
                    &&& first.position() == position_of(state.target)
                },
                _ => false,
            }
        },
        Stage::Failed => {
            &&& untouched(conn, first)
            &&& match action {
                ActionView::Rollback => true,
                ActionView::Finish(VerdictView::Aborted) => conn.pending is None,
                ActionView::Finish(VerdictView::Refused(f)) => {
                    &&& conn.pending is None
                    &&& graph.path(on_disk, id_of(first.position()), state.target) == Err::<
                        Seq<Step>,
                        Failure,
                    >(f)
                },
                _ => false,
            }
        },
    }
}

/// One action, whether it succeeds or fails, leaves a sound run sound.
pub proof fn lemma_step_keeps_sound(
    state: ApplierView,
    action: ActionView,
    conn: Connection,
    first: Database,
    graph: Graph,
    on_disk: Seq<Seq<char>>,
    scripts: Map<Seq<char>, Seq<char>>,
    ok: bool,
)
    requires
        sound(state, action, conn, first, graph, on_disk, scripts),
        !(action is Finish),
    ensures
        ({
            let then = state.next(conn.answer(action, scripts, ok), graph, on_disk);
            &&& sound(then.0, then.1, conn.settled(action, ok), first, graph, on_disk, scripts)
            &&& then.0.target == state.target
        }),
{
    let event = conn.answer(action, scripts, ok);
    let then = state.next(event, graph, on_disk);
    let after = conn.settled(action, ok);
    let none = Seq::<Seq<char>>::empty();
    if ok {
        match state.stage {
            Stage::Begun => {
                assert(executed(then.0.path, scripts, 0) =~= none);
                assert(first.applied + none + then.0.groups.take(0) =~= first.applied);
            },
            Stage::Script => {
                let text = scripts[state.path[state.step as int].file];
                lemma_groups_not_empty(lines_of(text), directives_of(lines_of(text)), 0, Seq::empty());
                assert(then.0.groups.take(0) =~= state.groups.take(0));
            },
            Stage::Statement => {
                let done = first.applied + executed(state.path, scripts, state.step);
                let sql = state.groups[state.group as int];
                assert(state.groups.take(state.group as int).push(sql) =~= state.groups.take(
                    state.group as int + 1,
                ));
                assert((done + state.groups.take(state.group as int)).push(sql) =~= done
                    + state.groups.take(state.group as int + 1));
                if state.group + 1 < state.groups.len() {
                } else {
                    assert(state.groups.take(state.group as int + 1) =~= state.groups);
                    assert(executed(state.path, scripts, state.step + 1) == executed(
                        state.path,
                        scripts,
                        state.step,
                    ) + state.groups);
                    assert(first.applied + (executed(state.path, scripts, state.step)
                        + state.groups) =~= done + state.groups);
                    assert(done + state.groups + then.0.groups.take(0) =~= done + state.groups);
                }
            },
            Stage::Committed => {
                let whole = first.applied + executed(state.path, scripts, state.path.len());
                assert(whole + state.groups.take(0) =~= whole);
            },
            _ => {},
        }
    }
}

/// A sound run stays sound however far it is played.
pub proof fn lemma_play_keeps_sound(
    state: ApplierView,
    action: ActionView,
    conn: Connection,
    first: Database,
    graph: Graph,
    on_disk: Seq<Seq<char>>,
    scripts: Map<Seq<char>, Seq<char>>,
    fates: Seq<bool>,
)
    requires
        sound(state, action, conn, first, graph, on_disk, scripts),
    ensures
        ({
            let end = play(state, action, conn, graph, on_disk, scripts, fates);
            &&& sound(end.0, end.1, end.2, first, graph, on_disk, scripts)
            &&& end.0.target == state.target
        }),
    decreases fates.len(),
{
    if !(action is Finish) && fates.len() > 0 {
        lemma_step_keeps_sound(state, action, conn, first, graph, on_disk, scripts, fates[0]);
        let then = state.next(conn.answer(action, scripts, fates[0]), graph, on_disk);
        lemma_play_keeps_sound(
            then.0,
            then.1,
            conn.settled(action, fates[0]),
            first,
            graph,
            on_disk,
            scripts,
            fates.drop_first(),
        );
    }
}

/// What a run towards `target` leaves behind, whatever succeeds and whatever
/// fails on the way.
///
/// A run that ends as applied has stored the cursor of the target and has
/// executed, after what the database had executed before, the statement
/// groups of every script on the path from where the database stood, in path
/// order, and nothing else. Any other run, and a run that is still under way,
/// has stored nothing: the database has executed what it had executed before
/// and stands where it stood. A run that ends at all leaves no transaction
/// open.
pub proof fn lemma_run_outcome(
    target: u32,
    conn: Connection,
    graph: Graph,
    on_disk: Seq<Seq<char>>,
    scripts: Map<Seq<char>, Seq<char>>,
    fates: Seq<bool>,
)
    requires
        conn.pending is None,
    ensures
        ({
            let end = apply(target, conn, graph, on_disk, scripts, fates);
            let path = graph.path(on_disk, id_of(conn.stored.position()), target);
            &&& end.1 is Finish ==> end.2.pending is None
            &&& end.1 == ActionView::Finish(VerdictView::Applied) ==> {
                &&& path is Ok
                &&& end.2.stored.cursor == Some(cursor_at(target))
                &&& end.2.stored.applied == conn.stored.applied + executed(
                    path->Ok_0,
                    scripts,
                    path->Ok_0.len(),
                )
            }
            &&& end.1 != ActionView::Finish(VerdictView::Applied) ==> untouched(end.2, conn.stored)
            &&& end.1 == ActionView::Finish(VerdictView::AlreadyThere)
                ==> conn.stored.position() == position_of(target)
            &&& end.1 matches ActionView::Finish(VerdictView::Refused(f)) ==> path == Err::<
                Seq<Step>,
                Failure,
            >(f)
        }),
{
    lemma_play_keeps_sound(
        ApplierView::start(target),
        ActionView::FetchCursor,
        conn,
        conn.stored,
        graph,
        on_disk,
        scripts,
        fates,
    );
}

/// A run towards the migration at which the database stands already is over
/// once the cursor is read: it asks for nothing else and changes nothing.
pub proof fn lemma_at_target_nothing_to_do(
    target: u32,
    conn: Connection,
    graph: Graph,
    on_disk: Seq<Seq<char>>,
    scripts: Map<Seq<char>, Seq<char>>,
    fates: Seq<bool>,
)
    requires
        conn.pending is None,
        conn.stored.cursor is Some,
        conn.stored.position() == position_of(target),
        fates.len() >= 1,
        fates[0],
    ensures
        apply(target, conn, graph, on_disk, scripts, fates) == (
            ApplierView::start(target).at(Stage::Done),
            ActionView::Finish(VerdictView::AlreadyThere),
            conn,
        ),
{
    reveal_with_fuel(play, 2);
    let start = ApplierView::start(target);
    let event = conn.answer(ActionView::FetchCursor, scripts, true);
    let then = start.next(event, graph, on_disk);
    assert(conn.settled(ActionView::FetchCursor, true) == conn);
    assert(event == EventView::Rows(seq![conn.stored.cursor->0]));
    assert(then == (start.at(Stage::Done), ActionView::Finish(VerdictView::AlreadyThere)));
}

/// A move from `x` to `y` and then back from `y` to `x` leaves the cursor at
/// `x`, where both runs reach their target.
pub proof fn lemma_there_and_back(
    x: u32,
    y: u32,
    conn: Connection,
    graph: Graph,
    on_disk: Seq<Seq<char>>,
    scripts: Map<Seq<char>, Seq<char>>,
    fates_there: Seq<bool>,
    fates_back: Seq<bool>,
)
    requires
        conn.pending is None,
        conn.stored.position() == position_of(x),
        ({
            let there = apply(y, conn, graph, on_disk, scripts, fates_there);
            let back = apply(x, there.2, graph, on_disk, scripts, fates_back);
            &&& there.1 == ActionView::Finish(VerdictView::Applied) || there.1
                == ActionView::Finish(VerdictView::AlreadyThere)
            &&& back.1 == ActionView::Finish(VerdictView::Applied) || back.1 == ActionView::Finish(
                VerdictView::AlreadyThere,
            )
        }),
    ensures
        ({
            let there = apply(y, conn, graph, on_disk, scripts, fates_there);
            let back = apply(x, there.2, graph, on_disk, scripts, fates_back);
            &&& there.2.stored.position() == position_of(y)
            &&& back.2.stored.position() == position_of(x)
            &&& back.2.stored.position() == conn.stored.position()
        }),
{
    lemma_run_outcome(y, conn, graph, on_disk, scripts, fates_there);
    let there = apply(y, conn, graph, on_disk, scripts, fates_there);
    lemma_run_outcome(x, there.2, graph, on_disk, scripts, fates_back);
}

/// A failure ends the run: with a transaction open the next action is to roll
/// it back, and without one the run is over. In no case does the run go on to
/// store a cursor or to commit.
pub proof fn lemma_failure_ends_run(state: ApplierView, graph: Graph, on_disk: Seq<Seq<char>>)
    requires
        state.stage != Stage::Done,
    ensures
        ({
            let then = state.next(EventView::Failed, graph, on_disk);
            let open = state.stage == Stage::Script || state.stage == Stage::Statement
                || state.stage == Stage::CursorCleared || state.stage == Stage::CursorStored;
            &&& then.0.stage == Stage::Failed
            &&& open ==> then.1 == ActionView::Rollback
            &&& !open ==> then.1 == ActionView::Finish(VerdictView::Aborted)
            &&& state.next(EventView::Failed, graph, on_disk).0.next(
                EventView::Done,
                graph,
                on_disk,
            ).1 == ActionView::Finish(VerdictView::Aborted)
        }),
{
}

/// The position that stands for a migration stands for no other.
pub proof fn lemma_position_names_id(id: u32)
    ensures
        id_of(position_of(id)) == id,
{
}

/// How many actions the steps of `path` from the step `from` on take where
/// nothing fails: for each step one to read its script, and one for each of
/// the script's statement groups.
pub open spec fn script_actions(
    path: Seq<Step>,
    scripts: Map<Seq<char>, Seq<char>>,
    from: nat,
) -> nat
    decreases path.len() - from,
{
    if from >= path.len() {
        0
    } else {
        1 + statement_groups(scripts[path[from as int].file]).len() + script_actions(
            path,
            scripts,
            from + 1,
        )
    }
}

/// How many actions a whole run along `path` takes at most where nothing
/// fails: to read the cursor, to store a first one, to open the transaction,
/// to run the scripts, to replace the cursor and to commit.
pub open spec fn actions_needed(path: Seq<Step>, scripts: Map<Seq<char>, Seq<char>>) -> nat {
    7 + script_actions(path, scripts, 0)
}

/// How many actions a run that has come to `state` still takes at most where
/// nothing fails, the one at hand counted in. `path` is the path that a run
/// which has not yet looked for it will find.
pub open spec fn actions_left(
    state: ApplierView,
    path: Seq<Step>,
    scripts: Map<Seq<char>, Seq<char>>,
) -> nat {
    match state.stage {
        Stage::Rows => 7 + script_actions(path, scripts, 0),
        Stage::SeedCleared => 6 + script_actions(path, scripts, 0),
        Stage::SeedStored => 5 + script_actions(path, scripts, 0),
        Stage::Begun => 4 + script_actions(state.path, scripts, 0),
        Stage::Script => 3 + script_actions(state.path, scripts, state.step),
        Stage::Statement => (3 + (state.groups.len() - state.group) + script_actions(
            state.path,
            scripts,
            state.step + 1,
        )) as nat,
        Stage::CursorCleared => 3,
        Stage::CursorStored => 2,
        Stage::Committed => 1,
        Stage::Done => 0,
        Stage::Failed => 0,
    }
}

/// Where a path leads to the target, or the database stands there already,
/// one action that succeeds brings a sound run nearer to its end, and does
/// not make it fail.
pub proof fn lemma_clean_step_nears_end(
    state: ApplierView,
    action: ActionView,
    conn: Connection,
    first: Database,
    graph: Graph,
    on_disk: Seq<Seq<char>>,
    scripts: Map<Seq<char>, Seq<char>>,
)
    requires
        sound(state, action, conn, first, graph, on_disk, scripts),
        state.stage != Stage::Failed,
        !(action is Finish),
        first.position() == position_of(state.target) || graph.path(
            on_disk,
            id_of(first.position()),
            state.target,
        ) is Ok,
    ensures
        ({
            let path = graph.path(on_disk, id_of(first.position()), state.target)->Ok_0;
            let then = state.next(conn.answer(action, scripts, true), graph, on_disk);
            &&& then.0.stage != Stage::Failed
            &&& actions_left(then.0, path, scripts) < actions_left(state, path, scripts)
        }),
{
    let path = graph.path(on_disk, id_of(first.position()), state.target)->Ok_0;
    let then = state.next(conn.answer(action, scripts, true), graph, on_disk);
    match state.stage {
        Stage::Script => {
            assert(then.0.groups == statement_groups(scripts[state.path[state.step as int].file]));
        },
        Stage::Statement => {
            if state.group + 1 >= state.groups.len() {
                assert(state.following_step() == state.step + 1);
            }
        },
        _ => {},
    }
}

/// Where a path leads to the target, or the database stands there already, a
/// sound run in which nothing fails, played for as many actions as it still
/// takes, reaches the target.
pub proof fn lemma_clean_play_arrives(
    state: ApplierView,
    action: ActionView,
    conn: Connection,
    first: Database,
    graph: Graph,
    on_disk: Seq<Seq<char>>,
    scripts: Map<Seq<char>, Seq<char>>,
    fates: Seq<bool>,
)
    requires
        sound(state, action, conn, first, graph, on_disk, scripts),
        state.stage != Stage::Failed,
        first.position() == position_of(state.target) || graph.path(
            on_disk,
            id_of(first.position()),
            state.target,
        ) is Ok,
        forall|i: int| 0 <= i < fates.len() ==> fates[i],
        fates.len() >= actions_left(
            state,
            graph.path(on_disk, id_of(first.position()), state.target)->Ok_0,
            scripts,
        ),
    ensures
        ({
            let end = play(state, action, conn, graph, on_disk, scripts, fates);
            end.1 == ActionView::Finish(VerdictView::Applied) || end.1 == ActionView::Finish(
                VerdictView::AlreadyThere,
            )
        }),
    decreases fates.len(),
{
    if !(action is Finish) {
        lemma_clean_step_nears_end(state, action, conn, first, graph, on_disk, scripts);
        lemma_step_keeps_sound(state, action, conn, first, graph, on_disk, scripts, true);
        let then = state.next(conn.answer(action, scripts, true), graph, on_disk);
        let rest = fates.drop_first();
        assert forall|i: int| 0 <= i < rest.len() implies rest[i] by {
            assert(rest[i] == fates[i + 1]);
        }
        lemma_clean_play_arrives(
            then.0,
            then.1,
            conn.settled(action, true),
            first,
            graph,
            on_disk,
            scripts,
            rest,
        );
    }
}

/// A run in which nothing fails reaches its target wherever a path leads
/// there: it ends as applied, or finds the database there already, and the
/// cursor then stands at the target.
pub proof fn lemma_clean_run_arrives(
    target: u32,
    conn: Connection,
    graph: Graph,
    on_disk: Seq<Seq<char>>,
    scripts: Map<Seq<char>, Seq<char>>,
    fates: Seq<bool>,
)
    requires
        conn.pending is None,
        conn.stored.position() == position_of(target) || graph.path(
            on_disk,
            id_of(conn.stored.position()),
            target,
        ) is Ok,
        forall|i: int| 0 <= i < fates.len() ==> fates[i],
        fates.len() >= actions_needed(
            graph.path(on_disk, id_of(conn.stored.position()), target)->Ok_0,
            scripts,
        ),
    ensures
        ({
            let end = apply(target, conn, graph, on_disk, scripts, fates);
            &&& end.1 == ActionView::Finish(VerdictView::Applied) || end.1 == ActionView::Finish(
                VerdictView::AlreadyThere,
            )
            &&& end.2.pending is None
            &&& end.2.stored.position() == position_of(target)
        }),
{
    lemma_clean_play_arrives(
        ApplierView::start(target),
        ActionView::FetchCursor,
        conn,
        conn.stored,
        graph,
        on_disk,
        scripts,
        fates,
    );
    lemma_run_outcome(target, conn, graph, on_disk, scripts, fates);
}

/// On a well-formed chain whose scripts between the two migrations are
/// listed, a database that was moved from `x` to `y` is moved back to `x` by
/// a run in which nothing fails: the run reaches its target, and the cursor
/// stands at `x` again.
pub proof fn lemma_back_arrives(
    x: u32,
    y: u32,
    conn: Connection,
    graph: Graph,
    on_disk: Seq<Seq<char>>,
    scripts: Map<Seq<char>, Seq<char>>,
    fates_there: Seq<bool>,
    fates_back: Seq<bool>,
)
    requires
        graph.well_formed(),
        graph.has(x),
        graph.has(y),
        forall|i: int|
            0 <= i < graph.nodes.len() && (x < (#[trigger] graph.nodes[i]).id <= y || y
                < graph.nodes[i].id <= x) ==> files_present(on_disk, graph.nodes[i]),
        conn.pending is None,
        conn.stored.position() == position_of(x),
        ({
            let there = apply(y, conn, graph, on_disk, scripts, fates_there);
            there.1 == ActionView::Finish(VerdictView::Applied) || there.1 == ActionView::Finish(
                VerdictView::AlreadyThere,
            )
        }),
        forall|i: int| 0 <= i < fates_back.len() ==> fates_back[i],
        fates_back.len() >= actions_needed(graph.path(on_disk, y, x)->Ok_0, scripts),
    ensures
        ({
            let there = apply(y, conn, graph, on_disk, scripts, fates_there);
            let back = apply(x, there.2, graph, on_disk, scripts, fates_back);
            &&& there.2.stored.position() == position_of(y)
            &&& back.1 == ActionView::Finish(VerdictView::Applied) || back.1 == ActionView::Finish(
                VerdictView::AlreadyThere,
            )
            &&& back.2.stored.position() == position_of(x)
            &&& back.2.stored.position() == conn.stored.position()
        }),
{
    lemma_run_outcome(y, conn, graph, on_disk, scripts, fates_there);
    let there = apply(y, conn, graph, on_disk, scripts, fates_there);
    lemma_position_names_id(y);
    if x < y {
        graph.lemma_paths_mirror(on_disk, x, y);
    } else if y < x {
        graph.lemma_paths_mirror(on_disk, y, x);
    }
    lemma_clean_run_arrives(x, there.2, graph, on_disk, scripts, fates_back);
}

} // verus!
