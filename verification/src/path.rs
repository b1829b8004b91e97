//! The path between two positions of a chain.
//!
//! A path towards a higher id follows the `next` links and runs each
//! migration's up script; a path towards a lower id follows the `prev` links
//! and runs the down scripts. The walk remembers where it has been, so a chain
//! that was bent into a ring ends in an error and not in an endless walk.

use std::collections::HashSet;
use vstd::prelude::*;
use vstd::set_lib::lemma_len_subset;
use crate::errors::{Break, Failure, MigrenError, PathBreak};
use crate::files::{assert_migration_files_exists, files_present};
use crate::model::{
    Direction, Graph, MigrationData, MigrationToApply, MigrationsData, Node, Step,
};

verus! {

/// The outcome of a walk: the steps to take, or why there are none.
pub type Outcome = Result<Seq<Step>, Failure>;

/// The step that runs `node` in the given direction.
pub open spec fn step_of(node: Node, dir: Direction) -> Step {
    Step {
        id: node.id,
        file: match dir {
            Direction::Up => node.up_file,
            Direction::Down => node.down_file,
        },
    }
}

/// The steps that one visit of `node` adds to a path: none for the reserved
/// initial migration, one for any other.
pub open spec fn visit(node: Node, dir: Direction) -> Seq<Step> {
    if node.id == 0 {
        Seq::empty()
    } else {
        seq![step_of(node, dir)]
    }
}

/// `steps` put in front of what `rest` holds; an error stays as it is.
pub open spec fn preceded(steps: Seq<Step>, rest: Outcome) -> Outcome {
    match rest {
        Ok(tail) => Ok(steps + tail),
        Err(e) => Err(e),
    }
}

/// The steps of a path as contracts see them.
pub open spec fn steps_of(path: Seq<MigrationToApply>) -> Seq<Step> {
    path.map_values(|s: MigrationToApply| s@)
}

/// What a resolved path, or the error in its place, says to contracts.
pub open spec fn outcome_of(r: Result<Vec<MigrationToApply>, MigrenError>) -> Outcome {
    match r {
        Ok(path) => Ok(steps_of(path@)),
        Err(e) => Err(e@),
    }
}

impl Graph {
    /// The node that the walk reaches from `on` in one hop, if the link is
    /// there and leads to a node of the chain.
    pub open spec fn neighbour(self, on: Node, dir: Direction) -> Option<Node> {
        let link = match dir {
            Direction::Up => on.next,
            Direction::Down => on.prev,
        };
        match link {
            Some(id) => self.node(id),
            None => None,
        }
    }

    /// How many ids the walk has not yet left behind, counting the one it
    /// stands on: what bounds the length of any walk.
    pub open spec fn unseen(self, on: u32, seen: Set<u32>) -> nat {
        self.ids().insert(on).difference(seen).len()
    }

    /// The walk towards a higher id, from the node `on` to the id `to`, having
    /// already left the ids in `seen`. `from` is the id the whole walk began
    /// at, which errors report.
    pub open spec fn walk_up(
        self,
        on_disk: Seq<Seq<char>>,
        from: u32,
        to: u32,
        on: Node,
        seen: Set<u32>,
    ) -> Outcome
        decreases self.unseen(on.id, seen),
        via Self::walk_up_ends
    {
        if on.id == to {
            Ok(Seq::empty())
        } else if seen.contains(on.id) {
            Err(Failure::PathInvalid { from, to, reason: Break::Circular(on) })
        } else {
            match self.neighbour(on, Direction::Up) {
                None => Err(Failure::PathInvalid { from, to, reason: Break::NextNotFound(on) }),
                Some(next) => if next.id != 0 && !files_present(on_disk, next) {
                    Err(Failure::FilesMissing(next))
                } else {
                    preceded(
                        visit(next, Direction::Up),
                        self.walk_up(on_disk, from, to, next, seen.insert(on.id)),
                    )
                },
            }
        }
    }

    #[via_fn]
    proof fn walk_up_ends(
        self,
        on_disk: Seq<Seq<char>>,
        from: u32,
        to: u32,
        on: Node,
        seen: Set<u32>,
    ) {
        if on.id != to && !seen.contains(on.id) {
            if let Some(next) = self.neighbour(on, Direction::Up) {
                self.lemma_hop_shrinks(on, next, Direction::Up, seen);
            }
        }
    }

    /// The walk towards a lower id, from the node `on` to the id `to`, having
    /// already left the ids in `seen`. A node's step is taken while the walk
    /// still stands on it.
    pub open spec fn walk_down(
        self,
        on_disk: Seq<Seq<char>>,
        from: u32,
        to: u32,
        on: Node,
        seen: Set<u32>,
    ) -> Outcome
        decreases self.unseen(on.id, seen),
        via Self::walk_down_ends
    {
        if on.id == to {
            Ok(Seq::empty())
        } else if on.id != 0 && !files_present(on_disk, on) {
            Err(Failure::FilesMissing(on))
        } else if seen.contains(on.id) {
            Err(Failure::PathInvalid { from, to, reason: Break::Circular(on) })
        } else {
            match self.neighbour(on, Direction::Down) {
                None => Err(Failure::PathInvalid { from, to, reason: Break::NextNotFound(on) }),
                Some(prev) => preceded(
                    visit(on, Direction::Down),
                    self.walk_down(on_disk, from, to, prev, seen.insert(on.id)),
                ),
            }
        }
    }

    #[via_fn]
    proof fn walk_down_ends(
        self,
        on_disk: Seq<Seq<char>>,
        from: u32,
        to: u32,
        on: Node,
        seen: Set<u32>,
    ) {
        if on.id != to && !seen.contains(on.id) {
            if let Some(prev) = self.neighbour(on, Direction::Down) {
                self.lemma_hop_shrinks(on, prev, Direction::Down, seen);
            }
        }
    }

    /// The path from the id `from` to the id `to`: nothing to do where they are
    /// equal, upwards where `from` is the lower one, downwards otherwise.
    pub open spec fn path(self, on_disk: Seq<Seq<char>>, from: u32, to: u32) -> Outcome {
        match (self.node(from), self.node(to)) {
            (None, _) => Err(Failure::PathInvalid { from, to, reason: Break::FromMissing }),
            (Some(_), None) => Err(Failure::PathInvalid { from, to, reason: Break::ToMissing }),
            (Some(start), Some(stop)) => if from < to {
                self.walk_up(on_disk, from, to, start, Set::empty())
            } else {
                self.walk_down(on_disk, from, to, start, Set::empty())
            },
        }
    }

    /// The ids of a chain are finitely many, at most one for each node.
    pub proof fn lemma_ids_finite(self)
        ensures
            self.ids().finite(),
            self.ids().len() <= self.nodes.len(),
    {
        let ids = self.nodes.map_values(|n: Node| n.id);
        assert(self.ids() =~= ids.to_set()) by {
            assert forall|id: u32| self.has(id) <==> ids.to_set().contains(id) by {
                if self.has(id) {
                    let i = choose|i: int|
                        0 <= i < self.nodes.len() && (#[trigger] self.nodes[i]).id == id;
                    assert(ids[i] == id);
                }
                if ids.to_set().contains(id) {
                    let i = choose|i: int| 0 <= i < ids.len() && ids[i] == id;
                    assert(self.nodes[i].id == id);
                }
            }
        }
        vstd::seq_lib::seq_to_set_is_finite(ids);
        ids.lemma_cardinality_of_set();
    }

    /// A hop to a neighbour leaves fewer ids unseen.
    pub proof fn lemma_hop_shrinks(self, on: Node, next: Node, dir: Direction, seen: Set<u32>)
        requires
            self.neighbour(on, dir) == Some(next),
            !seen.contains(on.id),
        ensures
            self.has(next.id),
            self.unseen(next.id, seen.insert(on.id)) < self.unseen(on.id, seen),
    {
        let link = match dir {
            Direction::Up => on.next,
            Direction::Down => on.prev,
        };
        self.lemma_has_first(link->0);
        self.lemma_ids_finite();
        let before = self.ids().insert(on.id).difference(seen);
        let after = self.ids().insert(next.id).difference(seen.insert(on.id));
        assert(self.ids().contains(next.id));
        assert(before.contains(on.id));
        assert(after.subset_of(before.remove(on.id)));
        lemma_len_subset(after, before.remove(on.id));
    }
}

/// How far apart two ids are: room to set aside for a walk between them.
fn distance(a: u32, b: u32) -> (r: usize)
    ensures
        r == if a <= b {
            b - a
        } else {
            a - b
        },
{
    if a <= b {
        (b - a) as usize
    } else {
        (a - b) as usize
    }
}

impl MigrationsData {
    /// The migration that `on` links to in the given direction, if the link is
    /// there and leads to a migration of the chain.
    fn neighbour_of(&self, on: &MigrationData, dir: Direction) -> (r: Option<&MigrationData>)
        ensures
            match r {
                Some(m) => self@.neighbour(on@, dir) == Some(m@),
                None => self@.neighbour(on@, dir) is None,
            },
    {
        let link = match dir {
            Direction::Up => on.next_migration_id,
            Direction::Down => on.prev_migration_id,
        };
        match link {
            Some(id) => self.migration_by_id(id),
            None => None,
        }
    }

    /// The steps that lead from `start` down to the migration with the id of
    /// `stop`, each with its down script, or the reason why the `prev` links do
    /// not lead there.
    pub fn build_migration_path_down(
        &self,
        start: &MigrationData,
        stop: &MigrationData,
        on_disk: &Vec<String>,
    ) -> (r: Result<Vec<MigrationToApply>, MigrenError>)
        ensures
            outcome_of(r) == self@.walk_down(
                on_disk.deep_view(),
                start.id,
                stop.id,
                start@,
                Set::empty(),
            ),
    {
        broadcast use vstd::std_specs::hash::group_hash_axioms;

        let room = distance(start.id, stop.id);
        let mut found_migrations: HashSet<u32> = HashSet::with_capacity(room);
        let mut on_migration: &MigrationData = start;
        let mut path: Vec<MigrationToApply> = Vec::with_capacity(room);
        let ghost whole = self@.walk_down(
            on_disk.deep_view(),
            start.id,
            stop.id,
            start@,
            Set::empty(),
        );
        assert(steps_of(path@) + Seq::<Step>::empty() =~= Seq::<Step>::empty());
        while on_migration.id != stop.id
            invariant
                whole == self@.walk_down(
                    on_disk.deep_view(),
                    start.id,
                    stop.id,
                    start@,
                    Set::empty(),
                ),
                whole == preceded(
                    steps_of(path@),
                    self@.walk_down(
                        on_disk.deep_view(),
                        start.id,
                        stop.id,
                        on_migration@,
                        found_migrations@,
                    ),
                ),
            decreases self@.unseen(on_migration.id, found_migrations@),
        {
            let ghost before = steps_of(path@);
            if on_migration.id != 0 {
                match assert_migration_files_exists(on_migration, on_disk) {
                    Err(e) => {
                        return Err(e);
                    },
                    Ok(()) => {},
                }
                path.push(
                    MigrationToApply {
                        id: on_migration.id,
                        file: on_migration.files.down_migration_file.clone(),
                    },
                );
            }
            assert(steps_of(path@) =~= before + visit(on_migration@, Direction::Down));
            if found_migrations.contains(&on_migration.id) {
                return Err(
                    MigrenError::MigrationPathInvalid {
                        from: start.id,
                        to: stop.id,
                        reason: PathBreak::Circular(on_migration.clone()),
                    },
                );
            }
            let ghost seen = found_migrations@;
            found_migrations.insert(on_migration.id);
            match self.neighbour_of(on_migration, Direction::Down) {
                None => {
                    return Err(
                        MigrenError::MigrationPathInvalid {
                            from: start.id,
                            to: stop.id,
                            reason: PathBreak::NextNotFound(on_migration.clone()),
                        },
                    );
                },
                Some(prev) => {
                    proof {
                        self@.lemma_hop_shrinks(on_migration@, prev@, Direction::Down, seen);
                        let rest = self@.walk_down(
                            on_disk.deep_view(),
                            start.id,
                            stop.id,
                            prev@,
                            seen.insert(on_migration.id),
                        );
                        if let Ok(tail) = rest {
                            assert(before + (visit(on_migration@, Direction::Down) + tail) =~= (
                            before + visit(on_migration@, Direction::Down)) + tail);
                        }
                    }
                    on_migration = prev;
                },
            }
        }
        assert(steps_of(path@) + Seq::<Step>::empty() =~= steps_of(path@));
        Ok(path)
    }

    /// The steps that lead from `start` up to the migration with the id of
    /// `stop`, each with its up script, or the reason why the `next` links do
    /// not lead there.
    pub fn build_migration_path_up(
        &self,
        start: &MigrationData,
        stop: &MigrationData,
        on_disk: &Vec<String>,
    ) -> (r: Result<Vec<MigrationToApply>, MigrenError>)
        ensures
            outcome_of(r) == self@.walk_up(
                on_disk.deep_view(),
                start.id,
                stop.id,
                start@,
                Set::empty(),
            ),
    {
        broadcast use vstd::std_specs::hash::group_hash_axioms;

        let room = distance(start.id, stop.id);
        let mut found_migrations: HashSet<u32> = HashSet::with_capacity(room);
        let mut on_migration: &MigrationData = start;
        let mut path: Vec<MigrationToApply> = Vec::with_capacity(room);
        let ghost whole = self@.walk_up(
            on_disk.deep_view(),
            start.id,
            stop.id,
            start@,
            Set::empty(),
        );
        assert(steps_of(path@) + Seq::<Step>::empty() =~= Seq::<Step>::empty());
        while on_migration.id != stop.id
            invariant
                whole == self@.walk_up(
                    on_disk.deep_view(),
                    start.id,
                    stop.id,
                    start@,
                    Set::empty(),
                ),
                whole == preceded(
                    steps_of(path@),
                    self@.walk_up(
                        on_disk.deep_view(),
                        start.id,
                        stop.id,
                        on_migration@,
                        found_migrations@,
                    ),
                ),
            decreases self@.unseen(on_migration.id, found_migrations@),
        {
            if found_migrations.contains(&on_migration.id) {
                return Err(
                    MigrenError::MigrationPathInvalid {
                        from: start.id,
                        to: stop.id,
                        reason: PathBreak::Circular(on_migration.clone()),
                    },
                );
            }
            let ghost seen = found_migrations@;
            let ghost before = steps_of(path@);
            found_migrations.insert(on_migration.id);
            match self.neighbour_of(on_migration, Direction::Up) {
                None => {
                    return Err(
                        MigrenError::MigrationPathInvalid {
                            from: start.id,
                            to: stop.id,
                            reason: PathBreak::NextNotFound(on_migration.clone()),
                        },
                    );
                },
                Some(next) => {
                    proof {
                        self@.lemma_hop_shrinks(on_migration@, next@, Direction::Up, seen);
                    }
                    on_migration = next;
                },
            }
            if on_migration.id != 0 {
                match assert_migration_files_exists(on_migration, on_disk) {
                    Err(e) => {
                        return Err(e);
                    },
                    Ok(()) => {},
                }
                path.push(
                    MigrationToApply {
                        id: on_migration.id,
                        file: on_migration.files.up_migration_file.clone(),
                    },
                );
            }
            proof {
                assert(steps_of(path@) =~= before + visit(on_migration@, Direction::Up));
                let rest = self@.walk_up(
                    on_disk.deep_view(),
                    start.id,
                    stop.id,
                    on_migration@,
                    found_migrations@,
                );
                if let Ok(tail) = rest {
                    assert(before + (visit(on_migration@, Direction::Up) + tail) =~= (before
                        + visit(on_migration@, Direction::Up)) + tail);
                }
            }
        }
        assert(steps_of(path@) + Seq::<Step>::empty() =~= steps_of(path@));
        Ok(path)
    }

    /// The steps that move a database from the migration `from` to the
    /// migration `to`: none where the two are equal, up scripts in rising order
    /// where `to` is the higher one, down scripts in falling order otherwise.
    /// An id that the chain does not hold, a broken link, a ring, or a script
    /// that is not listed in `on_disk` gives the error that names it.
    pub fn build_migration_path(&self, from: u32, to: u32, on_disk: &Vec<String>) -> (r: Result<
        Vec<MigrationToApply>,
        MigrenError,
    >)
        ensures
            outcome_of(r) == self@.path(on_disk.deep_view(), from, to),
    {
        let start = match self.migration_by_id(from) {
            Some(m) => m,
            None => {
                return Err(
                    MigrenError::MigrationPathInvalid { from, to, reason: PathBreak::FromMissing },
                );
            },
        };
        let stop = match self.migration_by_id(to) {
            Some(m) => m,
            None => {
                return Err(
                    MigrenError::MigrationPathInvalid { from, to, reason: PathBreak::ToMissing },
                );
            },
        };
        proof {
            self@.lemma_has_first(from);
            self@.lemma_has_first(to);
        }
        if start.id < stop.id {
            self.build_migration_path_up(start, stop, on_disk)
        } else {
            self.build_migration_path_down(start, stop, on_disk)
        }
    }
}

} // verus!
