//! What the path between two positions is on chains of a known shape: along
//! an intact run of links, at a link that leads nowhere, and on a ring.

use vstd::prelude::*;
use crate::errors::{Break, Failure};
use crate::files::files_present;
use crate::model::{Direction, Graph, Node, Step};
use crate::path::{preceded, step_of, visit};

verus! {

/// The link of `node` in the given direction.
pub open spec fn link(node: Node, dir: Direction) -> Option<u32> {
    match dir {
        Direction::Up => node.next,
        Direction::Down => node.prev,
    }
}

/// The ids rise: an earlier one is lower than a later one.
#[verifier::opaque]
pub open spec fn rises(ids: Seq<u32>) -> bool {
    forall|i: int, j: int| 0 <= i < j < ids.len() ==> ids[i] < ids[j]
}

/// Of two ids of a rising run the later is the higher.
pub proof fn lemma_rise(ids: Seq<u32>, i: int, j: int)
    requires
        rises(ids),
        0 <= i < j < ids.len(),
    ensures
        ids[i] < ids[j],
{
    reveal(rises);
}

/// Rising ids never repeat.
pub proof fn lemma_rising_no_duplicates(ids: Seq<u32>)
    requires
        rises(ids),
    ensures
        ids.no_duplicates(),
{
    assert forall|i: int, j: int| 0 <= i < ids.len() && 0 <= j < ids.len() && i != j implies ids[i]
        != ids[j] by {
        if i < j {
            lemma_rise(ids, i, j);
        } else {
            lemma_rise(ids, j, i);
        }
    }
}

/// A part of a run without repeats has none.
pub proof fn lemma_part_no_duplicates(run: Seq<u32>, lo: int, hi: int)
    requires
        run.no_duplicates(),
        0 <= lo <= hi <= run.len(),
    ensures
        run.subrange(lo, hi).no_duplicates(),
{
    let part = run.subrange(lo, hi);
    assert forall|i: int, j: int| 0 <= i < part.len() && 0 <= j < part.len() && i != j implies part[i]
        != part[j] by {
        assert(part[i] == run[lo + i]);
        assert(part[j] == run[lo + j]);
    }
}

/// A run without repeats has none when read backwards.
pub proof fn lemma_reverse_no_duplicates(run: Seq<u32>)
    requires
        run.no_duplicates(),
    ensures
        run.reverse().no_duplicates(),
{
    let back = run.reverse();
    assert forall|i: int, j: int| 0 <= i < back.len() && 0 <= j < back.len() && i != j implies back[i]
        != back[j] by {
        assert(back[i] == run[run.len() - 1 - i]);
        assert(back[j] == run[run.len() - 1 - j]);
    }
}

/// A run that repeats no id before its last one still repeats none there
/// once its first id is taken away.
pub proof fn lemma_rest_no_duplicates(run: Seq<u32>)
    requires
        run.len() >= 2,
        run.drop_last().no_duplicates(),
    ensures
        run.drop_first().drop_last().no_duplicates(),
{
    let rest = run.drop_first().drop_last();
    assert forall|i: int, j: int| 0 <= i < rest.len() && 0 <= j < rest.len() && i != j implies rest[i]
        != rest[j] by {
        assert(rest[i] == run.drop_last()[i + 1]);
        assert(rest[j] == run.drop_last()[j + 1]);
    }
}

/// The ids left behind are the same whether the first id of a run is counted
/// with what was seen before or with the run.
pub proof fn lemma_seen_with_first(run: Seq<u32>, seen: Set<u32>)
    requires
        run.len() >= 2,
    ensures
        seen.insert(run[0]).union(run.drop_first().drop_last().to_set()) == seen.union(
            run.drop_last().to_set(),
        ),
{
    let rest = run.drop_first().drop_last();
    let front = run.drop_last();
    assert forall|x: u32|
        seen.insert(run[0]).union(rest.to_set()).contains(x) <==> seen.union(
            front.to_set(),
        ).contains(x) by {
        if rest.to_set().contains(x) {
            let k = choose|k: int| 0 <= k < rest.len() && rest[k] == x;
            assert(front[k + 1] == x);
        }
        if front.to_set().contains(x) {
            let k = choose|k: int| 0 <= k < front.len() && front[k] == x;
            if k > 0 {
                assert(rest[k - 1] == x);
            }
        }
        if x == run[0] {
            assert(front[0] == x);
        }
    }
    assert(seen.insert(run[0]).union(rest.to_set()) =~= seen.union(front.to_set()));
}

impl Graph {
    /// `run` is a walk through the chain in the given direction: each of its
    /// ids is in the chain, and each node links to the id that follows it.
    pub open spec fn follows(self, run: Seq<u32>, dir: Direction) -> bool {
        &&& forall|i: int| 0 <= i < run.len() ==> self.has(#[trigger] run[i])
        &&& forall|i: int|
            0 <= i < run.len() - 1 ==> link(self.node(#[trigger] run[i])->0, dir) == Some(
                run[i + 1],
            )
    }

    /// The scripts of every migration of `run`, but the reserved initial one,
    /// are listed.
    pub open spec fn scripts_listed(self, on_disk: Seq<Seq<char>>, run: Seq<u32>) -> bool {
        forall|i: int|
            0 <= i < run.len() ==> (#[trigger] run[i]) == 0 || files_present(
                on_disk,
                self.node(run[i])->0,
            )
    }

    /// The steps that visiting the migrations of `run` in turn adds to a path.
    pub open spec fn visits(self, run: Seq<u32>, dir: Direction) -> Seq<Step>
        decreases run.len(),
    {
        if run.len() == 0 {
            Seq::empty()
        } else {
            visit(self.node(run[0])->0, dir) + self.visits(run.drop_first(), dir)
        }
    }

    /// `ids` is an intact stretch of the chain: the ids rise, and neighbours
    /// point at each other.
    pub open spec fn stretch(self, ids: Seq<u32>) -> bool {
        &&& rises(ids)
        &&& self.follows(ids, Direction::Up)
        &&& self.follows(ids.reverse(), Direction::Down)
    }

    /// A walk up along `run` takes the steps of all its migrations after the
    /// first, and goes on from the last as if it had started there with the
    /// earlier ones behind it.
    pub proof fn lemma_walk_up_along(
        self,
        on_disk: Seq<Seq<char>>,
        from: u32,
        to: u32,
        run: Seq<u32>,
        seen: Set<u32>,
    )
        requires
            run.len() >= 1,
            self.follows(run, Direction::Up),
            self.scripts_listed(on_disk, run.drop_first()),
            run.drop_last().no_duplicates(),
            forall|i: int| 0 <= i < run.len() - 1 ==> run[i] != to && !seen.contains(run[i]),
        ensures
            self.walk_up(on_disk, from, to, self.node(run[0])->0, seen) == preceded(
                self.visits(run.drop_first(), Direction::Up),
                self.walk_up(
                    on_disk,
                    from,
                    to,
                    self.node(run.last())->0,
                    seen.union(run.drop_last().to_set()),
                ),
            ),
        decreases run.len(),
    {
        let first = self.node(run[0])->0;
        self.lemma_has_first(run[0]);
        if run.len() == 1 {
            assert(run.drop_last().to_set() =~= Set::<u32>::empty());
            assert(seen.union(run.drop_last().to_set()) =~= seen);
            assert(self.visits(run.drop_first(), Direction::Up) =~= Seq::<Step>::empty());
            let rest = self.walk_up(on_disk, from, to, first, seen);
            if let Ok(tail) = rest {
                assert(Seq::<Step>::empty() + tail =~= tail);
            }
        } else {
            let tail_run = run.drop_first();
            let second = self.node(run[1])->0;
            self.lemma_has_first(run[1]);
            assert(run[0] == run.drop_last()[0]);
            assert(self.neighbour(first, Direction::Up) == Some(second));
            assert(tail_run[0] == run[1]);
            assert(second.id == 0 || files_present(on_disk, second));
            self.lemma_follows_part(run, Direction::Up, 1, run.len() as int);
            assert(tail_run =~= run.subrange(1, run.len() as int));
            assert(self.scripts_listed(on_disk, tail_run.drop_first())) by {
                assert forall|i: int| 0 <= i < tail_run.drop_first().len() implies (
                #[trigger] tail_run.drop_first()[i]) == 0 || files_present(
                    on_disk,
                    self.node(tail_run.drop_first()[i])->0,
                ) by {
                    assert(tail_run.drop_first()[i] == tail_run[i + 1]);
                }
            }
            lemma_rest_no_duplicates(run);
            assert forall|i: int| 0 <= i < tail_run.len() - 1 implies tail_run[i] != to
                && !seen.insert(run[0]).contains(tail_run[i]) by {
                assert(tail_run[i] == run[i + 1]);
                assert(run.drop_last()[i + 1] == run[i + 1]);
                assert(run.drop_last()[0] == run[0]);
            }
            self.lemma_walk_up_along(on_disk, from, to, tail_run, seen.insert(run[0]));
            lemma_seen_with_first(run, seen);
            assert(tail_run.last() == run.last());
            let end = self.walk_up(
                on_disk,
                from,
                to,
                self.node(run.last())->0,
                seen.union(run.drop_last().to_set()),
            );
            assert(self.visits(tail_run, Direction::Up) == visit(second, Direction::Up)
                + self.visits(tail_run.drop_first(), Direction::Up));
            if let Ok(tail) = end {
                assert(visit(second, Direction::Up) + (self.visits(
                    tail_run.drop_first(),
                    Direction::Up,
                ) + tail) =~= self.visits(tail_run, Direction::Up) + tail);
            }
        }
    }

    /// A walk down along `run` takes the steps of all its migrations before
    /// the last, and goes on from the last as if it had started there with the
    /// earlier ones behind it.
    pub proof fn lemma_walk_down_along(
        self,
        on_disk: Seq<Seq<char>>,
        from: u32,
        to: u32,
        run: Seq<u32>,
        seen: Set<u32>,
    )
        requires
            run.len() >= 1,
            self.follows(run, Direction::Down),
            self.scripts_listed(on_disk, run.drop_last()),
            run.drop_last().no_duplicates(),
            forall|i: int| 0 <= i < run.len() - 1 ==> run[i] != to && !seen.contains(run[i]),
        ensures
            self.walk_down(on_disk, from, to, self.node(run[0])->0, seen) == preceded(
                self.visits(run.drop_last(), Direction::Down),
                self.walk_down(
                    on_disk,
                    from,
                    to,
                    self.node(run.last())->0,
                    seen.union(run.drop_last().to_set()),
                ),
            ),
        decreases run.len(),
    {
        let first = self.node(run[0])->0;
        self.lemma_has_first(run[0]);
        if run.len() == 1 {
            assert(run.drop_last().to_set() =~= Set::<u32>::empty());
            assert(seen.union(run.drop_last().to_set()) =~= seen);
            assert(self.visits(run.drop_last(), Direction::Down) =~= Seq::<Step>::empty());
            let rest = self.walk_down(on_disk, from, to, first, seen);
            if let Ok(tail) = rest {
                assert(Seq::<Step>::empty() + tail =~= tail);
            }
        } else {
            let tail_run = run.drop_first();
            let second = self.node(run[1])->0;
            self.lemma_has_first(run[1]);
            assert(run[0] == run.drop_last()[0]);
            assert(self.neighbour(first, Direction::Down) == Some(second));
            assert(tail_run[0] == run[1]);
            assert(first.id == 0 || files_present(on_disk, first));
            self.lemma_follows_part(run, Direction::Down, 1, run.len() as int);
            assert(tail_run =~= run.subrange(1, run.len() as int));
            assert(self.scripts_listed(on_disk, tail_run.drop_last())) by {
                assert forall|i: int| 0 <= i < tail_run.drop_last().len() implies (
                #[trigger] tail_run.drop_last()[i]) == 0 || files_present(
                    on_disk,
                    self.node(tail_run.drop_last()[i])->0,
                ) by {
                    assert(tail_run.drop_last()[i] == run.drop_last()[i + 1]);
                }
            }
            lemma_rest_no_duplicates(run);
            assert forall|i: int| 0 <= i < tail_run.len() - 1 implies tail_run[i] != to
                && !seen.insert(run[0]).contains(tail_run[i]) by {
                assert(tail_run[i] == run[i + 1]);
                assert(run.drop_last()[i + 1] == run[i + 1]);
                assert(run.drop_last()[0] == run[0]);
            }
            self.lemma_walk_down_along(on_disk, from, to, tail_run, seen.insert(run[0]));
            lemma_seen_with_first(run, seen);
            assert(tail_run.last() == run.last());
            let end = self.walk_down(
                on_disk,
                from,
                to,
                self.node(run.last())->0,
                seen.union(run.drop_last().to_set()),
            );
            assert(run.drop_last().drop_first() =~= tail_run.drop_last());
            assert(self.visits(run.drop_last(), Direction::Down) == visit(first, Direction::Down)
                + self.visits(tail_run.drop_last(), Direction::Down));
            if let Ok(tail) = end {
                assert(visit(first, Direction::Down) + (self.visits(
                    tail_run.drop_last(),
                    Direction::Down,
                ) + tail) =~= self.visits(run.drop_last(), Direction::Down) + tail);
            }
        }
    }

    /// On migrations other than the reserved initial one, the steps of a run
    /// are one for each, in the order of the run.
    pub proof fn lemma_visits_each(self, run: Seq<u32>, dir: Direction)
        requires
            forall|i: int| 0 <= i < run.len() ==> self.has(#[trigger] run[i]) && run[i] != 0,
        ensures
            self.visits(run, dir) == Seq::new(
                run.len(),
                |k: int| step_of(self.node(run[k])->0, dir),
            ),
        decreases run.len(),
    {
        let each = Seq::new(run.len(), |k: int| step_of(self.node(run[k])->0, dir));
        if run.len() == 0 {
            assert(self.visits(run, dir) =~= each);
        } else {
            let rest = run.drop_first();
            assert forall|i: int| 0 <= i < rest.len() implies self.has(#[trigger] rest[i])
                && rest[i] != 0 by {
                assert(rest[i] == run[i + 1]);
            }
            self.lemma_visits_each(rest, dir);
            self.lemma_has_first(run[0]);
            assert(self.visits(run, dir) =~= each);
        }
    }

    /// A path from a migration to itself has no steps.
    pub proof fn lemma_path_to_itself(self, on_disk: Seq<Seq<char>>, id: u32)
        requires
            self.has(id),
        ensures
            self.path(on_disk, id, id) == Ok::<Seq<Step>, Failure>(Seq::empty()),
    {
        self.lemma_has_first(id);
    }

    /// A part of a walk is a walk.
    pub proof fn lemma_follows_part(self, run: Seq<u32>, dir: Direction, lo: int, hi: int)
        requires
            self.follows(run, dir),
            0 <= lo <= hi <= run.len(),
        ensures
            self.follows(run.subrange(lo, hi), dir),
    {
        let part = run.subrange(lo, hi);
        assert forall|i: int| 0 <= i < part.len() implies self.has(#[trigger] part[i]) by {
            assert(part[i] == run[lo + i]);
        }
        assert forall|i: int| 0 <= i < part.len() - 1 implies link(
            self.node(#[trigger] part[i])->0,
            dir,
        ) == Some(part[i + 1]) by {
            assert(part[i] == run[lo + i]);
            assert(part[i + 1] == run[lo + i + 1]);
        }
    }

    /// Where the `next` links lead along rising ids, the path from a lower
    /// position `a` to a higher position `b` runs the up scripts of the
    /// migrations after `a` up to `b`, in rising order.
    pub proof fn lemma_path_up_stretch(self, on_disk: Seq<Seq<char>>, ids: Seq<u32>, a: int, b: int)
        requires
            rises(ids),
            self.follows(ids, Direction::Up),
            0 <= a <= b < ids.len(),
            self.scripts_listed(on_disk, ids.subrange(a + 1, b + 1)),
        ensures
            self.path(on_disk, ids[a], ids[b]) == Ok::<Seq<Step>, Failure>(
                Seq::new(
                    (b - a) as nat,
                    |k: int| step_of(self.node(ids[a + 1 + k])->0, Direction::Up),
                ),
            ),
    {
        let ups = Seq::new(
            (b - a) as nat,
            |k: int| step_of(self.node(ids[a + 1 + k])->0, Direction::Up),
        );
        if a == b {
            self.lemma_path_to_itself(on_disk, ids[a]);
            assert(ups =~= Seq::<Step>::empty());
        } else {
            let run = ids.subrange(a, b + 1);
            self.lemma_has_first(ids[a]);
            self.lemma_has_first(ids[b]);
            self.lemma_follows_part(ids, Direction::Up, a, b + 1);
            lemma_rising_no_duplicates(ids);
            lemma_part_no_duplicates(ids, a, b);
            assert(run.drop_first() =~= ids.subrange(a + 1, b + 1));
            assert(run.drop_last() =~= ids.subrange(a, b));
            assert(run[0] == ids[a] && run.last() == ids[b]);
            assert forall|i: int| 0 <= i < run.len() - 1 implies run[i] != ids[b] && !Set::<
                u32,
            >::empty().contains(run[i]) by {
                assert(run[i] == ids[a + i]);
            }
            self.lemma_walk_up_along(on_disk, ids[a], ids[b], run, Set::empty());
            assert forall|i: int| 0 <= i < run.drop_first().len() implies self.has(
                #[trigger] run.drop_first()[i],
            ) && run.drop_first()[i] != 0 by {
                assert(run.drop_first()[i] == ids[a + 1 + i]);
                lemma_rise(ids, a, a + 1 + i);
            }
            self.lemma_visits_each(run.drop_first(), Direction::Up);
            assert(self.visits(run.drop_first(), Direction::Up) =~= ups);
            assert(ups + Seq::<Step>::empty() =~= ups);
            lemma_rise(ids, a, b);
        }
    }

    /// Where the `prev` links lead back along rising ids, the path from a
    /// higher position `b` down to a lower position `a` runs the down scripts
    /// of the migrations from `b` down to the one after `a`, in falling order.
    pub proof fn lemma_path_down_stretch(
        self,
        on_disk: Seq<Seq<char>>,
        ids: Seq<u32>,
        a: int,
        b: int,
    )
        requires
            rises(ids),
            self.follows(ids.reverse(), Direction::Down),
            0 <= a <= b < ids.len(),
            self.scripts_listed(on_disk, ids.subrange(a + 1, b + 1)),
        ensures
            self.path(on_disk, ids[b], ids[a]) == Ok::<Seq<Step>, Failure>(
                Seq::new((b - a) as nat, |k: int| step_of(self.node(ids[b - k])->0, Direction::Down)),
            ),
    {
        let downs = Seq::new(
            (b - a) as nat,
            |k: int| step_of(self.node(ids[b - k])->0, Direction::Down),
        );
        let n = ids.len() as int;
        assert(ids.reverse()[n - 1 - a] == ids[a]);
        assert(ids.reverse()[n - 1 - b] == ids[b]);
        if a == b {
            self.lemma_path_to_itself(on_disk, ids[a]);
            assert(downs =~= Seq::<Step>::empty());
        } else {
            let run = ids.reverse().subrange(n - 1 - b, n - a);
            self.lemma_has_first(ids[a]);
            self.lemma_has_first(ids[b]);
            self.lemma_follows_part(ids.reverse(), Direction::Down, n - 1 - b, n - a);
            lemma_rising_no_duplicates(ids);
            lemma_reverse_no_duplicates(ids);
            lemma_part_no_duplicates(ids.reverse(), n - 1 - b, n - 1 - a);
            assert(run.drop_last() =~= ids.reverse().subrange(n - 1 - b, n - 1 - a));
            assert forall|i: int| 0 <= i < run.len() implies run[i] == ids[b - i] by {
                assert(run[i] == ids.reverse()[n - 1 - b + i]);
            }
            assert(self.scripts_listed(on_disk, run.drop_last())) by {
                assert forall|i: int| 0 <= i < run.drop_last().len() implies (
                #[trigger] run.drop_last()[i]) == 0 || files_present(
                    on_disk,
                    self.node(run.drop_last()[i])->0,
                ) by {
                    assert(run.drop_last()[i] == run[i]);
                    assert(ids.subrange(a + 1, b + 1)[b - a - 1 - i] == ids[b - i]);
                }
            }
            assert forall|i: int| 0 <= i < run.len() - 1 implies run[i] != ids[a] && !Set::<
                u32,
            >::empty().contains(run[i]) by {
                assert(run[i] == ids[b - i]);
                lemma_rise(ids, a, b - i);
            }
            assert(run[0] == ids[b] && run.last() == ids[a]);
            self.lemma_walk_down_along(on_disk, ids[b], ids[a], run, Set::empty());
            assert forall|i: int| 0 <= i < run.drop_last().len() implies self.has(
                #[trigger] run.drop_last()[i],
            ) && run.drop_last()[i] != 0 by {
                assert(run.drop_last()[i] == run[i]);
                lemma_rise(ids, a, b - i);
            }
            self.lemma_visits_each(run.drop_last(), Direction::Down);
            assert(self.visits(run.drop_last(), Direction::Down) =~= downs) by {
                assert forall|k: int| 0 <= k < b - a implies run.drop_last()[k] == ids[b - k] by {
                    assert(run.drop_last()[k] == run[k]);
                }
            }
            assert(downs + Seq::<Step>::empty() =~= downs);
            lemma_rise(ids, a, b);
        }
    }

    /// Where the `next` links lead from `run[0]`, without coming by any
    /// migration twice or by the target, to a migration whose `next` link is
    /// absent or names an id that the chain does not hold, the path up to the
    /// target fails at that migration.
    pub proof fn lemma_dead_end(self, on_disk: Seq<Seq<char>>, run: Seq<u32>, to: u32)
        requires
            run.len() >= 1,
            self.follows(run, Direction::Up),
            run.no_duplicates(),
            self.scripts_listed(on_disk, run.drop_first()),
            self.neighbour(self.node(run.last())->0, Direction::Up) is None,
            forall|i: int| 0 <= i < run.len() ==> run[i] != to,
            run[0] < to,
            self.has(to),
        ensures
            self.path(on_disk, run[0], to) == Err::<Seq<Step>, Failure>(
                Failure::PathInvalid {
                    from: run[0],
                    to,
                    reason: Break::NextNotFound(self.node(run.last())->0),
                },
            ),
    {
        let seen = Set::<u32>::empty().union(run.drop_last().to_set());
        self.lemma_has_first(run[0]);
        self.lemma_has_first(run.last());
        self.lemma_has_first(to);
        lemma_part_no_duplicates(run, 0, run.len() - 1);
        assert(run.drop_last() =~= run.subrange(0, run.len() - 1));
        self.lemma_walk_up_along(on_disk, run[0], to, run, Set::empty());
        assert(!seen.contains(run.last())) by {
            if run.drop_last().to_set().contains(run.last()) {
                let k = choose|k: int|
                    0 <= k < run.drop_last().len() && run.drop_last()[k] == run.last();
                assert(run[k] == run[run.len() - 1]);
            }
        }
    }

    /// Where the `next` links lead from `run[0]` round to a migration that the
    /// walk has already left, and the target is not on the way, the path up to
    /// the target fails at the migration met twice.
    pub proof fn lemma_ring(self, on_disk: Seq<Seq<char>>, run: Seq<u32>, to: u32)
        requires
            run.len() >= 2,
            self.follows(run, Direction::Up),
            run.drop_last().no_duplicates(),
            run.drop_last().contains(run.last()),
            self.scripts_listed(on_disk, run.drop_first()),
            forall|i: int| 0 <= i < run.len() ==> run[i] != to,
            run[0] < to,
            self.has(to),
        ensures
            self.path(on_disk, run[0], to) == Err::<Seq<Step>, Failure>(
                Failure::PathInvalid {
                    from: run[0],
                    to,
                    reason: Break::Circular(self.node(run.last())->0),
                },
            ),
    {
        let seen = Set::<u32>::empty().union(run.drop_last().to_set());
        self.lemma_has_first(run[0]);
        self.lemma_has_first(run.last());
        self.lemma_has_first(to);
        self.lemma_walk_up_along(on_disk, run[0], to, run, Set::empty());
        assert(seen.contains(run.last()));
    }

    /// `ids` rises along links that point both ways: each node names the next
    /// id as its `next`, and is named by that node as its `prev`.
    pub open spec fn climbs(self, ids: Seq<u32>) -> bool {
        &&& forall|i: int| 0 <= i < ids.len() ==> self.has(#[trigger] ids[i])
        &&& forall|i: int|
            0 <= i < ids.len() - 1 ==> {
                &&& (#[trigger] ids[i]) < ids[i + 1]
                &&& self.node(ids[i])->0.next == Some(ids[i + 1])
                &&& self.node(ids[i + 1])->0.prev == Some(ids[i])
            }
    }

    /// A run of ids that rises along links pointing both ways is an intact
    /// stretch of the chain.
    pub proof fn lemma_climb_is_stretch(self, ids: Seq<u32>)
        requires
            self.climbs(ids),
        ensures
            self.stretch(ids),
    {
        assert(rises(ids)) by {
            reveal(rises);
            assert forall|i: int, j: int| 0 <= i < j < ids.len() implies ids[i] < ids[j] by {
                self.lemma_climb_rises(ids, i, j);
            }
        }
        let back = ids.reverse();
        assert forall|i: int| 0 <= i < back.len() implies self.has(#[trigger] back[i]) by {
            assert(back[i] == ids[ids.len() - 1 - i]);
        }
        assert forall|i: int| 0 <= i < back.len() - 1 implies link(
            self.node(#[trigger] back[i])->0,
            Direction::Down,
        ) == Some(back[i + 1]) by {
            let k = ids.len() - 2 - i;
            assert(back[i] == ids[k + 1]);
            assert(back[i + 1] == ids[k]);
            assert(ids[k] < ids[k + 1]);
        }
    }

    /// Along a run that rises link by link, a later id is the higher one.
    proof fn lemma_climb_rises(self, ids: Seq<u32>, i: int, j: int)
        requires
            self.climbs(ids),
            0 <= i < j < ids.len(),
        ensures
            ids[i] < ids[j],
        decreases j - i,
    {
        assert(ids[j - 1] < ids[j]);
        if i < j - 1 {
            self.lemma_climb_rises(ids, i, j - 1);
        }
    }

    /// In a well-formed chain the `next` links lead from any migration up to
    /// the one that the counter names.
    pub proof fn lemma_climb_to_top(self, id: u32) -> (ids: Seq<u32>)
        requires
            self.well_formed(),
            self.has(id),
        ensures
            self.climbs(ids),
            ids.len() >= 1,
            ids[0] == id,
            ids.last() == self.counter,
        decreases self.counter - id,
    {
        self.lemma_has_first(id);
        let at = self.position(id);
        assert(self.linked_at(at));
        match self.nodes[at].next {
            None => seq![id],
            Some(m) => {
                self.lemma_has_first(m);
                assert(self.linked_at(self.position(m)));
                let rest = self.lemma_climb_to_top(m);
                let ids = seq![id] + rest;
                assert forall|i: int| 0 <= i < ids.len() implies self.has(#[trigger] ids[i]) by {
                    if i > 0 {
                        assert(ids[i] == rest[i - 1]);
                    }
                }
                assert forall|i: int| 0 <= i < ids.len() - 1 implies {
                    &&& (#[trigger] ids[i]) < ids[i + 1]
                    &&& self.node(ids[i])->0.next == Some(ids[i + 1])
                    &&& self.node(ids[i + 1])->0.prev == Some(ids[i])
                } by {
                    assert(ids[i + 1] == rest[i]);
                    if i > 0 {
                        assert(ids[i] == rest[i - 1]);
                    }
                }
                assert(ids.last() == rest.last());
                ids
            },
        }
    }

    /// In a well-formed chain whose scripts are all listed, the way from the
    /// reserved initial migration to the newest one, and the way back, are
    /// always found.
    pub proof fn lemma_well_formed_reaches_top(self, on_disk: Seq<Seq<char>>)
        requires
            self.well_formed(),
            forall|i: int|
                0 <= i < self.nodes.len() ==> (#[trigger] self.nodes[i]).id == 0 || files_present(
                    on_disk,
                    self.nodes[i],
                ),
        ensures
            self.path(on_disk, 0, self.counter) is Ok,
            self.path(on_disk, self.counter, 0) is Ok,
    {
        let ids = self.lemma_climb_to_top(0);
        self.lemma_climb_is_stretch(ids);
        let last = ids.len() - 1;
        assert(self.scripts_listed(on_disk, ids.subrange(1, last + 1))) by {
            assert forall|i: int| 0 <= i < ids.subrange(1, last + 1).len() implies (
            #[trigger] ids.subrange(1, last + 1)[i]) == 0 || files_present(
                on_disk,
                self.node(ids.subrange(1, last + 1)[i])->0,
            ) by {
                let id = ids[i + 1];
                assert(ids.subrange(1, last + 1)[i] == id);
                assert(self.has(id));
                self.lemma_has_first(id);
                assert(self.nodes[self.position(id)].id == id);
            }
        }
        self.lemma_path_up_stretch(on_disk, ids, 0, last);
        self.lemma_path_down_stretch(on_disk, ids, 0, last);
    }

    /// In a well-formed chain the migration that the counter names is the
    /// last: it has no `next`.
    pub proof fn lemma_top_has_no_next(self)
        requires
            self.well_formed(),
        ensures
            self.node(self.counter)->0.next is None,
    {
        self.lemma_has_first(self.counter);
        let at = self.position(self.counter);
        assert(self.linked_at(at));
        if let Some(m) = self.nodes[at].next {
            self.lemma_has_first(m);
            assert(self.linked_at(self.position(m)));
        }
    }

    /// In a well-formed chain every migration lies on the way that the `next`
    /// links take from the reserved initial migration to the newest one.
    pub proof fn lemma_on_way_up(self, way: Seq<u32>, id: u32) -> (at: int)
        requires
            self.well_formed(),
            self.climbs(way),
            way.len() >= 1,
            way[0] == 0,
            way.last() == self.counter,
            self.has(id),
        ensures
            0 <= at < way.len(),
            way[at] == id,
        decreases id,
    {
        self.lemma_has_first(id);
        assert(self.linked_at(self.position(id)));
        match self.nodes[self.position(id)].prev {
            None => 0,
            Some(before) => {
                let k = self.lemma_on_way_up(way, before);
                self.lemma_has_first(before);
                self.lemma_top_has_no_next();
                assert(k < way.len() - 1);
                assert(self.node(way[k])->0.next == Some(way[k + 1]));
                k + 1
            },
        }
    }

    /// In a well-formed chain, the path from a migration `x` up to a higher
    /// one `y` and the path from `y` back down to `x` are both found where the
    /// scripts of the migrations after `x` up to `y` are listed, and they
    /// mirror each other: the same migrations in opposite order, each with
    /// its up script on the way up and its down script on the way down.
    pub proof fn lemma_paths_mirror(self, on_disk: Seq<Seq<char>>, x: u32, y: u32)
        requires
            self.well_formed(),
            self.has(x),
            self.has(y),
            x < y,
            forall|i: int|
                0 <= i < self.nodes.len() && x < (#[trigger] self.nodes[i]).id <= y
                    ==> files_present(on_disk, self.nodes[i]),
        ensures
            self.path(on_disk, x, y) is Ok,
            self.path(on_disk, y, x) is Ok,
            ({
                let up = self.path(on_disk, x, y)->Ok_0;
                let down = self.path(on_disk, y, x)->Ok_0;
                &&& up.len() == down.len()
                &&& up.len() >= 1
                &&& up.last().id == y
                &&& forall|k: int|
                    0 <= k < up.len() ==> {
                        &&& self.has((#[trigger] up[k]).id)
                        &&& x < up[k].id <= y
                        &&& up[k].file == self.node(up[k].id)->0.up_file
                        &&& down[up.len() - 1 - k].id == up[k].id
                        &&& down[up.len() - 1 - k].file == self.node(up[k].id)->0.down_file
                    }
                &&& forall|j: int, k: int| 0 <= j < k < up.len() ==> up[j].id < up[k].id
            }),
    {
        let way = self.lemma_climb_to_top(0);
        self.lemma_climb_is_stretch(way);
        let a = self.lemma_on_way_up(way, x);
        let b = self.lemma_on_way_up(way, y);
        if b < a {
            lemma_rise(way, b, a);
        }
        assert(a < b);
        let between = way.subrange(a + 1, b + 1);
        assert(self.scripts_listed(on_disk, between)) by {
            assert forall|i: int| 0 <= i < between.len() implies (#[trigger] between[i]) == 0
                || files_present(on_disk, self.node(between[i])->0) by {
                let id = way[a + 1 + i];
                assert(between[i] == id);
                lemma_rise(way, a, a + 1 + i);
                if a + 1 + i < b {
                    lemma_rise(way, a + 1 + i, b);
                }
                assert(self.has(id));
                self.lemma_has_first(id);
                assert(self.nodes[self.position(id)].id == id);
            }
        }
        self.lemma_path_up_stretch(on_disk, way, a, b);
        self.lemma_path_down_stretch(on_disk, way, a, b);
        let up = self.path(on_disk, x, y)->Ok_0;
        let down = self.path(on_disk, y, x)->Ok_0;
        assert forall|k: int| 0 <= k < up.len() implies {
            &&& self.has((#[trigger] up[k]).id)
            &&& x < up[k].id <= y
            &&& up[k].file == self.node(up[k].id)->0.up_file
            &&& down[up.len() - 1 - k].id == up[k].id
            &&& down[up.len() - 1 - k].file == self.node(up[k].id)->0.down_file
        } by {
            let id = way[a + 1 + k];
            lemma_rise(way, a, a + 1 + k);
            if a + 1 + k < b {
                lemma_rise(way, a + 1 + k, b);
            }
            assert(self.has(id));
            self.lemma_has_first(id);
            assert(up[k] == step_of(self.node(id)->0, Direction::Up));
            assert(down[up.len() - 1 - k] == step_of(
                self.node(way[b - (up.len() - 1 - k)])->0,
                Direction::Down,
            ));
        }
        assert forall|j: int, k: int| 0 <= j < k < up.len() implies up[j].id < up[k].id by {
            self.lemma_has_first(way[a + 1 + j]);
            self.lemma_has_first(way[a + 1 + k]);
            lemma_rise(way, a + 1 + j, a + 1 + k);
        }
        self.lemma_has_first(way[b]);
    }
}

} // verus!
