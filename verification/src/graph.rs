//! Lookup in a chain by migration id.
//!
//! A chain is searched by id, never by position: the record found for an id is
//! the first one that carries it.

use vstd::prelude::*;
use crate::files::{create_migration_files, script_name};
use crate::model::{
    Cursor, DatabaseMigrenData, Direction, Graph, MigrationData, MigrationFiles, MigrationsData,
    Node, MIGREN_VERSION,
};

verus! {

impl Graph {
    /// `i` is the position of the first node that carries `id`.
    pub open spec fn first_at(self, id: u32, i: int) -> bool {
        &&& 0 <= i < self.nodes.len()
        &&& self.nodes[i].id == id
        &&& forall|j: int| 0 <= j < i ==> (#[trigger] self.nodes[j]).id != id
    }

    /// Some node carries `id`.
    pub open spec fn has(self, id: u32) -> bool {
        exists|i: int| 0 <= i < self.nodes.len() && (#[trigger] self.nodes[i]).id == id
    }

    /// Position of the first node that carries `id`.
    pub open spec fn position(self, id: u32) -> int {
        choose|i: int| self.first_at(id, i)
    }

    /// The node that a lookup of `id` finds.
    pub open spec fn node(self, id: u32) -> Option<Node> {
        if self.has(id) {
            Some(self.nodes[self.position(id)])
        } else {
            None
        }
    }

    /// The node that a new migration called `name` adds to the chain.
    pub open spec fn fresh_node(self, name: Seq<char>) -> Node {
        let id = (self.counter + 1) as u32;
        Node {
            id,
            name,
            up_file: script_name(id, name, Direction::Up),
            down_file: script_name(id, name, Direction::Down),
            prev: if self.has(self.counter) {
                Some(self.counter)
            } else {
                None
            },
            next: None,
        }
    }

    /// The chain holds a migration other than the reserved initial one.
    pub open spec fn has_real(self) -> bool {
        exists|i: int| 0 <= i < self.nodes.len() && (#[trigger] self.nodes[i]).id != 0
    }

    /// The chain with a new migration called `name` at its end: the migration
    /// gets the id after the counter, the one that the counter named is linked
    /// to it, and the counter moves on. The first migration other than the
    /// reserved initial one becomes the start of the chain.
    pub open spec fn with_new(self, name: Seq<char>) -> Graph {
        let id = (self.counter + 1) as u32;
        let at = self.position(self.counter);
        Graph {
            nodes: if self.has(self.counter) {
                self.nodes.update(at, Node { next: Some(id), ..self.nodes[at] }).push(
                    self.fresh_node(name),
                )
            } else {
                self.nodes.push(self.fresh_node(name))
            },
            version: self.version,
            start_id: if self.has_real() {
                self.start_id
            } else {
                Some(id)
            },
            counter: id,
        }
    }

    /// The chain that a fresh manifest holds: the reserved initial migration
    /// alone.
    pub open spec fn initial(version: Seq<char>) -> Graph {
        Graph {
            nodes: seq![
                Node {
                    id: 0,
                    name: "initial"@,
                    up_file: Seq::empty(),
                    down_file: Seq::empty(),
                    prev: None,
                    next: None,
                },
            ],
            version,
            start_id: None,
            counter: 0,
        }
    }

    /// The links of the node at position `i` are sound: they lead to nodes of
    /// the chain that point back, `next` to a higher id and `prev` to a lower
    /// one; only the migration that the counter names has no `next`, and only
    /// the reserved initial one has no `prev`.
    pub open spec fn linked_at(self, i: int) -> bool {
        let n = self.nodes[i];
        &&& n.id <= self.counter
        &&& match n.next {
            Some(m) => n.id < m && self.has(m) && self.node(m)->0.prev == Some(n.id),
            None => n.id == self.counter,
        }
        &&& match n.prev {
            Some(p) => p < n.id && self.has(p) && self.node(p)->0.next == Some(n.id),
            None => n.id == 0,
        }
    }

    /// The chain is a single line from the reserved initial migration to the
    /// one that the counter names: no id occurs twice, every link is sound,
    /// and the start is the migration that follows the initial one.
    pub open spec fn well_formed(self) -> bool {
        &&& self.has(0)
        &&& self.has(self.counter)
        &&& self.start_id == self.node(0)->0.next
        &&& forall|i: int, j: int|
            0 <= i < j < self.nodes.len() ==> (#[trigger] self.nodes[i]).id != (
            #[trigger] self.nodes[j]).id
        &&& forall|i: int| 0 <= i < self.nodes.len() ==> #[trigger] self.linked_at(i)
    }

    /// The ids that occur in the chain.
    pub open spec fn ids(self) -> Set<u32> {
        Set::new(|id: u32| self.has(id))
    }

    /// The first position of an id is unique, and a lookup finds the node there.
    pub proof fn lemma_first_at(self, id: u32, i: int)
        requires
            self.first_at(id, i),
        ensures
            self.has(id),
            self.position(id) == i,
            self.node(id) == Some(self.nodes[i]),
    {
        let p = self.position(id);
        assert(self.first_at(id, p));
        if p < i {
            assert(self.nodes[p].id != id);
        }
        if i < p {
            assert(self.nodes[i].id != id);
        }
    }

    /// An id that occurs has a first position.
    pub proof fn lemma_has_first(self, id: u32)
        requires
            self.has(id),
        ensures
            self.first_at(id, self.position(id)),
            self.node(id) is Some,
            self.node(id)->0.id == id,
    {
        let k = choose|i: int| 0 <= i < self.nodes.len() && (#[trigger] self.nodes[i]).id == id;
        self.lemma_first_before(id, k);
    }

    /// Below any position that carries `id` lies the first such position.
    proof fn lemma_first_before(self, id: u32, k: int)
        requires
            0 <= k < self.nodes.len(),
            self.nodes[k].id == id,
        ensures
            exists|i: int| self.first_at(id, i),
        decreases k,
    {
        if exists|j: int| 0 <= j < k && (#[trigger] self.nodes[j]).id == id {
            let j = choose|j: int| 0 <= j < k && (#[trigger] self.nodes[j]).id == id;
            self.lemma_first_before(id, j);
        } else {
            assert(self.first_at(id, k));
        }
    }

    /// Where no id occurs twice, a lookup finds the one node that carries the
    /// id.
    pub proof fn lemma_unique_lookup(self, i: int)
        requires
            0 <= i < self.nodes.len(),
            forall|a: int, b: int|
                0 <= a < b < self.nodes.len() ==> (#[trigger] self.nodes[a]).id != (
                #[trigger] self.nodes[b]).id,
        ensures
            self.has(self.nodes[i].id),
            self.position(self.nodes[i].id) == i,
            self.node(self.nodes[i].id) == Some(self.nodes[i]),
    {
        assert(self.first_at(self.nodes[i].id, i));
        self.lemma_first_at(self.nodes[i].id, i);
    }

    /// The chain of a fresh manifest is well formed.
    pub proof fn lemma_initial_well_formed(version: Seq<char>)
        ensures
            Graph::initial(version).well_formed(),
    {
        let g = Graph::initial(version);
        assert(g.nodes[0].id == 0);
        assert(g.first_at(0, 0));
        g.lemma_first_at(0, 0);
        assert(g.linked_at(0));
    }

    /// A new migration leaves a well-formed chain well formed.
    pub proof fn lemma_new_keeps_well_formed(self, name: Seq<char>)
        requires
            self.well_formed(),
            self.counter < u32::MAX,
        ensures
            self.with_new(name).well_formed(),
    {
        let after = self.with_new(name);
        let id = (self.counter + 1) as u32;
        let at = self.position(self.counter);
        let n = self.nodes.len() as int;
        self.lemma_has_first(self.counter);
        assert(after.nodes.len() == n + 1);
        assert(after.nodes[n] == self.fresh_node(name));
        assert forall|i: int| 0 <= i < n implies (#[trigger] after.nodes[i]).id
            == self.nodes[i].id && after.nodes[i].prev == self.nodes[i].prev && after.nodes[i].id
            <= self.counter by {
            assert(self.linked_at(i));
        }
        assert forall|i: int, j: int| 0 <= i < j < after.nodes.len() implies (
        #[trigger] after.nodes[i]).id != (#[trigger] after.nodes[j]).id by {
            if j < n {
                assert(self.nodes[i].id != self.nodes[j].id);
            }
        }
        assert forall|i: int| 0 <= i < n implies after.has(self.nodes[i].id) && after.node(
            #[trigger] self.nodes[i].id,
        ) == Some(after.nodes[i]) by {
            after.lemma_unique_lookup(i);
        }
        after.lemma_unique_lookup(n);
        after.lemma_unique_lookup(at);
        let z = self.position(0);
        self.lemma_has_first(0);
        assert(after.nodes[z].id == 0);
        assert(after.has(0));
        assert(after.node(self.nodes[z].id) == Some(after.nodes[z]));
        assert(after.start_id == after.node(0)->0.next) by {
            if self.has_real() {
                let r = choose|i: int| 0 <= i < n && (#[trigger] self.nodes[i]).id != 0;
                assert(self.linked_at(r));
                assert(self.nodes[at].id == self.counter);
                assert(z != at);
            } else {
                assert(self.nodes[at].id == 0);
                if z < at {
                    assert(self.nodes[z].id != self.nodes[at].id);
                }
                if at < z {
                    assert(self.nodes[at].id != self.nodes[z].id);
                }
            }
        }
        assert forall|i: int| 0 <= i < after.nodes.len() implies #[trigger] after.linked_at(
            i,
        ) by {
            if i == n {
                assert(after.nodes[at].next == Some(id));
            } else {
                assert(self.linked_at(i));
                let old_node = self.nodes[i];
                if i == at {
                    assert(old_node.next is None);
                } else {
                    assert(old_node.id != self.nodes[at].id);
                    assert(old_node.next is Some);
                }
                if let Some(m) = after.nodes[i].next {
                    if i != at {
                        let k = self.position(m);
                        self.lemma_has_first(m);
                        assert(self.nodes[k].id == m);
                        assert(after.node(self.nodes[k].id) == Some(after.nodes[k]));
                        assert(after.nodes[k].prev == self.nodes[k].prev);
                    }
                }
                if let Some(p) = after.nodes[i].prev {
                    let k = self.position(p);
                    self.lemma_has_first(p);
                    assert(self.nodes[k].id == p);
                    assert(after.node(self.nodes[k].id) == Some(after.nodes[k]));
                    if k == at {
                        assert(self.linked_at(k));
                        assert(self.nodes[k].next is None);
                    } else {
                        assert(after.nodes[k] == self.nodes[k]);
                    }
                }
            }
        }
    }
}

impl MigrationsData {
    /// Position of the first migration that carries `id`, if there is one.
    fn index_by_id(&self, id: u32) -> (r: Option<usize>)
        ensures
            match r {
                Some(i) => self@.first_at(id, i as int),
                None => !self@.has(id),
            },
    {
        let mut i: usize = 0;
        while i < self.migrations.len()
            invariant
                i <= self.migrations@.len(),
                forall|j: int| 0 <= j < i ==> (#[trigger] self@.nodes[j]).id != id,
            decreases self.migrations@.len() - i,
        {
            if self.migrations[i].id == id {
                assert(self@.nodes[i as int].id == id);
                return Some(i);
            }
            i += 1;
        }
        None
    }

    /// The first migration that carries `id`, if there is one.
    pub fn migration_by_id(&self, id: u32) -> (r: Option<&MigrationData>)
        ensures
            match r {
                Some(m) => self@.has(id) && *m == self.migrations@[self@.position(id)],
                None => !self@.has(id),
            },
            r matches Some(m) ==> self@.node(id) == Some(m@),
            r is None ==> self@.node(id) is None,
    {
        match self.index_by_id(id) {
            Some(i) => {
                proof {
                    self@.lemma_first_at(id, i as int);
                }
                Some(&self.migrations[i])
            },
            None => None,
        }
    }

    /// Whether the chain holds a migration other than the reserved initial
    /// one.
    pub fn has_real_migration(&self) -> (r: bool)
        ensures
            r == self@.has_real(),
    {
        let mut i: usize = 0;
        while i < self.migrations.len()
            invariant
                i <= self.migrations@.len(),
                forall|j: int| 0 <= j < i ==> (#[trigger] self@.nodes[j]).id == 0,
            decreases self.migrations@.len() - i,
        {
            if self.migrations[i].id != 0 {
                assert(self@.nodes[i as int].id != 0);
                return true;
            }
            i += 1;
        }
        false
    }

    /// The first migration that carries `id`, open to change; the rest of the
    /// chain stays as it is.
    pub fn migration_by_id_mut(&mut self, id: u32) -> (r: Option<&mut MigrationData>)
        ensures
            match r {
                Some(m) => {
                    &&& old(self)@.has(id)
                    &&& *m == old(self).migrations@[old(self)@.position(id)]
                    &&& final(self).migrations@ == old(self).migrations@.update(
                        old(self)@.position(id),
                        *final(m),
                    )
                },
                None => !old(self)@.has(id) && final(self).migrations@ == old(self).migrations@,
            },
            final(self).migren_version == old(self).migren_version,
            final(self).migrations_start_id == old(self).migrations_start_id,
            final(self).migrations_counter == old(self).migrations_counter,
    {
        match self.index_by_id(id) {
            Some(i) => {
                proof {
                    self@.lemma_first_at(id, i as int);
                }
                Some(&mut self.migrations[i])
            },
            None => None,
        }
    }

    /// Adds a migration called `migration_name` at the end of the chain and
    /// hands it back. Its scripts are named after its id and its name; they
    /// are for the caller to write. The first migration that a chain gets
    /// beside the reserved initial one is recorded as its start.
    pub fn new_migration(&mut self, migration_name: &str) -> (r: &MigrationData)
        requires
            old(self).migrations_counter < u32::MAX,
        ensures
            final(self)@ == old(self)@.with_new(migration_name@),
            r@ == old(self)@.fresh_node(migration_name@),
            old(self)@.well_formed() ==> final(self)@.well_formed(),
    {
        proof {
            if self@.well_formed() {
                self@.lemma_new_keeps_well_formed(migration_name@);
            }
        }
        let migration_id = self.migrations_counter + 1;
        let last_migration_id = match self.migration_by_id(self.migrations_counter) {
            Some(m) => Some(m.id),
            None => None,
        };
        let migration_files = create_migration_files(migration_id, migration_name);
        let migration = MigrationData {
            files: migration_files,
            name: migration_name.to_owned(),
            id: migration_id,
            prev_migration_id: last_migration_id,
            next_migration_id: None,
        };
        let counter = self.migrations_counter;
        let first = !self.has_real_migration();
        proof {
            if self@.has(counter) {
                self@.lemma_has_first(counter);
            }
        }
        match self.migration_by_id_mut(counter) {
            Some(last_migration) => {
                last_migration.next_migration_id = Some(migration_id);
            },
            None => {},
        }
        if first {
            self.migrations_start_id = Some(migration_id);
        }
        self.migrations_counter = migration_id;
        self.migrations.push(migration);
        assert(self@.nodes =~= old(self)@.with_new(migration_name@).nodes);
        let at = self.migrations.len() - 1;
        &self.migrations[at]
    }
}

impl Default for MigrationsData {
    /// The chain of a fresh manifest.
    fn default() -> (r: Self)
        ensures
            r@ == Graph::initial(MIGREN_VERSION@),
            r@.well_formed(),
    {
        let initial = MigrationData {
            files: MigrationFiles {
                up_migration_file: String::new(),
                down_migration_file: String::new(),
            },
            name: "initial".to_owned(),
            id: 0,
            prev_migration_id: None,
            next_migration_id: None,
        };
        let mut migrations: Vec<MigrationData> = Vec::new();
        migrations.push(initial);
        let r = MigrationsData {
            migrations,
            migren_version: MIGREN_VERSION.to_owned(),
            migrations_start_id: None,
            migrations_counter: 0,
        };
        proof {
            assert(r@.nodes =~= Graph::initial(MIGREN_VERSION@).nodes);
            Graph::lemma_initial_well_formed(MIGREN_VERSION@);
        }
        r
    }
}

impl Default for DatabaseMigrenData {
    /// The cursor of a database to which no migration has been applied.
    fn default() -> (r: Self)
        ensures
            r@ == (Cursor { version: MIGREN_VERSION@, last_applied: 0 }),
    {
        DatabaseMigrenData { migren_version: MIGREN_VERSION.to_owned(), last_migration_applied: 0 }
    }
}

} // verus!
