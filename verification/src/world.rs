//! The world store: the table of live entities, in the order of their
//! creation, and the deferred changes that stages queue against it.

use vstd::prelude::*;
use crate::components::{CapabilitySet, Component, ComponentType, EntityId, Row};
use crate::rows::{
    ascending, below, lemma_filter_ascending, lemma_filter_next, lemma_filter_same,
    lemma_slot_unique, live, matching, slot,
};

verus! {

/// Why the store refused an operation.
#[derive(Clone, Copy, Debug, PartialEq, Eq)]
pub enum StoreError {
    /// The handle names no live entity.
    NotFound,
    /// No handle is left to give out.
    IdsExhausted,
}

/// Changes queued while a stage walks the store, applied afterwards in one
/// step.
#[derive(Debug)]
pub struct CommandBuffer {
    /// The entities to destroy.
    pub destroy: Vec<EntityId>,
    /// The rows to create; each gets a new handle in place of its own.
    pub spawn: Vec<Row>,
}

/// The table of live entities.
#[derive(Debug)]
pub struct World {
    rows: Vec<Row>,
    next_id: u64,
}

/// The rows that `destroy` does not name.
pub open spec fn spared(destroy: Seq<EntityId>) -> spec_fn(Row) -> bool {
    |row: Row| !destroy.contains(row.id)
}

/// The rows of `spawn` under new handles, counted up from `next_id`.
pub open spec fn fresh_rows(spawn: Seq<Row>, next_id: int) -> Seq<Row> {
    Seq::new(spawn.len(), |i: int| spawn[i].with_id(EntityId((next_id + i) as u64)))
}

/// The rows after the queued changes: those not destroyed, in their order,
/// then the new ones.
pub open spec fn committed(
    rows: Seq<Row>,
    next_id: int,
    destroy: Seq<EntityId>,
    spawn: Seq<Row>,
) -> Seq<Row> {
    rows.filter(spared(destroy)) + fresh_rows(spawn, next_id)
}

/// Where `destroy` names the handles of the rows that `kept` turns away, and
/// no others, a commit spares the rows that `kept` lets pass.
pub proof fn lemma_spared_by_rule(
    rows: Seq<Row>,
    destroy: Seq<EntityId>,
    kept: spec_fn(Row) -> bool,
)
    requires
        ascending(rows),
        forall|id: EntityId|
            destroy.contains(id) <==> exists|k: int|
                0 <= k < rows.len() && (#[trigger] rows[k]).id == id && !kept(rows[k]),
    ensures
        rows.filter(spared(destroy)) == rows.filter(kept),
{
    assert forall|i: int| 0 <= i < rows.len() implies spared(destroy)(#[trigger] rows[i]) == kept(
        rows[i],
    ) by {
        let id = rows[i].id;
        if destroy.contains(id) {
            let k = choose|k: int|
                0 <= k < rows.len() && (#[trigger] rows[k]).id == id && !kept(rows[k]);
            lemma_slot_unique(rows, k);
            lemma_slot_unique(rows, i);
        }
    }
    lemma_filter_same(rows, spared(destroy), kept);
}

/// How a list of the handles that `kept` turns away grows with the row at
/// place `i`, when the rows before it are listed and only that row may have
/// changed.
pub proof fn lemma_listed_grows(
    earlier: Seq<Row>,
    now: Seq<Row>,
    listed: Seq<EntityId>,
    next: Seq<EntityId>,
    i: int,
    kept: spec_fn(Row) -> bool,
)
    requires
        0 <= i < now.len(),
        now.len() == earlier.len(),
        forall|k: int| 0 <= k < now.len() && k != i ==> #[trigger] now[k] == earlier[k],
        forall|id: EntityId|
            listed.contains(id) <==> exists|k: int|
                0 <= k < i && (#[trigger] earlier[k]).id == id && !kept(earlier[k]),
        next == if kept(now[i]) {
            listed
        } else {
            listed.push(now[i].id)
        },
    ensures
        forall|id: EntityId|
            next.contains(id) <==> exists|k: int|
                0 <= k < i + 1 && (#[trigger] now[k]).id == id && !kept(now[k]),
{
    assert forall|id: EntityId| next.contains(id) <==> exists|k: int|
        0 <= k < i + 1 && (#[trigger] now[k]).id == id && !kept(now[k]) by {
        if next.contains(id) {
            if listed.contains(id) {
                let k = choose|k: int|
                    0 <= k < i && (#[trigger] earlier[k]).id == id && !kept(earlier[k]);
                assert(now[k] == earlier[k]);
            } else {
                let at = choose|at: int| 0 <= at < next.len() && next[at] == id;
                if at < listed.len() {
                    assert(listed[at] == id);
                }
                assert(now[i].id == id);
            }
        }
        if exists|k: int| 0 <= k < i + 1 && (#[trigger] now[k]).id == id && !kept(now[k]) {
            let k = choose|k: int| 0 <= k < i + 1 && (#[trigger] now[k]).id == id && !kept(now[k]);
            if k < i {
                assert(now[k] == earlier[k]);
                assert(listed.contains(id));
                let at = choose|at: int| 0 <= at < listed.len() && listed[at] == id;
                assert(next[at] == id);
            } else {
                assert(next[listed.len() as int] == id);
            }
        }
    }
}

/// A commit that creates nothing leaves the rows that it spares.
pub proof fn lemma_commit_no_spawn(rows: Seq<Row>, next_id: int, destroy: Seq<EntityId>)
    ensures
        committed(rows, next_id, destroy, Seq::<Row>::empty()) == rows.filter(spared(destroy)),
{
    assert(fresh_rows(Seq::<Row>::empty(), next_id) =~= Seq::<Row>::empty());
    assert(rows.filter(spared(destroy)) + Seq::<Row>::empty() =~= rows.filter(spared(destroy)));
}

/// Whether `list` holds `id`.
pub fn holds(list: &Vec<EntityId>, id: EntityId) -> (found: bool)
    ensures
        found == list@.contains(id),
{
    let mut i: usize = 0;
    while i < list.len()
        invariant
            i <= list.len(),
            forall|k: int| 0 <= k < i ==> list@[k] != id,
        decreases list.len() - i,
    {
        if list[i].0 == id.0 {
            assert(list@[i as int] == id);
            return true;
        }
        i += 1;
    }
    false
}

impl CommandBuffer {
    pub fn new() -> (buffer: CommandBuffer)
        ensures
            buffer.destroy@.len() == 0,
            buffer.spawn@.len() == 0,
    {
        CommandBuffer { destroy: Vec::new(), spawn: Vec::new() }
    }
}

impl View for World {
    type V = Seq<Row>;

    closed spec fn view(&self) -> Seq<Row> {
        self.rows@
    }
}

impl World {
    /// The handle that the next new entity gets.
    pub closed spec fn next_id(&self) -> u64 {
        self.next_id
    }

    /// The rows stand in the order of their handles, and every handle given
    /// out so far lies below the next one.
    pub open spec fn wf(&self) -> bool {
        ascending(self@) && below(self@, self.next_id() as int)
    }

    /// The handle was given out and its entity is gone.
    pub open spec fn retired(&self, id: EntityId) -> bool {
        id.0 < self.next_id() && !live(self@, id)
    }

    /// An empty store.
    pub fn new() -> (world: World)
        ensures
            world.wf(),
            world@ == Seq::<Row>::empty(),
            world.next_id() == 0,
    {
        World { rows: Vec::new(), next_id: 0 }
    }

    /// An empty store whose handles start at `first`: every handle below it
    /// counts as given out and gone.
    pub fn starting_at(first: u64) -> (world: World)
        ensures
            world.wf(),
            world@ == Seq::<Row>::empty(),
            world.next_id() == first,
    {
        World { rows: Vec::new(), next_id: first }
    }

    /// How many entities are live.
    pub fn len(&self) -> (n: usize)
        ensures
            n == self@.len(),
    {
        self.rows.len()
    }

    /// The row at one place, counted in the order of creation.
    pub fn row(&self, index: usize) -> (row: Row)
        requires
            index < self@.len(),
        ensures
            row == self@[index as int],
    {
        self.rows[index]
    }

    /// How many handles are left to give out.
    pub fn spare_ids(&self) -> (n: u64)
        ensures
            n == u64::MAX - self.next_id(),
    {
        u64::MAX - self.next_id
    }

    /// Where the row with this handle stands. The rows stand in the order of
    /// their handles, so the search halves the store at each step.
    pub fn find(&self, id: EntityId) -> (place: Option<usize>)
        requires
            self.wf(),
        ensures
            match place {
                Some(i) => live(self@, id) && i == slot(self@, id),
                None => !live(self@, id),
            },
    {
        let mut low: usize = 0;
        let mut high: usize = self.rows.len();
        while low < high
            invariant
                self.wf(),
                low <= high <= self.rows.len(),
                forall|k: int| 0 <= k < low ==> (#[trigger] self.rows@[k]).id.0 < id.0,
                forall|k: int| high <= k < self.rows.len() ==> (#[trigger] self.rows@[k]).id.0 > id.0,
            decreases high - low,
        {
            let middle = low + (high - low) / 2;
            let found = self.rows[middle].id.0;
            if found == id.0 {
                proof {
                    lemma_slot_unique(self@, middle as int);
                }
                return Some(middle);
            } else if found < id.0 {
                assert forall|k: int| 0 <= k < middle + 1 implies (#[trigger] self.rows@[k]).id.0
                    < id.0 by {
                    if k < middle {
                        assert(self.rows@[k].id.0 < self.rows@[middle as int].id.0);
                    }
                }
                low = middle + 1;
            } else {
                assert forall|k: int| middle <= k < self.rows.len() implies (
                #[trigger] self.rows@[k]).id.0 > id.0 by {
                    if k > middle {
                        assert(self.rows@[middle as int].id.0 < self.rows@[k].id.0);
                    }
                }
                high = middle;
            }
        }
        None
    }

    /// Whether the handle names a live entity.
    pub fn contains(&self, id: EntityId) -> (yes: bool)
        requires
            self.wf(),
        ensures
            yes == live(self@, id),
    {
        self.find(id).is_some()
    }

    /// Creates an entity with nothing attached.
    pub fn create_entity(&mut self) -> (made: Result<EntityId, StoreError>)
        requires
            old(self).wf(),
        ensures
            final(self).wf(),
            old(self).next_id() < u64::MAX ==> made == Ok::<EntityId, StoreError>(
                EntityId(old(self).next_id()),
            ) && final(self)@ == old(self)@.push(Row::bare(EntityId(old(self).next_id())))
                && final(self).next_id() == old(self).next_id() + 1,
            old(self).next_id() == u64::MAX ==> made == Err::<EntityId, StoreError>(
                StoreError::IdsExhausted,
            ) && final(self)@ == old(self)@ && final(self).next_id() == old(self).next_id(),
            forall|id: EntityId| old(self).retired(id) ==> final(self).retired(id),
    {
        self.spawn(Row::new(EntityId(0)))
    }

    /// Creates an entity with what `template` has attached; the handle of
    /// `template` is not read.
    pub fn spawn(&mut self, template: Row) -> (made: Result<EntityId, StoreError>)
        requires
            old(self).wf(),
        ensures
            final(self).wf(),
            old(self).next_id() < u64::MAX ==> made == Ok::<EntityId, StoreError>(
                EntityId(old(self).next_id()),
            ) && final(self)@ == old(self)@.push(template.with_id(EntityId(old(self).next_id())))
                && final(self).next_id() == old(self).next_id() + 1,
            old(self).next_id() == u64::MAX ==> made == Err::<EntityId, StoreError>(
                StoreError::IdsExhausted,
            ) && final(self)@ == old(self)@ && final(self).next_id() == old(self).next_id(),
            forall|id: EntityId| old(self).retired(id) ==> final(self).retired(id),
    {
        if self.next_id == u64::MAX {
            return Err(StoreError::IdsExhausted);
        }
        let id = EntityId(self.next_id);
        let mut row = template;
        row.id = id;
        self.rows.push(row);
        self.next_id = self.next_id + 1;
        proof {
            let before = old(self)@;
            let after = self@;
            assert forall|i: int, j: int| 0 <= i < j < after.len() implies (#[trigger] after[i]).id.0
                < (#[trigger] after[j]).id.0 by {
                if j < before.len() {
                    assert(after[i] == before[i] && after[j] == before[j]);
                } else {
                    assert(after[i] == before[i]);
                }
            }
            assert forall|k: EntityId| old(self).retired(k) implies self.retired(k) by {
                if live(after, k) {
                    let i = slot(after, k);
                    if i < before.len() {
                        assert(before[i].id == k);
                    }
                }
            }
        }
        Ok(id)
    }

    /// Attaches a component to a live entity, in place of the one of its
    /// kind.
    pub fn attach(&mut self, id: EntityId, component: Component) -> (done: Result<(), StoreError>)
        requires
            old(self).wf(),
        ensures
            final(self).wf(),
            final(self).next_id() == old(self).next_id(),
            live(old(self)@, id) ==> done == Ok::<(), StoreError>(()) && final(self)@ == old(self)@.update(slot(old(self)@, id), old(self)@[slot(old(self)@, id)].with(component)),
            !live(old(self)@, id) ==> done == Err::<(), StoreError>(StoreError::NotFound) && final(self)@ == old(self)@,
            forall|other: EntityId| old(self).retired(other) ==> final(self).retired(other),
    {
        match self.find(id) {
            Some(i) => {
                let mut row = self.rows[i];
                row.attach(component);
                self.put(i, row);
                Ok(())
            },
            None => Err(StoreError::NotFound),
        }
    }

    /// The component of one kind on a live entity.
    pub fn get(&self, id: EntityId, kind: ComponentType) -> (found: Result<
        Option<Component>,
        StoreError,
    >)
        requires
            self.wf(),
        ensures
            live(self@, id) ==> found == Ok::<Option<Component>, StoreError>(
                self@[slot(self@, id)].component(kind),
            ),
            !live(self@, id) ==> found == Err::<Option<Component>, StoreError>(
                StoreError::NotFound,
            ),
    {
        match self.find(id) {
            Some(i) => Ok(self.rows[i].get(kind)),
            None => Err(StoreError::NotFound),
        }
    }

    /// Destroys a live entity. Its handle names nothing from then on.
    pub fn destroy(&mut self, id: EntityId) -> (done: Result<(), StoreError>)
        requires
            old(self).wf(),
        ensures
            final(self).wf(),
            final(self).next_id() == old(self).next_id(),
            !live(final(self)@, id),
            live(old(self)@, id) ==> done == Ok::<(), StoreError>(()) && final(self)@ == old(self)@.remove(slot(old(self)@, id)),
            !live(old(self)@, id) ==> done == Err::<(), StoreError>(StoreError::NotFound) && final(self)@ == old(self)@,
            forall|other: EntityId| old(self).retired(other) ==> final(self).retired(other),
    {
        match self.find(id) {
            Some(i) => {
                self.rows.remove(i);
                proof {
                    let before = old(self)@;
                    let after = self@;
                    assert forall|a: int| 0 <= a < after.len() implies #[trigger] after[a] == before[if a
                        < i {
                        a
                    } else {
                        a + 1
                    }] by {}
                    assert forall|a: int, b: int| 0 <= a < b < after.len() implies (
                    #[trigger] after[a]).id.0 < (#[trigger] after[b]).id.0 by {
                        let a0 = if a < i { a } else { a + 1 };
                        let b0 = if b < i { b } else { b + 1 };
                        assert(after[a] == before[a0] && after[b] == before[b0]);
                    }
                    assert forall|a: int| 0 <= a < after.len() implies (#[trigger] after[a]).id.0
                        < self.next_id() by {
                        let a0 = if a < i { a } else { a + 1 };
                        assert(after[a] == before[a0]);
                    }
                    assert forall|a: int| 0 <= a < after.len() implies (#[trigger] after[a]).id
                        != id by {
                        let a0 = if a < i { a } else { a + 1 };
                        assert(after[a] == before[a0]);
                        if before[a0].id == id {
                            lemma_slot_unique(before, a0);
                        }
                    }
                    assert forall|other: EntityId| old(self).retired(other) implies self.retired(
                        other,
                    ) by {
                        if live(after, other) {
                            let a = slot(after, other);
                            let a0 = if a < i { a } else { a + 1 };
                            assert(after[a] == before[a0]);
                        }
                    }
                }
                Ok(())
            },
            None => Err(StoreError::NotFound),
        }
    }

    /// The live entities that have what `caps` asks for, in the order of
    /// their creation.
    pub fn query(&self, caps: &CapabilitySet) -> (found: Vec<Row>)
        ensures
            found@ == self@.filter(matching(*caps)),
    {
        let mut found: Vec<Row> = Vec::new();
        let mut i: usize = 0;
        proof {
            assert(self@.take(0) =~= Seq::<Row>::empty());
            reveal(Seq::filter);
        }
        while i < self.rows.len()
            invariant
                i <= self.rows.len(),
                found@ == self@.take(i as int).filter(matching(*caps)),
            decreases self.rows.len() - i,
        {
            let row = self.rows[i];
            proof {
                lemma_filter_next(self@, matching(*caps), i as int);
            }
            if row.has(caps) {
                found.push(row);
            }
            i += 1;
        }
        proof {
            assert(self@.take(i as int) =~= self@);
        }
        found
    }

    /// Puts `row` in the place of the row that has its handle.
    pub fn put(&mut self, index: usize, row: Row)
        requires
            old(self).wf(),
            index < old(self)@.len(),
            row.id == old(self)@[index as int].id,
        ensures
            final(self).wf(),
            final(self).next_id() == old(self).next_id(),
            final(self)@ == old(self)@.update(index as int, row),
            forall|other: EntityId| old(self).retired(other) ==> final(self).retired(other),
    {
        self.rows.set(index, row);
        proof {
            let before = old(self)@;
            let after = self@;
            assert forall|a: int| 0 <= a < after.len() implies (#[trigger] after[a]).id
                == before[a].id by {}
            assert forall|a: int, b: int| 0 <= a < b < after.len() implies (#[trigger] after[a]).id.0
                < (#[trigger] after[b]).id.0 by {
                assert(after[a].id == before[a].id && after[b].id == before[b].id);
            }
            assert forall|a: int| 0 <= a < after.len() implies (#[trigger] after[a]).id.0
                < self.next_id() by {
                assert(after[a].id == before[a].id);
            }
            assert forall|other: EntityId| old(self).retired(other) implies self.retired(other) by {
                if live(after, other) {
                    let a = slot(after, other);
                    assert(after[a].id == before[a].id);
                }
            }
        }
    }

    /// Applies queued changes: destroys what `buffer.destroy` names, then
    /// creates the rows of `buffer.spawn` under new handles. Nothing changes
    /// where the handles left do not suffice.
    pub fn commit(&mut self, buffer: &CommandBuffer) -> (done: Result<(), StoreError>)
        requires
            old(self).wf(),
        ensures
            final(self).wf(),
            old(self).next_id() + buffer.spawn@.len() <= u64::MAX ==> done == Ok::<(), StoreError>(
                (),
            ) && final(self)@ == committed(
                old(self)@,
                old(self).next_id() as int,
                buffer.destroy@,
                buffer.spawn@,
            ) && final(self).next_id() == old(self).next_id() + buffer.spawn@.len(),
            old(self).next_id() + buffer.spawn@.len() > u64::MAX ==> done == Err::<(), StoreError>(
                StoreError::IdsExhausted,
            ) && final(self)@ == old(self)@ && final(self).next_id() == old(self).next_id(),
            forall|id: EntityId| old(self).retired(id) ==> final(self).retired(id),
    {
        let room = u64::MAX - self.next_id;
        if buffer.spawn.len() as u128 > room as u128 {
            return Err(StoreError::IdsExhausted);
        }
        let ghost before = self@;
        let ghost keep = spared(buffer.destroy@);
        let mut kept: Vec<Row> = Vec::new();
        let mut i: usize = 0;
        proof {
            assert(before.take(0) =~= Seq::<Row>::empty());
            reveal(Seq::filter);
        }
        while i < self.rows.len()
            invariant
                i <= self.rows.len(),
                self@ == before,
                keep == spared(buffer.destroy@),
                kept@ == before.take(i as int).filter(keep),
            decreases self.rows.len() - i,
        {
            let row = self.rows[i];
            proof {
                lemma_filter_next(before, keep, i as int);
            }
            if !holds(&buffer.destroy, row.id) {
                kept.push(row);
            }
            i += 1;
        }
        proof {
            assert(before.take(i as int) =~= before);
            lemma_filter_ascending(before, keep, self.next_id as int);
        }
        let ghost survivors = kept@;
        let first = self.next_id;
        let mut j: usize = 0;
        while j < buffer.spawn.len()
            invariant
                j <= buffer.spawn@.len(),
                first + buffer.spawn@.len() <= u64::MAX,
                kept@.len() == survivors.len() + j,
                forall|k: int| 0 <= k < survivors.len() ==> kept@[k] == survivors[k],
                forall|k: int|
                    0 <= k < j ==> #[trigger] kept@[survivors.len() + k] == buffer.spawn@[k].with_id(
                        EntityId((first + k) as u64),
                    ),
            decreases buffer.spawn@.len() - j,
        {
            let mut row = buffer.spawn[j];
            row.id = EntityId(first + j as u64);
            kept.push(row);
            j += 1;
        }
        self.rows = kept;
        self.next_id = first + buffer.spawn.len() as u64;
        proof {
            let after = self@;
            let added = fresh_rows(buffer.spawn@, first as int);
            assert(after =~= survivors + added) by {
                assert forall|k: int| 0 <= k < after.len() implies after[k] == (survivors + added)[k] by {
                    if k >= survivors.len() {
                        assert(after[k] == kept@[survivors.len() + (k - survivors.len())]);
                    }
                }
            }
            assert forall|a: int, b: int| 0 <= a < b < after.len() implies (#[trigger] after[a]).id.0
                < (#[trigger] after[b]).id.0 by {
                if b < survivors.len() {
                    assert(after[a] == survivors[a] && after[b] == survivors[b]);
                } else if a < survivors.len() {
                    assert(after[a] == survivors[a]);
                    assert(after[b] == added[b - survivors.len()]);
                } else {
                    assert(after[a] == added[a - survivors.len()]);
                    assert(after[b] == added[b - survivors.len()]);
                }
            }
            assert forall|a: int| 0 <= a < after.len() implies (#[trigger] after[a]).id.0
                < self.next_id() by {
                if a < survivors.len() {
                    assert(after[a] == survivors[a]);
                } else {
                    assert(after[a] == added[a - survivors.len()]);
                }
            }
            assert forall|id: EntityId| old(self).retired(id) implies self.retired(id) by {
                if live(after, id) {
                    let a = slot(after, id);
                    if a < survivors.len() {
                        assert(after[a] == survivors[a]);
                        assert(survivors.contains(survivors[a]));
                        before.lemma_filter_contains_rev(keep, survivors[a]);
                        let b = choose|b: int| 0 <= b < before.len() && before[b] == survivors[a];
                        assert(before[b].id == id);
                    } else {
                        assert(after[a] == added[a - survivors.len()]);
                    }
                }
            }
        }
        Ok(())
    }
}

} // verus!
