//! The entity store: slots with generation-tagged handles, and component
//! rows physically grouped into archetype tables.
//!
//! Every mutating operation is specified by a total spec-level transition
//! function over the world's view, so the final state is always a function
//! of the old state and the arguments alone.  That pinning is what the
//! determinism laws in `laws` rest on.

use vstd::prelude::*;
use crate::{CompSet, CompType, Component, Entity, SigSet};

verus! {

/// One storage slot: its current generation and whether an entity lives in it.
#[derive(Clone, Copy, PartialEq, Eq, Structural, Debug)]
pub struct Slot {
    pub gen: u64,
    pub live: bool,
}

/// One entity's storage row inside an archetype table.
#[derive(Clone, Copy, PartialEq, Eq, Structural, Debug)]
pub struct Row {
    pub entity: Entity,
    pub comps: CompSet,
}

/// One archetype table: all rows whose component records share `sig`,
/// in insertion order.
#[derive(Clone, Debug)]
pub struct ArchTable {
    pub sig: SigSet,
    pub rows: Vec<Row>,
}

/// The mathematical view of one archetype table.
#[verifier::ext_equal]
pub ghost struct TableV {
    pub sig: SigSet,
    pub rows: Seq<Row>,
}

/// The mathematical view of a whole world.
#[verifier::ext_equal]
pub ghost struct WorldV {
    pub slots: Seq<Slot>,
    pub tables: Seq<TableV>,
}

/// Raised when an operation targets a handle whose slot is dead or whose
/// generation is stale.  `World` methods surface it; a `CommandBuffer`
/// flush absorbs it as a silent no-op.
#[derive(Clone, Copy, PartialEq, Eq, Structural, Debug)]
pub struct StaleEntityError;

/// The entity store.
pub struct World {
    pub slots: Vec<Slot>,
    pub tables: Vec<ArchTable>,
}

impl View for World {
    type V = WorldV;

    open spec fn view(&self) -> WorldV {
        WorldV {
            slots: self.slots@,
            tables: Seq::new(
                self.tables@.len(),
                |i: int| TableV { sig: self.tables@[i].sig, rows: self.tables@[i].rows@ },
            ),
        }
    }
}

/// A slot that a new entity may take: dead, and with room for a further
/// generation bump on its eventual removal.
pub open spec fn slot_free(s: Slot) -> bool {
    !s.live && s.gen < u64::MAX
}

/// The first free slot index at or after `i`, or `slots.len()` if none.
pub open spec fn find_free_from(slots: Seq<Slot>, i: int) -> int
    decreases slots.len() - i
        when 0 <= i <= slots.len()
{
    if i >= slots.len() {
        slots.len() as int
    } else if slot_free(slots[i]) {
        i
    } else {
        find_free_from(slots, i + 1)
    }
}

/// The first table index at or after `i` whose signature is `s`, or
/// `tables.len()` if none.
pub open spec fn find_sig_from(tables: Seq<TableV>, s: SigSet, i: int) -> int
    decreases tables.len() - i
        when 0 <= i <= tables.len()
{
    if i >= tables.len() {
        tables.len() as int
    } else if tables[i].sig == s {
        i
    } else {
        find_sig_from(tables, s, i + 1)
    }
}

/// The first row index at or after `i` holding entity `e`, or `rows.len()`.
pub open spec fn find_row_from(rows: Seq<Row>, e: Entity, i: int) -> int
    decreases rows.len() - i
        when 0 <= i <= rows.len()
{
    if i >= rows.len() {
        rows.len() as int
    } else if rows[i].entity == e {
        i
    } else {
        find_row_from(rows, e, i + 1)
    }
}

/// The first table index at or after `i` that holds a row for `e`, or
/// `tables.len()`.
pub open spec fn find_table_from(tables: Seq<TableV>, e: Entity, i: int) -> int
    decreases tables.len() - i
        when 0 <= i <= tables.len()
{
    if i >= tables.len() {
        tables.len() as int
    } else if find_row_from(tables[i].rows, e, 0) < tables[i].rows.len() {
        i
    } else {
        find_table_from(tables, e, i + 1)
    }
}

/// Whether `e` is a live handle of `v`.
pub open spec fn is_live(v: WorldV, e: Entity) -> bool {
    &&& e.slot < v.slots.len()
    &&& v.slots[e.slot as int].live
    &&& v.slots[e.slot as int].gen == e.gen
}

/// The component record of `e`, if some table holds a row for it.
pub open spec fn lookup(v: WorldV, e: Entity) -> Option<CompSet> {
    let ti = find_table_from(v.tables, e, 0);
    if ti < v.tables.len() {
        let ri = find_row_from(v.tables[ti].rows, e, 0);
        Some(v.tables[ti].rows[ri].comps)
    } else {
        None
    }
}

/// The slot sequence after allocating one entity: the first free slot is
/// revived with its stored generation, or a fresh slot with generation 0 is
/// appended.
pub open spec fn spec_slots_after_create(slots: Seq<Slot>) -> Seq<Slot> {
    let i = find_free_from(slots, 0);
    if i < slots.len() {
        slots.update(i, Slot { gen: slots[i].gen, live: true })
    } else {
        slots.push(Slot { gen: 0, live: true })
    }
}

/// The handle that the next `create` on `v` returns.
pub open spec fn spec_created_entity(v: WorldV) -> Entity {
    let i = find_free_from(v.slots, 0);
    if i < v.slots.len() {
        Entity { slot: i as usize, gen: v.slots[i].gen }
    } else {
        Entity { slot: v.slots.len() as usize, gen: 0 }
    }
}

/// The tables after appending `row` to the first table whose signature
/// matches the row's record, or after opening a new table at the end.
/// Sibling rows are never reordered.
pub open spec fn spec_tables_insert(tables: Seq<TableV>, row: Row) -> Seq<TableV> {
    let s = row.comps.sig();
    let ti = find_sig_from(tables, s, 0);
    if ti < tables.len() {
        tables.update(ti, TableV { sig: s, rows: tables[ti].rows.push(row) })
    } else {
        tables.push(TableV { sig: s, rows: seq![row] })
    }
}

/// The tables after deleting the first row held for `e`, preserving the
/// order of all sibling rows.  Identity if no table holds `e`.
pub open spec fn spec_tables_drop(tables: Seq<TableV>, e: Entity) -> Seq<TableV> {
    let ti = find_table_from(tables, e, 0);
    if ti < tables.len() {
        let ri = find_row_from(tables[ti].rows, e, 0);
        tables.update(ti, TableV { sig: tables[ti].sig, rows: tables[ti].rows.remove(ri) })
    } else {
        tables
    }
}

/// The slots after retiring `slot`: dead, with the generation bumped so the
/// removed handle never aliases a later one.
pub open spec fn spec_slots_retire(slots: Seq<Slot>, slot: int) -> Seq<Slot> {
    let g = slots[slot].gen;
    slots.update(slot, Slot { gen: if g < u64::MAX { (g + 1) as u64 } else { g }, live: false })
}

/// Transition of `World::create`.
pub open spec fn spec_create(v: WorldV, cs: CompSet) -> WorldV {
    WorldV {
        slots: spec_slots_after_create(v.slots),
        tables: spec_tables_insert(v.tables, Row { entity: spec_created_entity(v), comps: cs }),
    }
}

/// Transition of `World::remove`: identity on a stale handle.
pub open spec fn spec_remove(v: WorldV, e: Entity) -> WorldV {
    if is_live(v, e) {
        WorldV {
            slots: spec_slots_retire(v.slots, e.slot as int),
            tables: spec_tables_drop(v.tables, e),
        }
    } else {
        v
    }
}

/// Transition of `World::add_component`: overwrite in place when the entity
/// already has a component of the value's type, otherwise move the row to
/// the table of its new signature.  Identity on a stale handle.
pub open spec fn spec_add_component(v: WorldV, e: Entity, c: Component) -> WorldV {
    if is_live(v, e) && find_table_from(v.tables, e, 0) < v.tables.len() {
        let ti = find_table_from(v.tables, e, 0);
        let ri = find_row_from(v.tables[ti].rows, e, 0);
        let cs = v.tables[ti].rows[ri].comps;
        let cs2 = cs.spec_with(c);
        if cs2.sig() == cs.sig() {
            WorldV {
                slots: v.slots,
                tables: v.tables.update(
                    ti,
                    TableV {
                        sig: v.tables[ti].sig,
                        rows: v.tables[ti].rows.update(ri, Row { entity: e, comps: cs2 }),
                    },
                ),
            }
        } else {
            WorldV {
                slots: v.slots,
                tables: spec_tables_insert(spec_tables_drop(v.tables, e), Row { entity: e, comps: cs2 }),
            }
        }
    } else {
        v
    }
}

/// Transition of `World::remove_component`: identity when the handle is
/// stale or the entity does not have the component; otherwise the row moves
/// to the table of its shrunken signature.  An entity may end with an empty
/// record; it still exists and still counts.
pub open spec fn spec_remove_component(v: WorldV, e: Entity, t: CompType) -> WorldV {
    if is_live(v, e) && find_table_from(v.tables, e, 0) < v.tables.len() {
        let ti = find_table_from(v.tables, e, 0);
        let ri = find_row_from(v.tables[ti].rows, e, 0);
        let cs = v.tables[ti].rows[ri].comps;
        let cs2 = cs.spec_without(t);
        if cs2 == cs {
            v
        } else {
            WorldV {
                slots: v.slots,
                tables: spec_tables_insert(spec_tables_drop(v.tables, e), Row { entity: e, comps: cs2 }),
            }
        }
    } else {
        v
    }
}

/// The number of live entities.
pub open spec fn spec_live_count(slots: Seq<Slot>) -> int
    decreases slots.len(),
{
    if slots.len() == 0 {
        0
    } else {
        spec_live_count(slots.drop_last()) + if slots.last().live { 1int } else { 0int }
    }
}

/// What holds of the index the free-slot search returns.
pub proof fn lemma_find_free_props(slots: Seq<Slot>, i: int)
    requires
        0 <= i <= slots.len(),
    ensures
        i <= find_free_from(slots, i) <= slots.len(),
        find_free_from(slots, i) < slots.len() ==> slot_free(
            slots[find_free_from(slots, i)],
        ),
    decreases slots.len() - i,
{
    if i < slots.len() && !slot_free(slots[i]) {
        lemma_find_free_props(slots, i + 1);
    }
}

/// What holds of the index the signature search returns.
pub proof fn lemma_find_sig_props(tables: Seq<TableV>, s: SigSet, i: int)
    requires
        0 <= i <= tables.len(),
    ensures
        i <= find_sig_from(tables, s, i) <= tables.len(),
        find_sig_from(tables, s, i) < tables.len() ==> tables[find_sig_from(
            tables,
            s,
            i,
        )].sig == s,
        forall|j: int| i <= j < find_sig_from(tables, s, i) ==> (#[trigger] tables[j]).sig != s,
    decreases tables.len() - i,
{
    if i < tables.len() && !(tables[i].sig == s) {
        lemma_find_sig_props(tables, s, i + 1);
    }
}

/// What holds of the index the row search returns.
pub proof fn lemma_find_row_props(rows: Seq<Row>, e: Entity, i: int)
    requires
        0 <= i <= rows.len(),
    ensures
        i <= find_row_from(rows, e, i) <= rows.len(),
        find_row_from(rows, e, i) < rows.len() ==> rows[find_row_from(rows, e, i)].entity
            == e,
        forall|j: int| i <= j < find_row_from(rows, e, i) ==> (#[trigger] rows[j]).entity != e,
    decreases rows.len() - i,
{
    if i < rows.len() && !(rows[i].entity == e) {
        lemma_find_row_props(rows, e, i + 1);
    }
}

/// What holds of the index the entity-table search returns: the found table
/// really holds a row for the entity.
pub proof fn lemma_find_table_props(tables: Seq<TableV>, e: Entity, i: int)
    requires
        0 <= i <= tables.len(),
    ensures
        i <= find_table_from(tables, e, i) <= tables.len(),
        find_table_from(tables, e, i) < tables.len() ==> find_row_from(
            tables[find_table_from(tables, e, i)].rows,
            e,
            0,
        ) < tables[find_table_from(tables, e, i)].rows.len(),
        forall|tj: int, rj: int|
            i <= tj < find_table_from(tables, e, i) && 0 <= rj < tables[tj].rows.len()
                ==> (#[trigger] tables[tj].rows[rj]).entity != e,
    decreases tables.len() - i,
{
    if i < tables.len() && !(find_row_from(tables[i].rows, e, 0) < tables[i].rows.len()) {
        lemma_find_row_props(tables[i].rows, e, 0);
        lemma_find_table_props(tables, e, i + 1);
    }
}

/// Updating one slot shifts the live count by exactly the liveness change.
pub proof fn lemma_live_count_update(slots: Seq<Slot>, i: int, s2: Slot)
    requires
        0 <= i < slots.len(),
    ensures
        spec_live_count(slots.update(i, s2)) == spec_live_count(slots) + (if s2.live {
            1int
        } else {
            0int
        }) - (if slots[i].live {
            1int
        } else {
            0int
        }),
    decreases slots.len(),
{
    if i == slots.len() - 1 {
        assert(slots.update(i, s2).drop_last() =~= slots.drop_last());
        assert(slots.update(i, s2).last() == s2);
    } else {
        assert(slots.update(i, s2).drop_last() =~= slots.drop_last().update(i, s2));
        assert(slots.update(i, s2).last() == slots.last());
        lemma_live_count_update(slots.drop_last(), i, s2);
    }
}

/// Removing a live entity lowers the live count by exactly one and leaves
/// every other live handle alive; removing a stale one changes nothing.
pub proof fn lemma_remove_live_count(v: WorldV, e: Entity)
    ensures
        is_live(v, e) ==> spec_live_count(spec_remove(v, e).slots) == spec_live_count(v.slots)
            - 1,
        !is_live(v, e) ==> spec_remove(v, e) == v,
        forall|x: Entity|
            is_live(v, x) && x != e ==> #[trigger] is_live(spec_remove(v, e), x),
{
    if is_live(v, e) {
        let g = v.slots[e.slot as int].gen;
        let s2 = Slot {
            gen: if g < u64::MAX {
                (g + 1) as u64
            } else {
                g
            },
            live: false,
        };
        assert(spec_remove(v, e).slots =~= v.slots.update(e.slot as int, s2));
        lemma_live_count_update(v.slots, e.slot as int, s2);
        assert forall|x: Entity| is_live(v, x) && x != e implies is_live(
            spec_remove(v, e),
            x,
        ) by {
            if x.slot == e.slot {
                assert(x.gen == v.slots[e.slot as int].gen);
            }
        }
    }
}

/// First free slot index, or `slots.len()` if every slot is occupied.
fn find_free_slot(slots: &Vec<Slot>) -> (r: usize)
    ensures
        r as int == find_free_from(slots@, 0),
{
    let n = slots.len();
    let mut i: usize = 0;
    while i < n
        invariant
            0 <= i <= n == slots@.len(),
            find_free_from(slots@, 0) == find_free_from(slots@, i as int),
        decreases n - i,
    {
        if !slots[i].live && slots[i].gen < u64::MAX {
            return i;
        }
        i = i + 1;
    }
    i
}

/// First table index with signature `s`, or `tables.len()`.
fn find_table_sig(tables: &Vec<ArchTable>, s: SigSet, Ghost(v): Ghost<WorldV>) -> (r: usize)
    requires
        v.tables.len() == tables@.len(),
        forall|i: int| 0 <= i < tables@.len() ==> v.tables[i].sig == tables@[i].sig,
    ensures
        r as int == find_sig_from(v.tables, s, 0),
{
    let n = tables.len();
    let mut i: usize = 0;
    while i < n
        invariant
            0 <= i <= n == tables@.len() == v.tables.len(),
            forall|j: int| 0 <= j < tables@.len() ==> v.tables[j].sig == tables@[j].sig,
            find_sig_from(v.tables, s, 0) == find_sig_from(v.tables, s, i as int),
        decreases n - i,
    {
        if tables[i].sig == s {
            return i;
        }
        i = i + 1;
    }
    i
}

/// First row index in `rows` holding `e`, or `rows.len()`.
fn find_row_in(rows: &Vec<Row>, e: Entity) -> (r: usize)
    ensures
        r as int == find_row_from(rows@, e, 0),
{
    let n = rows.len();
    let mut i: usize = 0;
    while i < n
        invariant
            0 <= i <= n == rows@.len(),
            find_row_from(rows@, e, 0) == find_row_from(rows@, e, i as int),
        decreases n - i,
    {
        if rows[i].entity == e {
            return i;
        }
        i = i + 1;
    }
    i
}

/// First table index holding a row for `e`, or `tables.len()`.
fn find_entity_table(tables: &Vec<ArchTable>, e: Entity, Ghost(v): Ghost<WorldV>) -> (r: usize)
    requires
        v.tables.len() == tables@.len(),
        forall|i: int| 0 <= i < tables@.len() ==> v.tables[i].rows == tables@[i].rows@,
    ensures
        r as int == find_table_from(v.tables, e, 0),
{
    let n = tables.len();
    let mut i: usize = 0;
    while i < n
        invariant
            0 <= i <= n == tables@.len() == v.tables.len(),
            forall|j: int| 0 <= j < tables@.len() ==> v.tables[j].rows == tables@[j].rows@,
            find_table_from(v.tables, e, 0) == find_table_from(v.tables, e, i as int),
        decreases n - i,
    {
        let ri = find_row_in(&tables[i].rows, e);
        if ri < tables[i].rows.len() {
            return i;
        }
        i = i + 1;
    }
    i
}

impl World {
    /// A world with no entities and no archetype tables.
    pub fn new() -> (w: World)
        ensures
            w@.slots.len() == 0,
            w@.tables.len() == 0,
            world_wf(w@),
    {
        World { slots: Vec::new(), tables: Vec::new() }
    }

    /// The number of live entities.
    pub fn count(&self) -> (r: usize)
        ensures
            r as int == spec_live_count(self@.slots),
    {
        let n = self.slots.len();
        let mut i: usize = 0;
        let mut cnt: usize = 0;
        while i < n
            invariant
                0 <= i <= n == self.slots@.len(),
                cnt as int == spec_live_count(self.slots@.take(i as int)),
                cnt <= i,
            decreases n - i,
        {
            proof {
                assert(self.slots@.take(i + 1).drop_last() =~= self.slots@.take(i as int));
                assert(self.slots@.take(i + 1).last() == self.slots@[i as int]);
            }
            if self.slots[i].live {
                cnt = cnt + 1;
            }
            i = i + 1;
        }
        proof {
            assert(self.slots@.take(n as int) =~= self.slots@);
        }
        cnt
    }

    /// Whether `e` is a live handle.
    pub fn contains(&self, e: Entity) -> (r: bool)
        ensures
            r == is_live(self@, e),
    {
        e.slot < self.slots.len() && self.slots[e.slot].live && self.slots[e.slot].gen == e.gen
    }

    /// The component record of the entity behind `e`, if any table holds a
    /// row for it.
    pub fn get_components(&self, e: Entity) -> (r: Option<CompSet>)
        ensures
            r == lookup(self@, e),
    {
        proof {
            lemma_find_table_props(self@.tables, e, 0);
            if find_table_from(self@.tables, e, 0) < self@.tables.len() {
                lemma_find_row_props(self@.tables[find_table_from(self@.tables, e, 0)].rows, e, 0);
            }
        }
        let ti = find_entity_table(&self.tables, e, Ghost(self@));
        if ti < self.tables.len() {
            let ri = find_row_in(&self.tables[ti].rows, e);
            Some(self.tables[ti].rows[ri].comps)
        } else {
            None
        }
    }

    /// Create one entity with the component record `cs` and return its
    /// handle.  The row is appended to the table of its signature, so
    /// sibling order is preserved, and the handle's slot is either a retired
    /// slot revived under a fresh generation or a brand-new one.
    pub fn create(&mut self, cs: CompSet) -> (e: Entity)
        ensures
            final(self)@ == spec_create(old(self)@, cs),
            e == spec_created_entity(old(self)@),
            is_live(final(self)@, e),
            !is_live(old(self)@, e),
    {
        let ghost v0 = self@;
        proof {
            lemma_find_free_props(v0.slots, 0);
            lemma_find_sig_props(v0.tables, cs.sig(), 0);
        }
        let si = find_free_slot(&self.slots);
        let e: Entity;
        if si < self.slots.len() {
            let g = self.slots[si].gen;
            self.slots[si] = Slot { gen: g, live: true };
            e = Entity { slot: si, gen: g };
        } else {
            self.slots.push(Slot { gen: 0, live: true });
            e = Entity { slot: si, gen: 0 };
        }
        proof {
            assert(self.slots@ =~= spec_slots_after_create(v0.slots));
        }
        let row = Row { entity: e, comps: cs };
        let sg = cs.sig_of();
        let ti = find_table_sig(&self.tables, sg, Ghost(v0));
        if ti < self.tables.len() {
            self.tables[ti].rows.push(row);
        } else {
            let mut rows: Vec<Row> = Vec::new();
            rows.push(row);
            self.tables.push(ArchTable { sig: sg, rows });
        }
        proof {
            assert(self@.tables =~~= spec_tables_insert(v0.tables, row));
            assert(self@ =~~= spec_create(v0, cs));
        }
        e
    }

    /// Create one entity per record in `batch`, in input order: the k-th
    /// returned handle is the entity of the k-th record.  Grouping by
    /// archetype happens exactly as under repeated single `create` calls.
    pub fn create_batch(&mut self, batch: &Vec<CompSet>) -> (es: Vec<Entity>)
        ensures
            final(self)@ == spec_create_batch(old(self)@, batch@),
            es@ == spec_created_batch(old(self)@, batch@),
            es@.len() == batch@.len(),
            old(self)@.slots.len() + batch@.len() <= usize::MAX ==> ((forall|i: int, j: int|
                0 <= i < j < es@.len() ==> (#[trigger] es@[i]) != (#[trigger] es@[j])) && (
            forall|i: int| 0 <= i < es@.len() ==> !is_live(old(self)@, #[trigger] es@[i])) && (
            forall|i: int| 0 <= i < es@.len() ==> is_live(final(self)@, #[trigger] es@[i]))),
    {
        let ghost v0 = self@;
        let n = batch.len();
        let mut es: Vec<Entity> = Vec::new();
        let mut i: usize = 0;
        while i < n
            invariant
                0 <= i <= n == batch@.len(),
                es@.len() == i,
                self@ == spec_create_batch(v0, batch@.take(i as int)),
                es@ == spec_created_batch(v0, batch@.take(i as int)),
            decreases n - i,
        {
            proof {
                assert(batch@.take(i + 1).drop_last() =~= batch@.take(i as int));
                assert(batch@.take(i + 1).last() == batch@[i as int]);
            }
            let e = self.create(batch[i]);
            es.push(e);
            i = i + 1;
        }
        proof {
            assert(batch@.take(n as int) =~= batch@);
            if v0.slots.len() + batch@.len() <= usize::MAX {
                lemma_created_batch_distinct(v0, batch@);
            }
        }
        es
    }

    /// Remove the entity behind `e`.  On a stale handle the world is
    /// unchanged and `StaleEntityError` is returned; otherwise the row is
    /// deleted (sibling order preserved) and the slot retired under a
    /// bumped generation.
    pub fn remove(&mut self, e: Entity) -> (r: Result<(), StaleEntityError>)
        ensures
            final(self)@ == spec_remove(old(self)@, e),
            r is Ok <==> is_live(old(self)@, e),
    {
        let ghost v0 = self@;
        proof {
            lemma_find_table_props(v0.tables, e, 0);
            if find_table_from(v0.tables, e, 0) < v0.tables.len() {
                lemma_find_row_props(v0.tables[find_table_from(v0.tables, e, 0)].rows, e, 0);
            }
        }
        if !self.contains(e) {
            return Err(StaleEntityError);
        }
        let g = self.slots[e.slot].gen;
        let g2: u64 = if g < u64::MAX { g + 1 } else { g };
        self.slots[e.slot] = Slot { gen: g2, live: false };
        proof {
            assert(self.slots@ =~= spec_slots_retire(v0.slots, e.slot as int));
        }
        let ti = find_entity_table(&self.tables, e, Ghost(v0));
        if ti < self.tables.len() {
            let ri = find_row_in(&self.tables[ti].rows, e);
            self.tables[ti].rows.remove(ri);
        }
        proof {
            assert(self@.tables =~~= spec_tables_drop(v0.tables, e));
            assert(self@ =~~= spec_remove(v0, e));
        }
        Ok(())
    }

    /// Store component `c` on the entity behind `e`, overwriting a value of
    /// the same type, moving the row to its new archetype table otherwise.
    /// All other component values of the entity are preserved exactly.
    pub fn add_component(&mut self, e: Entity, c: Component) -> (r: Result<(), StaleEntityError>)
        ensures
            final(self)@ == spec_add_component(old(self)@, e, c),
            r is Ok <==> is_live(old(self)@, e),
    {
        let ghost v0 = self@;
        proof {
            lemma_find_table_props(v0.tables, e, 0);
            if find_table_from(v0.tables, e, 0) < v0.tables.len() {
                lemma_find_row_props(v0.tables[find_table_from(v0.tables, e, 0)].rows, e, 0);
            }
        }
        if !self.contains(e) {
            return Err(StaleEntityError);
        }
        let ti = find_entity_table(&self.tables, e, Ghost(v0));
        if ti < self.tables.len() {
            let ri = find_row_in(&self.tables[ti].rows, e);
            let cs = self.tables[ti].rows[ri].comps;
            let cs2 = cs.with(c);
            if cs2.sig_of() == cs.sig_of() {
                self.tables[ti].rows[ri] = Row { entity: e, comps: cs2 };
            } else {
                self.tables[ti].rows.remove(ri);
                let ghost vmid = self@;
                proof {
                    assert(vmid.tables =~~= spec_tables_drop(v0.tables, e));
                    lemma_find_sig_props(vmid.tables, cs2.sig(), 0);
                }
                let row = Row { entity: e, comps: cs2 };
                let sg = cs2.sig_of();
                let tj = find_table_sig(&self.tables, sg, Ghost(vmid));
                if tj < self.tables.len() {
                    self.tables[tj].rows.push(row);
                } else {
                    let mut rows: Vec<Row> = Vec::new();
                    rows.push(row);
                    self.tables.push(ArchTable { sig: sg, rows });
                }
                proof {
                    assert(self@.tables =~~= spec_tables_insert(vmid.tables, row));
                }
            }
        }
        proof {
            assert(self@ =~~= spec_add_component(v0, e, c));
        }
        Ok(())
    }

    /// Drop the component of type `t` from the entity behind `e`; a silent
    /// no-op when the entity does not have one.  All other component values
    /// are preserved exactly.
    pub fn remove_component(&mut self, e: Entity, t: CompType) -> (r: Result<
        (),
        StaleEntityError,
    >)
        ensures
            final(self)@ == spec_remove_component(old(self)@, e, t),
            r is Ok <==> is_live(old(self)@, e),
    {
        let ghost v0 = self@;
        proof {
            lemma_find_table_props(v0.tables, e, 0);
            if find_table_from(v0.tables, e, 0) < v0.tables.len() {
                lemma_find_row_props(v0.tables[find_table_from(v0.tables, e, 0)].rows, e, 0);
            }
        }
        if !self.contains(e) {
            return Err(StaleEntityError);
        }
        let ti = find_entity_table(&self.tables, e, Ghost(v0));
        if ti < self.tables.len() {
            let ri = find_row_in(&self.tables[ti].rows, e);
            let cs = self.tables[ti].rows[ri].comps;
            let cs2 = cs.without(t);
            if !(cs2.sig_of() == cs.sig_of()) {
                self.tables[ti].rows.remove(ri);
                let ghost vmid = self@;
                proof {
                    assert(vmid.tables =~~= spec_tables_drop(v0.tables, e));
                    lemma_find_sig_props(vmid.tables, cs2.sig(), 0);
                }
                let row = Row { entity: e, comps: cs2 };
                let sg = cs2.sig_of();
                let tj = find_table_sig(&self.tables, sg, Ghost(vmid));
                if tj < self.tables.len() {
                    self.tables[tj].rows.push(row);
                } else {
                    let mut rows: Vec<Row> = Vec::new();
                    rows.push(row);
                    self.tables.push(ArchTable { sig: sg, rows });
                }
                proof {
                    assert(self@.tables =~~= spec_tables_insert(vmid.tables, row));
                }
            } else {
                proof {
                    assert(cs2 =~= cs);
                }
            }
        }
        proof {
            assert(self@ =~~= spec_remove_component(v0, e, t));
        }
        Ok(())
    }
}

/// A creation never kills another entity: liveness is preserved.
pub proof fn lemma_create_keeps_live(v: WorldV, cs: CompSet, x: Entity)
    requires
        is_live(v, x),
    ensures
        is_live(spec_create(v, cs), x),
{
    lemma_find_free_props(v.slots, 0);
}

/// The handle a creation returns was not live beforehand.
pub proof fn lemma_created_fresh(v: WorldV)
    requires
        v.slots.len() <= usize::MAX,
    ensures
        !is_live(v, spec_created_entity(v)),
{
    lemma_find_free_props(v.slots, 0);
}

/// Batch creation preserves liveness of every existing entity.
pub proof fn lemma_create_batch_keeps_live(v: WorldV, batch: Seq<CompSet>, x: Entity)
    requires
        is_live(v, x),
    ensures
        is_live(spec_create_batch(v, batch), x),
    decreases batch.len(),
{
    if batch.len() > 0 {
        lemma_create_batch_keeps_live(v, batch.drop_last(), x);
        lemma_create_keeps_live(spec_create_batch(v, batch.drop_last()), batch.last(), x);
    }
}

/// The handles a batch returns are pairwise distinct, none of them live
/// before the call, and all of them live after it — whatever archetype
/// tables the rows land in.
pub proof fn lemma_created_batch_distinct(v: WorldV, batch: Seq<CompSet>)
    requires
        v.slots.len() + batch.len() <= usize::MAX,
    ensures
        spec_created_batch(v, batch).len() == batch.len(),
        forall|i: int, j: int|
            0 <= i < j < batch.len() ==> (#[trigger] spec_created_batch(v, batch)[i]) != (
            #[trigger] spec_created_batch(v, batch)[j]),
        forall|i: int|
            0 <= i < batch.len() ==> !is_live(v, #[trigger] spec_created_batch(v, batch)[i]),
        forall|i: int|
            0 <= i < batch.len() ==> is_live(
                spec_create_batch(v, batch),
                #[trigger] spec_created_batch(v, batch)[i],
            ),
        spec_create_batch(v, batch).slots.len() <= v.slots.len() + batch.len(),
    decreases batch.len(),
{
    if batch.len() > 0 {
        let pre = batch.drop_last();
        lemma_created_batch_distinct(v, pre);
        let wpre = spec_create_batch(v, pre);
        let es_pre = spec_created_batch(v, pre);
        let es = spec_created_batch(v, batch);
        let elast = spec_created_entity(wpre);
        lemma_created_fresh(wpre);
        lemma_find_free_props(wpre.slots, 0);
        assert(es =~= es_pre.push(elast));
        assert(is_live(spec_create_batch(v, batch), elast));
        assert forall|i: int| 0 <= i < pre.len() implies (#[trigger] es[i]) != elast by {
            assert(es[i] == es_pre[i]);
            assert(is_live(wpre, es_pre[i]));
        }
        if is_live(v, elast) {
            lemma_create_batch_keeps_live(v, pre, elast);
            assert(false);
        }
        assert forall|i: int| 0 <= i < batch.len() implies is_live(
            spec_create_batch(v, batch),
            #[trigger] es[i],
        ) by {
            if i < pre.len() {
                assert(is_live(wpre, es_pre[i]));
                lemma_create_keeps_live(wpre, batch.last(), es_pre[i]);
            }
        }
    }
}

/// Each creation raises the live count by exactly one: it revives a dead
/// slot or opens a fresh live one.
pub proof fn lemma_create_live_count(v: WorldV, cs: CompSet)
    ensures
        spec_live_count(spec_create(v, cs).slots) == spec_live_count(v.slots) + 1,
{
    lemma_find_free_props(v.slots, 0);
    let fi = find_free_from(v.slots, 0);
    if fi < v.slots.len() {
        lemma_live_count_update(v.slots, fi, Slot { gen: v.slots[fi].gen, live: true });
    } else {
        let s2 = Slot { gen: 0, live: true };
        assert(v.slots.push(s2).drop_last() =~= v.slots);
        assert(v.slots.push(s2).last() == s2);
    }
}

/// A batch raises the live count by exactly its size.
pub proof fn lemma_create_batch_live_count(v: WorldV, batch: Seq<CompSet>)
    ensures
        spec_live_count(spec_create_batch(v, batch).slots) == spec_live_count(v.slots)
            + batch.len(),
    decreases batch.len(),
{
    if batch.len() > 0 {
        lemma_create_batch_live_count(v, batch.drop_last());
        lemma_create_live_count(spec_create_batch(v, batch.drop_last()), batch.last());
    }
}

/// Transition of `World::create_batch`: repeated single creation, front to
/// back.
pub open spec fn spec_create_batch(v: WorldV, batch: Seq<CompSet>) -> WorldV
    decreases batch.len(),
{
    if batch.len() == 0 {
        v
    } else {
        spec_create(spec_create_batch(v, batch.drop_last()), batch.last())
    }
}

/// The handles that `World::create_batch` returns, in input order.
pub open spec fn spec_created_batch(v: WorldV, batch: Seq<CompSet>) -> Seq<Entity>
    decreases batch.len(),
{
    if batch.len() == 0 {
        Seq::empty()
    } else {
        spec_created_batch(v, batch.drop_last()).push(
            spec_created_entity(spec_create_batch(v, batch.drop_last())),
        )
    }
}

/// The structural clauses of the store invariant: table signatures are
/// distinct; every row's record matches its table's signature; every row's
/// entity is a live handle; and no two rows hold the same slot.
pub open spec fn wf_rows(v: WorldV) -> bool {
    &&& forall|ti: int, tj: int|
        0 <= ti < tj < v.tables.len() ==> (#[trigger] v.tables[ti]).sig != (
        #[trigger] v.tables[tj]).sig
    &&& forall|ti: int, ri: int|
        0 <= ti < v.tables.len() && 0 <= ri < v.tables[ti].rows.len() ==> (
        #[trigger] v.tables[ti].rows[ri]).comps.sig() == v.tables[ti].sig
    &&& forall|ti: int, ri: int|
        0 <= ti < v.tables.len() && 0 <= ri < v.tables[ti].rows.len() ==> is_live(
            v,
            (#[trigger] v.tables[ti].rows[ri]).entity,
        )
    &&& forall|ti: int, ri: int, tj: int, rj: int|
        0 <= ti < v.tables.len() && 0 <= ri < v.tables[ti].rows.len() && 0 <= tj < v.tables.len()
            && 0 <= rj < v.tables[tj].rows.len() && !(ti == tj && ri == rj) ==> (
        #[trigger] v.tables[ti].rows[ri]).entity.slot != (
        #[trigger] v.tables[tj].rows[rj]).entity.slot
}

/// Some table holds a row for `e`.
pub open spec fn has_row(v: WorldV, e: Entity) -> bool {
    exists|ti: int, ri: int|
        0 <= ti < v.tables.len() && 0 <= ri < v.tables[ti].rows.len() && (
        #[trigger] v.tables[ti].rows[ri]).entity == e
}

/// Slot `s`, if live, is backed by a row.
pub open spec fn covered(v: WorldV, s: int) -> bool {
    v.slots[s].live ==> has_row(v, Entity { slot: s as usize, gen: v.slots[s].gen })
}

/// The store invariant: the structural clauses, and every live slot backed
/// by a row.  `World::new` establishes it and every mutating operation
/// preserves it — so no two live entities ever share a handle, and every
/// live entity has exactly one storage row.
pub open spec fn world_wf(v: WorldV) -> bool {
    &&& wf_rows(v)
    &&& forall|s: int| 0 <= s < v.slots.len() ==> covered(v, s)
}

/// The invariant short of coverage for one slot: what holds between taking
/// an entity's row out and putting its replacement in.
pub open spec fn world_wf_minus(v: WorldV, x: int) -> bool {
    &&& wf_rows(v)
    &&& forall|s: int| 0 <= s < v.slots.len() && s != x ==> covered(v, s)
}

/// No row of `v` occupies the slot of `e`'s handle.
pub open spec fn slot_unused(v: WorldV, x: int) -> bool {
    forall|ti: int, ri: int|
        0 <= ti < v.tables.len() && 0 <= ri < v.tables[ti].rows.len() ==> (
        #[trigger] v.tables[ti].rows[ri]).entity.slot != x
}

/// Inserting a row for a live, so-far-rowless handle restores the full
/// invariant.
pub proof fn lemma_insert_restores_wf(v: WorldV, row: Row)
    requires
        world_wf_minus(v, row.entity.slot as int),
        slot_unused(v, row.entity.slot as int),
        is_live(v, row.entity),
        v.slots.len() <= usize::MAX,
    ensures
        world_wf(WorldV { slots: v.slots, tables: spec_tables_insert(v.tables, row) }),
{
    let s = row.comps.sig();
    lemma_find_sig_props(v.tables, s, 0);
    let ti = find_sig_from(v.tables, s, 0);
    let v2 = WorldV { slots: v.slots, tables: spec_tables_insert(v.tables, row) };
    if ti < v.tables.len() {
        assert(v2.tables[ti].rows.last() == row);
        assert forall|k: int| 0 <= k < v.slots.len() implies covered(v2, k) by {
            if v.slots[k].live {
                if k == row.entity.slot as int {
                    assert(v2.tables[ti].rows[v.tables[ti].rows.len() as int] == row);
                    assert(row.entity == (Entity { slot: k as usize, gen: v.slots[k].gen }));
                } else {
                    assert(covered(v, k));
                    assert(has_row(v, Entity { slot: k as usize, gen: v.slots[k].gen }));
                    let (a, b) = choose|a: int, b: int|
                        0 <= a < v.tables.len() && 0 <= b < v.tables[a].rows.len() && (
                        #[trigger] v.tables[a].rows[b]).entity == (Entity {
                            slot: k as usize,
                            gen: v.slots[k].gen,
                        });
                    assert(v2.tables[a].rows[b].entity == (Entity {
                        slot: k as usize,
                        gen: v.slots[k].gen,
                    }));
                }
            }
        }
    } else {
        assert(v2.tables.last().rows[0] == row);
        assert forall|k: int| 0 <= k < v.slots.len() implies covered(v2, k) by {
            if v.slots[k].live {
                if k == row.entity.slot as int {
                    assert(v2.tables[v.tables.len() as int].rows[0] == row);
                    assert(row.entity == (Entity { slot: k as usize, gen: v.slots[k].gen }));
                } else {
                    assert(covered(v, k));
                    assert(has_row(v, Entity { slot: k as usize, gen: v.slots[k].gen }));
                    let (a, b) = choose|a: int, b: int|
                        0 <= a < v.tables.len() && 0 <= b < v.tables[a].rows.len() && (
                        #[trigger] v.tables[a].rows[b]).entity == (Entity {
                            slot: k as usize,
                            gen: v.slots[k].gen,
                        });
                    assert(v2.tables[a].rows[b].entity == (Entity {
                        slot: k as usize,
                        gen: v.slots[k].gen,
                    }));
                }
            }
        }
    }
}

/// Dropping a live entity's row keeps the structural clauses, leaves every
/// other live slot covered, and leaves the entity's slot rowless.
pub proof fn lemma_drop_keeps_wf(v: WorldV, e: Entity)
    requires
        world_wf(v),
        is_live(v, e),
        v.slots.len() <= usize::MAX,
    ensures
        world_wf_minus(WorldV { slots: v.slots, tables: spec_tables_drop(v.tables, e) }, e.slot as int),
        slot_unused(WorldV { slots: v.slots, tables: spec_tables_drop(v.tables, e) }, e.slot as int),
{
    lemma_find_table_props(v.tables, e, 0);
    let ti = find_table_from(v.tables, e, 0);
    let v2 = WorldV { slots: v.slots, tables: spec_tables_drop(v.tables, e) };
    if ti < v.tables.len() {
        lemma_find_row_props(v.tables[ti].rows, e, 0);
        let ri = find_row_from(v.tables[ti].rows, e, 0);
        // every remaining row of table ti is one of the old rows, index shifted
        assert forall|rj: int|
            0 <= rj < v2.tables[ti].rows.len() implies #[trigger] v2.tables[ti].rows[rj] == (
        if rj < ri {
            v.tables[ti].rows[rj]
        } else {
            v.tables[ti].rows[rj + 1]
        }) by {}
        assert forall|k: int|
            0 <= k < v.slots.len() && k != e.slot as int implies covered(v2, k) by {
            if v.slots[k].live {
                assert(covered(v, k));
                assert(has_row(v, Entity { slot: k as usize, gen: v.slots[k].gen }));
                let (a, b) = choose|a: int, b: int|
                    0 <= a < v.tables.len() && 0 <= b < v.tables[a].rows.len() && (
                    #[trigger] v.tables[a].rows[b]).entity == (Entity {
                        slot: k as usize,
                        gen: v.slots[k].gen,
                    });
                if a != ti {
                    assert(v2.tables[a].rows[b].entity == (Entity {
                        slot: k as usize,
                        gen: v.slots[k].gen,
                    }));
                } else if b < ri {
                    assert(v2.tables[a].rows[b].entity == (Entity {
                        slot: k as usize,
                        gen: v.slots[k].gen,
                    }));
                } else if b > ri {
                    assert(v2.tables[a].rows[b - 1].entity == (Entity {
                        slot: k as usize,
                        gen: v.slots[k].gen,
                    }));
                } else {
                    assert(v.tables[a].rows[b].entity == e);
                    assert(false);
                }
            }
        }
        assert forall|a: int, b: int|
            0 <= a < v2.tables.len() && 0 <= b < v2.tables[a].rows.len() implies (
        #[trigger] v2.tables[a].rows[b]).entity.slot != e.slot as int by {
            if a == ti {
                if b < ri {
                    assert(v2.tables[a].rows[b] == v.tables[a].rows[b]);
                    assert(v.tables[a].rows[b].entity.slot != v.tables[ti].rows[ri].entity.slot);
                } else {
                    assert(v2.tables[a].rows[b] == v.tables[a].rows[b + 1]);
                    assert(v.tables[a].rows[b + 1].entity.slot != v.tables[ti].rows[
                        ri
                    ].entity.slot);
                }
            } else {
                assert(v2.tables[a].rows[b] == v.tables[a].rows[b]);
                assert(v.tables[a].rows[b].entity.slot != v.tables[ti].rows[ri].entity.slot);
            }
        }
    } else {
        assert(covered(v, e.slot as int));
        assert((Entity { slot: (e.slot as int) as usize, gen: v.slots[e.slot as int].gen }) == e);
        assert(has_row(v, e));
        assert(false);
    }
}

/// `World::create` preserves the store invariant.
pub proof fn lemma_create_preserves_wf(v: WorldV, cs: CompSet)
    requires
        world_wf(v),
        v.slots.len() < usize::MAX,
    ensures
        world_wf(spec_create(v, cs)),
{
    lemma_find_free_props(v.slots, 0);
    let e = spec_created_entity(v);
    let row = Row { entity: e, comps: cs };
    let fi = find_free_from(v.slots, 0);
    let vmid = WorldV { slots: spec_slots_after_create(v.slots), tables: v.tables };
    assert forall|a: int, b: int|
        0 <= a < vmid.tables.len() && 0 <= b < vmid.tables[a].rows.len() implies is_live(
        vmid,
        (#[trigger] vmid.tables[a].rows[b]).entity,
    ) by {
        assert(is_live(v, v.tables[a].rows[b].entity));
        assert(v.tables[a].rows[b].entity.slot != fi);
    }
    assert forall|k: int|
        0 <= k < vmid.slots.len() && k != e.slot as int implies covered(vmid, k) by {
        if vmid.slots[k].live {
            assert(vmid.slots[k] == v.slots[k]);
            assert(covered(v, k));
        }
    }
    assert(world_wf_minus(vmid, e.slot as int));
    assert(slot_unused(vmid, e.slot as int));
    assert(is_live(vmid, e));
    lemma_insert_restores_wf(vmid, row);
    assert(spec_create(v, cs) == (WorldV {
        slots: vmid.slots,
        tables: spec_tables_insert(vmid.tables, row),
    }));
}

/// `World::remove` preserves the store invariant.
pub proof fn lemma_remove_preserves_wf(v: WorldV, e: Entity)
    requires
        world_wf(v),
        v.slots.len() <= usize::MAX,
    ensures
        world_wf(spec_remove(v, e)),
{
    if is_live(v, e) {
        lemma_drop_keeps_wf(v, e);
        let vd = WorldV { slots: v.slots, tables: spec_tables_drop(v.tables, e) };
        let v2 = spec_remove(v, e);
        assert(v2.tables == vd.tables);
        assert forall|a: int, b: int|
            0 <= a < v2.tables.len() && 0 <= b < v2.tables[a].rows.len() implies is_live(
            v2,
            (#[trigger] v2.tables[a].rows[b]).entity,
        ) by {
            assert(is_live(vd, vd.tables[a].rows[b].entity));
            assert(vd.tables[a].rows[b].entity.slot != e.slot as int);
        }
        assert forall|s: int| 0 <= s < v2.slots.len() implies covered(v2, s) by {
            if s != e.slot as int && v2.slots[s].live {
                assert(covered(vd, s));
                assert(has_row(vd, Entity { slot: s as usize, gen: vd.slots[s].gen }));
                let (a, b) = choose|a: int, b: int|
                    0 <= a < vd.tables.len() && 0 <= b < vd.tables[a].rows.len() && (
                    #[trigger] vd.tables[a].rows[b]).entity == (Entity {
                        slot: s as usize,
                        gen: vd.slots[s].gen,
                    });
                assert(v2.tables[a].rows[b].entity == (Entity {
                    slot: s as usize,
                    gen: v2.slots[s].gen,
                }));
            }
        }
    }
}

/// `World::add_component` preserves the store invariant.
pub proof fn lemma_add_component_preserves_wf(v: WorldV, e: Entity, c: Component)
    requires
        world_wf(v),
        v.slots.len() <= usize::MAX,
    ensures
        world_wf(spec_add_component(v, e, c)),
{
    if is_live(v, e) && find_table_from(v.tables, e, 0) < v.tables.len() {
        lemma_find_table_props(v.tables, e, 0);
        let ti = find_table_from(v.tables, e, 0);
        lemma_find_row_props(v.tables[ti].rows, e, 0);
        let ri = find_row_from(v.tables[ti].rows, e, 0);
        let cs = v.tables[ti].rows[ri].comps;
        let cs2 = cs.spec_with(c);
        if cs2.sig() == cs.sig() {
            let v2 = spec_add_component(v, e, c);
            assert forall|s: int| 0 <= s < v2.slots.len() implies covered(v2, s) by {
                if v2.slots[s].live {
                    assert(covered(v, s));
                    assert(has_row(v, Entity { slot: s as usize, gen: v.slots[s].gen }));
                    let (a, b) = choose|a: int, b: int|
                        0 <= a < v.tables.len() && 0 <= b < v.tables[a].rows.len() && (
                        #[trigger] v.tables[a].rows[b]).entity == (Entity {
                            slot: s as usize,
                            gen: v.slots[s].gen,
                        });
                    assert(v2.tables[a].rows[b].entity == (Entity {
                        slot: s as usize,
                        gen: v.slots[s].gen,
                    }));
                }
            }
        } else {
            lemma_drop_keeps_wf(v, e);
            let vd = WorldV { slots: v.slots, tables: spec_tables_drop(v.tables, e) };
            lemma_insert_restores_wf(vd, Row { entity: e, comps: cs2 });
        }
    }
}

/// `World::remove_component` preserves the store invariant.
pub proof fn lemma_remove_component_preserves_wf(v: WorldV, e: Entity, t: CompType)
    requires
        world_wf(v),
        v.slots.len() <= usize::MAX,
    ensures
        world_wf(spec_remove_component(v, e, t)),
{
    if is_live(v, e) && find_table_from(v.tables, e, 0) < v.tables.len() {
        lemma_find_table_props(v.tables, e, 0);
        let ti = find_table_from(v.tables, e, 0);
        lemma_find_row_props(v.tables[ti].rows, e, 0);
        let ri = find_row_from(v.tables[ti].rows, e, 0);
        let cs = v.tables[ti].rows[ri].comps;
        let cs2 = cs.spec_without(t);
        if !(cs2 == cs) {
            lemma_drop_keeps_wf(v, e);
            let vd = WorldV { slots: v.slots, tables: spec_tables_drop(v.tables, e) };
            lemma_insert_restores_wf(vd, Row { entity: e, comps: cs2 });
        }
    }
}

} // verus!
