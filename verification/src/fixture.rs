//! The reproducible "worn-in" world: entities created one by one and in a
//! batch across three archetype shapes; every third in creation order — the
//! 3rd, 6th, and so on, floor(n/3) in all — removed; then, of the survivors
//! in creation order, every third given an extra component and every fifth
//! stripped of one.  All selection is fixed modular arithmetic over creation
//! index, never storage position, so the whole procedure is a constant of
//! this crate: its result is pinned, state for state, to the spec-level
//! transitions, which is what the determinism law rests on.

use vstd::prelude::*;
use crate::{CompSet, CompType, Component, Counter, Entity};
use crate::canon::{CanonV, NameEntry, SeqCanon, canon_wf, spec_canonize};
use crate::command::{
    Cmd, CommandBuffer, Resources, lemma_flush_append, lemma_flush_no_removes_keeps_slots,
    spec_flush,
};
use crate::world::{
    World, WorldV, is_live, lemma_create_batch_keeps_live, lemma_create_batch_live_count,
    lemma_create_keeps_live, lemma_create_live_count, lemma_create_preserves_wf,
    lemma_created_batch_distinct, lemma_created_fresh, lemma_find_free_props,
    lemma_remove_live_count, spec_create, spec_create_batch, spec_created_batch,
    spec_created_entity, spec_live_count, world_wf,
};

verus! {

/// The fixture's running state: the world and the name allocator together.
#[verifier::ext_equal]
pub ghost struct SetupV {
    pub w: WorldV,
    pub c: CanonV,
}

/// A record holding only a counter.
pub open spec fn comp_counter(i: u64) -> CompSet {
    CompSet { c_bool: None, c_counter: Some(Counter(i)), c_f32: None, c_f64: None, c_u64: None }
}

/// A record holding a counter and a flag.
pub open spec fn comp_counter_bool(i: u64, b: bool) -> CompSet {
    CompSet { c_bool: Some(b), c_counter: Some(Counter(i)), c_f32: None, c_f64: None, c_u64: None }
}

/// A record holding a zero float (by bit pattern) and a cleared flag.
pub open spec fn comp_f32_bool() -> CompSet {
    CompSet { c_bool: Some(false), c_counter: None, c_f32: Some(0), c_f64: None, c_u64: None }
}

/// Create one entity with record `cs` and canonize it.
pub open spec fn spec_step(s: SetupV, cs: CompSet) -> SetupV {
    SetupV { w: spec_create(s.w, cs), c: spec_canonize(s.c, 0, spec_created_entity(s.w)) }
}

/// The single-create loop over counter-only records.
pub open spec fn spec_loop1(s: SetupV, i: int, count: int) -> SetupV
    decreases count - i
        when i <= count
{
    if i >= count {
        s
    } else {
        spec_loop1(spec_step(s, comp_counter(i as u64)), i + 1, count)
    }
}

/// The single-create loop over counter-and-flag records.
pub open spec fn spec_loop2(s: SetupV, i: int, count: int) -> SetupV
    decreases count - i
        when i <= count
{
    if i >= count {
        s
    } else {
        spec_loop2(spec_step(s, comp_counter_bool((count + i) as u64, true)), i + 1, count)
    }
}

/// The single-create loop over float-and-flag records.
pub open spec fn spec_loop3(s: SetupV, i: int, count: int) -> SetupV
    decreases count - i
        when i <= count
{
    if i >= count {
        s
    } else {
        spec_loop3(spec_step(s, comp_f32_bool()), i + 1, count)
    }
}

/// The records handed to the batch creation, in input order.
pub open spec fn batch_comps(count: int) -> Seq<CompSet> {
    Seq::new(count as nat, |i: int| comp_counter_bool(i as u64, i % 2 == 0))
}

/// Canonize a sequence of handles, in order.
pub open spec fn spec_canonize_all(c: CanonV, es: Seq<Entity>) -> CanonV
    decreases es.len(),
{
    if es.len() == 0 {
        c
    } else {
        spec_canonize(spec_canonize_all(c, es.drop_last()), 0, es.last())
    }
}

/// Transition of `add_entities`: three single-create loops, then one batch
/// whose returned handles are canonized in return order.
pub open spec fn spec_add_entities(s: SetupV, count: int) -> SetupV {
    let s3 = spec_loop3(spec_loop2(spec_loop1(s, 0, count), 0, count), 0, count);
    let w4 = spec_create_batch(s3.w, batch_comps(count));
    let es = spec_created_batch(s3.w, batch_comps(count));
    SetupV { w: w4, c: spec_canonize_all(s3.c, es) }
}

/// The entities a name table enumerates, in assignment order — which is
/// creation order, since the fixture canonizes each entity as it is made.
pub open spec fn named_entities(names: Seq<NameEntry>) -> Seq<Entity> {
    Seq::new(names.len(), |i: int| names[i].entity)
}

/// Of the named entities, those still alive in `v`, in the same order.
pub open spec fn live_named(v: WorldV, names: Seq<NameEntry>) -> Seq<Entity>
    decreases names.len(),
{
    if names.len() == 0 {
        Seq::empty()
    } else {
        live_named(v, names.drop_last()) + (if is_live(v, names.last().entity) {
            seq![names.last().entity]
        } else {
            Seq::empty()
        })
    }
}

/// The removal commands of the fixture: every third entity — the 3rd, 6th,
/// and so on — of the enumeration, so `floor(len / 3)` removals in all.
pub open spec fn spec_third_cmds(es: Seq<Entity>) -> Seq<Cmd>
    decreases es.len(),
{
    if es.len() == 0 {
        Seq::empty()
    } else {
        spec_third_cmds(es.drop_last()) + (if es.len() % 3 == 0 {
            seq![Cmd::Remove(es.last())]
        } else {
            Seq::empty()
        })
    }
}

/// The component-change commands of the fixture: the entity at index i of
/// the enumeration gains a zero float64 when i % 3 == 0 and loses its
/// counter when i % 5 == 0, the addition recorded before the removal.
pub open spec fn spec_change_cmds(es: Seq<Entity>) -> Seq<Cmd>
    decreases es.len(),
{
    if es.len() == 0 {
        Seq::empty()
    } else {
        spec_change_cmds(es.drop_last()) + (if (es.len() - 1) % 3 == 0 {
            seq![Cmd::AddComponent(es.last(), Component::F64Bits(0))]
        } else {
            Seq::empty()
        }) + (if (es.len() - 1) % 5 == 0 {
            seq![Cmd::RemoveComponent(es.last(), CompType::Counter)]
        } else {
            Seq::empty()
        })
    }
}

/// `x` is none of the enumerated entities.
pub open spec fn not_among(es: Seq<Entity>, x: Entity) -> bool {
    forall|k: int| 0 <= k < es.len() ==> (#[trigger] es[k]) != x
}

/// The enumerated entities are pairwise distinct.
pub open spec fn entities_distinct(es: Seq<Entity>) -> bool {
    forall|i: int, j: int| 0 <= i < j < es.len() ==> (#[trigger] es[i]) != (#[trigger] es[j])
}

/// Every enumerated entity is a live handle of `v`.
pub open spec fn entities_live(v: WorldV, es: Seq<Entity>) -> bool {
    forall|i: int| 0 <= i < es.len() ==> is_live(v, #[trigger] es[i])
}

/// The removal law behind the fixture: flushing the every-third removals
/// over an enumeration of n distinct live entities takes away exactly
/// floor(n/3) of them — and leaves every entity outside the enumeration
/// alive.
pub proof fn lemma_third_flush_count(v: WorldV, es: Seq<Entity>)
    requires
        entities_distinct(es),
        entities_live(v, es),
    ensures
        spec_live_count(spec_flush(v, spec_third_cmds(es)).slots) == spec_live_count(v.slots)
            - es.len() as int / 3,
        forall|x: Entity|
            is_live(v, x) && not_among(es, x) ==> #[trigger] is_live(
                spec_flush(v, spec_third_cmds(es)),
                x,
            ),
    decreases es.len(),
{
    if es.len() == 0 {
        assert(spec_third_cmds(es) =~= Seq::<Cmd>::empty());
    } else {
        let pre = es.drop_last();
        lemma_third_flush_count(v, pre);
        let v1 = spec_flush(v, spec_third_cmds(pre));
        let lastx = es.last();
        let sel: Seq<Cmd> = if es.len() % 3 == 0 {
            seq![Cmd::Remove(lastx)]
        } else {
            Seq::empty()
        };
        lemma_flush_append(v, spec_third_cmds(pre), sel);
        assert forall|k: int| 0 <= k < pre.len() implies (#[trigger] pre[k]) != lastx by {
            assert(pre[k] == es[k]);
            assert(es[k] != es[es.len() - 1]);
        }
        assert(not_among(pre, lastx));
        if es.len() % 3 == 0 {
            assert(is_live(v1, lastx));
            assert(sel.len() == 1);
            assert(sel[0] == Cmd::Remove(lastx));
            assert(sel.drop_first() =~= Seq::<Cmd>::empty());
            let v2 = crate::command::spec_apply(v1, sel[0]);
            assert(spec_flush(v1, sel) == spec_flush(v2, sel.drop_first()));
            assert(spec_flush(v2, sel.drop_first()) == v2);
            assert(v2 == crate::world::spec_remove(v1, lastx));
            lemma_remove_live_count(v1, lastx);
            assert(es.len() as int / 3 == pre.len() as int / 3 + 1) by (nonlinear_arith)
                requires
                    es.len() as int % 3 == 0,
                    es.len() as int == pre.len() as int + 1,
                    es.len() >= 1,
            ;
        } else {
            assert(spec_flush(v1, sel) == v1);
            assert(es.len() as int / 3 == pre.len() as int / 3) by (nonlinear_arith)
                requires
                    es.len() as int % 3 != 0,
                    es.len() as int == pre.len() as int + 1,
                    es.len() >= 1,
            ;
        }
        assert forall|x: Entity|
            is_live(v, x) && not_among(es, x) implies is_live(
            spec_flush(v, spec_third_cmds(es)),
            x,
        ) by {
            assert(not_among(pre, x));
            assert(is_live(v1, x));
            if es.len() % 3 == 0 {
                assert(es[es.len() - 1] != x);
                lemma_remove_live_count(v1, lastx);
            }
        }
    }
}

/// The change commands never remove an entity.
proof fn lemma_change_cmds_kinds(es: Seq<Entity>)
    ensures
        forall|k: int|
            0 <= k < spec_change_cmds(es).len() ==> !((#[trigger] spec_change_cmds(es)[k])
                matches Cmd::Remove(_)),
    decreases es.len(),
{
    if es.len() > 0 {
        lemma_change_cmds_kinds(es.drop_last());
    }
}

/// Transition of `remove_some_entities`: the named entities, in creation
/// order, thinned by the every-third rule in one flush.
pub open spec fn spec_remove_some(v: WorldV, names: Seq<NameEntry>) -> WorldV {
    spec_flush(v, spec_third_cmds(named_entities(names)))
}

/// Transition of `change_some_components`: the surviving named entities, in
/// creation order, reshaped by the two modulus rules in one flush.
pub open spec fn spec_change_some(v: WorldV, names: Seq<NameEntry>) -> WorldV {
    spec_flush(v, spec_change_cmds(live_named(v, names)))
}

/// The world and name allocator every `setup()` call produces: a constant
/// of this crate.
pub open spec fn spec_setup_state() -> SetupV {
    let empty = SetupV {
        w: WorldV { slots: Seq::empty(), tables: Seq::empty() },
        c: CanonV { names: Seq::empty(), count: 0 },
    };
    let s1 = spec_add_entities(empty, 100);
    let w2 = spec_remove_some(s1.w, s1.c.names);
    SetupV { w: spec_change_some(w2, s1.c.names), c: s1.c }
}

/// Add `count` entities of each of the three archetype shapes one by one,
/// then `count` more in one batch, canonizing every new handle in creation
/// order, so external names follow call order, not storage order.
pub fn add_entities(world: &mut World, canon: &mut SeqCanon, count: u64)
    requires
        old(canon)@.count + 4 * (count as int) < u64::MAX,
    ensures
        (SetupV { w: final(world)@, c: final(canon)@ } == spec_add_entities(
            SetupV { w: old(world)@, c: old(canon)@ },
            count as int,
        )),
        canon_wf(old(canon)@, 0) ==> canon_wf(final(canon)@, 0),
{
    let ghost s0 = SetupV { w: world@, c: canon@ };
    let ghost cnt = count as int;
    let ghost wf0 = canon_wf(canon@, 0);
    let mut i: u64 = 0;
    while i < count
        invariant
            0 <= i <= count,
            canon@.count <= s0.c.count + i,
            s0.c.count + 4 * cnt < u64::MAX,
            cnt == count as int,
            spec_loop1(SetupV { w: world@, c: canon@ }, i as int, cnt) == spec_loop1(s0, 0, cnt),
            wf0 == canon_wf(s0.c, 0),
            wf0 ==> canon_wf(canon@, 0),
        decreases count - i,
    {
        let e = world.create(
            CompSet { c_bool: None, c_counter: Some(Counter(i)), c_f32: None, c_f64: None, c_u64: None },
        );
        canon.canonize(e);
        i = i + 1;
    }
    let ghost s1 = spec_loop1(s0, 0, cnt);
    let mut i: u64 = 0;
    while i < count
        invariant
            0 <= i <= count,
            canon@.count <= s0.c.count + cnt + i,
            s0.c.count + 4 * cnt < u64::MAX,
            cnt == count as int,
            count + i <= u64::MAX,
            spec_loop2(SetupV { w: world@, c: canon@ }, i as int, cnt) == spec_loop2(s1, 0, cnt),
            wf0 ==> canon_wf(canon@, 0),
        decreases count - i,
    {
        let e = world.create(
            CompSet {
                c_bool: Some(true),
                c_counter: Some(Counter(count + i)),
                c_f32: None,
                c_f64: None,
                c_u64: None,
            },
        );
        canon.canonize(e);
        i = i + 1;
    }
    let ghost s2 = spec_loop2(s1, 0, cnt);
    let mut i: u64 = 0;
    while i < count
        invariant
            0 <= i <= count,
            canon@.count <= s0.c.count + 2 * cnt + i,
            s0.c.count + 4 * cnt < u64::MAX,
            cnt == count as int,
            spec_loop3(SetupV { w: world@, c: canon@ }, i as int, cnt) == spec_loop3(s2, 0, cnt),
            wf0 ==> canon_wf(canon@, 0),
        decreases count - i,
    {
        let e = world.create(
            CompSet { c_bool: Some(false), c_counter: None, c_f32: Some(0), c_f64: None, c_u64: None },
        );
        canon.canonize(e);
        i = i + 1;
    }
    let ghost s3 = spec_loop3(s2, 0, cnt);
    let mut entries: Vec<CompSet> = Vec::new();
    let mut i: u64 = 0;
    while i < count
        invariant
            0 <= i <= count,
            cnt == count as int,
            entries@.len() == i,
            entries@ == batch_comps(cnt).take(i as int),
        decreases count - i,
    {
        entries.push(
            CompSet {
                c_bool: Some(i % 2 == 0),
                c_counter: Some(Counter(i)),
                c_f32: None,
                c_f64: None,
                c_u64: None,
            },
        );
        proof {
            assert(entries@ =~= batch_comps(cnt).take(i as int + 1));
        }
        i = i + 1;
    }
    proof {
        assert(batch_comps(cnt).take(cnt) =~= batch_comps(cnt));
    }
    let ids = world.create_batch(&entries);
    let ghost es = spec_created_batch(s3.w, batch_comps(cnt));
    let n = ids.len();
    let mut j: usize = 0;
    while j < n
        invariant
            0 <= j <= n == ids@.len(),
            ids@ == es,
            es.len() == cnt,
            canon@.count <= s0.c.count + 3 * cnt + j,
            s0.c.count + 4 * cnt < u64::MAX,
            cnt == count as int,
            canon@ == spec_canonize_all(s3.c, es.take(j as int)),
            wf0 ==> canon_wf(canon@, 0),
        decreases n - j,
    {
        proof {
            assert(es.take(j as int + 1).drop_last() =~= es.take(j as int));
            assert(es.take(j as int + 1).last() == es[j as int]);
        }
        canon.canonize(ids[j]);
        j = j + 1;
    }
    proof {
        assert(es.take(cnt) =~= es);
    }
}

/// Walk the allocator's table — the entities in creation order — and remove
/// each third (the 3rd, 6th, and so on), through one command-buffer flush:
/// floor(n/3) of n enumerated entities go.  Creation order, not storage
/// order, decides who: the selection is independent of archetype placement.
pub fn remove_some_entities(world: &mut World, canon: &SeqCanon, resources: &mut Resources)
    ensures
        final(world)@ == spec_remove_some(old(world)@, canon@.names),
        final(resources)@ == old(resources)@,
        entities_distinct(named_entities(canon@.names)) && entities_live(
            old(world)@,
            named_entities(canon@.names),
        ) ==> spec_live_count(final(world)@.slots) == spec_live_count(old(world)@.slots)
            - canon@.names.len() as int / 3,
{
    let ghost v0 = world@;
    let ghost es_g = named_entities(canon@.names);
    let mut buf = CommandBuffer::new();
    let n = canon.names.len();
    let mut i: usize = 0;
    proof {
        assert(es_g.take(0) =~= Seq::<Entity>::empty());
    }
    while i < n
        invariant
            0 <= i <= n == canon.names@.len(),
            es_g == named_entities(canon@.names),
            es_g.len() == n,
            buf@ == spec_third_cmds(es_g.take(i as int)),
        decreases n - i,
    {
        proof {
            assert(es_g.take(i as int + 1).drop_last() =~= es_g.take(i as int));
            assert(es_g.take(i as int + 1).last() == canon@.names[i as int].entity);
        }
        if (i + 1) % 3 == 0 {
            buf.remove(canon.names[i].entity);
        }
        proof {
            assert(buf@ =~= spec_third_cmds(es_g.take(i as int + 1)));
        }
        i = i + 1;
    }
    proof {
        assert(es_g.take(n as int) =~= es_g);
    }
    buf.flush(world, resources);
    proof {
        if entities_distinct(es_g) && entities_live(v0, es_g) {
            lemma_third_flush_count(v0, es_g);
        }
    }
}

/// Walk the surviving entities in creation order — the allocator's table,
/// skipping the removed — and reshape them: index i gains a zero float64
/// when i % 3 == 0 and loses its counter when i % 5 == 0, the addition
/// recorded before the removal, all applied in one flush.  Entity count is
/// unchanged: these commands never remove an entity.
pub fn change_some_components(world: &mut World, canon: &SeqCanon, resources: &mut Resources)
    ensures
        final(world)@ == spec_change_some(old(world)@, canon@.names),
        final(resources)@ == old(resources)@,
        final(world)@.slots == old(world)@.slots,
        spec_live_count(final(world)@.slots) == spec_live_count(old(world)@.slots),
{
    let ghost v0 = world@;
    let ghost names = canon@.names;
    let n = canon.names.len();
    let mut es: Vec<Entity> = Vec::new();
    let mut i: usize = 0;
    proof {
        assert(names.take(0) =~= Seq::<NameEntry>::empty());
    }
    while i < n
        invariant
            0 <= i <= n == canon.names@.len(),
            names == canon@.names,
            v0 == world@,
            es@ == live_named(v0, names.take(i as int)),
        decreases n - i,
    {
        proof {
            assert(names.take(i as int + 1).drop_last() =~= names.take(i as int));
            assert(names.take(i as int + 1).last() == names[i as int]);
        }
        let e = canon.names[i].entity;
        if world.contains(e) {
            es.push(e);
        }
        proof {
            assert(es@ =~= live_named(v0, names.take(i as int + 1)));
        }
        i = i + 1;
    }
    proof {
        assert(names.take(n as int) =~= names);
    }
    let mut buf = CommandBuffer::new();
    let m = es.len();
    let mut j: usize = 0;
    proof {
        assert(es@.take(0) =~= Seq::<Entity>::empty());
    }
    while j < m
        invariant
            0 <= j <= m == es@.len(),
            buf@ == spec_change_cmds(es@.take(j as int)),
        decreases m - j,
    {
        proof {
            assert(es@.take(j as int + 1).drop_last() =~= es@.take(j as int));
            assert(es@.take(j as int + 1).last() == es@[j as int]);
        }
        if j % 3 == 0 {
            buf.add_component(es[j], Component::F64Bits(0));
        }
        if j % 5 == 0 {
            buf.remove_component(es[j], CompType::Counter);
        }
        proof {
            assert(buf@ =~= spec_change_cmds(es@.take(j as int + 1)));
        }
        j = j + 1;
    }
    proof {
        assert(es@.take(m as int) =~= es@);
    }
    buf.flush(world, resources);
    proof {
        lemma_change_cmds_kinds(live_named(v0, names));
        lemma_flush_no_removes_keeps_slots(v0, spec_change_cmds(live_named(v0, names)));
    }
}

/// Produce the reproducible worn-in world: its state is pinned to the
/// crate-level constant `spec_setup_state()`, so any two calls — in this
/// process or another — agree exactly.
pub fn setup() -> (r: (SeqCanon, World, Resources))
    ensures
        r.1@ == spec_setup_state().w,
        r.0@ == spec_setup_state().c,
        world_wf(r.1@),
        canon_wf(r.0@, 0),
        r.0@.count == 400,
        r.0@.names.len() == 400,
        spec_live_count(r.1@.slots) == 267,
        r.2@.len() == 0,
{
    proof {
        lemma_setup_state_wf();
        lemma_setup_facts();
    }
    let mut canon = SeqCanon::new();
    let mut world = World::new();
    let mut resources = Resources::new();
    proof {
        assert(world@ =~~= (WorldV { slots: Seq::empty(), tables: Seq::empty() }));
        assert(canon@ =~~= (CanonV { names: Seq::empty(), count: 0 }));
    }
    add_entities(&mut world, &mut canon, 100);
    remove_some_entities(&mut world, &canon, &mut resources);
    change_some_components(&mut world, &canon, &mut resources);
    (canon, world, resources)
}

/// One creation grows the slot table by at most one entry.
proof fn lemma_create_slots_len(v: WorldV, cs: CompSet)
    ensures
        spec_create(v, cs).slots.len() <= v.slots.len() + 1,
{
    crate::world::lemma_find_free_props(v.slots, 0);
}

/// The single-create loops preserve the store invariant and grow the slot
/// table by at most one entry per created entity.
proof fn lemma_loop1_wf(s: SetupV, i: int, count: int)
    requires
        0 <= i <= count,
        world_wf(s.w),
        s.w.slots.len() + (count - i) <= usize::MAX,
    ensures
        world_wf(spec_loop1(s, i, count).w),
        spec_loop1(s, i, count).w.slots.len() <= s.w.slots.len() + (count - i),
    decreases count - i,
{
    if i < count {
        lemma_create_preserves_wf(s.w, comp_counter(i as u64));
        lemma_create_slots_len(s.w, comp_counter(i as u64));
        lemma_loop1_wf(spec_step(s, comp_counter(i as u64)), i + 1, count);
    }
}

proof fn lemma_loop2_wf(s: SetupV, i: int, count: int)
    requires
        0 <= i <= count,
        world_wf(s.w),
        s.w.slots.len() + (count - i) <= usize::MAX,
    ensures
        world_wf(spec_loop2(s, i, count).w),
        spec_loop2(s, i, count).w.slots.len() <= s.w.slots.len() + (count - i),
    decreases count - i,
{
    if i < count {
        lemma_create_preserves_wf(s.w, comp_counter_bool((count + i) as u64, true));
        lemma_create_slots_len(s.w, comp_counter_bool((count + i) as u64, true));
        lemma_loop2_wf(spec_step(s, comp_counter_bool((count + i) as u64, true)), i + 1, count);
    }
}

proof fn lemma_loop3_wf(s: SetupV, i: int, count: int)
    requires
        0 <= i <= count,
        world_wf(s.w),
        s.w.slots.len() + (count - i) <= usize::MAX,
    ensures
        world_wf(spec_loop3(s, i, count).w),
        spec_loop3(s, i, count).w.slots.len() <= s.w.slots.len() + (count - i),
    decreases count - i,
{
    if i < count {
        lemma_create_preserves_wf(s.w, comp_f32_bool());
        lemma_create_slots_len(s.w, comp_f32_bool());
        lemma_loop3_wf(spec_step(s, comp_f32_bool()), i + 1, count);
    }
}

/// Batch creation preserves the store invariant.
proof fn lemma_batch_wf(v: WorldV, batch: Seq<CompSet>)
    requires
        world_wf(v),
        v.slots.len() + batch.len() <= usize::MAX,
    ensures
        world_wf(spec_create_batch(v, batch)),
        spec_create_batch(v, batch).slots.len() <= v.slots.len() + batch.len(),
    decreases batch.len(),
{
    if batch.len() > 0 {
        lemma_batch_wf(v, batch.drop_last());
        lemma_create_preserves_wf(spec_create_batch(v, batch.drop_last()), batch.last());
        lemma_create_slots_len(spec_create_batch(v, batch.drop_last()), batch.last());
    }
}

/// The joint invariant the fixture carries: the allocator is well-formed
/// and every named entity is a live handle of the world.
pub open spec fn inv_sc(s: SetupV) -> bool {
    &&& canon_wf(s.c, 0)
    &&& forall|k: int|
        0 <= k < s.c.names.len() ==> is_live(s.w, (#[trigger] s.c.names[k]).entity)
}

/// One create-and-canonize step keeps the joint invariant, mints exactly
/// one name, and raises the live count by exactly one.
proof fn lemma_step_inv(s: SetupV, cs: CompSet)
    requires
        inv_sc(s),
        s.w.slots.len() < usize::MAX,
        s.c.count < u64::MAX,
    ensures
        inv_sc(spec_step(s, cs)),
        spec_live_count(spec_step(s, cs).w.slots) == spec_live_count(s.w.slots) + 1,
        spec_step(s, cs).c.names.len() == s.c.names.len() + 1,
        spec_step(s, cs).c.count == s.c.count + 1,
        spec_step(s, cs).w.slots.len() <= s.w.slots.len() + 1,
{
    let created = spec_created_entity(s.w);
    lemma_created_fresh(s.w);
    assert forall|k: int| 0 <= k < s.c.names.len() implies (#[trigger] s.c.names[k]).entity
        != created by {
        assert(is_live(s.w, s.c.names[k].entity));
    }
    crate::laws::lemma_find_name_absent(s.c.names, created, 0);
    lemma_create_live_count(s.w, cs);
    lemma_find_free_props(s.w.slots, 0);
    assert(is_live(spec_create(s.w, cs), created));
    assert forall|k: int|
        0 <= k < spec_step(s, cs).c.names.len() implies is_live(
        spec_step(s, cs).w,
        (#[trigger] spec_step(s, cs).c.names[k]).entity,
    ) by {
        if k < s.c.names.len() {
            lemma_create_keeps_live(s.w, cs, s.c.names[k].entity);
        }
    }
}

/// The joint invariant and the counts, carried through the first
/// single-create loop.
proof fn lemma_loop1_inv(s: SetupV, i: int, count: int)
    requires
        0 <= i <= count,
        inv_sc(s),
        s.w.slots.len() + (count - i) <= usize::MAX,
        s.c.count + (count - i) <= u64::MAX,
    ensures
        inv_sc(spec_loop1(s, i, count)),
        spec_live_count(spec_loop1(s, i, count).w.slots) == spec_live_count(s.w.slots) + (count
            - i),
        spec_loop1(s, i, count).c.names.len() == s.c.names.len() + (count - i),
        spec_loop1(s, i, count).c.count == s.c.count + (count - i),
        spec_loop1(s, i, count).w.slots.len() <= s.w.slots.len() + (count - i),
    decreases count - i,
{
    if i < count {
        lemma_step_inv(s, comp_counter(i as u64));
        lemma_loop1_inv(spec_step(s, comp_counter(i as u64)), i + 1, count);
    }
}

/// The same, through the second loop.
proof fn lemma_loop2_inv(s: SetupV, i: int, count: int)
    requires
        0 <= i <= count,
        inv_sc(s),
        s.w.slots.len() + (count - i) <= usize::MAX,
        s.c.count + (count - i) <= u64::MAX,
    ensures
        inv_sc(spec_loop2(s, i, count)),
        spec_live_count(spec_loop2(s, i, count).w.slots) == spec_live_count(s.w.slots) + (count
            - i),
        spec_loop2(s, i, count).c.names.len() == s.c.names.len() + (count - i),
        spec_loop2(s, i, count).c.count == s.c.count + (count - i),
        spec_loop2(s, i, count).w.slots.len() <= s.w.slots.len() + (count - i),
    decreases count - i,
{
    if i < count {
        lemma_step_inv(s, comp_counter_bool((count + i) as u64, true));
        lemma_loop2_inv(spec_step(s, comp_counter_bool((count + i) as u64, true)), i + 1, count);
    }
}

/// The same, through the third loop.
proof fn lemma_loop3_inv(s: SetupV, i: int, count: int)
    requires
        0 <= i <= count,
        inv_sc(s),
        s.w.slots.len() + (count - i) <= usize::MAX,
        s.c.count + (count - i) <= u64::MAX,
    ensures
        inv_sc(spec_loop3(s, i, count)),
        spec_live_count(spec_loop3(s, i, count).w.slots) == spec_live_count(s.w.slots) + (count
            - i),
        spec_loop3(s, i, count).c.names.len() == s.c.names.len() + (count - i),
        spec_loop3(s, i, count).c.count == s.c.count + (count - i),
        spec_loop3(s, i, count).w.slots.len() <= s.w.slots.len() + (count - i),
    decreases count - i,
{
    if i < count {
        lemma_step_inv(s, comp_f32_bool());
        lemma_loop3_inv(spec_step(s, comp_f32_bool()), i + 1, count);
    }
}

/// The fixture's headline numbers, proved once over the pinned constant:
/// four hundred entities are created and named, the removal phase takes
/// exactly floor(400/3) = 133 of them, and the change phase removes none —
/// so every `setup()` world holds exactly 267 live entities under a
/// 400-entry allocator.
pub proof fn lemma_setup_facts()
    ensures
        spec_setup_state().c.count == 400,
        spec_setup_state().c.names.len() == 400,
        canon_wf(spec_setup_state().c, 0),
        spec_live_count(spec_setup_state().w.slots) == 267,
{
    let empty = SetupV {
        w: WorldV { slots: Seq::empty(), tables: Seq::empty() },
        c: CanonV { names: Seq::empty(), count: 0 },
    };
    assert(inv_sc(empty));
    lemma_loop1_inv(empty, 0, 100);
    let s1 = spec_loop1(empty, 0, 100);
    lemma_loop2_inv(s1, 0, 100);
    let s2 = spec_loop2(s1, 0, 100);
    lemma_loop3_inv(s2, 0, 100);
    let s3 = spec_loop3(s2, 0, 100);
    let bc = batch_comps(100);
    let w4 = spec_create_batch(s3.w, bc);
    let es = spec_created_batch(s3.w, bc);
    lemma_created_batch_distinct(s3.w, bc);
    lemma_create_batch_live_count(s3.w, bc);
    assert forall|i: int, k: int|
        0 <= i < es.len() && 0 <= k < s3.c.names.len() implies (#[trigger] s3.c.names[k]).entity
        != (#[trigger] es[i]) by {
        assert(is_live(s3.w, s3.c.names[k].entity));
        assert(!is_live(s3.w, es[i]));
    }
    crate::laws::lemma_batch_order(s3.c, es);
    let c4 = spec_canonize_all(s3.c, es);
    let s4 = SetupV { w: w4, c: c4 };
    assert forall|k: int| 0 <= k < c4.names.len() implies is_live(
        w4,
        (#[trigger] c4.names[k]).entity,
    ) by {
        if k < s3.c.names.len() {
            assert(c4.names[k] == s3.c.names[k]);
            lemma_create_batch_keeps_live(s3.w, bc, s3.c.names[k].entity);
        } else {
            let i = k - s3.c.names.len();
            assert(c4.names[s3.c.names.len() + i] == (NameEntry {
                entity: es[i],
                name: crate::canon::minted_name(0, (s3.c.names.len() + i) as u64),
            }));
            assert(c4.names[k].entity == es[i]);
        }
    }
    assert(inv_sc(s4));
    assert(spec_live_count(w4.slots) == 400);
    assert(c4.names.len() == 400);
    assert(s4 == spec_add_entities(empty, 100));
    let named = named_entities(c4.names);
    assert forall|i: int, j: int|
        0 <= i < j < named.len() implies (#[trigger] named[i]) != (#[trigger] named[j]) by {
        assert(c4.names[i].entity != c4.names[j].entity);
    }
    assert(entities_distinct(named));
    assert forall|i: int| 0 <= i < named.len() implies is_live(w4, #[trigger] named[i]) by {
        assert(is_live(w4, c4.names[i].entity));
    }
    assert(entities_live(w4, named));
    lemma_third_flush_count(w4, named);
    let w5 = spec_remove_some(w4, c4.names);
    assert(spec_live_count(w5.slots) == 400 - 133);
    lemma_change_cmds_kinds(live_named(w5, c4.names));
    lemma_flush_no_removes_keeps_slots(w5, spec_change_cmds(live_named(w5, c4.names)));
}

/// The worn-in world the fixture produces satisfies the store invariant:
/// every live slot is backed by exactly one row, no two rows share a slot,
/// and every row sits in the table of its record's signature.
pub proof fn lemma_setup_state_wf()
    ensures
        world_wf(spec_setup_state().w),
{
    let empty = SetupV {
        w: WorldV { slots: Seq::empty(), tables: Seq::empty() },
        c: CanonV { names: Seq::empty(), count: 0 },
    };
    assert(world_wf(empty.w));
    lemma_loop1_wf(empty, 0, 100);
    let s1 = spec_loop1(empty, 0, 100);
    lemma_loop2_wf(s1, 0, 100);
    let s2 = spec_loop2(s1, 0, 100);
    lemma_loop3_wf(s2, 0, 100);
    let s3 = spec_loop3(s2, 0, 100);
    lemma_batch_wf(s3.w, batch_comps(100));
    let w4 = spec_create_batch(s3.w, batch_comps(100));
    let names = spec_setup_state().c.names;
    crate::laws::lemma_flush_preserves_wf(w4, spec_third_cmds(named_entities(names)));
    let w5 = spec_remove_some(w4, names);
    crate::laws::lemma_flush_preserves_wf(w5, spec_change_cmds(live_named(w5, names)));
}

} // verus!
