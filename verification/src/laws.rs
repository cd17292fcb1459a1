//! The crate's laws: what the contracts of the other modules add up to,
//! stated and proved once, over the same spec-level transitions the
//! executable functions are pinned to.

use vstd::prelude::*;
use crate::Entity;
use crate::canon::{CanonV, NameEntry, canon_wf, find_name_from, minted_name};
use crate::command::{Cmd, spec_flush};
use crate::fixture::spec_canonize_all;
use crate::query::{Filter, sig_matches, spec_matching};
use crate::registry::RegEntryV;
use crate::canon::name_lt;
use crate::serialize::{
    CanonEntityV, SerializeError, lemma_emit_names_from_table, lemma_emit_sorted,
    spec_serialize,
};
use crate::systems::{
    System, lemma_mb_bound, match_before, shared_value, spec_execute, spec_run_shared,
    spec_run_system,
};
use crate::world::{
    TableV, WorldV, covered, has_row, is_live, lemma_add_component_preserves_wf,
    lemma_find_free_props, lemma_remove_component_preserves_wf,
    lemma_remove_preserves_wf, slot_free, spec_created_entity, spec_remove, world_wf,
};

verus! {

/// Determinism of the pipeline: serialization output is a function of the
/// starting state and the mutation script alone.  Each executable stage —
/// command-buffer flush, schedule execution, serialization — is pinned by
/// its `ensures` to the spec transition named here, and none of those
/// transitions reads anything besides its arguments; so two runs that
/// start equal and replay equal scripts serialize byte for byte alike.
/// The fixture's `setup` is pinned to the constant `spec_setup_state()`,
/// which supplies the equal starting states.
pub proof fn lemma_pipeline_deterministic(
    w1: WorldV,
    w2: WorldV,
    cmds1: Seq<Cmd>,
    cmds2: Seq<Cmd>,
    ss1: Seq<System>,
    ss2: Seq<System>,
    names1: Seq<NameEntry>,
    names2: Seq<NameEntry>,
    reg1: Seq<RegEntryV>,
    reg2: Seq<RegEntryV>,
)
    requires
        w1 == w2,
        cmds1 == cmds2,
        ss1 == ss2,
        names1 == names2,
        reg1 == reg2,
    ensures
        spec_serialize(spec_execute(spec_flush(w1, cmds1), ss1), names1, reg1) == spec_serialize(
            spec_execute(spec_flush(w2, cmds2), ss2),
            names2,
            reg2,
        ),
{
}

/// The naive name source really is non-deterministic: over one and the
/// same world, two runs whose seeds differ serialize differently whenever
/// anything is serialized at all.  This is the law that justifies the
/// counter-based `SeqCanon`.
pub proof fn lemma_naive_canon_nondeterministic(
    w: WorldV,
    c1: CanonV,
    c2: CanonV,
    s1: u64,
    s2: u64,
    reg: Seq<RegEntryV>,
    o1: Seq<CanonEntityV>,
    o2: Seq<CanonEntityV>,
)
    requires
        canon_wf(c1, s1),
        canon_wf(c2, s2),
        s1 != s2,
        spec_serialize(w, c1.names, reg) == Ok::<Seq<CanonEntityV>, SerializeError>(o1),
        spec_serialize(w, c2.names, reg) == Ok::<Seq<CanonEntityV>, SerializeError>(o2),
        o1.len() > 0,
    ensures
        o1 != o2,
{
    lemma_emit_names_from_table(w, c1.names, reg, o1);
    lemma_emit_names_from_table(w, c2.names, reg, o2);
    assert(o2.len() == o1.len());
    let k1 = choose|k: int| 0 <= k < c1.names.len() && o1[0].name == c1.names[k].name;
    let k2 = choose|k: int| 0 <= k < c2.names.len() && o2[0].name == c2.names[k].name;
    assert(c1.names[k1].name == minted_name(s1, k1 as u64));
    assert(c2.names[k2].name == minted_name(s2, k2 as u64));
    assert(o1[0].name.hi == s1);
    assert(o2[0].name.hi == s2);
    assert(o1[0] != o2[0]);
}

/// One position, two rotations: the shared-counter visitor writes two
/// different values.
proof fn lemma_shared_value_rot(m: int, n: int, rot1: u64, rot2: u64)
    requires
        0 < n <= u64::MAX,
        0 <= m < n,
        (rot1 as int) % n != (rot2 as int) % n,
    ensures
        shared_value(m, n, rot1) != shared_value(m, n, rot2),
{
    let r1 = (rot1 as int) % n;
    let r2 = (rot2 as int) % n;
    assert(0 <= r1 < n && 0 <= r2 < n) by (nonlinear_arith)
        requires
            n > 0,
            r1 == (rot1 as int) % n,
            r2 == (rot2 as int) % n,
            rot1 >= 0,
            rot2 >= 0,
    ;
    let v1 = if m >= r1 { m - r1 } else { m + n - r1 };
    let v2 = if m >= r2 { m - r2 } else { m + n - r2 };
    assert(0 <= v1 < n);
    assert(0 <= v2 < n);
    assert(v1 != v2);
    assert(shared_value(m, n, rot1) == v1 as u64);
    assert(shared_value(m, n, rot2) == v2 as u64);
}

/// The parallel-order hazard: a pool visitor whose written value depends on
/// a shared counter read in visitation order produces different worlds
/// under different pool orders.  Given any matching row that carries a
/// counter, two rotations that differ modulo the matching count yield
/// unequal results — so its outcome is under-determined, and equality
/// comparisons over repeated runs are expected to fail.  Contrast with the
/// zero and increment visitors, whose transitions never mention the
/// rotation.
pub proof fn lemma_parallel_order_hazard(
    tables: Seq<TableV>,
    f: Filter,
    rot1: u64,
    rot2: u64,
    ti: int,
    ri: int,
)
    requires
        0 <= ti < tables.len(),
        sig_matches(tables[ti].sig, f),
        0 <= ri < tables[ti].rows.len(),
        tables[ti].rows[ri].comps.c_counter is Some,
        (rot1 as int) % (spec_matching(tables, f).len() as int) != (rot2 as int) % (
        spec_matching(tables, f).len() as int),
        spec_matching(tables, f).len() <= u64::MAX,
    ensures
        spec_run_shared(tables, f, rot1) != spec_run_shared(tables, f, rot2),
{
    let n = spec_matching(tables, f).len() as int;
    let m = match_before(tables, f, ti) + ri;
    lemma_mb_bound(tables, f, ti, ri);
    lemma_shared_value_rot(m, n, rot1, rot2);
    let t1 = spec_run_shared(tables, f, rot1);
    let t2 = spec_run_shared(tables, f, rot2);
    assert(t1[ti].rows[ri].comps.c_counter != t2[ti].rows[ri].comps.c_counter);
}

/// No index of the table holds `e`.
pub proof fn lemma_find_name_absent(names: Seq<NameEntry>, e: Entity, i: int)
    requires
        0 <= i <= names.len(),
        forall|k: int| i <= k < names.len() ==> (#[trigger] names[k]).entity != e,
    ensures
        find_name_from(names, e, i) == names.len(),
    decreases names.len() - i,
{
    if i < names.len() {
        lemma_find_name_absent(names, e, i + 1);
    }
}

/// The batch-order law: canonizing any sequence of fresh, distinct handles
/// — whether they came from single creations or one batch — assigns names
/// in call order: the i-th handle receives the i-th counter-minted name,
/// regardless of where storage placed the entities or what their handle
/// bits are.
pub proof fn lemma_batch_order(c: CanonV, es: Seq<Entity>)
    requires
        canon_wf(c, 0),
        c.names.len() + es.len() < u64::MAX,
        forall|i: int, j: int| 0 <= i < j < es.len() ==> #[trigger] es[i] != #[trigger] es[j],
        forall|i: int, k: int|
            0 <= i < es.len() && 0 <= k < c.names.len() ==> (#[trigger] c.names[k]).entity != (
            #[trigger] es[i]),
    ensures
        spec_canonize_all(c, es).names.len() == c.names.len() + es.len(),
        canon_wf(spec_canonize_all(c, es), 0),
        forall|k: int|
            0 <= k < c.names.len() ==> #[trigger] spec_canonize_all(c, es).names[k] == c.names[k],
        forall|i: int|
            0 <= i < es.len() ==> #[trigger] spec_canonize_all(c, es).names[c.names.len() + i]
                == (NameEntry {
                entity: es[i],
                name: minted_name(0, (c.names.len() + i) as u64),
            }),
    decreases es.len(),
{
    if es.len() > 0 {
        let pre = es.drop_last();
        lemma_batch_order(c, pre);
        let c2 = spec_canonize_all(c, pre);
        let e = es.last();
        assert forall|k: int| 0 <= k < c2.names.len() implies (#[trigger] c2.names[k]).entity
            != e by {
            if k < c.names.len() {
                assert(c2.names[k] == c.names[k]);
                assert(c.names[k].entity != es[es.len() - 1]);
            } else {
                let i = k - c.names.len();
                assert(c2.names[k] == (NameEntry {
                    entity: pre[i],
                    name: minted_name(0, (c.names.len() + i) as u64),
                }));
                assert(es[i] != es[es.len() - 1]);
            }
        }
        lemma_find_name_absent(c2.names, e, 0);
    }
}

/// A removed handle is never handed out again: the very next creation —
/// whether it revives the freed slot or opens a new one — returns a
/// different handle, because removal bumped the slot's generation (or
/// retired the slot for good at the generation cap).
pub proof fn lemma_removed_handle_never_recreated(v: WorldV, e: Entity)
    requires
        is_live(v, e),
        v.slots.len() <= usize::MAX,
    ensures
        spec_created_entity(spec_remove(v, e)) != e,
{
    let v2 = spec_remove(v, e);
    lemma_find_free_props(v2.slots, 0);
    let i = crate::world::find_free_from(v2.slots, 0);
    let ce = spec_created_entity(v2);
    if i < v2.slots.len() {
        assert(slot_free(v2.slots[i]));
        assert(ce.slot == i as usize && ce.gen == v2.slots[i].gen);
        if i == e.slot as int {
            assert(v2.slots[i].gen != e.gen);
            assert(ce != e);
        } else {
            assert(ce.slot != e.slot);
            assert(ce != e);
        }
    } else {
        assert(ce.slot == v2.slots.len() as usize);
        assert(e.slot < v2.slots.len());
        assert(ce != e);
    }
}

/// A transform that only rewrites component values in place — same tables,
/// same signatures, same entities, same record shapes — preserves the store
/// invariant.
proof fn lemma_pointwise_preserves_wf(v: WorldV, tables2: Seq<TableV>)
    requires
        world_wf(v),
        tables2.len() == v.tables.len(),
        forall|ti: int| 0 <= ti < v.tables.len() ==> (#[trigger] tables2[ti]).sig == v.tables[ti].sig,
        forall|ti: int|
            0 <= ti < v.tables.len() ==> (#[trigger] tables2[ti]).rows.len() == v.tables[ti].rows.len(),
        forall|ti: int, ri: int|
            0 <= ti < v.tables.len() && 0 <= ri < v.tables[ti].rows.len() ==> (
            #[trigger] tables2[ti].rows[ri]).entity == v.tables[ti].rows[ri].entity
                && tables2[ti].rows[ri].comps.sig() == v.tables[ti].rows[ri].comps.sig(),
    ensures
        world_wf(WorldV { slots: v.slots, tables: tables2 }),
{
    let v2 = WorldV { slots: v.slots, tables: tables2 };
    assert forall|s: int| 0 <= s < v2.slots.len() implies covered(v2, s) by {
        if v.slots[s].live {
            assert(covered(v, s));
            assert(has_row(v, Entity { slot: s as usize, gen: v.slots[s].gen }));
            let (a, b) = choose|a: int, b: int|
                0 <= a < v.tables.len() && 0 <= b < v.tables[a].rows.len() && (
                #[trigger] v.tables[a].rows[b]).entity == (Entity {
                    slot: s as usize,
                    gen: v.slots[s].gen,
                });
            assert(v2.tables[a].rows[b].entity == (Entity { slot: s as usize, gen: v.slots[s].gen }));
        }
    }
}

/// Every system run preserves the store invariant: the visitors rewrite
/// counter values in place and never touch handles, slots, or signatures.
pub proof fn lemma_run_system_preserves_wf(v: WorldV, s: System)
    requires
        world_wf(v),
    ensures
        world_wf(spec_run_system(v, s)),
{
    let t2 = spec_run_system(v, s).tables;
    assert forall|ti: int, ri: int|
        0 <= ti < v.tables.len() && 0 <= ri < v.tables[ti].rows.len() implies (
    #[trigger] t2[ti].rows[ri]).entity == v.tables[ti].rows[ri].entity && t2[ti].rows[
        ri
    ].comps.sig() == v.tables[ti].rows[ri].comps.sig() by {}
    lemma_pointwise_preserves_wf(v, t2);
}

/// A command-buffer flush preserves the store invariant: each entry is one
/// of the world transitions, each of which preserves it.
pub proof fn lemma_flush_preserves_wf(v: WorldV, cmds: Seq<Cmd>)
    requires
        world_wf(v),
        v.slots.len() <= usize::MAX,
    ensures
        world_wf(spec_flush(v, cmds)),
        spec_flush(v, cmds).slots.len() == v.slots.len(),
    decreases cmds.len(),
{
    if cmds.len() > 0 {
        let v2 = crate::command::spec_apply(v, cmds[0]);
        match cmds[0] {
            Cmd::Remove(e) => lemma_remove_preserves_wf(v, e),
            Cmd::AddComponent(e, c) => lemma_add_component_preserves_wf(v, e, c),
            Cmd::RemoveComponent(e, t) => lemma_remove_component_preserves_wf(v, e, t),
        }
        assert(v2.slots.len() == v.slots.len());
        lemma_flush_preserves_wf(v2, cmds.drop_first());
    }
}

/// A whole scheduling pass preserves the store invariant.
pub proof fn lemma_execute_preserves_wf(v: WorldV, ss: Seq<System>)
    requires
        world_wf(v),
    ensures
        world_wf(spec_execute(v, ss)),
    decreases ss.len(),
{
    if ss.len() > 0 {
        lemma_run_system_preserves_wf(v, ss[0]);
        lemma_execute_preserves_wf(spec_run_system(v, ss[0]), ss.drop_first());
    }
}

/// The canonical ordering law: whatever a deterministic allocator's table
/// holds, a successful serialization emits its entity records in strictly
/// ascending external-name order — never in handle or archetype-visitation
/// order.
pub proof fn lemma_output_sorted_by_name(
    w: WorldV,
    c: CanonV,
    hi: u64,
    reg: Seq<RegEntryV>,
    o: Seq<CanonEntityV>,
)
    requires
        canon_wf(c, hi),
        spec_serialize(w, c.names, reg) == Ok::<Seq<CanonEntityV>, SerializeError>(o),
    ensures
        forall|i: int, j: int|
            0 <= i < j < o.len() ==> name_lt((#[trigger] o[i]).name, (#[trigger] o[j]).name),
{
    assert forall|i: int, j: int|
        0 <= i < j < c.names.len() implies name_lt(
        (#[trigger] c.names[i]).name,
        (#[trigger] c.names[j]).name,
    ) by {
        assert(c.names[i].name == minted_name(hi, i as u64));
        assert(c.names[j].name == minted_name(hi, j as u64));
    }
    lemma_emit_sorted(w, c.names, reg, o);
}

} // verus!
