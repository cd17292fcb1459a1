//! The query engine: select entities whose archetype signature carries all
//! required component types and none of the excluded ones.
//!
//! Sequential iteration order is archetype-storage order — table order,
//! then row order — a deterministic function of the world's mutation
//! history, never of thread scheduling.  The pool-order visitors live in
//! `systems`; their visit order is explicitly not promised.

use vstd::prelude::*;
use crate::{Entity, SigSet};
use crate::world::{TableV, World};

verus! {

/// A capability filter over archetype signatures: "entities with all of
/// `require` and none of `exclude`".
#[derive(Clone, Copy, PartialEq, Eq, Structural, Debug)]
pub struct Filter {
    pub require: SigSet,
    pub exclude: SigSet,
}

/// The signature with no component types: as a requirement it matches every
/// entity, as an exclusion it excludes nothing.
pub open spec fn spec_sig_none() -> SigSet {
    SigSet { has_bool: false, has_counter: false, has_f32: false, has_f64: false, has_u64: false }
}

pub fn sig_none() -> (s: SigSet)
    ensures
        s == spec_sig_none(),
{
    SigSet { has_bool: false, has_counter: false, has_f32: false, has_f64: false, has_u64: false }
}

/// The filter that matches every entity.
pub open spec fn spec_filter_all() -> Filter {
    Filter { require: spec_sig_none(), exclude: spec_sig_none() }
}

pub fn filter_all() -> (f: Filter)
    ensures
        f == spec_filter_all(),
{
    Filter { require: sig_none(), exclude: sig_none() }
}

/// The filter for entities that carry a counter component.
pub open spec fn spec_filter_counter() -> Filter {
    Filter {
        require: SigSet {
            has_bool: false,
            has_counter: true,
            has_f32: false,
            has_f64: false,
            has_u64: false,
        },
        exclude: spec_sig_none(),
    }
}

pub fn filter_counter() -> (f: Filter)
    ensures
        f == spec_filter_counter(),
{
    Filter {
        require: SigSet {
            has_bool: false,
            has_counter: true,
            has_f32: false,
            has_f64: false,
            has_u64: false,
        },
        exclude: sig_none(),
    }
}

/// Whether a signature passes the filter.
pub open spec fn sig_matches(s: SigSet, f: Filter) -> bool {
    &&& (f.require.has_bool ==> s.has_bool)
    &&& (f.require.has_counter ==> s.has_counter)
    &&& (f.require.has_f32 ==> s.has_f32)
    &&& (f.require.has_f64 ==> s.has_f64)
    &&& (f.require.has_u64 ==> s.has_u64)
    &&& (f.exclude.has_bool ==> !s.has_bool)
    &&& (f.exclude.has_counter ==> !s.has_counter)
    &&& (f.exclude.has_f32 ==> !s.has_f32)
    &&& (f.exclude.has_f64 ==> !s.has_f64)
    &&& (f.exclude.has_u64 ==> !s.has_u64)
}

pub fn matches_filter(s: SigSet, f: Filter) -> (r: bool)
    ensures
        r == sig_matches(s, f),
{
    (!f.require.has_bool || s.has_bool) && (!f.require.has_counter || s.has_counter) && (
    !f.require.has_f32 || s.has_f32) && (!f.require.has_f64 || s.has_f64) && (!f.require.has_u64
        || s.has_u64) && (!f.exclude.has_bool || !s.has_bool) && (!f.exclude.has_counter
        || !s.has_counter) && (!f.exclude.has_f32 || !s.has_f32) && (!f.exclude.has_f64
        || !s.has_f64) && (!f.exclude.has_u64 || !s.has_u64)
}

/// The entities of a row sequence, in row order.
pub open spec fn entities_of(rows: Seq<crate::world::Row>) -> Seq<Entity> {
    Seq::new(rows.len(), |i: int| rows[i].entity)
}

/// The entities matching `f`, in archetype-storage order: table order, then
/// row order.
pub open spec fn spec_matching(tables: Seq<TableV>, f: Filter) -> Seq<Entity>
    decreases tables.len(),
{
    if tables.len() == 0 {
        Seq::empty()
    } else {
        spec_matching(tables.drop_last(), f) + (if sig_matches(tables.last().sig, f) {
            entities_of(tables.last().rows)
        } else {
            Seq::empty()
        })
    }
}

/// Collect the matching entities of `world`, in the fixed sequential
/// iteration order.  Index-dependent logic is only valid over this order,
/// never over the pool visitors of `systems`.
pub fn query_entities(world: &World, f: Filter) -> (es: Vec<Entity>)
    ensures
        es@ == spec_matching(world@.tables, f),
{
    let ghost v = world@;
    let nt = world.tables.len();
    let mut es: Vec<Entity> = Vec::new();
    let mut ti: usize = 0;
    while ti < nt
        invariant
            0 <= ti <= nt == world.tables@.len(),
            v == world@,
            v.tables.len() == nt,
            es@ == spec_matching(v.tables.take(ti as int), f),
        decreases nt - ti,
    {
        proof {
            assert(v.tables.take(ti as int + 1).drop_last() =~= v.tables.take(ti as int));
            assert(v.tables.take(ti as int + 1).last() == v.tables[ti as int]);
        }
        let sg = world.tables[ti].sig;
        if matches_filter(sg, f) {
            let nr = world.tables[ti].rows.len();
            let mut ri: usize = 0;
            while ri < nr
                invariant
                    0 <= ri <= nr,
                    v == world@,
                    0 <= ti < v.tables.len(),
                    nr == world.tables@[ti as int].rows@.len(),
                    v.tables[ti as int].rows == world.tables@[ti as int].rows@,
                    es@ == spec_matching(v.tables.take(ti as int), f) + entities_of(
                        v.tables[ti as int].rows.take(ri as int),
                    ),
                decreases nr - ri,
            {
                es.push(world.tables[ti].rows[ri].entity);
                proof {
                    assert(entities_of(v.tables[ti as int].rows.take(ri as int + 1))
                        =~= entities_of(v.tables[ti as int].rows.take(ri as int)).push(
                        v.tables[ti as int].rows[ri as int].entity,
                    ));
                }
                ri = ri + 1;
            }
            proof {
                assert(v.tables[ti as int].rows.take(nr as int) =~= v.tables[ti as int].rows);
            }
        }
        ti = ti + 1;
    }
    proof {
        assert(v.tables.take(nt as int) =~= v.tables);
    }
    es
}

} // verus!
