// The determinism suite: the full pipeline (setup -> mutate -> serialize),
// run twice from scratch, must agree byte for byte whenever the mutations
// are sequential or order-independent — and must be caught disagreeing when
// the name source is seeded per run or a pool visitor depends on visit
// order.

use std::collections::hash_map::RandomState;
use std::hash::{BuildHasher, Hasher};

use ecs_canon::fixture::setup;
use ecs_canon::query::{filter_all, filter_counter, query_entities};
use ecs_canon::registry::create_registry;
use ecs_canon::canon::NaiveCanon;
use ecs_canon::serialize::{serialize_naive, serialize_seq};
use ecs_canon::systems::{
    conflicts, q_par_for_each_order, Schedule, System, SystemKind,
};

fn entropy() -> u64 {
    RandomState::new().build_hasher().finish()
}

// Serialization under a per-run (unseeded/naive) name source is NOT
// deterministic: two independent runs of the same setup draw different
// seeds and disagree.  This is the case that justifies the counter-based
// allocator's existence.
#[test]
fn serialize_with_default_canon() {
    let registry = create_registry();

    let seed1 = entropy();
    let (_canon, world1, _resources) = setup();
    let mut naive1 = NaiveCanon::new(seed1);
    for e in query_entities(&world1, filter_all()) {
        naive1.canonize(e);
    }
    let out1 = serialize_naive(&naive1, &world1, &registry).unwrap();

    let seed2 = entropy();
    let (_canon, world2, _resources) = setup();
    let mut naive2 = NaiveCanon::new(seed2);
    for e in query_entities(&world2, filter_all()) {
        naive2.canonize(e);
    }
    let out2 = serialize_naive(&naive2, &world2, &registry).unwrap();

    // Independent draws of a 64-bit seed.
    assert_ne!(seed1, seed2);
    // The naive approach embeds the run's seed in every name: not equal.
    assert_ne!(out1, out2);
}

// A pool visitor without order sensitivity (increment every counter)
// followed by the sequential order-establishing visitor: deterministic.
#[test]
fn order_after_system_par_for_each() {
    let registry = create_registry();
    let mut outs = Vec::new();
    for _ in 0..2 {
        let (canon, mut world, mut resources) = setup();
        let mut schedule = Schedule::new();
        schedule.add_system(System { kind: SystemKind::IncrementAll, filter: filter_counter() });
        schedule.add_system(System { kind: SystemKind::AssignIndex, filter: filter_counter() });
        schedule.execute(&mut world, &mut resources);
        assert_ne!(world.count(), 0);
        outs.push(serialize_seq(&canon, &world, &registry).unwrap());
    }
    assert_eq!(outs[0], outs[1]);
}

// The sequential, iteration-order-dependent visitor alone: its fixed
// archetype-storage order is a function of mutation history, so two runs
// agree.
#[test]
fn query_for_each_order() {
    let registry = create_registry();
    let mut outs = Vec::new();
    for _ in 0..2 {
        let (canon, mut world, mut resources) = setup();
        let mut schedule = Schedule::new();
        schedule.add_system(System { kind: SystemKind::AssignIndex, filter: filter_counter() });
        schedule.execute(&mut world, &mut resources);
        assert_ne!(world.count(), 0);
        outs.push(serialize_seq(&canon, &world, &registry).unwrap());
    }
    assert_eq!(outs[0], outs[1]);
}

// A pool visitor without order sensitivity (zero every counter) followed by
// the sequential order-establishing visitor: deterministic.
#[test]
fn order_after_query_par_for_each() {
    let registry = create_registry();
    let mut outs = Vec::new();
    for _ in 0..2 {
        let (canon, mut world, mut resources) = setup();
        let mut schedule = Schedule::new();
        schedule.add_system(System { kind: SystemKind::ZeroAll, filter: filter_counter() });
        schedule.add_system(System { kind: SystemKind::AssignIndex, filter: filter_counter() });
        schedule.execute(&mut world, &mut resources);
        assert_ne!(world.count(), 0);
        outs.push(serialize_seq(&canon, &world, &registry).unwrap());
    }
    assert_eq!(outs[0], outs[1]);
}

// The documented misuse: a pool visitor whose written value depends on a
// shared counter read in visitation order.  Two runs whose pools reach the
// rows in different orders (rotations 0 and 1 here) disagree, so an
// equality assertion over repeated runs must fail — which is exactly what
// this test pins down, as the library's hazard law proves.
#[test]
fn query_par_for_each_order() {
    let registry = create_registry();

    let (canon1, mut world1, _resources) = setup();
    q_par_for_each_order(&mut world1, 0);
    let out1 = serialize_seq(&canon1, &world1, &registry).unwrap();

    let (canon2, mut world2, _resources) = setup();
    q_par_for_each_order(&mut world2, 1);
    let out2 = serialize_seq(&canon2, &world2, &registry).unwrap();

    assert_ne!(out1, out2);
}

// Both counter-writing systems conflict on the counter type, so the
// scheduler never runs them side by side.
#[test]
fn counter_systems_conflict() {
    let a = System { kind: SystemKind::IncrementAll, filter: filter_counter() };
    let b = System { kind: SystemKind::AssignIndex, filter: filter_counter() };
    assert!(conflicts(a, b));
}
