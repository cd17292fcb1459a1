// The store suite: creation and batch order, handle staleness and reuse,
// command-buffer tolerance, the worn-in fixture's exact shape, and the
// serializer's orderings and error cases.

use ecs_canon::{CompSet, CompType, Component, Counter};
use ecs_canon::canon::SeqCanon;
use ecs_canon::command::{CommandBuffer, Resources};
use ecs_canon::fixture::setup;
use ecs_canon::query::{filter_all, filter_counter, query_entities};
use ecs_canon::registry::{create_registry, Registry};
use ecs_canon::serialize::{serialize_seq, SerializeError};
use ecs_canon::world::{StaleEntityError, World};

fn counter_only(i: u64) -> CompSet {
    CompSet { c_bool: None, c_counter: Some(Counter(i)), c_f32: None, c_f64: None, c_u64: None }
}

fn counter_bool(i: u64, b: bool) -> CompSet {
    CompSet { c_bool: Some(b), c_counter: Some(Counter(i)), c_f32: None, c_f64: None, c_u64: None }
}

// External names follow call order — N single creations then N through one
// batch get names 0..2N — not storage order: the batch entities land in the
// same archetype table as earlier flagged ones, yet their names still come
// last.
#[test]
fn batch_names_follow_call_order() {
    let mut world = World::new();
    let mut canon = SeqCanon::new();

    let mut handles = Vec::new();
    handles.push(world.create(counter_bool(0, true)));
    handles.push(world.create(counter_only(1)));
    handles.push(world.create(counter_bool(2, false)));

    let batch = vec![counter_bool(3, true), counter_only(4), counter_bool(5, false)];
    let ids = world.create_batch(&batch);
    assert_eq!(ids.len(), 3);
    handles.extend(ids);

    for h in &handles {
        canon.canonize(*h);
    }
    for (i, h) in handles.iter().enumerate() {
        let name = canon.name_of(*h).unwrap();
        assert_eq!(name.hi, 0);
        assert_eq!(name.lo, i as u64);
    }
}

// Canonize is idempotent: a repeated call returns the first name and mints
// nothing new.
#[test]
fn canonize_idempotent() {
    let mut world = World::new();
    let mut canon = SeqCanon::new();
    let a = world.create(counter_only(7));
    let b = world.create(counter_only(8));
    let na1 = canon.canonize(a);
    let nb = canon.canonize(b);
    let na2 = canon.canonize(a);
    assert_eq!(na1, na2);
    assert_ne!(na1, nb);
    assert_eq!(canon.name_of(a).unwrap(), na1);
}

// Operating on a removed handle directly against the world fails loudly
// with StaleEntityError, and a removed handle is never handed out again.
#[test]
fn stale_handle_fails_loudly() {
    let mut world = World::new();
    let e = world.create(counter_only(1));
    assert_eq!(world.count(), 1);
    assert!(world.remove(e).is_ok());
    assert_eq!(world.count(), 0);
    assert_eq!(world.remove(e), Err(StaleEntityError));
    assert_eq!(world.add_component(e, Component::Bool(true)), Err(StaleEntityError));
    assert_eq!(world.remove_component(e, CompType::Counter), Err(StaleEntityError));
    let e2 = world.create(counter_only(2));
    assert_ne!(e, e2);
    assert_eq!(world.count(), 1);
}

// A flush absorbs entries whose target an earlier entry of the same buffer
// already removed: silent no-ops, never errors; and recorded order wins for
// the same component type.
#[test]
fn flush_tolerates_missing_targets() {
    let mut world = World::new();
    let mut resources = Resources::new();
    let a = world.create(counter_only(1));
    let b = world.create(counter_only(2));

    let mut buf = CommandBuffer::new();
    buf.remove(a);
    buf.remove(a);
    buf.add_component(a, Component::F64Bits(0));
    buf.add_component(b, Component::U64(9));
    buf.add_component(b, Component::U64(11));
    buf.flush(&mut world, &mut resources);

    assert_eq!(world.count(), 1);
    assert!(world.get_components(a).is_none());
    let cs = world.get_components(b).unwrap();
    assert_eq!(cs.c_u64, Some(11));
    assert_eq!(cs.c_counter, Some(Counter(2)));
}

// Moving an entity between archetypes preserves its other component values
// exactly.
#[test]
fn archetype_moves_preserve_components() {
    let mut world = World::new();
    let e = world.create(counter_bool(5, true));
    world.add_component(e, Component::F32Bits(0.25_f32.to_bits())).unwrap();
    world.remove_component(e, CompType::Counter).unwrap();
    let cs = world.get_components(e).unwrap();
    assert_eq!(cs.c_bool, Some(true));
    assert_eq!(cs.c_counter, None);
    assert_eq!(cs.c_f32, Some(0.25_f32.to_bits()));
    // Removing an absent component is a silent no-op.
    world.remove_component(e, CompType::Counter).unwrap();
    assert_eq!(world.get_components(e).unwrap(), cs);
    assert_eq!(world.count(), 1);
}

// The worn-in fixture, exactly: 400 created; every third in creation order
// — the 3rd, 6th, ... — removed, i.e. floor(400/3) = 133, leaving 267; then
// of the survivors, in creation order, every third gains a zero float64 and
// every fifth loses its counter.  The first records pin the rules down.
#[test]
fn setup_round_trip() {
    let registry = create_registry();
    let (canon, world, _resources) = setup();
    assert_eq!(world.count(), 267);

    let out = serialize_seq(&canon, &world, &registry).unwrap();
    assert_eq!(out.len(), 267);

    // Creation 0 survives as the first record; at change-phase index 0 it
    // gained f64 (0 % 3 == 0) and lost its counter (0 % 5 == 0).
    assert_eq!(out[0].name.hi, 0);
    assert_eq!(out[0].name.lo, 0);
    assert_eq!(out[0].comps.len(), 1);
    assert_eq!(out[0].comps[0].tag, "f64");
    assert_eq!(out[0].comps[0].value, Component::F64Bits(0.0_f64.to_bits()));

    // Creation 1 survives untouched at change-phase index 1.
    assert_eq!(out[1].name.lo, 1);
    assert_eq!(out[1].comps.len(), 1);
    assert_eq!(out[1].comps[0].tag, "counter");
    assert_eq!(out[1].comps[0].value, Component::Counter(Counter(1)));

    // Creation 2 — the 3rd created — was removed; the next record is
    // creation 3, untouched at change-phase index 2.
    assert_eq!(out[2].name.lo, 3);
    assert_eq!(out[2].comps.len(), 1);
    assert_eq!(out[2].comps[0].tag, "counter");
    assert_eq!(out[2].comps[0].value, Component::Counter(Counter(3)));

    // Entities are emitted in strictly ascending name order.
    for w in out.windows(2) {
        assert!(
            w[0].name.hi < w[1].name.hi
                || (w[0].name.hi == w[1].name.hi && w[0].name.lo < w[1].name.lo)
        );
    }
}

// Component records of one entity are emitted in lexicographic tag order.
#[test]
fn components_emitted_in_tag_order() {
    let registry = create_registry();
    let mut world = World::new();
    let mut canon = SeqCanon::new();
    let e = world.create(CompSet {
        c_bool: Some(true),
        c_counter: Some(Counter(3)),
        c_f32: Some(1.5_f32.to_bits()),
        c_f64: Some(2.5_f64.to_bits()),
        c_u64: Some(42),
    });
    canon.canonize(e);
    let out = serialize_seq(&canon, &world, &registry).unwrap();
    assert_eq!(out.len(), 1);
    let tags: Vec<&str> = out[0].comps.iter().map(|c| c.tag.as_str()).collect();
    assert_eq!(tags, ["bool", "counter", "f32", "f64", "u64"]);
    assert_eq!(out[0].comps[4].value, Component::U64(42));
}

// A registry missing a tag for an encountered component type aborts the
// serialization with MissingTag.
#[test]
fn serialize_missing_tag() {
    let mut registry = Registry::new();
    registry.register(CompType::Counter, "counter".to_string());
    let mut world = World::new();
    let mut canon = SeqCanon::new();
    let e = world.create(CompSet {
        c_bool: None,
        c_counter: Some(Counter(1)),
        c_f32: None,
        c_f64: Some(0),
        c_u64: None,
    });
    canon.canonize(e);
    let r = serialize_seq(&canon, &world, &registry);
    assert_eq!(r, Err(SerializeError::MissingTag(CompType::F64)));
}

// A live entity that was never canonized has no stable order: fatal.
#[test]
fn serialize_unnamed_entity() {
    let registry = create_registry();
    let mut world = World::new();
    let canon = SeqCanon::new();
    let _ = world.create(counter_only(1));
    let r = serialize_seq(&canon, &world, &registry);
    assert_eq!(r, Err(SerializeError::UnnamedEntity));
}

// An entity may end up with no components at all; it still exists, still
// counts, and still serializes (as an empty record).
#[test]
fn empty_record_entity_survives() {
    let registry = create_registry();
    let mut world = World::new();
    let mut canon = SeqCanon::new();
    let e = world.create(CompSet::empty());
    canon.canonize(e);
    assert_eq!(world.count(), 1);
    let out = serialize_seq(&canon, &world, &registry).unwrap();
    assert_eq!(out.len(), 1);
    assert_eq!(out[0].comps.len(), 0);
}

// The resource bag holds one value per component type, last store winning.
#[test]
fn resources_singleton_per_type() {
    let mut resources = Resources::new();
    assert_eq!(resources.get(CompType::U64), None);
    resources.insert(Component::U64(1));
    resources.insert(Component::Bool(true));
    resources.insert(Component::U64(2));
    assert_eq!(resources.get(CompType::U64), Some(Component::U64(2)));
    assert_eq!(resources.get(CompType::Bool), Some(Component::Bool(true)));
    assert_eq!(resources.get(CompType::F32), None);
}

// The sequential query visits in archetype-storage order: grouped by
// archetype in first-appearance order, then insertion order.
#[test]
fn query_order_is_archetype_storage_order() {
    let mut world = World::new();
    let a = world.create(counter_only(0));
    let b = world.create(counter_bool(1, true));
    let c = world.create(counter_only(2));
    let all = query_entities(&world, filter_all());
    assert_eq!(all, vec![a, c, b]);
    let with_counter = query_entities(&world, filter_counter());
    assert_eq!(with_counter.len(), 3);
}
