//! The canonical serializer.
//!
//! A world is emitted as a tree: an array of entity records ordered by
//! external name, each record holding its name and its component records
//! ordered by registered tag (the registry registers tags in lexicographic
//! order, and component records follow registration rank).  This double
//! ordering — never internal handles, never archetype-visitation order —
//! is what makes two behaviorally-equal worlds serialize identically.

use vstd::prelude::*;
use crate::{CompSet, CompType, Component};
use crate::canon::{ExternalName, NameEntry, NaiveCanon, SeqCanon, name_lt};
use crate::registry::{Registry, RegEntryV, find_tag_from, standard_registry, tag_of};
use crate::world::{World, WorldV, is_live, lookup, spec_live_count};

verus! {

/// One serialized component: its registered tag and its value.
#[derive(Clone, PartialEq, Eq, Debug)]
pub struct CompRec {
    pub tag: String,
    pub value: Component,
}

/// The view of one serialized component.
#[verifier::ext_equal]
pub ghost struct CompRecV {
    pub tag: Seq<char>,
    pub value: Component,
}

/// One serialized entity: its stable external name and its component
/// records in tag order.
#[derive(Clone, PartialEq, Eq, Debug)]
pub struct CanonEntity {
    pub name: ExternalName,
    pub comps: Vec<CompRec>,
}

/// The view of one serialized entity.
#[verifier::ext_equal]
pub ghost struct CanonEntityV {
    pub name: ExternalName,
    pub comps: Seq<CompRecV>,
}

/// Fatal serialization faults: the registry lacks a tag for an encountered
/// component type, or a live entity was never canonized, so no stable
/// order exists for it.
#[derive(Clone, Copy, PartialEq, Eq, Structural, Debug)]
pub enum SerializeError {
    MissingTag(CompType),
    UnnamedEntity,
}

impl View for CompRec {
    type V = CompRecV;

    open spec fn view(&self) -> CompRecV {
        CompRecV { tag: self.tag@, value: self.value }
    }
}

impl View for CanonEntity {
    type V = CanonEntityV;

    open spec fn view(&self) -> CanonEntityV {
        CanonEntityV {
            name: self.name,
            comps: Seq::new(self.comps@.len(), |i: int| self.comps@[i]@),
        }
    }
}

/// The view of a whole output.
pub open spec fn ents_view(s: Seq<CanonEntity>) -> Seq<CanonEntityV> {
    Seq::new(s.len(), |i: int| s[i]@)
}

/// Whether the registry binds a tag for every component the record holds.
pub open spec fn covers(reg: Seq<RegEntryV>, cs: CompSet) -> bool {
    &&& (cs.c_bool is Some ==> tag_of(reg, CompType::Bool) is Some)
    &&& (cs.c_counter is Some ==> tag_of(reg, CompType::Counter) is Some)
    &&& (cs.c_f32 is Some ==> tag_of(reg, CompType::F32) is Some)
    &&& (cs.c_f64 is Some ==> tag_of(reg, CompType::F64) is Some)
    &&& (cs.c_u64 is Some ==> tag_of(reg, CompType::U64) is Some)
}

/// The first component type, in tag order, the registry lacks a tag for.
pub open spec fn first_missing(reg: Seq<RegEntryV>, cs: CompSet) -> CompType {
    if cs.c_bool is Some && tag_of(reg, CompType::Bool) is None {
        CompType::Bool
    } else if cs.c_counter is Some && tag_of(reg, CompType::Counter) is None {
        CompType::Counter
    } else if cs.c_f32 is Some && tag_of(reg, CompType::F32) is None {
        CompType::F32
    } else if cs.c_f64 is Some && tag_of(reg, CompType::F64) is None {
        CompType::F64
    } else {
        CompType::U64
    }
}

/// The component records of one entity, in tag order; meaningful when the
/// registry covers the record.
pub open spec fn recs_of(cs: CompSet, reg: Seq<RegEntryV>) -> Seq<CompRecV> {
    (match cs.c_bool {
        Some(b) => seq![
            CompRecV { tag: tag_of(reg, CompType::Bool)->Some_0, value: Component::Bool(b) },
        ],
        None => Seq::empty(),
    }) + (match cs.c_counter {
        Some(k) => seq![
            CompRecV {
                tag: tag_of(reg, CompType::Counter)->Some_0,
                value: Component::Counter(k),
            },
        ],
        None => Seq::empty(),
    }) + (match cs.c_f32 {
        Some(b) => seq![
            CompRecV { tag: tag_of(reg, CompType::F32)->Some_0, value: Component::F32Bits(b) },
        ],
        None => Seq::empty(),
    }) + (match cs.c_f64 {
        Some(b) => seq![
            CompRecV { tag: tag_of(reg, CompType::F64)->Some_0, value: Component::F64Bits(b) },
        ],
        None => Seq::empty(),
    }) + (match cs.c_u64 {
        Some(u) => seq![
            CompRecV { tag: tag_of(reg, CompType::U64)->Some_0, value: Component::U64(u) },
        ],
        None => Seq::empty(),
    })
}

/// Strict lexicographic order on tag strings, by character code point.
pub open spec fn lex_lt(a: Seq<char>, b: Seq<char>) -> bool
    decreases a.len(),
{
    if b.len() == 0 {
        false
    } else if a.len() == 0 {
        true
    } else if a[0] != b[0] {
        (a[0] as u32) < (b[0] as u32)
    } else {
        lex_lt(a.drop_first(), b.drop_first())
    }
}

/// Under the standard registry, an entity's component records come out in
/// strictly ascending lexicographic tag order: the registration-rank order
/// the serializer emits in coincides with tag order because the registry
/// registers its tags lexicographically.
pub proof fn lemma_recs_tags_lex_sorted(reg: Seq<RegEntryV>, cs: CompSet)
    requires
        standard_registry(reg),
    ensures
        forall|i: int, j: int|
            0 <= i < j < recs_of(cs, reg).len() ==> lex_lt(
                (#[trigger] recs_of(cs, reg)[i]).tag,
                (#[trigger] recs_of(cs, reg)[j]).tag,
            ),
{
    reveal_strlit("bool");
    reveal_strlit("counter");
    reveal_strlit("f32");
    reveal_strlit("f64");
    reveal_strlit("u64");
    assert(find_tag_from(reg, CompType::Bool, 0) == 0);
    assert(find_tag_from(reg, CompType::Counter, 1) == 1);
    assert(find_tag_from(reg, CompType::Counter, 0) == 1);
    assert(find_tag_from(reg, CompType::F32, 2) == 2);
    assert(find_tag_from(reg, CompType::F32, 1) == 2);
    assert(find_tag_from(reg, CompType::F32, 0) == 2);
    assert(find_tag_from(reg, CompType::F64, 3) == 3);
    assert(find_tag_from(reg, CompType::F64, 2) == 3);
    assert(find_tag_from(reg, CompType::F64, 1) == 3);
    assert(find_tag_from(reg, CompType::F64, 0) == 3);
    assert(find_tag_from(reg, CompType::U64, 4) == 4);
    assert(find_tag_from(reg, CompType::U64, 3) == 4);
    assert(find_tag_from(reg, CompType::U64, 2) == 4);
    assert(find_tag_from(reg, CompType::U64, 1) == 4);
    assert(find_tag_from(reg, CompType::U64, 0) == 4);
    assert(tag_of(reg, CompType::Bool) == Some("bool"@));
    assert(tag_of(reg, CompType::Counter) == Some("counter"@));
    assert(tag_of(reg, CompType::F32) == Some("f32"@));
    assert(tag_of(reg, CompType::F64) == Some("f64"@));
    assert(tag_of(reg, CompType::U64) == Some("u64"@));
    assert(lex_lt("bool"@, "counter"@));
    assert(lex_lt("bool"@, "f32"@));
    assert(lex_lt("bool"@, "f64"@));
    assert(lex_lt("bool"@, "u64"@));
    assert(lex_lt("counter"@, "f32"@));
    assert(lex_lt("counter"@, "f64"@));
    assert(lex_lt("counter"@, "u64"@));
    assert(lex_lt("f32"@.drop_first(), "f64"@.drop_first()));
    assert(lex_lt("f32"@, "f64"@));
    assert(lex_lt("f32"@, "u64"@));
    assert(lex_lt("f64"@, "u64"@));
}

/// The records emitted for a name table: each named entity that is live,
/// in table order, skipping names whose entity is gone.  The first missing
/// tag aborts the emission.
pub open spec fn spec_emit(w: WorldV, names: Seq<NameEntry>, reg: Seq<RegEntryV>) -> Result<
    Seq<CanonEntityV>,
    SerializeError,
>
    decreases names.len(),
{
    if names.len() == 0 {
        Ok(Seq::empty())
    } else {
        match spec_emit(w, names.drop_last(), reg) {
            Err(e) => Err(e),
            Ok(s) => {
                let ne = names.last();
                if is_live(w, ne.entity) {
                    match lookup(w, ne.entity) {
                        Some(cs) => if covers(reg, cs) {
                            Ok(s.push(CanonEntityV { name: ne.name, comps: recs_of(cs, reg) }))
                        } else {
                            Err(SerializeError::MissingTag(first_missing(reg, cs)))
                        },
                        None => Ok(s),
                    }
                } else {
                    Ok(s)
                }
            },
        }
    }
}

/// The canonical serialization of a world under a name table: the emitted
/// records, provided every live entity was named — otherwise the count of
/// emitted records falls short of the live count and serialization fails.
pub open spec fn spec_serialize(w: WorldV, names: Seq<NameEntry>, reg: Seq<RegEntryV>) -> Result<
    Seq<CanonEntityV>,
    SerializeError,
> {
    match spec_emit(w, names, reg) {
        Err(e) => Err(e),
        Ok(s) => if s.len() == spec_live_count(w.slots) {
            Ok(s)
        } else {
            Err(SerializeError::UnnamedEntity)
        },
    }
}

/// An error reached at a name-table prefix persists to the full table.
pub proof fn lemma_emit_err_persists(
    w: WorldV,
    names: Seq<NameEntry>,
    reg: Seq<RegEntryV>,
    j: int,
)
    requires
        0 <= j <= names.len(),
        spec_emit(w, names.take(j), reg) is Err,
    ensures
        spec_emit(w, names, reg) == spec_emit(w, names.take(j), reg),
    decreases names.len() - j,
{
    if j < names.len() {
        assert(names.take(j + 1).drop_last() =~= names.take(j));
        lemma_emit_err_persists(w, names, reg, j + 1);
    } else {
        assert(names.take(j) =~= names);
    }
}

/// The component records of `cs` under `registry`, in tag order, or the
/// first missing tag.
fn build_recs(cs: &CompSet, registry: &Registry) -> (r: Result<Vec<CompRec>, SerializeError>)
    ensures
        r is Ok <==> covers(registry@, *cs),
        r is Ok ==> Seq::new(r->Ok_0@.len(), |i: int| r->Ok_0@[i]@) == recs_of(*cs, registry@),
        r is Err ==> r->Err_0 == SerializeError::MissingTag(first_missing(registry@, *cs)),
{
    let mut recs: Vec<CompRec> = Vec::new();
    match cs.c_bool {
        Some(b) => {
            match registry.tag_for(CompType::Bool) {
                Some(tag) => recs.push(CompRec { tag, value: Component::Bool(b) }),
                None => {
                    return Err(SerializeError::MissingTag(CompType::Bool));
                },
            }
        },
        None => {},
    }
    match cs.c_counter {
        Some(k) => {
            match registry.tag_for(CompType::Counter) {
                Some(tag) => recs.push(CompRec { tag, value: Component::Counter(k) }),
                None => {
                    return Err(SerializeError::MissingTag(CompType::Counter));
                },
            }
        },
        None => {},
    }
    match cs.c_f32 {
        Some(b) => {
            match registry.tag_for(CompType::F32) {
                Some(tag) => recs.push(CompRec { tag, value: Component::F32Bits(b) }),
                None => {
                    return Err(SerializeError::MissingTag(CompType::F32));
                },
            }
        },
        None => {},
    }
    match cs.c_f64 {
        Some(b) => {
            match registry.tag_for(CompType::F64) {
                Some(tag) => recs.push(CompRec { tag, value: Component::F64Bits(b) }),
                None => {
                    return Err(SerializeError::MissingTag(CompType::F64));
                },
            }
        },
        None => {},
    }
    match cs.c_u64 {
        Some(u) => {
            match registry.tag_for(CompType::U64) {
                Some(tag) => recs.push(CompRec { tag, value: Component::U64(u) }),
                None => {
                    return Err(SerializeError::MissingTag(CompType::U64));
                },
            }
        },
        None => {},
    }
    proof {
        assert(Seq::new(recs@.len(), |i: int| recs@[i]@) =~~= recs_of(*cs, registry@));
    }
    Ok(recs)
}

/// Serialize `world` under an explicit name table: named live entities are
/// emitted in table order with their component records in tag order.
/// Returns the canonical tree exactly when the registry covers every
/// encountered component and every live entity is named.
pub fn serialize_named(world: &World, names: &Vec<NameEntry>, registry: &Registry) -> (r: Result<
    Vec<CanonEntity>,
    SerializeError,
>)
    ensures
        (r is Ok <==> spec_serialize(world@, names@, registry@) is Ok),
        r is Ok ==> ents_view(r->Ok_0@) == spec_serialize(world@, names@, registry@)->Ok_0,
        r is Err ==> r->Err_0 == spec_serialize(world@, names@, registry@)->Err_0,
{
    let ghost w = world@;
    let ghost nv = names@;
    let nn = names.len();
    let mut out: Vec<CanonEntity> = Vec::new();
    proof {
        assert(nv.take(0) =~= Seq::<NameEntry>::empty());
        assert(ents_view(out@) =~= Seq::<CanonEntityV>::empty());
    }
    let mut i: usize = 0;
    while i < nn
        invariant
            0 <= i <= nn == names@.len(),
            w == world@,
            nv == names@,
            spec_emit(w, nv.take(i as int), registry@) == Ok::<_, SerializeError>(
                ents_view(out@),
            ),
        decreases nn - i,
    {
        proof {
            assert(nv.take(i as int + 1).drop_last() =~= nv.take(i as int));
            assert(nv.take(i as int + 1).last() == nv[i as int]);
        }
        let ne = names[i];
        if world.contains(ne.entity) {
            match world.get_components(ne.entity) {
                Some(cs) => {
                    match build_recs(&cs, registry) {
                        Ok(recs) => {
                            let ghost out_pre = out@;
                            out.push(CanonEntity { name: ne.name, comps: recs });
                            proof {
                                assert(ents_view(out@) =~~= ents_view(out_pre).push(
                                    CanonEntityV {
                                        name: ne.name,
                                        comps: recs_of(cs, registry@),
                                    },
                                ));
                            }
                        },
                        Err(e) => {
                            proof {
                                lemma_emit_err_persists(w, nv, registry@, i as int + 1);
                            }
                            return Err(e);
                        },
                    }
                },
                None => {},
            }
        }
        i = i + 1;
    }
    proof {
        assert(nv.take(nn as int) =~= nv);
    }
    let c = world.count();
    if out.len() == c {
        Ok(out)
    } else {
        Err(SerializeError::UnnamedEntity)
    }
}

/// Serialize under the deterministic name allocator: the canonical output
/// whose entity order is the allocator's assignment order, which is
/// ascending name order.
pub fn serialize_seq(canon: &SeqCanon, world: &World, registry: &Registry) -> (r: Result<
    Vec<CanonEntity>,
    SerializeError,
>)
    ensures
        (r is Ok <==> spec_serialize(world@, canon@.names, registry@) is Ok),
        r is Ok ==> ents_view(r->Ok_0@) == spec_serialize(world@, canon@.names, registry@)->Ok_0,
        r is Err ==> r->Err_0 == spec_serialize(world@, canon@.names, registry@)->Err_0,
{
    serialize_named(world, &canon.names, registry)
}

/// Serialize under the naive, seed-mixing name source.  The output embeds
/// the seed in every name, so two runs that drew different seeds disagree
/// — see `laws::lemma_naive_canon_nondeterministic`.
pub fn serialize_naive(canon: &NaiveCanon, world: &World, registry: &Registry) -> (r: Result<
    Vec<CanonEntity>,
    SerializeError,
>)
    ensures
        (r is Ok <==> spec_serialize(world@, canon@.names, registry@) is Ok),
        r is Ok ==> ents_view(r->Ok_0@) == spec_serialize(world@, canon@.names, registry@)->Ok_0,
        r is Err ==> r->Err_0 == spec_serialize(world@, canon@.names, registry@)->Err_0,
{
    serialize_named(world, &canon.names, registry)
}

/// Output names are drawn from the name table, in table order.
pub proof fn lemma_emit_names_from_table(
    w: WorldV,
    names: Seq<NameEntry>,
    reg: Seq<RegEntryV>,
    s: Seq<CanonEntityV>,
)
    requires
        spec_emit(w, names, reg) == Ok::<_, SerializeError>(s),
    ensures
        forall|i: int|
            0 <= i < s.len() ==> exists|k: int|
                0 <= k < names.len() && (#[trigger] s[i]).name == names[k].name,
    decreases names.len(),
{
    if names.len() > 0 {
        let prev = spec_emit(w, names.drop_last(), reg);
        lemma_emit_names_from_table(w, names.drop_last(), reg, prev->Ok_0);
        assert forall|i: int| 0 <= i < s.len() implies exists|k: int|
            0 <= k < names.len() && (#[trigger] s[i]).name == names[k].name by {
            if i < prev->Ok_0.len() {
                let k = choose|k: int|
                    0 <= k < names.drop_last().len() && prev->Ok_0[i].name
                        == names.drop_last()[k].name;
                assert(s[i].name == names[k].name);
            } else {
                assert(s[i].name == names[names.len() - 1].name);
            }
        }
    }
}

/// Under an ascending name table — which every well-formed allocator
/// produces — the emitted records are strictly ascending by external name:
/// the canonical entity order of this serializer.
pub proof fn lemma_emit_sorted(
    w: WorldV,
    names: Seq<NameEntry>,
    reg: Seq<RegEntryV>,
    s: Seq<CanonEntityV>,
)
    requires
        spec_emit(w, names, reg) == Ok::<_, SerializeError>(s),
        forall|i: int, j: int|
            0 <= i < j < names.len() ==> name_lt(
                (#[trigger] names[i]).name,
                (#[trigger] names[j]).name,
            ),
    ensures
        forall|i: int, j: int|
            0 <= i < j < s.len() ==> name_lt((#[trigger] s[i]).name, (#[trigger] s[j]).name),
    decreases names.len(),
{
    if names.len() > 0 {
        let prev = spec_emit(w, names.drop_last(), reg);
        lemma_emit_sorted(w, names.drop_last(), reg, prev->Ok_0);
        lemma_emit_names_from_table(w, names.drop_last(), reg, prev->Ok_0);
        assert forall|i: int, j: int|
            0 <= i < j < s.len() implies name_lt(s[i].name, s[j].name) by {
            if j < prev->Ok_0.len() {
            } else if j == s.len() - 1 && s.len() > prev->Ok_0.len() {
                let k = choose|k: int|
                    0 <= k < names.drop_last().len() && prev->Ok_0[i].name
                        == names.drop_last()[k].name;
                assert(name_lt(names[k].name, names[names.len() - 1].name));
            }
        }
    }
}

} // verus!
