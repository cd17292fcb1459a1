//! Stable external names for entities.
//!
//! `SeqCanon` assigns each entity, on first reference, the next value of a
//! monotonically increasing counter, encoded big-endian into a fixed
//! 16-byte-wide name.  The assignment depends only on the order of
//! `canonize` calls — never on the handle's bit pattern, storage order, or
//! any hash-based iteration — so two runs that canonize in the same order
//! agree on every name.
//!
//! `NaiveCanon` is the deliberate foil: it mixes a per-run seed into every
//! name, standing for a name source seeded by process-local state.  Two runs
//! with different seeds agree on nothing, which is what makes `SeqCanon`
//! necessary.

use vstd::prelude::*;
use crate::Entity;

verus! {

/// A fixed-width (16-byte) external name, held as two big-endian 64-bit
/// words.  Names compare lexicographically by `(hi, lo)`.
#[derive(Clone, Copy, PartialEq, Eq, Structural, Debug)]
pub struct ExternalName {
    pub hi: u64,
    pub lo: u64,
}

/// Strict lexicographic order on names.
pub open spec fn name_lt(a: ExternalName, b: ExternalName) -> bool {
    a.hi < b.hi || (a.hi == b.hi && a.lo < b.lo)
}

/// One entry of a name table: the handle and the name it was assigned.
#[derive(Clone, Copy, PartialEq, Eq, Structural, Debug)]
pub struct NameEntry {
    pub entity: Entity,
    pub name: ExternalName,
}

/// The view of a name allocator: its table in assignment order, and the
/// counter the next name comes from.
#[verifier::ext_equal]
pub ghost struct CanonV {
    pub names: Seq<NameEntry>,
    pub count: u64,
}

/// First index in `names` holding `e`, or `names.len()`.
pub open spec fn find_name_from(names: Seq<NameEntry>, e: Entity, i: int) -> int
    decreases names.len() - i
        when 0 <= i <= names.len()
{
    if i >= names.len() {
        names.len() as int
    } else if names[i].entity == e {
        i
    } else {
        find_name_from(names, e, i + 1)
    }
}

/// What holds of the index the name search returns.
pub proof fn lemma_find_name_props(names: Seq<NameEntry>, e: Entity, i: int)
    requires
        0 <= i <= names.len(),
    ensures
        i <= find_name_from(names, e, i) <= names.len(),
        find_name_from(names, e, i) < names.len() ==> names[find_name_from(
            names,
            e,
            i,
        )].entity == e,
        forall|j: int|
            i <= j < find_name_from(names, e, i) ==> (#[trigger] names[j]).entity != e,
    decreases names.len() - i,
{
    if i < names.len() && !(names[i].entity == e) {
        lemma_find_name_props(names, e, i + 1);
    }
}

/// The name minted for counter value `count` under run-seed `hi`: the seed
/// word, then the counter, big-endian.  `SeqCanon` always uses seed 0.
pub open spec fn minted_name(hi: u64, count: u64) -> ExternalName {
    ExternalName { hi, lo: count }
}

/// Transition of `canonize` for a table seeded with `hi`: idempotent on a
/// known entity, and otherwise appends the next minted name.
pub open spec fn spec_canonize(c: CanonV, hi: u64, e: Entity) -> CanonV {
    if find_name_from(c.names, e, 0) < c.names.len() {
        c
    } else {
        CanonV {
            names: c.names.push(NameEntry { entity: e, name: minted_name(hi, c.count) }),
            count: (c.count + 1) as u64,
        }
    }
}

/// The name `canonize` returns.
pub open spec fn spec_canonized_name(c: CanonV, hi: u64, e: Entity) -> ExternalName {
    let i = find_name_from(c.names, e, 0);
    if i < c.names.len() {
        c.names[i].name
    } else {
        minted_name(hi, c.count)
    }
}

/// Well-formedness of a table seeded with `hi`: the i-th assigned entity is
/// distinct from all earlier ones and carries exactly the name minted for
/// counter value i.  Names are therefore strictly ascending in table order.
pub open spec fn canon_wf(c: CanonV, hi: u64) -> bool {
    &&& c.count as int == c.names.len()
    &&& forall|i: int|
        0 <= i < c.names.len() ==> (#[trigger] c.names[i]).name == minted_name(hi, i as u64)
    &&& forall|i: int, j: int|
        0 <= i < j < c.names.len() ==> (#[trigger] c.names[i]).entity != (
        #[trigger] c.names[j]).entity
}

/// The deterministic name allocator: counter-based names, seed word 0.
pub struct SeqCanon {
    pub names: Vec<NameEntry>,
    pub count: u64,
}

/// The naive name source: identical to `SeqCanon` except that a per-run
/// seed is mixed into every minted name, the way an unseeded default source
/// depends on process-local state.
pub struct NaiveCanon {
    pub names: Vec<NameEntry>,
    pub seed: u64,
    pub count: u64,
}

impl View for SeqCanon {
    type V = CanonV;

    open spec fn view(&self) -> CanonV {
        CanonV { names: self.names@, count: self.count }
    }
}

impl View for NaiveCanon {
    type V = CanonV;

    open spec fn view(&self) -> CanonV {
        CanonV { names: self.names@, count: self.count }
    }
}

impl SeqCanon {
    /// An empty table; the first canonized entity gets name (0, 0).
    pub fn new() -> (c: SeqCanon)
        ensures
            c@.names.len() == 0,
            c@.count == 0,
            canon_wf(c@, 0),
    {
        SeqCanon { names: Vec::new(), count: 0 }
    }

    /// Assign `e` its stable external name: the already-assigned one when
    /// `e` is known (idempotence — that path mints nothing and needs no
    /// counter headroom), the next counter-minted name otherwise.
    pub fn canonize(&mut self, e: Entity) -> (n: ExternalName)
        requires
            old(self)@.count < u64::MAX || find_name_from(old(self)@.names, e, 0) < old(
                self,
            )@.names.len(),
        ensures
            final(self)@ == spec_canonize(old(self)@, 0, e),
            n == spec_canonized_name(old(self)@, 0, e),
            canon_wf(old(self)@, 0) ==> canon_wf(final(self)@, 0),
    {
        proof {
            lemma_find_name_props(self@.names, e, 0);
        }
        let i = find_name_index(&self.names, e);
        if i < self.names.len() {
            self.names[i].name
        } else {
            let n = self.next_name();
            self.names.push(NameEntry { entity: e, name: n });
            self.count = self.count + 1;
            n
        }
    }

    /// The next name to mint: the counter value, big-endian, zero-padded to
    /// the full 16-byte width — a pure function of the counter, never of a
    /// handle's bit pattern or of any iteration order.
    fn next_name(&self) -> (n: ExternalName)
        ensures
            n == minted_name(0, self@.count),
    {
        ExternalName { hi: 0, lo: self.count }
    }

    /// The name `e` was assigned, if it has been canonized.
    pub fn name_of(&self, e: Entity) -> (r: Option<ExternalName>)
        ensures
            r == (if find_name_from(self@.names, e, 0) < self@.names.len() {
                Some(self@.names[find_name_from(self@.names, e, 0)].name)
            } else {
                None::<ExternalName>
            }),
    {
        let i = find_name_index(&self.names, e);
        if i < self.names.len() {
            Some(self.names[i].name)
        } else {
            None
        }
    }
}

impl NaiveCanon {
    /// An empty table under the given per-run seed.
    pub fn new(seed: u64) -> (c: NaiveCanon)
        ensures
            c@.names.len() == 0,
            c@.count == 0,
            c.seed == seed,
            canon_wf(c@, seed),
    {
        NaiveCanon { names: Vec::new(), seed, count: 0 }
    }

    /// Assign `e` a seed-dependent name.  The assignment is a function of
    /// the call order and the seed — so two runs that drew different seeds
    /// disagree on every name.
    pub fn canonize(&mut self, e: Entity) -> (n: ExternalName)
        requires
            old(self)@.count < u64::MAX || find_name_from(old(self)@.names, e, 0) < old(
                self,
            )@.names.len(),
        ensures
            final(self)@ == spec_canonize(old(self)@, old(self).seed, e),
            n == spec_canonized_name(old(self)@, old(self).seed, e),
            final(self).seed == old(self).seed,
            canon_wf(old(self)@, old(self).seed) ==> canon_wf(final(self)@, old(self).seed),
    {
        proof {
            lemma_find_name_props(self@.names, e, 0);
        }
        let i = find_name_index(&self.names, e);
        if i < self.names.len() {
            self.names[i].name
        } else {
            let n = ExternalName { hi: self.seed, lo: self.count };
            self.names.push(NameEntry { entity: e, name: n });
            self.count = self.count + 1;
            n
        }
    }
}

/// First table index holding `e`, or `names.len()`.
fn find_name_index(names: &Vec<NameEntry>, e: Entity) -> (r: usize)
    ensures
        r as int == find_name_from(names@, e, 0),
{
    let n = names.len();
    let mut i: usize = 0;
    while i < n
        invariant
            0 <= i <= n == names@.len(),
            find_name_from(names@, e, 0) == find_name_from(names@, e, i as int),
        decreases n - i,
    {
        if names[i].entity == e {
            return i;
        }
        i = i + 1;
    }
    i
}

} // verus!
