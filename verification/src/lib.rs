//! A minimal entity-component-system runtime with a deterministic
//! serialization layer.
//!
//! The crate owns a `World` of entities grouped by archetype, a deferred
//! `CommandBuffer`, a query engine with sequential and pool-order iteration,
//! a `Schedule` of systems, and a `SeqCanon` name allocator whose stable
//! external names make serialized output independent of internal handle
//! allocation.

use vstd::prelude::*;

pub mod world;
pub mod canon;
pub mod registry;
pub mod command;
pub mod query;
pub mod systems;
pub mod serialize;
pub mod fixture;
pub mod laws;

verus! {

/// An opaque handle identifying one live entity in a `World`: a storage slot
/// index together with the generation the slot had when the entity was
/// created.  A removed handle never aliases a later one, because removal
/// bumps the slot's generation.
#[derive(Clone, Copy, PartialEq, Eq, Structural, Debug)]
pub struct Entity {
    pub slot: usize,
    pub gen: u64,
}

/// The counter component: a single unsigned value that the fixture and the
/// systems read and write.
#[derive(Clone, Copy, PartialEq, Eq, Structural, Debug)]
pub struct Counter(pub u64);

/// The component types the registry can bind.  Floating-point components are
/// carried as their IEEE-754 bit patterns, so the store itself never
/// computes with floats.  The variant order is the lexicographic order of
/// the registered tags: "bool" < "counter" < "f32" < "f64" < "u64".
#[derive(Clone, Copy, PartialEq, Eq, Structural, Debug)]
pub enum CompType {
    Bool,
    Counter,
    F32,
    F64,
    U64,
}

/// One component value, tagged by its type.
#[derive(Clone, Copy, PartialEq, Eq, Structural, Debug)]
pub enum Component {
    Bool(bool),
    Counter(Counter),
    F32Bits(u32),
    F64Bits(u64),
    U64(u64),
}

/// The full component record of one entity: at most one value per component
/// type.  `None` means the entity does not have that component.
#[derive(Clone, Copy, PartialEq, Eq, Structural, Debug)]
pub struct CompSet {
    pub c_bool: Option<bool>,
    pub c_counter: Option<Counter>,
    pub c_f32: Option<u32>,
    pub c_f64: Option<u64>,
    pub c_u64: Option<u64>,
}

/// An archetype signature: which component types an entity currently has.
/// Entities are physically grouped by equal signatures.
#[derive(Clone, Copy, PartialEq, Eq, Structural, Debug)]
pub struct SigSet {
    pub has_bool: bool,
    pub has_counter: bool,
    pub has_f32: bool,
    pub has_f64: bool,
    pub has_u64: bool,
}

impl CompSet {
    /// The record with no components at all.
    pub open spec fn spec_empty() -> CompSet {
        CompSet { c_bool: None, c_counter: None, c_f32: None, c_f64: None, c_u64: None }
    }

    pub fn empty() -> (r: CompSet)
        ensures
            r == CompSet::spec_empty(),
    {
        CompSet { c_bool: None, c_counter: None, c_f32: None, c_f64: None, c_u64: None }
    }

    /// The archetype signature of this record.
    pub open spec fn sig(self) -> SigSet {
        SigSet {
            has_bool: self.c_bool is Some,
            has_counter: self.c_counter is Some,
            has_f32: self.c_f32 is Some,
            has_f64: self.c_f64 is Some,
            has_u64: self.c_u64 is Some,
        }
    }

    pub fn sig_of(&self) -> (s: SigSet)
        ensures
            s == self.sig(),
    {
        SigSet {
            has_bool: self.c_bool.is_some(),
            has_counter: self.c_counter.is_some(),
            has_f32: self.c_f32.is_some(),
            has_f64: self.c_f64.is_some(),
            has_u64: self.c_u64.is_some(),
        }
    }

    /// The record after storing `c`, overwriting any value of the same type.
    pub open spec fn spec_with(self, c: Component) -> CompSet {
        match c {
            Component::Bool(b) => CompSet { c_bool: Some(b), ..self },
            Component::Counter(k) => CompSet { c_counter: Some(k), ..self },
            Component::F32Bits(b) => CompSet { c_f32: Some(b), ..self },
            Component::F64Bits(b) => CompSet { c_f64: Some(b), ..self },
            Component::U64(u) => CompSet { c_u64: Some(u), ..self },
        }
    }

    pub fn with(self, c: Component) -> (r: CompSet)
        ensures
            r == self.spec_with(c),
    {
        match c {
            Component::Bool(b) => CompSet { c_bool: Some(b), ..self },
            Component::Counter(k) => CompSet { c_counter: Some(k), ..self },
            Component::F32Bits(b) => CompSet { c_f32: Some(b), ..self },
            Component::F64Bits(b) => CompSet { c_f64: Some(b), ..self },
            Component::U64(u) => CompSet { c_u64: Some(u), ..self },
        }
    }

    /// The record after dropping the component of type `t`, if present.
    pub open spec fn spec_without(self, t: CompType) -> CompSet {
        match t {
            CompType::Bool => CompSet { c_bool: None, ..self },
            CompType::Counter => CompSet { c_counter: None, ..self },
            CompType::F32 => CompSet { c_f32: None, ..self },
            CompType::F64 => CompSet { c_f64: None, ..self },
            CompType::U64 => CompSet { c_u64: None, ..self },
        }
    }

    pub fn without(self, t: CompType) -> (r: CompSet)
        ensures
            r == self.spec_without(t),
    {
        match t {
            CompType::Bool => CompSet { c_bool: None, ..self },
            CompType::Counter => CompSet { c_counter: None, ..self },
            CompType::F32 => CompSet { c_f32: None, ..self },
            CompType::F64 => CompSet { c_f64: None, ..self },
            CompType::U64 => CompSet { c_u64: None, ..self },
        }
    }
}

} // verus!
