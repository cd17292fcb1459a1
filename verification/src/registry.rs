//! The component registry: an ordered table binding a string tag to each
//! component type a serialized output may carry.  Two outputs are only
//! comparable when they were produced under equal registries, so the
//! registry is built once, up front, and never mutated afterwards.

use vstd::prelude::*;
use crate::CompType;

verus! {

/// One binding of a component type to its tag.
#[derive(Clone, Debug)]
pub struct RegEntry {
    pub ty: CompType,
    pub tag: String,
}

/// The view of one binding.
#[verifier::ext_equal]
pub ghost struct RegEntryV {
    pub ty: CompType,
    pub tag: Seq<char>,
}

/// The registry: bindings in registration order.
#[derive(Clone, Debug)]
pub struct Registry {
    pub entries: Vec<RegEntry>,
}

impl View for Registry {
    type V = Seq<RegEntryV>;

    open spec fn view(&self) -> Seq<RegEntryV> {
        Seq::new(
            self.entries@.len(),
            |i: int| RegEntryV { ty: self.entries@[i].ty, tag: self.entries@[i].tag@ },
        )
    }
}

/// First index binding `t`, or `reg.len()`.
pub open spec fn find_tag_from(reg: Seq<RegEntryV>, t: CompType, i: int) -> int
    decreases reg.len() - i
        when 0 <= i <= reg.len()
{
    if i >= reg.len() {
        reg.len() as int
    } else if reg[i].ty == t {
        i
    } else {
        find_tag_from(reg, t, i + 1)
    }
}

/// The tag bound to `t`, if any.
pub open spec fn tag_of(reg: Seq<RegEntryV>, t: CompType) -> Option<Seq<char>> {
    let i = find_tag_from(reg, t, 0);
    if i < reg.len() {
        Some(reg[i].tag)
    } else {
        None
    }
}

/// What holds of the index the tag search returns.
pub proof fn lemma_find_tag_props(reg: Seq<RegEntryV>, t: CompType, i: int)
    requires
        0 <= i <= reg.len(),
    ensures
        i <= find_tag_from(reg, t, i) <= reg.len(),
        find_tag_from(reg, t, i) < reg.len() ==> reg[find_tag_from(reg, t, i)].ty == t,
    decreases reg.len() - i,
{
    if i < reg.len() && !(reg[i].ty == t) {
        lemma_find_tag_props(reg, t, i + 1);
    }
}

impl Registry {
    /// A registry with no bindings.
    pub fn new() -> (r: Registry)
        ensures
            r@.len() == 0,
    {
        Registry { entries: Vec::new() }
    }

    /// Bind `ty` to `tag`, appending to the table.
    pub fn register(&mut self, ty: CompType, tag: String) -> (r: ())
        ensures
            final(self)@ == old(self)@.push(RegEntryV { ty, tag: tag@ }),
    {
        let ghost v0 = self@;
        self.entries.push(RegEntry { ty, tag });
        proof {
            assert(self@ =~~= v0.push(RegEntryV { ty, tag: tag@ }));
        }
    }

    /// The tag bound to `t`, cloned out of the table.
    pub fn tag_for(&self, t: CompType) -> (r: Option<String>)
        ensures
            (r is Some <==> tag_of(self@, t) is Some),
            r is Some ==> r->Some_0@ == tag_of(self@, t)->Some_0,
    {
        proof {
            lemma_find_tag_props(self@, t, 0);
        }
        let n = self.entries.len();
        let mut i: usize = 0;
        while i < n
            invariant
                0 <= i <= n == self@.len(),
                find_tag_from(self@, t, 0) == find_tag_from(self@, t, i as int),
                self@.len() == self.entries@.len(),
                forall|j: int|
                    0 <= j < self@.len() ==> self@[j].ty == self.entries@[j].ty && self@[j].tag
                        == self.entries@[j].tag@,
            decreases n - i,
        {
            if compatible_type(self.entries[i].ty, t) {
                return Some(self.entries[i].tag.clone());
            }
            i = i + 1;
        }
        None
    }
}

/// Equality test on component types.
fn compatible_type(a: CompType, b: CompType) -> (r: bool)
    ensures
        r == (a == b),
{
    a == b
}

/// The shape of this crate's standard registry: the five component types
/// under their tags, in registration-rank order.
pub open spec fn standard_registry(reg: Seq<RegEntryV>) -> bool {
    &&& reg.len() == 5
    &&& reg[0] == (RegEntryV { ty: CompType::Bool, tag: "bool"@ })
    &&& reg[1] == (RegEntryV { ty: CompType::Counter, tag: "counter"@ })
    &&& reg[2] == (RegEntryV { ty: CompType::F32, tag: "f32"@ })
    &&& reg[3] == (RegEntryV { ty: CompType::F64, tag: "f64"@ })
    &&& reg[4] == (RegEntryV { ty: CompType::U64, tag: "u64"@ })
}

/// The standard registry of this crate: the five component types under
/// their tags, registered in the lexicographic order of the tags, which is
/// the order serialized component records are emitted in — see
/// `serialize::lemma_recs_tags_lex_sorted`.
pub fn create_registry() -> (r: Registry)
    ensures
        standard_registry(r@),
        r@.len() == 5,
        r@[0] == (RegEntryV { ty: CompType::Bool, tag: "bool"@ }),
        r@[1] == (RegEntryV { ty: CompType::Counter, tag: "counter"@ }),
        r@[2] == (RegEntryV { ty: CompType::F32, tag: "f32"@ }),
        r@[3] == (RegEntryV { ty: CompType::F64, tag: "f64"@ }),
        r@[4] == (RegEntryV { ty: CompType::U64, tag: "u64"@ }),
{
    let mut r = Registry::new();
    r.register(CompType::Bool, "bool".to_string());
    r.register(CompType::Counter, "counter".to_string());
    r.register(CompType::F32, "f32".to_string());
    r.register(CompType::F64, "f64".to_string());
    r.register(CompType::U64, "u64".to_string());
    r
}

} // verus!
