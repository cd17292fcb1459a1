//! Deferred structural mutation: a `CommandBuffer` records intentions
//! against handles captured at record time and applies them all in one
//! exclusive flush, in recorded order.  An entry whose target was already
//! removed — by an earlier entry of the same buffer or otherwise — is
//! absorbed as a silent no-op, never an error.

use vstd::prelude::*;
use crate::{CompType, Component, Entity};
use crate::world::{
    World, WorldV, spec_add_component, spec_remove, spec_remove_component,
};

verus! {

/// One recorded intention.
#[derive(Clone, Copy, PartialEq, Eq, Structural, Debug)]
pub enum Cmd {
    Remove(Entity),
    AddComponent(Entity, Component),
    RemoveComponent(Entity, CompType),
}

/// The append-only log of deferred mutations.
pub struct CommandBuffer {
    pub cmds: Vec<Cmd>,
}

impl View for CommandBuffer {
    type V = Seq<Cmd>;

    open spec fn view(&self) -> Seq<Cmd> {
        self.cmds@
    }
}

/// Effect of one entry: exactly the corresponding `World` transition, each
/// of which is the identity on a stale target.
pub open spec fn spec_apply(v: WorldV, cmd: Cmd) -> WorldV {
    match cmd {
        Cmd::Remove(e) => spec_remove(v, e),
        Cmd::AddComponent(e, c) => spec_add_component(v, e, c),
        Cmd::RemoveComponent(e, t) => spec_remove_component(v, e, t),
    }
}

/// Effect of a whole flush: every entry applied, first to last.
pub open spec fn spec_flush(v: WorldV, cmds: Seq<Cmd>) -> WorldV
    decreases cmds.len(),
{
    if cmds.len() == 0 {
        v
    } else {
        spec_flush(spec_apply(v, cmds[0]), cmds.drop_first())
    }
}

/// Flushing a concatenation is flushing the parts in order.
pub proof fn lemma_flush_append(v: WorldV, a: Seq<Cmd>, b: Seq<Cmd>)
    ensures
        spec_flush(v, a + b) == spec_flush(spec_flush(v, a), b),
    decreases a.len(),
{
    if a.len() == 0 {
        assert(a + b =~= b);
    } else {
        assert((a + b)[0] == a[0]);
        assert((a + b).drop_first() =~= a.drop_first() + b);
        lemma_flush_append(spec_apply(v, a[0]), a.drop_first(), b);
    }
}

/// A flush whose entries never remove an entity leaves the slot table — and
/// with it the live count — untouched.
pub proof fn lemma_flush_no_removes_keeps_slots(v: WorldV, cmds: Seq<Cmd>)
    requires
        forall|k: int| 0 <= k < cmds.len() ==> !((#[trigger] cmds[k]) matches Cmd::Remove(_)),
    ensures
        spec_flush(v, cmds).slots == v.slots,
    decreases cmds.len(),
{
    if cmds.len() > 0 {
        assert(spec_apply(v, cmds[0]).slots == v.slots);
        lemma_flush_no_removes_keeps_slots(spec_apply(v, cmds[0]), cmds.drop_first());
    }
}

impl CommandBuffer {
    /// An empty buffer.
    pub fn new() -> (b: CommandBuffer)
        ensures
            b@.len() == 0,
    {
        CommandBuffer { cmds: Vec::new() }
    }

    /// Record an entity removal; nothing is applied yet.
    pub fn remove(&mut self, e: Entity)
        ensures
            final(self)@ == old(self)@.push(Cmd::Remove(e)),
    {
        self.cmds.push(Cmd::Remove(e));
    }

    /// Record a component store; nothing is applied yet.
    pub fn add_component(&mut self, e: Entity, c: Component)
        ensures
            final(self)@ == old(self)@.push(Cmd::AddComponent(e, c)),
    {
        self.cmds.push(Cmd::AddComponent(e, c));
    }

    /// Record a component drop; nothing is applied yet.
    pub fn remove_component(&mut self, e: Entity, t: CompType)
        ensures
            final(self)@ == old(self)@.push(Cmd::RemoveComponent(e, t)),
    {
        self.cmds.push(Cmd::RemoveComponent(e, t));
    }

    /// Apply every recorded entry to `world` in recorded order, within this
    /// one exclusive call, draining the buffer.  Entries addressing a
    /// stale handle are elided silently; later entries for the same entity
    /// and component type win, in recorded order.  `resources` is the
    /// shared bag systems may consult; a flush leaves it untouched.
    pub fn flush(&mut self, world: &mut World, resources: &mut Resources)
        ensures
            final(world)@ == spec_flush(old(world)@, old(self)@),
            final(self)@.len() == 0,
            final(resources)@ == old(resources)@,
    {
        let ghost v0 = world@;
        let ghost cmds0 = self@;
        proof {
            assert(cmds0.skip(0) =~= cmds0);
        }
        let n = self.cmds.len();
        let mut i: usize = 0;
        while i < n
            invariant
                0 <= i <= n == self.cmds@.len(),
                self.cmds@ == cmds0,
                spec_flush(v0, cmds0) == spec_flush(world@, cmds0.skip(i as int)),
            decreases n - i,
        {
            proof {
                assert(cmds0.skip(i as int)[0] == cmds0[i as int]);
                assert(cmds0.skip(i as int).drop_first() =~= cmds0.skip(i as int + 1));
            }
            match self.cmds[i] {
                Cmd::Remove(e) => {
                    let _ = world.remove(e);
                },
                Cmd::AddComponent(e, c) => {
                    let _ = world.add_component(e, c);
                },
                Cmd::RemoveComponent(e, t) => {
                    let _ = world.remove_component(e, t);
                },
            }
            i = i + 1;
        }
        proof {
            assert(cmds0.skip(n as int) =~= Seq::<Cmd>::empty());
        }
        self.cmds.clear();
    }
}

/// One entry of the resource bag, keyed by the component type of its value.
#[derive(Clone, Copy, PartialEq, Eq, Structural, Debug)]
pub struct ResEntry {
    pub key: CompType,
    pub value: Component,
}

/// The type-keyed singleton bag shared by the systems of a scheduling pass:
/// at most one value per component type, later stores overwriting earlier
/// ones.
pub struct Resources {
    pub entries: Vec<ResEntry>,
}

impl View for Resources {
    type V = Seq<ResEntry>;

    open spec fn view(&self) -> Seq<ResEntry> {
        self.entries@
    }
}

/// The key a component value is stored under.
pub open spec fn comp_key(c: Component) -> CompType {
    match c {
        Component::Bool(_) => CompType::Bool,
        Component::Counter(_) => CompType::Counter,
        Component::F32Bits(_) => CompType::F32,
        Component::F64Bits(_) => CompType::F64,
        Component::U64(_) => CompType::U64,
    }
}

/// First entry index with key `t`, or `entries.len()`.
pub open spec fn find_res_from(entries: Seq<ResEntry>, t: CompType, i: int) -> int
    decreases entries.len() - i
        when 0 <= i <= entries.len()
{
    if i >= entries.len() {
        entries.len() as int
    } else if entries[i].key == t {
        i
    } else {
        find_res_from(entries, t, i + 1)
    }
}

/// Transition of `Resources::insert`: overwrite the singleton for the
/// value's key, or append a new one.
pub open spec fn spec_res_insert(entries: Seq<ResEntry>, c: Component) -> Seq<ResEntry> {
    let i = find_res_from(entries, comp_key(c), 0);
    if i < entries.len() {
        entries.update(i, ResEntry { key: comp_key(c), value: c })
    } else {
        entries.push(ResEntry { key: comp_key(c), value: c })
    }
}

impl Resources {
    /// An empty bag.
    pub fn new() -> (r: Resources)
        ensures
            r@.len() == 0,
    {
        Resources { entries: Vec::new() }
    }

    /// Store `c` as the singleton of its type, overwriting a previous one.
    pub fn insert(&mut self, c: Component)
        ensures
            final(self)@ == spec_res_insert(old(self)@, c),
    {
        let key = match c {
            Component::Bool(_) => CompType::Bool,
            Component::Counter(_) => CompType::Counter,
            Component::F32Bits(_) => CompType::F32,
            Component::F64Bits(_) => CompType::F64,
            Component::U64(_) => CompType::U64,
        };
        let i = find_res_index(&self.entries, key);
        if i < self.entries.len() {
            self.entries[i] = ResEntry { key, value: c };
        } else {
            self.entries.push(ResEntry { key, value: c });
        }
    }

    /// The singleton of type `t`, if one was stored.
    pub fn get(&self, t: CompType) -> (r: Option<Component>)
        ensures
            r == (if find_res_from(self@, t, 0) < self@.len() {
                Some(self@[find_res_from(self@, t, 0)].value)
            } else {
                None::<Component>
            }),
    {
        let n = self.entries.len();
        let mut i: usize = 0;
        while i < n
            invariant
                0 <= i <= n == self.entries@.len(),
                find_res_from(self@, t, 0) == find_res_from(self@, t, i as int),
            decreases n - i,
        {
            if self.entries[i].key == t {
                return Some(self.entries[i].value);
            }
            i = i + 1;
        }
        None
    }
}

/// First entry index with key `t`, or `entries.len()`.
fn find_res_index(entries: &Vec<ResEntry>, t: CompType) -> (r: usize)
    ensures
        r as int == find_res_from(entries@, t, 0),
{
    let n = entries.len();
    let mut i: usize = 0;
    while i < n
        invariant
            0 <= i <= n == entries@.len(),
            find_res_from(entries@, t, 0) == find_res_from(entries@, t, i as int),
        decreases n - i,
    {
        if entries[i].key == t {
            return i;
        }
        i = i + 1;
    }
    i
}

} // verus!
