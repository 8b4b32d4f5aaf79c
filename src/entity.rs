use crate::storage::{ArchStorageId, ArchStorageIndex};
use std::collections::VecDeque;
use vstd::prelude::*;

verus! {

/// A handle on an entity: the slot it lives in and the generation of that
/// slot when the entity was made. A handle whose generation the slot has left
/// behind is stale.
#[derive(Clone, Copy, Debug, PartialEq, Eq, Hash, Structural)]
pub struct EntityId {
    /// The slot of the entity.
    pub id: u32,
    /// The generation of the slot that this handle belongs to.
    pub gen: u32,
}

impl EntityId {
    /// The handle on slot `id` at its first generation.
    pub fn new(id: u32) -> (r: EntityId)
        ensures
            r.id == id,
            r.gen == 0,
    {
        EntityId { id, gen: 0 }
    }

    /// The slot of this entity.
    pub fn id(&self) -> (r: u32)
        ensures
            r == self.id,
    {
        self.id
    }

    /// The generation of this handle.
    pub fn generation(&self) -> (r: u32)
        ensures
            r == self.gen,
    {
        self.gen
    }

    /// The handle on the same slot with generation `gen`.
    pub fn with_generation(self, gen: u32) -> (r: EntityId)
        ensures
            r.id == self.id,
            r.gen == gen,
    {
        EntityId { id: self.id, gen }
    }
}

/// Where the components of an entity are kept: the storage of its archetype
/// and the row within it.
#[derive(Clone, Copy, Debug, PartialEq, Eq, Structural)]
pub struct EntityMeta {
    /// The storage of the entity's archetype.
    pub archetype_storage_id: ArchStorageId,
    /// The row of the entity in that storage.
    pub archetype_storage_index: ArchStorageIndex,
}

/// The number of `true` entries.
pub open spec fn count_live(flags: Seq<bool>) -> nat
    decreases flags.len(),
{
    if flags.len() == 0 {
        0
    } else {
        count_live(flags.drop_last()) + if flags.last() {
            1nat
        } else {
            0nat
        }
    }
}

proof fn lemma_count_live_bound(flags: Seq<bool>)
    ensures
        count_live(flags) <= flags.len(),
    decreases flags.len(),
{
    if flags.len() > 0 {
        lemma_count_live_bound(flags.drop_last());
    }
}

proof fn lemma_count_live_update(flags: Seq<bool>, i: int, b: bool)
    requires
        0 <= i < flags.len(),
    ensures
        count_live(flags.update(i, b)) + (if flags[i] {
            1nat
        } else {
            0nat
        }) == count_live(flags) + (if b {
            1nat
        } else {
            0nat
        }),
    decreases flags.len(),
{
    let u = flags.update(i, b);
    if i < flags.len() - 1 {
        assert(u.drop_last() =~= flags.drop_last().update(i, b));
        lemma_count_live_update(flags.drop_last(), i, b);
    } else {
        assert(u.drop_last() =~= flags.drop_last());
    }
}

/// The allocator of entity handles.
///
/// Each slot has a generation and a liveness flag. A handle is live when its
/// slot is live at the handle's generation. Freed slots wait in a queue, at
/// their next generation, until they are handed out again; a slot whose
/// generation cannot grow any further is not handed out again.
pub struct EntityFactory {
    generations: Vec<u32>,
    alive: Vec<bool>,
    queued_entitys: VecDeque<EntityId>,
    entity_metas: Vec<EntityMeta>,
    entities: u32,
}

impl EntityFactory {
    /// The number of slots.
    pub closed spec fn slots(&self) -> nat {
        self.generations@.len()
    }

    /// The generation of slot `i`.
    pub closed spec fn spec_generation(&self, i: nat) -> nat {
        self.generations@[i as int] as nat
    }

    /// Whether slot `i` holds a live entity.
    pub closed spec fn spec_alive(&self, i: nat) -> bool {
        self.alive@[i as int]
    }

    /// Whether `e` is a live handle.
    pub closed spec fn spec_is_live(&self, e: EntityId) -> bool {
        &&& (e.id as nat) < self.generations@.len()
        &&& self.alive@[e.id as int]
        &&& self.generations@[e.id as int] == e.gen
    }

    /// The metadata of slot `i`.
    pub closed spec fn spec_meta(&self, i: nat) -> EntityMeta {
        self.entity_metas@[i as int]
    }

    /// The number of live entities.
    pub closed spec fn spec_count(&self) -> nat {
        self.entities as nat
    }

    /// The freed handles, in the order they will be handed out again.
    pub closed spec fn queue(&self) -> Seq<EntityId> {
        self.queued_entitys@
    }

    /// What a well-formed allocator holds.
    pub proof fn lemma_wf(&self)
        requires
            self.wf(),
        ensures
            self.slots() <= u32::MAX,
    {
    }

    /// A handle is live exactly when its slot exists, holds a live entity,
    /// and is at the handle's generation.
    pub proof fn lemma_live_def(&self, e: EntityId)
        ensures
            self.spec_is_live(e) == ((e.id as nat) < self.slots() && self.spec_alive(e.id as nat)
                && self.spec_generation(e.id as nat) == e.gen),
    {
    }

    /// A live handle names an existing slot.
    pub proof fn lemma_live_in_range(&self, e: EntityId)
        requires
            self.spec_is_live(e),
        ensures
            (e.id as nat) < self.slots(),
    {
    }

    /// Two live handles on the same slot are the same handle.
    pub proof fn lemma_live_unique(&self, e: EntityId, f: EntityId)
        requires
            self.spec_is_live(e),
            self.spec_is_live(f),
            e.id == f.id,
        ensures
            e == f,
    {
    }

    /// A new handle can be made: a freed slot waits, or a new slot can be
    /// numbered below `u32::MAX`.
    pub open spec fn spec_can_allocate(&self) -> bool {
        self.queue().len() > 0 || self.slots() < u32::MAX
    }

    /// The handle that the next allocation gives.
    pub open spec fn spec_next(&self) -> EntityId {
        if self.queue().len() > 0 {
            self.queue()[0]
        } else {
            EntityId { id: self.slots() as u32, gen: 0 }
        }
    }

    /// The slots, generations and liveness flags agree with the queue and the
    /// count.
    pub closed spec fn wf(&self) -> bool {
        &&& self.alive@.len() == self.generations@.len()
        &&& self.entity_metas@.len() == self.generations@.len()
        &&& self.generations@.len() <= u32::MAX
        &&& self.entities as nat == count_live(self.alive@)
        &&& forall|k: int|
            0 <= k < self.queued_entitys@.len() ==> {
                let q = #[trigger] self.queued_entitys@[k];
                &&& (q.id as nat) < self.generations@.len()
                &&& !self.alive@[q.id as int]
                &&& self.generations@[q.id as int] == q.gen
            }
        &&& forall|k: int, l: int|
            0 <= k < l < self.queued_entitys@.len() ==> (#[trigger] self.queued_entitys@[k]).id
                != (#[trigger] self.queued_entitys@[l]).id
    }

    /// `self` comes from `old` by an operation that keeps every slot and lets
    /// no generation go down.
    pub open spec fn generations_kept(&self, old: &EntityFactory) -> bool {
        &&& old.slots() <= self.slots()
        &&& forall|i: nat| i < old.slots() ==> old.spec_generation(i) <= #[trigger] self.spec_generation(i)
    }

    /// An allocator with no slot.
    pub fn new() -> (r: EntityFactory)
        ensures
            r.wf(),
            r.slots() == 0,
            r.spec_count() == 0,
            r.queue().len() == 0,
            forall|e: EntityId| !r.spec_is_live(e),
    {
        EntityFactory {
            generations: Vec::new(),
            alive: Vec::new(),
            queued_entitys: VecDeque::new(),
            entity_metas: Vec::new(),
            entities: 0,
        }
    }

    /// Whether a new handle can be made.
    pub fn can_allocate(&self) -> (r: bool)
        requires
            self.wf(),
        ensures
            r == self.spec_can_allocate(),
    {
        self.queued_entitys.len() > 0 || self.generations.len() < u32::MAX as usize
    }

    /// Makes a live handle with metadata `entity_meta`: the first freed slot,
    /// else a new slot at generation 0. Gives `None` where neither is there.
    pub fn new_entity(&mut self, entity_meta: EntityMeta) -> (r: Option<EntityId>)
        requires
            old(self).wf(),
        ensures
            final(self).wf(),
            r.is_some() == old(self).spec_can_allocate(),
            r.is_none() ==> *final(self) == *old(self),
            r.is_some() ==> {
                let e = r.unwrap();
                &&& e == old(self).spec_next()
                &&& (e.id as nat) < old(self).slots() || ((e.id as nat) == old(self).slots() && old(self).slots() < u32::MAX)
                &&& !old(self).spec_is_live(e)
                &&& forall|f: EntityId| old(self).spec_is_live(f) ==> f.id != e.id
                &&& final(self).spec_is_live(e)
                &&& final(self).spec_meta(e.id as nat) == entity_meta
                &&& final(self).spec_count() == old(self).spec_count() + 1
                &&& final(self).generations_kept(old(self))
                &&& forall|f: EntityId| f.id != e.id ==> (final(self).spec_is_live(f) == old(self).spec_is_live(f))
                &&& forall|i: nat| i != e.id && i < old(self).slots() ==> final(self).spec_meta(i) == old(self).spec_meta(i)
                &&& old(self).queue().len() > 0 ==> final(self).slots() == old(self).slots()
                    && final(self).queue() == old(self).queue().drop_first()
                &&& old(self).queue().len() == 0 ==> final(self).slots() == old(self).slots() + 1
                    && final(self).queue() == old(self).queue()
                &&& final(self).spec_generation(e.id as nat) == e.gen
                &&& forall|i: nat| i < old(self).slots() ==> #[trigger] final(self).spec_generation(i) == old(self).spec_generation(i)
            },
    {
        if self.queued_entitys.len() > 0 {
            let entity = self.queued_entitys.pop_front().unwrap();
            let i = entity.id as usize;
            proof {
                assert(old(self).queued_entitys@[0] == entity);
                lemma_count_live_update(self.alive@, i as int, true);
                lemma_count_live_bound(self.alive@.update(i as int, true));
            }
            self.alive.set(i, true);
            self.entity_metas.set(i, entity_meta);
            self.entities = self.entities + 1;
            proof {
                assert forall|k: int| 0 <= k < self.queued_entitys@.len() implies {
                    let q = #[trigger] self.queued_entitys@[k];
                    &&& (q.id as nat) < self.generations@.len()
                    &&& !self.alive@[q.id as int]
                    &&& self.generations@[q.id as int] == q.gen
                } by {
                    assert(self.queued_entitys@[k] == old(self).queued_entitys@[k + 1]);
                    assert(old(self).queued_entitys@[0].id != old(self).queued_entitys@[k + 1].id);
                }
                assert forall|k: int, l: int| 0 <= k < l < self.queued_entitys@.len() implies (
                #[trigger] self.queued_entitys@[k]).id != (#[trigger] self.queued_entitys@[l]).id by {
                    assert(self.queued_entitys@[k] == old(self).queued_entitys@[k + 1]);
                    assert(self.queued_entitys@[l] == old(self).queued_entitys@[l + 1]);
                }
            }
            Some(entity)
        } else if self.generations.len() < u32::MAX as usize {
            let entity = EntityId::new(self.generations.len() as u32);
            proof {
                lemma_count_live_bound(self.alive@);
                assert(self.alive@.push(true).drop_last() =~= self.alive@);
            }
            self.generations.push(0);
            self.alive.push(true);
            self.entity_metas.push(entity_meta);
            self.entities = self.entities + 1;
            Some(entity)
        } else {
            None
        }
    }

    /// Whether `entity` is a live handle.
    pub fn verify_generation(&self, entity: EntityId) -> (r: bool)
        requires
            self.wf(),
        ensures
            r == self.spec_is_live(entity),
            r == ((entity.id as nat) < self.slots() && self.spec_alive(entity.id as nat)
                && self.spec_generation(entity.id as nat) == entity.gen),
    {
        let i = entity.id as usize;
        i < self.generations.len() && self.alive[i] && self.generations[i] == entity.gen
    }

    /// Frees the live handle `entity`: its slot stops being live and moves to
    /// the next generation, so that every copy of the handle goes stale.
    pub fn remove_entity(&mut self, entity: EntityId)
        requires
            old(self).wf(),
            old(self).spec_is_live(entity),
        ensures
            final(self).wf(),
            !final(self).spec_is_live(entity),
            forall|f: EntityId| f.id == entity.id ==> !final(self).spec_is_live(f),
            final(self).spec_count() + 1 == old(self).spec_count(),
            final(self).generations_kept(old(self)),
            final(self).slots() == old(self).slots(),
            forall|f: EntityId| f.id != entity.id ==> (final(self).spec_is_live(f) == old(self).spec_is_live(f)),
            forall|i: nat| i < old(self).slots() ==> final(self).spec_meta(i) == old(self).spec_meta(i),
            !final(self).spec_alive(entity.id as nat),
            forall|i: nat| i != entity.id && i < old(self).slots() ==> #[trigger] final(self).spec_generation(i) == old(self).spec_generation(i),
            entity.gen < u32::MAX ==> final(self).spec_generation(entity.id as nat) == entity.gen + 1
                && final(self).queue() == old(self).queue().push(EntityId { id: entity.id, gen: (entity.gen + 1) as u32 }),
            entity.gen == u32::MAX ==> final(self).spec_generation(entity.id as nat) == entity.gen
                && final(self).queue() == old(self).queue(),
    {
        let i = entity.id as usize;
        proof {
            lemma_count_live_update(self.alive@, i as int, false);
        }
        self.alive.set(i, false);
        self.entities = self.entities - 1;
        if self.generations[i] < u32::MAX {
            let gen = self.generations[i] + 1;
            self.generations.set(i, gen);
            proof {
                assert forall|k: int| 0 <= k < old(self).queued_entitys@.len() implies (#[trigger] old(
                    self,
                ).queued_entitys@[k]).id != entity.id by {
                    let q = old(self).queued_entitys@[k];
                    assert(!old(self).alive@[q.id as int]);
                }
            }
            self.queued_entitys.push_back(entity.with_generation(gen));
        }
    }

    /// The metadata of `entity`, where it is live.
    pub fn get_entity_meta(&self, entity: EntityId) -> (r: Option<&EntityMeta>)
        requires
            self.wf(),
        ensures
            r.is_some() == self.spec_is_live(entity),
            r.is_some() ==> *r.unwrap() == self.spec_meta(entity.id as nat),
    {
        if self.verify_generation(entity) {
            Some(&self.entity_metas[entity.id as usize])
        } else {
            None
        }
    }

    /// Sets the metadata of the slot of `entity`, which exists.
    pub fn set_entity_meta(&mut self, entity_meta: EntityMeta, entity: EntityId)
        requires
            old(self).wf(),
            (entity.id as nat) < old(self).slots(),
        ensures
            final(self).wf(),
            final(self).spec_meta(entity.id as nat) == entity_meta,
            forall|i: nat| i != entity.id && i < old(self).slots() ==> final(self).spec_meta(i) == old(self).spec_meta(i),
            forall|f: EntityId| final(self).spec_is_live(f) == old(self).spec_is_live(f),
            final(self).spec_count() == old(self).spec_count(),
            final(self).slots() == old(self).slots(),
            forall|i: nat| #[trigger] final(self).spec_generation(i) == old(self).spec_generation(i),
            final(self).queue() == old(self).queue(),
    {
        self.entity_metas.set(entity.id as usize, entity_meta);
    }

    /// The number of live entities.
    pub fn entities(&self) -> (r: u32)
        ensures
            r == self.spec_count(),
    {
        self.entities
    }
}

} // verus!
