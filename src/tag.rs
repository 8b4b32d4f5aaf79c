use crate::entity::EntityId;
use vstd::prelude::*;

verus! {

/// The registry of tags: each tag, named by a 64-bit type key, gets a dense
/// id.
pub struct TagFactory {
    tag_id_map: Vec<u64>,
}

impl TagFactory {
    /// The type keys of the tags, by id.
    pub closed spec fn keys(&self) -> Seq<u64> {
        self.tag_id_map@
    }

    /// Each key is registered once, and the ids fit in a `u32`.
    pub closed spec fn wf(&self) -> bool {
        &&& self.tag_id_map@.no_duplicates()
        &&& self.tag_id_map@.len() <= u32::MAX
    }

    /// A registry with no tag.
    pub fn new() -> (r: TagFactory)
        ensures
            r.wf(),
            r.keys() == Seq::<u64>::empty(),
    {
        TagFactory { tag_id_map: Vec::new() }
    }

    /// The number of tags.
    pub fn len(&self) -> (r: usize)
        ensures
            r == self.keys().len(),
    {
        self.tag_id_map.len()
    }

    /// The id of the tag with key `type_key`, where it is registered.
    pub fn tag_id(&self, type_key: u64) -> (r: Option<u32>)
        requires
            self.wf(),
        ensures
            r.is_some() == self.keys().contains(type_key),
            r.is_some() ==> r.unwrap() < self.keys().len() && self.keys()[r.unwrap() as int] == type_key,
    {
        let mut i: usize = 0;
        while i < self.tag_id_map.len()
            invariant
                self.wf(),
                0 <= i <= self.keys().len(),
                forall|j: int| 0 <= j < i ==> self.keys()[j] != type_key,
            decreases self.keys().len() - i,
        {
            if self.tag_id_map[i] == type_key {
                return Some(i as u32);
            }
            i = i + 1;
        }
        None
    }

    /// Registers the tag with key `type_key`, unless it is registered
    /// already. Gives its id, or `None` where no id is left.
    pub fn register_tag(&mut self, type_key: u64) -> (r: Option<u32>)
        requires
            old(self).wf(),
        ensures
            final(self).wf(),
            old(self).keys().contains(type_key) ==> final(self).keys() == old(self).keys() && r.is_some()
                && old(self).keys()[r.unwrap() as int] == type_key,
            !old(self).keys().contains(type_key) && old(self).keys().len() < u32::MAX ==> final(self).keys()
                == old(self).keys().push(type_key) && r == Some(old(self).keys().len() as u32),
            !old(self).keys().contains(type_key) && old(self).keys().len() >= u32::MAX ==> final(self).keys()
                == old(self).keys() && r.is_none(),
    {
        match self.tag_id(type_key) {
            Some(id) => Some(id),
            None => {
                if self.tag_id_map.len() < u32::MAX as usize {
                    let id = self.tag_id_map.len() as u32;
                    self.tag_id_map.push(type_key);
                    proof {
                        let keys = self.tag_id_map@;
                        assert forall|i: int, j: int| 0 <= i < keys.len() && 0 <= j < keys.len() && i != j implies keys[i]
                            != keys[j] by {
                            if i == keys.len() - 1 {
                                assert(old(self).keys()[j] == keys[j]);
                            } else if j == keys.len() - 1 {
                                assert(old(self).keys()[i] == keys[i]);
                            }
                        }
                    }
                    Some(id)
                } else {
                    None
                }
            },
        }
    }

    /// A tracker with room for every registered tag, none of them set.
    pub fn new_tracker(&self) -> (r: TagTracker)
        ensures
            r@ == Seq::new(self.keys().len(), |i: int| false),
    {
        let mut tags: Vec<bool> = Vec::new();
        let mut i: usize = 0;
        while i < self.tag_id_map.len()
            invariant
                0 <= i <= self.keys().len(),
                tags@ == Seq::new(i as nat, |k: int| false),
            decreases self.keys().len() - i,
        {
            tags.push(false);
            i = i + 1;
            assert(tags@ =~= Seq::new(i as nat, |k: int| false));
        }
        TagTracker { tags }
    }
}

/// Which tags are set on one entity, by tag id.
pub struct TagTracker {
    tags: Vec<bool>,
}

impl View for TagTracker {
    type V = Seq<bool>;

    closed spec fn view(&self) -> Seq<bool> {
        self.tags@
    }
}

/// The place of the tag with key `type_key` in a tracker, where the tag is
/// registered and the tracker has room for it.
pub open spec fn tag_slot(factory: &TagFactory, tracker: Seq<bool>, type_key: u64) -> Option<int> {
    if factory.keys().contains(type_key) && factory.keys().index_of(type_key) < tracker.len() {
        Some(factory.keys().index_of(type_key))
    } else {
        None
    }
}

impl TagTracker {
    fn slot(&self, factory: &TagFactory, type_key: u64) -> (r: Option<usize>)
        requires
            factory.wf(),
        ensures
            r.is_some() == tag_slot(factory, self@, type_key).is_some(),
            r.is_some() ==> r.unwrap() == tag_slot(factory, self@, type_key).unwrap(),
    {
        match factory.tag_id(type_key) {
            Some(id) => {
                proof {
                    let i = factory.keys().index_of(type_key);
                    assert(factory.keys()[i] == type_key);
                    assert(factory.keys().no_duplicates());
                }
                if (id as usize) < self.tags.len() {
                    Some(id as usize)
                } else {
                    None
                }
            },
            None => None,
        }
    }

    /// Sets the tag with key `type_key` to `value`, where it has a place;
    /// says whether it had.
    fn set(&mut self, factory: &TagFactory, type_key: u64, value: bool) -> (r: bool)
        requires
            factory.wf(),
        ensures
            r == tag_slot(factory, old(self)@, type_key).is_some(),
            r ==> final(self)@ == old(self)@.update(tag_slot(factory, old(self)@, type_key).unwrap(), value),
            !r ==> final(self)@ == old(self)@,
    {
        match self.slot(factory, type_key) {
            Some(i) => {
                self.tags.set(i, value);
                true
            },
            None => false,
        }
    }

    /// Sets the tag with key `type_key`, where it has a place; says whether it
    /// had.
    pub fn tag(&mut self, factory: &TagFactory, type_key: u64) -> (r: bool)
        requires
            factory.wf(),
        ensures
            r == tag_slot(factory, old(self)@, type_key).is_some(),
            r ==> final(self)@ == old(self)@.update(tag_slot(factory, old(self)@, type_key).unwrap(), true),
            !r ==> final(self)@ == old(self)@,
    {
        self.set(factory, type_key, true)
    }

    /// Clears the tag with key `type_key`, where it has a place; says whether
    /// it had.
    pub fn untag(&mut self, factory: &TagFactory, type_key: u64) -> (r: bool)
        requires
            factory.wf(),
        ensures
            r == tag_slot(factory, old(self)@, type_key).is_some(),
            r ==> final(self)@ == old(self)@.update(tag_slot(factory, old(self)@, type_key).unwrap(), false),
            !r ==> final(self)@ == old(self)@,
    {
        self.set(factory, type_key, false)
    }

    /// Flips the tag with key `type_key`, where it has a place; says whether
    /// it had.
    pub fn toggle(&mut self, factory: &TagFactory, type_key: u64) -> (r: bool)
        requires
            factory.wf(),
        ensures
            r == tag_slot(factory, old(self)@, type_key).is_some(),
            r ==> final(self)@ == old(self)@.update(
                tag_slot(factory, old(self)@, type_key).unwrap(),
                !old(self)@[tag_slot(factory, old(self)@, type_key).unwrap()],
            ),
            !r ==> final(self)@ == old(self)@,
    {
        match self.slot(factory, type_key) {
            Some(i) => {
                let current = self.tags[i];
                self.tags.set(i, !current);
                true
            },
            None => false,
        }
    }

    /// Whether the tag with key `type_key` is registered.
    pub fn is_tag_registered(&self, factory: &TagFactory, type_key: u64) -> (r: bool)
        requires
            factory.wf(),
        ensures
            r == factory.keys().contains(type_key),
    {
        factory.tag_id(type_key).is_some()
    }

    /// Whether the tag with key `type_key` is set, where it has a place.
    pub fn is_tagged(&self, factory: &TagFactory, type_key: u64) -> (r: Option<bool>)
        requires
            factory.wf(),
        ensures
            r.is_some() == tag_slot(factory, self@, type_key).is_some(),
            r.is_some() ==> r.unwrap() == self@[tag_slot(factory, self@, type_key).unwrap()],
    {
        match self.slot(factory, type_key) {
            Some(i) => Some(self.tags[i]),
            None => None,
        }
    }

    /// Clears every tag.
    pub fn untag_all(&mut self)
        ensures
            final(self)@ == Seq::new(old(self)@.len(), |i: int| false),
    {
        let mut i: usize = 0;
        while i < self.tags.len()
            invariant
                0 <= i <= self.tags@.len(),
                self.tags@.len() == old(self)@.len(),
                forall|j: int| 0 <= j < i ==> !self.tags@[j],
            decreases self.tags@.len() - i,
        {
            self.tags.set(i, false);
            i = i + 1;
        }
        assert(self.tags@ =~= Seq::new(old(self)@.len(), |i: int| false));
    }
}

/// The tag trackers of the entities, by entity slot, with the registry of
/// tags they use.
pub struct TagStorage {
    tag_trackers: Vec<TagTracker>,
    tag_factory: TagFactory,
}

impl TagStorage {
    /// The trackers, by entity slot.
    pub closed spec fn trackers(&self) -> Seq<Seq<bool>> {
        self.tag_trackers@.map_values(|t: TagTracker| t@)
    }

    /// The registry of tags.
    pub closed spec fn factory(&self) -> TagFactory {
        self.tag_factory
    }

    /// A storage with no tracker, using the registry `tagf`.
    pub fn new(tagf: TagFactory) -> (r: TagStorage)
        ensures
            r.trackers() == Seq::<Seq<bool>>::empty(),
            r.factory() == tagf,
    {
        let r = TagStorage { tag_trackers: Vec::new(), tag_factory: tagf };
        assert(r.trackers() =~= Seq::<Seq<bool>>::empty());
        r
    }

    /// The registry of tags.
    pub fn tag_factory(&self) -> (r: &TagFactory)
        ensures
            *r == self.factory(),
    {
        &self.tag_factory
    }

    /// Adds a tracker, with no tag set, for the next entity slot.
    pub fn new_entity(&mut self)
        ensures
            final(self).trackers() == old(self).trackers().push(Seq::new(old(self).factory().keys().len(), |i: int| false)),
            final(self).factory() == old(self).factory(),
    {
        let t = self.tag_factory.new_tracker();
        self.tag_trackers.push(t);
        assert(self.trackers() =~= old(self).trackers().push(Seq::new(old(self).factory().keys().len(), |i: int| false)));
    }

    /// The tracker of the entity in slot `entity.id`, where there is one.
    pub fn get_tag_tracker(&self, entity: EntityId) -> (r: Option<&TagTracker>)
        ensures
            r.is_some() == ((entity.id as nat) < self.trackers().len()),
            r.is_some() ==> r.unwrap()@ == self.trackers()[entity.id as int],
    {
        if (entity.id as usize) < self.tag_trackers.len() {
            Some(&self.tag_trackers[entity.id as usize])
        } else {
            None
        }
    }

    /// The tracker of the entity in slot `entity.id`, to be changed in
    /// place, where there is one.
    pub fn get_tag_tracker_mut(&mut self, entity: EntityId) -> (r: Option<&mut TagTracker>)
        ensures
            r.is_some() == ((entity.id as nat) < old(self).trackers().len()),
            r.is_none() ==> final(self).trackers() == old(self).trackers(),
            r.is_some() ==> r.unwrap()@ == old(self).trackers()[entity.id as int] && final(self).trackers()
                == old(self).trackers().update(entity.id as int, final(r.unwrap())@),
            final(self).factory() == old(self).factory(),
    {
        if (entity.id as usize) < self.tag_trackers.len() {
            let r = &mut self.tag_trackers[entity.id as usize];
            Some(r)
        } else {
            None
        }
    }

    /// Clears every tag of the entity in slot `entity.id`, where it has a
    /// tracker; says whether it had.
    pub fn untag_all(&mut self, entity: EntityId) -> (r: bool)
        ensures
            r == ((entity.id as nat) < old(self).trackers().len()),
            r ==> final(self).trackers() == old(self).trackers().update(
                entity.id as int,
                Seq::new(old(self).trackers()[entity.id as int].len(), |i: int| false),
            ),
            !r ==> final(self).trackers() == old(self).trackers(),
            final(self).factory() == old(self).factory(),
    {
        let i = entity.id as usize;
        if i < self.tag_trackers.len() {
            self.tag_trackers[i].untag_all();
            assert(self.trackers() =~= old(self).trackers().update(
                entity.id as int,
                Seq::new(old(self).trackers()[entity.id as int].len(), |i: int| false),
            ));
            true
        } else {
            false
        }
    }
}

} // verus!
