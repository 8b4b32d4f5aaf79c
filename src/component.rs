use crate::blob_vec::BlobVec;
use crate::data::DataInfo;
use crate::prime_key::{spec_kth_prime, PrimeArchKey, MAX_COMPONENTS};
use vstd::prelude::*;

verus! {

/// The dense number a registry gives a component type: 0 for the first type
/// registered, 1 for the next, and so on.
#[derive(Clone, Copy, Debug, PartialEq, Eq, PartialOrd, Ord, Hash, Structural)]
pub struct ComponentId(pub usize);

impl ComponentId {
    /// The id with number `id`.
    pub fn new(id: usize) -> (r: ComponentId)
        ensures
            r.0 == id,
    {
        ComponentId(id)
    }

    /// The number of this id.
    pub fn id(&self) -> (r: usize)
        ensures
            r == self.0,
    {
        self.0
    }

    /// The key of the archetype made of this component alone: the prime at
    /// this id's place in the table.
    pub fn prime_key(&self) -> (r: PrimeArchKey)
        requires
            self.0 < MAX_COMPONENTS,
        ensures
            r.spec_value() == spec_kth_prime(self.0 as nat),
    {
        PrimeArchKey::of_component(self.0)
    }
}

/// The id that registering the type key `key` gives, on a registry whose
/// keys are `keys`: the id it already has, else the next free one, else none
/// where the registry is full.
pub open spec fn register_result(keys: Seq<u64>, key: u64) -> Option<nat> {
    if keys.contains(key) {
        Some(keys.index_of(key) as nat)
    } else if keys.len() < MAX_COMPONENTS {
        Some(keys.len())
    } else {
        None
    }
}

/// The keys of the registry after registering `key`.
pub open spec fn register_keys(keys: Seq<u64>, key: u64) -> Seq<u64> {
    if keys.contains(key) || keys.len() >= MAX_COMPONENTS {
        keys
    } else {
        keys.push(key)
    }
}

/// Registering a type a second time gives the id that the first registration
/// gave, and leaves the registry as it was.
pub proof fn lemma_register_idempotent(keys: Seq<u64>, key: u64)
    requires
        keys.no_duplicates(),
        register_result(keys, key).is_some(),
    ensures
        register_keys(register_keys(keys, key), key) == register_keys(keys, key),
        register_result(register_keys(keys, key), key) == register_result(keys, key),
{
    let k2 = register_keys(keys, key);
    if !keys.contains(key) {
        assert(k2[keys.len() as int] == key);
        assert(k2.contains(key));
        assert(k2.index_of(key) == keys.len()) by {
            let i = k2.index_of(key);
            if i < keys.len() {
                assert(keys[i] == key);
            }
        }
    }
}

/// Extending a list with no repeated entry keeps the place of the entries
/// it had.
pub proof fn lemma_index_of_prefix(a: Seq<u64>, b: Seq<u64>, k: u64)
    requires
        b.no_duplicates(),
        a.len() <= b.len(),
        a == b.subrange(0, a.len() as int),
        a.contains(k),
    ensures
        b.contains(k),
        b.index_of(k) == a.index_of(k),
{
    let i = a.index_of(k);
    assert(a[i] == k);
    assert(b[i] == k);
    let j = b.index_of(k);
    assert(b[j] == k);
}

/// The registry of component types: each type, named by a 64-bit type key,
/// gets a dense [`ComponentId`] and a description.
pub struct ComponentFactory {
    type_map: Vec<u64>,
    components: Vec<DataInfo>,
}

impl ComponentFactory {
    /// The type keys, in the order of registration: the key at place `i` has
    /// the id `i`.
    pub closed spec fn keys(&self) -> Seq<u64> {
        self.type_map@
    }

    /// The descriptions, by id.
    pub closed spec fn infos(&self) -> Seq<DataInfo> {
        self.components@
    }

    /// Each key is registered once, each has a description, and the registry
    /// holds no more types than the prime table has primes.
    pub closed spec fn wf(&self) -> bool {
        &&& self.type_map@.no_duplicates()
        &&& self.type_map@.len() == self.components@.len()
        &&& self.type_map@.len() <= MAX_COMPONENTS
    }

    /// The id of the type key `key`, where it is registered.
    pub open spec fn spec_id_of(&self, key: u64) -> Option<nat> {
        if self.keys().contains(key) {
            Some(self.keys().index_of(key) as nat)
        } else {
            None
        }
    }

    /// What a well-formed registry holds.
    pub proof fn lemma_wf(&self)
        requires
            self.wf(),
        ensures
            self.keys().no_duplicates(),
            self.infos().len() == self.keys().len(),
            self.keys().len() <= MAX_COMPONENTS,
    {
    }

    /// The id of a registered key is its unique place in the list.
    pub proof fn lemma_id_of(&self, key: u64, i: int)
        requires
            self.wf(),
            0 <= i < self.keys().len(),
            self.keys()[i] == key,
        ensures
            self.spec_id_of(key) == Some(i as nat),
    {
        assert(self.keys().contains(key));
        let j = self.keys().index_of(key);
        assert(self.keys()[j] == key);
        assert(self.keys().no_duplicates());
    }

    /// A registry with no type in it.
    pub fn new() -> (r: ComponentFactory)
        ensures
            r.wf(),
            r.keys() == Seq::<u64>::empty(),
            r.infos() == Seq::<DataInfo>::empty(),
    {
        ComponentFactory { type_map: Vec::new(), components: Vec::new() }
    }

    /// The number of registered types.
    pub fn len(&self) -> (r: usize)
        requires
            self.wf(),
        ensures
            r == self.keys().len(),
    {
        self.type_map.len()
    }

    /// Registers the type with key `type_id` and description `data_info`,
    /// unless it is registered already. Gives its id, or `None` where the
    /// registry is full.
    pub fn register_component_from_data(&mut self, type_id: u64, data_info: DataInfo) -> (r:
        Option<ComponentId>)
        requires
            old(self).wf(),
        ensures
            final(self).wf(),
            r.is_some() == register_result(old(self).keys(), type_id).is_some(),
            r.is_some() ==> r.unwrap().0 == register_result(old(self).keys(), type_id).unwrap(),
            final(self).keys() == register_keys(old(self).keys(), type_id),
            !old(self).keys().contains(type_id) && r.is_some() ==> final(self).infos()
                == old(self).infos().push(data_info),
            old(self).keys().contains(type_id) || r.is_none() ==> final(self).infos() == old(
                self,
            ).infos(),
    {
        match self.get_component_id_from_type_id(type_id) {
            Some(id) => Some(id),
            None => {
                if self.type_map.len() < MAX_COMPONENTS {
                    Some(self.register_component_from_data_unchecked(type_id, data_info))
                } else {
                    None
                }
            },
        }
    }

    /// Registers the type with key `type_id`, which is not registered yet, in
    /// a registry that has room.
    pub fn register_component_from_data_unchecked(&mut self, type_id: u64, data_info: DataInfo) -> (r:
        ComponentId)
        requires
            old(self).wf(),
            !old(self).keys().contains(type_id),
            old(self).keys().len() < MAX_COMPONENTS,
        ensures
            final(self).wf(),
            r.0 == old(self).keys().len(),
            final(self).keys() == old(self).keys().push(type_id),
            final(self).infos() == old(self).infos().push(data_info),
    {
        let comp_id = ComponentId::new(self.type_map.len());
        self.type_map.push(type_id);
        self.components.push(data_info);
        proof {
            let keys = self.type_map@;
            assert forall|i: int, j: int| 0 <= i < keys.len() && 0 <= j < keys.len() && i != j implies keys[i]
                != keys[j] by {
                if i == keys.len() - 1 {
                    assert(old(self).keys()[j] == keys[j]);
                } else if j == keys.len() - 1 {
                    assert(old(self).keys()[i] == keys[i]);
                }
            }
        }
        comp_id
    }

    /// The id of the type with key `type_id`, where it is registered.
    pub fn get_component_id_from_type_id(&self, type_id: u64) -> (r: Option<ComponentId>)
        requires
            self.wf(),
        ensures
            r.is_some() == self.spec_id_of(type_id).is_some(),
            r.is_some() ==> r.unwrap().0 == self.spec_id_of(type_id).unwrap(),
    {
        let mut i: usize = 0;
        while i < self.type_map.len()
            invariant
                self.wf(),
                0 <= i <= self.keys().len(),
                forall|j: int| 0 <= j < i ==> self.keys()[j] != type_id,
            decreases self.keys().len() - i,
        {
            if self.type_map[i] == type_id {
                proof {
                    self.lemma_id_of(type_id, i as int);
                }
                return Some(ComponentId::new(i));
            }
            i = i + 1;
        }
        None
    }

    /// Whether the type with key `type_id` is registered.
    pub fn is_type_registered(&self, type_id: u64) -> (r: bool)
        requires
            self.wf(),
        ensures
            r == self.keys().contains(type_id),
    {
        self.get_component_id_from_type_id(type_id).is_some()
    }

    /// The description of the component with id `comp_id`, where there is one.
    pub fn get_component_info_from_component_id(&self, comp_id: ComponentId) -> (r: Option<&DataInfo>)
        requires
            self.wf(),
        ensures
            r.is_some() == (comp_id.0 < self.infos().len()),
            r.is_some() ==> *r.unwrap() == self.infos()[comp_id.0 as int],
    {
        if comp_id.0 < self.components.len() {
            Some(&self.components[comp_id.0])
        } else {
            None
        }
    }

    /// The description of the type with key `type_id`, where it is registered.
    pub fn get_component_info_from_type_id(&self, type_id: u64) -> (r: Option<&DataInfo>)
        requires
            self.wf(),
        ensures
            r.is_some() == self.spec_id_of(type_id).is_some(),
            r.is_some() ==> *r.unwrap() == self.infos()[self.spec_id_of(type_id).unwrap() as int],
    {
        match self.get_component_id_from_type_id(type_id) {
            Some(id) => Some(&self.components[id.0]),
            None => None,
        }
    }

    /// An empty column for the component with id `comp_id`, laid out as its
    /// description says, or `None` where no such component is registered.
    pub fn new_component_storage<V>(&self, comp_id: ComponentId) -> (r: Option<BlobVec<V>>)
        requires
            self.wf(),
        ensures
            r.is_some() == (comp_id.0 < self.infos().len()),
            r.is_some() ==> r.unwrap().wf() && r.unwrap()@ == Seq::<V>::empty()
                && r.unwrap().spec_layout() == self.infos()[comp_id.0 as int].spec_layout(),
    {
        match self.get_component_info_from_component_id(comp_id) {
            Some(info) => Some(BlobVec::new_for_data(info, 1)),
            None => None,
        }
    }
}

} // verus!

verus! {

/// The numbers of a list of component ids.
pub open spec fn id_seq(ids: Seq<ComponentId>) -> Seq<nat> {
    ids.map_values(|c: ComponentId| c.0 as nat)
}

} // verus!
