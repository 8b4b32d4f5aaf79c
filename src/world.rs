use crate::archetype::{ArchetypeInfo, MAX_COMPS_PER_ARCH};
use crate::component::{
    id_seq, lemma_index_of_prefix, register_keys, register_result, ComponentFactory, ComponentId,
};
use crate::prime_key::{key_of, lemma_key_fits, lemma_same_key_same_components, valid_ids, MAX_COMPONENTS};
use crate::query::{
    iter_filtered_query_matches, lemma_coords_of_empty_storages, query_coords, query_error, required_ids, rows_at, Filter, QueryError,
    QueryRow, Term,
};
use crate::storage::{bundle_ids, cell_set, row_pushed, row_swap_removed, ArchEntityStorage};
use vstd::set_lib::{lemma_int_range, lemma_len_subset, set_int_range};
use crate::data::DataInfo;
use crate::entity::{EntityFactory, EntityId, EntityMeta};
use crate::storage::{ArchStorageId, ArchStorageIndex, ArchStorages};
use vstd::prelude::*;

verus! {

/// Why an operation on a world did not happen.
#[derive(Clone, Copy, Debug, PartialEq, Eq, Structural)]
pub enum WorldError {
    /// A bundle names the same component type twice.
    DuplicateComponent,
    /// A bundle has more components than an archetype can hold.
    TooManyComponents,
    /// The registry has no room for the new component types of a bundle.
    RegistryFull,
    /// No entity handle is left to hand out.
    EntitiesExhausted,
    /// The handle is not live.
    StaleEntity,
}

/// One component of a bundle: the key of its type, the description of the
/// type, and the value.
pub struct BundleItem<V> {
    /// The key of the component type.
    pub type_key: u64,
    /// The description of the component type, used where it is not
    /// registered yet.
    pub info: DataInfo,
    /// The value.
    pub value: V,
}

/// The type keys of a bundle, in order.
pub open spec fn item_keys<V>(bundle: Seq<BundleItem<V>>) -> Seq<u64> {
    bundle.map_values(|it: BundleItem<V>| it.type_key)
}

/// The number of entries of `s` that `reg` does not hold.
pub open spec fn count_new(s: Seq<u64>, reg: Seq<u64>) -> nat
    decreases s.len(),
{
    if s.len() == 0 {
        0
    } else {
        (if reg.contains(s[0]) {
            0nat
        } else {
            1nat
        }) + count_new(s.drop_first(), reg)
    }
}

/// No more entries are new than there are entries.
pub proof fn lemma_count_new_bound(s: Seq<u64>, reg: Seq<u64>)
    ensures
        count_new(s, reg) <= s.len(),
    decreases s.len(),
{
    if s.len() > 0 {
        lemma_count_new_bound(s.drop_first(), reg);
    }
}

proof fn lemma_count_new_push(s: Seq<u64>, reg: Seq<u64>, k: u64)
    requires
        !s.contains(k),
    ensures
        count_new(s, reg.push(k)) == count_new(s, reg),
    decreases s.len(),
{
    if s.len() > 0 {
        assert(s[0] != k);
        assert(reg.push(k).contains(s[0]) == reg.contains(s[0])) by {
            if reg.push(k).contains(s[0]) {
                let i = choose|i: int| 0 <= i < reg.push(k).len() && reg.push(k)[i] == s[0];
                assert(i < reg.len());
                assert(reg[i] == s[0]);
            }
            if reg.contains(s[0]) {
                let i = choose|i: int| 0 <= i < reg.len() && reg[i] == s[0];
                assert(reg.push(k)[i] == s[0]);
            }
        }
        assert forall|x: u64| s.drop_first().contains(x) implies s.contains(x) by {
            let i = choose|i: int| 0 <= i < s.drop_first().len() && s.drop_first()[i] == x;
            assert(s[i + 1] == x);
        }
        lemma_count_new_push(s.drop_first(), reg, k);
    }
}

/// Registers the component type of each item of `bundle`, in order, and
/// pairs each value with the id of its type.
fn register_items<V>(components: &mut ComponentFactory, bundle: Vec<BundleItem<V>>) -> (r: (
    Vec<ComponentId>,
    Vec<(ComponentId, V)>,
))
    requires
        old(components).wf(),
        item_keys(bundle@).no_duplicates(),
        old(components).keys().len() + count_new(item_keys(bundle@), old(components).keys())
            <= MAX_COMPONENTS,
    ensures
        final(components).wf(),
        old(components).keys().len() <= final(components).keys().len(),
        final(components).keys().len() == old(components).keys().len() + count_new(item_keys(bundle@), old(components).keys()),
        final(components).keys().subrange(0, old(components).keys().len() as int) == old(components).keys(),
        forall|k: u64|
            #[trigger] final(components).keys().contains(k) ==> old(components).keys().contains(k)
                || item_keys(bundle@).contains(k),
        r.0@.len() == bundle@.len(),
        r.1@.len() == bundle@.len(),
        forall|j: int|
            0 <= j < bundle@.len() ==> {
                &&& final(components).keys().contains(#[trigger] bundle@[j].type_key)
                &&& r.0@[j].0 == final(components).keys().index_of(bundle@[j].type_key)
                &&& r.1@[j].0 == r.0@[j]
                &&& r.1@[j].1 == bundle@[j].value
            },
{
    let ghost items = bundle@;
    let ghost n = items.len();
    let ghost keys0 = components.keys();
    assert(n == bundle.len());
    let mut bundle = bundle;
    let mut ids: Vec<ComponentId> = Vec::new();
    let mut pairs: Vec<(ComponentId, V)> = Vec::new();
    let mut i: usize = 0;
    assert(item_keys(items).subrange(0, n as int) =~= item_keys(items));
    assert(items.subrange(0, n as int) =~= items);
    while bundle.len() > 0
        invariant
            components.wf(),
            item_keys(items).no_duplicates(),
            n <= usize::MAX,
            0 <= i <= n,
            items.len() == n,
            bundle@ == items.subrange(i as int, n as int),
            keys0.len() <= components.keys().len(),
            components.keys().subrange(0, keys0.len() as int) == keys0,
            components.keys().len() + count_new(item_keys(items).subrange(i as int, n as int), components.keys())
                == keys0.len() + count_new(item_keys(items), keys0),
            keys0.len() + count_new(item_keys(items), keys0) <= MAX_COMPONENTS,
            forall|k: u64|
                #[trigger] components.keys().contains(k) ==> keys0.contains(k) || item_keys(items).contains(k),
            ids@.len() == i,
            pairs@.len() == i,
            forall|j: int|
                0 <= j < i ==> {
                    &&& components.keys().contains(#[trigger] items[j].type_key)
                    &&& ids@[j].0 == components.keys().index_of(items[j].type_key)
                    &&& pairs@[j].0 == ids@[j]
                    &&& pairs@[j].1 == items[j].value
                },
        decreases bundle@.len(),
    {
        assert(bundle@.len() == n - i);
        let item = bundle.remove(0);
        let ghost before = components.keys();
        let ghost rest = item_keys(items).subrange(i as int + 1, n as int);
        proof {
            assert(item == items[i as int]);
            assert(item_keys(items).subrange(i as int, n as int).drop_first() =~= rest);
            assert(item_keys(items).subrange(i as int, n as int)[0] == item.type_key);
            assert(!rest.contains(item.type_key)) by {
                if rest.contains(item.type_key) {
                    let t = choose|t: int| 0 <= t < rest.len() && rest[t] == item.type_key;
                    assert(item_keys(items)[i as int + 1 + t] == item_keys(items)[i as int]);
                }
            }
            components.lemma_wf();
            lemma_count_new_bound(rest, before);
            if !before.contains(item.type_key) {
                assert(count_new(item_keys(items).subrange(i as int, n as int), before) == 1 + count_new(rest, before));
                assert(before.len() < MAX_COMPONENTS);
            }
        }
        let id = components.register_component_from_data(item.type_key, item.info).unwrap();
        proof {
            components.lemma_wf();
            if !before.contains(item.type_key) {
                lemma_count_new_push(rest, before, item.type_key);
                assert(components.keys() == before.push(item.type_key));
                assert(components.keys()[before.len() as int] == item.type_key);
            }
            assert(components.keys().subrange(0, before.len() as int) =~= before);
            assert(components.keys().subrange(0, keys0.len() as int) =~= keys0);
            assert forall|j: int| 0 <= j < i implies {
                &&& components.keys().contains(#[trigger] items[j].type_key)
                &&& ids@[j].0 == components.keys().index_of(items[j].type_key)
            } by {
                lemma_index_of_prefix(before, components.keys(), items[j].type_key);
            }
            assert forall|k: u64| #[trigger] components.keys().contains(k) implies keys0.contains(k)
                || item_keys(items).contains(k) by {
                if !before.contains(k) {
                    let t = choose|t: int| 0 <= t < components.keys().len() && components.keys()[t] == k;
                    assert(t == before.len());
                    assert(item_keys(items)[i as int] == k);
                }
            }
            if before.contains(item.type_key) {
                lemma_index_of_prefix(before, components.keys(), item.type_key);
            } else {
                let t = components.keys().index_of(item.type_key);
                assert(components.keys()[t] == item.type_key);
                if t < before.len() {
                    assert(before[t] == item.type_key);
                }
                assert(components.keys().contains(item.type_key));
            }
        }
        ids.push(id);
        pairs.push((id, item.value));
        i = i + 1;
        proof {
            assert(bundle@ =~= items.subrange(i as int, n as int));
        }
    }
    (ids, pairs)
}

/// Whether two items of `bundle` have the same type key.
fn has_duplicate_keys<V>(bundle: &Vec<BundleItem<V>>) -> (r: bool)
    ensures
        r == !item_keys(bundle@).no_duplicates(),
{
    let mut i: usize = 0;
    while i < bundle.len()
        invariant
            0 <= i <= bundle@.len(),
            forall|a: int, b: int| 0 <= a < i && 0 <= b < bundle@.len() && a != b ==> bundle@[a].type_key != bundle@[b].type_key,
        decreases bundle@.len() - i,
    {
        let mut j: usize = 0;
        while j < bundle.len()
            invariant
                0 <= i < bundle@.len(),
                0 <= j <= bundle@.len(),
                forall|a: int, b: int| 0 <= a < i && 0 <= b < bundle@.len() && a != b ==> bundle@[a].type_key != bundle@[b].type_key,
                forall|b: int| 0 <= b < j && b != i ==> bundle@[i as int].type_key != bundle@[b].type_key,
            decreases bundle@.len() - j,
        {
            if j != i && bundle[i].type_key == bundle[j].type_key {
                assert(item_keys(bundle@)[i as int] == item_keys(bundle@)[j as int]);
                return true;
            }
            j = j + 1;
        }
        i = i + 1;
    }
    false
}

/// The number of items of `bundle` whose type key `components` does not
/// hold.
fn count_unregistered<V>(components: &ComponentFactory, bundle: &Vec<BundleItem<V>>) -> (r: usize)
    requires
        components.wf(),
    ensures
        r == count_new(item_keys(bundle@), components.keys()),
{
    let mut n: usize = 0;
    let len = bundle.len();
    let mut i: usize = len;
    while i > 0
        invariant
            components.wf(),
            len == bundle@.len(),
            0 <= i <= bundle@.len(),
            n + i <= bundle@.len(),
            n == count_new(item_keys(bundle@).subrange(i as int, bundle@.len() as int), components.keys()),
        decreases i,
    {
        i = i - 1;
        let ghost s = item_keys(bundle@).subrange(i as int, bundle@.len() as int);
        assert(s.drop_first() =~= item_keys(bundle@).subrange(i as int + 1, bundle@.len() as int));
        assert(s[0] == bundle@[i as int].type_key);
        if !components.is_type_registered(bundle[i].type_key) {
            n = n + 1;
        }
    }
    assert(item_keys(bundle@).subrange(0, bundle@.len() as int) =~= item_keys(bundle@));
    n
}

/// The error that spawning `bundle` in `world` gives, if any: checked in
/// this order, before anything changes.
pub open spec fn spawn_error<V>(world: &World<V>, bundle: Seq<BundleItem<V>>) -> Option<WorldError> {
    if !item_keys(bundle).no_duplicates() {
        Some(WorldError::DuplicateComponent)
    } else if bundle.len() > MAX_COMPS_PER_ARCH {
        Some(WorldError::TooManyComponents)
    } else if world.spec_keys().len() + count_new(item_keys(bundle), world.spec_keys()) > MAX_COMPONENTS {
        Some(WorldError::RegistryFull)
    } else if !world.spec_can_allocate() {
        Some(WorldError::EntitiesExhausted)
    } else {
        None
    }
}

/// `after` is `before` with one more entity, `e`, that holds the values of
/// `bundle` and nothing else; every other entity keeps its components.
pub open spec fn spawned<V>(before: &World<V>, after: &World<V>, bundle: Seq<BundleItem<V>>, e: EntityId) -> bool {
    &&& !before.spec_is_live(e)
    &&& after.spec_is_live(e)
    &&& forall|f: EntityId| f != e ==> #[trigger] after.spec_is_live(f) == before.spec_is_live(f)
    &&& after.spec_count() == before.spec_count() + 1
    &&& forall|j: int| 0 <= j < bundle.len() ==> after.spec_get(e, #[trigger] bundle[j].type_key) == Some(bundle[j].value)
    &&& forall|k: u64| !item_keys(bundle).contains(k) ==> #[trigger] after.spec_get(e, k) == None::<V>
    &&& forall|f: EntityId, k: u64| before.spec_is_live(f) ==> #[trigger] after.spec_get(f, k) == before.spec_get(f, k)
    &&& before.spec_keys().len() <= after.spec_keys().len()
    &&& after.spec_keys().subrange(0, before.spec_keys().len() as int) == before.spec_keys()
    &&& forall|k: u64| #[trigger] after.spec_keys().contains(k) ==> before.spec_keys().contains(k) || item_keys(bundle).contains(k)
    &&& forall|f: EntityId| before.spec_is_live(f) ==> #[trigger] after.spec_meta(f) == before.spec_meta(f)
    &&& after.spec_slots() <= before.spec_slots() + 1
    &&& after.spec_keys().len() == before.spec_keys().len() + count_new(item_keys(bundle), before.spec_keys())
    &&& forall|j: int| 0 <= j < bundle.len() ==> after.spec_keys().contains(#[trigger] bundle[j].type_key)
    &&& placed(before, after, bundle, e)
}

/// The ids of the components of `bundle` in a registry with keys `keys`.
pub open spec fn bundle_component_ids<V>(keys: Seq<u64>, bundle: Seq<BundleItem<V>>) -> Seq<nat> {
    item_keys(bundle).map_values(|k: u64| keys.index_of(k) as nat)
}

/// The new entity `e` sits in a new last row of the storage whose key is the
/// bundle's key, which was made for it only where no storage had that key;
/// every other storage is as it was.
pub open spec fn placed<V>(before: &World<V>, after: &World<V>, bundle: Seq<BundleItem<V>>, e: EntityId) -> bool {
    let m = after.spec_meta(e);
    let s = m.archetype_storage_id.0 as int;
    let r = m.archetype_storage_index.0 as int;
    let n = before.spec_storages().len();
    &&& 0 <= s < after.spec_storages().len()
    &&& after.spec_storages()[s].columns().spec_key() == key_of(bundle_component_ids(after.spec_keys(), bundle))
    &&& forall|i: int| 0 <= i < n && i != s ==> #[trigger] after.spec_storages()[i] == before.spec_storages()[i]
    &&& s < n ==> {
        &&& after.spec_storages().len() == n
        &&& r == before.spec_storages()[s].spec_len()
        &&& row_pushed(before.spec_storages()[s], after.spec_storages()[s], e)
    }
    &&& s >= n ==> {
        &&& s == n
        &&& after.spec_storages().len() == n + 1
        &&& r == 0
        &&& after.spec_storages()[s].spec_len() == 1
        &&& after.spec_storages()[s].spec_entities() == seq![e]
        &&& forall|i: int| 0 <= i < n ==> #[trigger] before.spec_storages()[i].columns().spec_key()
            != after.spec_storages()[s].columns().spec_key()
    }
}

/// The world: the registry of component types, the entity allocator and the
/// catalog of archetype storages.
pub struct World<V> {
    components: ComponentFactory,
    entities: EntityFactory,
    storages: ArchStorages<V>,
}

impl<V> World<V> {
    /// The registered type keys, by component id.
    pub closed spec fn spec_keys(&self) -> Seq<u64> {
        self.components.keys()
    }

    /// Whether `e` is a live handle.
    pub closed spec fn spec_is_live(&self, e: EntityId) -> bool {
        self.entities.spec_is_live(e)
    }

    /// A new entity handle can be made.
    pub closed spec fn spec_can_allocate(&self) -> bool {
        self.entities.spec_can_allocate()
    }

    /// The number of live entities.
    pub closed spec fn spec_count(&self) -> nat {
        self.entities.spec_count()
    }

    /// Where the components of the entity in slot `i` are kept.
    pub closed spec fn spec_meta(&self, e: EntityId) -> EntityMeta {
        self.entities.spec_meta(e.id as nat)
    }

    /// The storages of the catalog, by id.
    pub closed spec fn spec_storages(&self) -> Seq<crate::storage::ArchEntityStorage<V>> {
        self.storages.spec_storages()
    }

    /// The value of the component with type key `key` of entity `e`, where `e`
    /// is live and has that component.
    pub closed spec fn spec_get(&self, e: EntityId, key: u64) -> Option<V> {
        if self.spec_is_live(e) && self.spec_keys().contains(key) {
            let m = self.spec_meta(e);
            self.spec_storages()[m.archetype_storage_id.0 as int].columns().spec_get(
                m.archetype_storage_index.0 as nat,
                self.spec_keys().index_of(key) as nat,
            )
        } else {
            None
        }
    }

    /// Only a live entity has components, and only of registered types.
    pub proof fn lemma_get_needs_live(&self, e: EntityId, key: u64)
        ensures
            self.spec_get(e, key).is_some() ==> self.spec_is_live(e) && self.spec_keys().contains(key),
    {
    }

    /// Every live entity's metadata names a row of a storage, and that row
    /// holds the entity.
    pub closed spec fn metadata_consistent(&self) -> bool {
        forall|e: EntityId|
            #[trigger] self.entities.spec_is_live(e) ==> {
                let m = self.entities.spec_meta(e.id as nat);
                let s = m.archetype_storage_id.0 as int;
                let r = m.archetype_storage_index.0 as int;
                &&& 0 <= s < self.storages.spec_storages().len()
                &&& 0 <= r < self.storages.spec_storages()[s].spec_len()
                &&& self.storages.spec_storages()[s].spec_entities()[r] == e
            }
    }

    /// Every row of every storage holds a live entity whose metadata names
    /// that row.
    pub closed spec fn rows_owned(&self) -> bool {
        forall|s: int, r: int|
            0 <= s < self.storages.spec_storages().len() && 0 <= r
                < self.storages.spec_storages()[s].spec_len() ==> {
                let e = #[trigger] self.storages.spec_storages()[s].spec_entities()[r];
                &&& self.entities.spec_is_live(e)
                &&& self.entities.spec_meta(e.id as nat).archetype_storage_id.0 == s
                &&& self.entities.spec_meta(e.id as nat).archetype_storage_index.0 == r
            }
    }

    /// Every component of every storage is registered.
    pub closed spec fn storages_registered(&self) -> bool {
        forall|s: int, j: int|
            0 <= s < self.storages.spec_storages().len() && 0 <= j
                < self.storages.spec_storages()[s].columns().ids().len() ==> #[trigger] self.storages.spec_storages()[s].columns().ids()[j]
                < self.components.keys().len()
    }

    /// The registry, the allocator and the catalog are well formed, and they
    /// agree with each other.
    pub closed spec fn wf(&self) -> bool {
        &&& self.components.wf()
        &&& self.entities.wf()
        &&& self.storages.wf()
        &&& self.metadata_consistent()
        &&& self.rows_owned()
        &&& self.storages_registered()
    }

    /// An empty world.
    pub fn new() -> (r: World<V>)
        ensures
            r.wf(),
            r.spec_count() == 0,
            r.spec_keys() == Seq::<u64>::empty(),
            r.spec_storages().len() == 0,
            forall|e: EntityId| !r.spec_is_live(e),
            r.spec_slots() == 0,
            r.spec_can_allocate(),
    {
        let r = World { components: ComponentFactory::new(), entities: EntityFactory::new(), storages: ArchStorages::new() };
        r
    }

    /// Whether `entity` is a live handle.
    pub fn is_live(&self, entity: EntityId) -> (r: bool)
        requires
            self.wf(),
        ensures
            r == self.spec_is_live(entity),
    {
        self.entities.verify_generation(entity)
    }

    /// The number of live entities.
    pub fn entity_count(&self) -> (r: u32)
        ensures
            r == self.spec_count(),
    {
        self.entities.entities()
    }

    /// The id of the component type with key `type_key`, where it is
    /// registered.
    pub fn component_id(&self, type_key: u64) -> (r: Option<ComponentId>)
        requires
            self.wf(),
        ensures
            r.is_some() == self.spec_keys().contains(type_key),
            r.is_some() ==> r.unwrap().0 == self.spec_keys().index_of(type_key),
    {
        self.components.get_component_id_from_type_id(type_key)
    }

    /// The value of the component with type key `type_key` of `entity`, or
    /// `None` where the handle is stale or the entity has no such component.
    pub fn get_component(&self, entity: EntityId, type_key: u64) -> (r: Option<&V>)
        requires
            self.wf(),
        ensures
            r.is_some() == self.spec_get(entity, type_key).is_some(),
            r.is_some() ==> *r.unwrap() == self.spec_get(entity, type_key).unwrap(),
            r.is_some() ==> self.spec_is_live(entity) && self.spec_keys().contains(type_key),
    {
        let entity_meta = match self.entities.get_entity_meta(entity) {
            Some(m) => *m,
            None => {
                return None;
            },
        };
        let comp_id = match self.components.get_component_id_from_type_id(type_key) {
            Some(c) => c,
            None => {
                return None;
            },
        };
        proof {
            self.storages.lemma_wf();
        }
        match self.storages.get_storage(entity_meta.archetype_storage_id) {
            Some(storage) => storage.get_component(entity_meta.archetype_storage_index, comp_id),
            None => None,
        }
    }

    /// The value of the component with type key `type_key` of `entity`, to be
    /// changed in place, or `None` where the handle is stale or the entity has
    /// no such component.
    pub fn get_component_mut(&mut self, entity: EntityId, type_key: u64) -> (r: Option<&mut V>)
        requires
            old(self).wf(),
        ensures
            r.is_some() == old(self).spec_get(entity, type_key).is_some(),
            r.is_none() ==> *final(self) == *old(self),
            r.is_some() ==> {
                &&& *r.unwrap() == old(self).spec_get(entity, type_key).unwrap()
                &&& final(self).wf()
                &&& final(self).spec_get(entity, type_key) == Some(*final(r.unwrap()))
                &&& forall|f: EntityId, k: u64|
                    !(f == entity && k == type_key) ==> #[trigger] final(self).spec_get(f, k) == old(self).spec_get(f, k)
                &&& forall|f: EntityId| #[trigger] final(self).spec_is_live(f) == old(self).spec_is_live(f)
                &&& final(self).spec_keys() == old(self).spec_keys()
                &&& final(self).spec_count() == old(self).spec_count()
            },
    {
        let entity_meta = match self.entities.get_entity_meta(entity) {
            Some(m) => *m,
            None => {
                return None;
            },
        };
        let comp_id = match self.components.get_component_id_from_type_id(type_key) {
            Some(c) => c,
            None => {
                return None;
            },
        };
        proof {
            self.storages.lemma_wf();
            self.components.lemma_wf();
            let s = entity_meta.archetype_storage_id.0 as int;
            let row = entity_meta.archetype_storage_index.0 as int;
            assert(self.spec_get(entity, type_key) == self.storages.spec_storages()[s].columns().spec_get(
                row as nat,
                comp_id.0 as nat,
            ));
            assert forall|f: EntityId, k: u64| self.spec_get(f, k).is_some() && !(f == entity && k == type_key) implies {
                let m = self.spec_meta(f);
                m.archetype_storage_id.0 != s || m.archetype_storage_index.0 != row
                    || self.spec_keys().index_of(k) != comp_id.0
            } by {
                let m = self.spec_meta(f);
                if m.archetype_storage_id.0 == s && m.archetype_storage_index.0 == row {
                    assert(self.storages.spec_storages()[s].spec_entities()[row] == f);
                    assert(f == entity);
                    if self.spec_keys().index_of(k) == comp_id.0 {
                        let i = self.spec_keys().index_of(k);
                        assert(self.spec_keys()[i] == k);
                        let j = self.spec_keys().index_of(type_key);
                        assert(self.spec_keys()[j] == type_key);
                    }
                }
            }
        }
        self.storages.get_component_mut(entity_meta.archetype_storage_id, entity_meta.archetype_storage_index, comp_id)
    }

    /// Removes the entity `entity` and drops its components. The last row of
    /// its storage takes its row, and the metadata of the entity there is set
    /// to match. Fails, changing nothing, where the handle is stale.
    pub fn despawn(&mut self, entity: EntityId) -> (r: Result<(), WorldError>)
        requires
            old(self).wf(),
        ensures
            final(self).wf(),
            r is Err <==> !old(self).spec_is_live(entity),
            r is Err ==> r == Err::<(), WorldError>(WorldError::StaleEntity) && *final(self) == *old(self),
            generations_kept(old(self), final(self)),
            r is Ok ==> {
                &&& !final(self).spec_is_live(entity)
                &&& final(self).spec_count() + 1 == old(self).spec_count()
                &&& forall|f: EntityId| f != entity ==> #[trigger] final(self).spec_is_live(f) == old(self).spec_is_live(f)
                &&& forall|f: EntityId, k: u64| f != entity ==> #[trigger] final(self).spec_get(f, k) == old(self).spec_get(f, k)
                &&& final(self).spec_keys() == old(self).spec_keys()
                &&& final(self).spec_storages().len() == old(self).spec_storages().len()
                &&& {
                    let m = old(self).spec_meta(entity);
                    let st = old(self).spec_storages()[m.archetype_storage_id.0 as int];
                    &&& final(self).spec_storages()[m.archetype_storage_id.0 as int].spec_len() + 1 == st.spec_len()
                    &&& m.archetype_storage_index.0 + 1 < st.spec_len() ==> final(self).spec_meta(st.spec_entities().last()) == m
                    &&& m.archetype_storage_index.0 + 1 < st.spec_len() ==> st.spec_entities().last() != entity
                    &&& row_swap_removed(
                        st,
                        final(self).spec_storages()[m.archetype_storage_id.0 as int],
                        m.archetype_storage_index.0 as nat,
                    )
                    &&& forall|i: int|
                        0 <= i < old(self).spec_storages().len() && i != m.archetype_storage_id.0 ==> #[trigger] final(self).spec_storages()[i] == old(self).spec_storages()[i]
                    &&& forall|f: EntityId|
                        old(self).spec_is_live(f) && f != entity && f != st.spec_entities().last() ==> #[trigger] final(self).spec_meta(f) == old(self).spec_meta(f)
                }
            },
    {
        let entity_meta = match self.entities.get_entity_meta(entity) {
            Some(m) => *m,
            None => {
                return Err(WorldError::StaleEntity);
            },
        };
        let sid = entity_meta.archetype_storage_id;
        let row = entity_meta.archetype_storage_index;
        let ghost s = sid.0 as int;
        let ghost old_storage = self.storages.spec_storages()[s];
        let ghost last = (old_storage.spec_len() - 1) as int;
        proof {
            self.storages.lemma_wf();
            old_storage.lemma_wf();
            assert(self.storages.spec_storages()[s].spec_entities()[last] == old_storage.spec_entities().last());
        }
        let moved = self.storages.swap_remove(sid, row);
        let ghost mid = self.entities;
        match moved {
            Some(m) => {
                proof {
                    assert(self.entities.spec_is_live(m));
                    self.entities.lemma_live_in_range(m);
                }
                self.entities.set_entity_meta(entity_meta, m);
            },
            None => {},
        }
        proof {
            if moved.is_some() {
                let m = moved.unwrap();
                if m.id == entity.id {
                    self.entities.lemma_live_unique(m, entity);
                }
            }
        }
        let ghost mid2 = self.entities;
        self.entities.remove_entity(entity);
        proof {
            assert forall|i: nat| i < mid2.slots() implies #[trigger] self.entities.spec_meta(i) == mid2.spec_meta(i) by {}
            assert forall|i: nat| i < mid.slots() && (moved.is_none() || i != moved.unwrap().id) implies #[trigger] mid2.spec_meta(i) == mid.spec_meta(i) by {}
            self.storages.lemma_wf();
            let new_storage = self.storages.spec_storages()[s];
            new_storage.lemma_wf();
            if moved.is_some() {
                let m = moved.unwrap();
                old(self).entities.lemma_live_in_range(m);
                assert(self.entities.spec_meta(m.id as nat) == mid2.spec_meta(m.id as nat));
            }
            // live entities point at rows that hold them
            assert forall|f: EntityId| #[trigger] self.entities.spec_is_live(f) implies {
                let mf = self.entities.spec_meta(f.id as nat);
                let t = mf.archetype_storage_id.0 as int;
                let rr = mf.archetype_storage_index.0 as int;
                &&& 0 <= t < self.storages.spec_storages().len()
                &&& 0 <= rr < self.storages.spec_storages()[t].spec_len()
                &&& self.storages.spec_storages()[t].spec_entities()[rr] == f
            } by {
                assert(f != entity);
                assert(old(self).entities.spec_is_live(f));
                if f.id == entity.id {
                    old(self).entities.lemma_live_unique(f, entity);
                }
                let om = old(self).entities.spec_meta(f.id as nat);
                old(self).entities.lemma_live_in_range(f);
                assert(self.entities.spec_meta(f.id as nat) == mid2.spec_meta(f.id as nat));
                if moved.is_some() && f == moved.unwrap() {
                    assert(mid2.spec_meta(f.id as nat) == entity_meta);
                } else {
                    if moved.is_some() && f.id == moved.unwrap().id {
                        old(self).entities.lemma_live_unique(f, moved.unwrap());
                    }
                    assert(mid2.spec_meta(f.id as nat) == om);
                    if moved.is_some() && f.id == moved.unwrap().id {
                        old(self).entities.lemma_live_unique(f, moved.unwrap());
                    }
                    if om.archetype_storage_id.0 == s {
                        assert(old_storage.spec_entities()[om.archetype_storage_index.0 as int] == f);
                        assert(om.archetype_storage_index.0 != row.0);
                        if om.archetype_storage_index.0 == last {
                            assert(moved.is_some());
                        }
                    }
                }
            }
            assert forall|t: int, rr: int|
                0 <= t < self.storages.spec_storages().len() && 0 <= rr < self.storages.spec_storages()[t].spec_len() implies {
                let f = #[trigger] self.storages.spec_storages()[t].spec_entities()[rr];
                &&& self.entities.spec_is_live(f)
                &&& self.entities.spec_meta(f.id as nat).archetype_storage_id.0 == t
                &&& self.entities.spec_meta(f.id as nat).archetype_storage_index.0 == rr
            } by {
                let f = self.storages.spec_storages()[t].spec_entities()[rr];
                if t == s && rr == row.0 {
                    let m = moved.unwrap();
                    assert(f == m);
                    old(self).entities.lemma_live_in_range(f);
                    assert(self.entities.spec_meta(f.id as nat) == mid2.spec_meta(f.id as nat));
                    assert(old(self).entities.spec_meta(m.id as nat).archetype_storage_index.0 == last);
                    if m.id == entity.id {
                        old(self).entities.lemma_live_unique(m, entity);
                    }
                } else {
                    assert(f == old(self).storages.spec_storages()[t].spec_entities()[rr]);
                    assert(old(self).entities.spec_is_live(f));
                    old(self).entities.lemma_live_in_range(f);
                    if f.id == entity.id {
                        old(self).entities.lemma_live_unique(f, entity);
                    }
                    if moved.is_some() && f.id == moved.unwrap().id {
                        old(self).entities.lemma_live_unique(f, moved.unwrap());
                        assert(old(self).entities.spec_meta(f.id as nat).archetype_storage_index.0 == last);
                    }
                    assert(self.entities.spec_meta(f.id as nat) == mid2.spec_meta(f.id as nat));
                    assert(mid2.spec_meta(f.id as nat) == mid.spec_meta(f.id as nat));
                }
            }
            assert forall|t: int, j: int|
                0 <= t < self.storages.spec_storages().len() && 0 <= j
                    < self.storages.spec_storages()[t].columns().ids().len() implies #[trigger] self.storages.spec_storages()[t].columns().ids()[j]
                    < self.components.keys().len() by {
                assert(old(self).storages.spec_storages()[t].columns().ids() == self.storages.spec_storages()[t].columns().ids());
            }
            assert forall|f: EntityId, k: u64| f != entity implies #[trigger] self.spec_get(f, k) == old(self).spec_get(f, k) by {
                if old(self).spec_is_live(f) {
                    if f.id == entity.id {
                        old(self).entities.lemma_live_unique(f, entity);
                    }
                    let om = old(self).entities.spec_meta(f.id as nat);
                    if moved.is_some() && f.id == moved.unwrap().id {
                        old(self).entities.lemma_live_unique(f, moved.unwrap());
                    } else if om.archetype_storage_id.0 == s {
                        assert(old_storage.spec_entities()[om.archetype_storage_index.0 as int] == f);
                        if om.archetype_storage_index.0 == last {
                            assert(moved.is_some());
                        }
                    }
                }
            }
        }
        Ok(())
    }

    /// A storage has no more rows than the allocator has slots, and fewer
    /// where slot `d` exists and holds no live entity.
    proof fn lemma_storage_len_bound(&self, s: int, d: int)
        requires
            self.wf(),
            0 <= s < self.spec_storages().len(),
            forall|f: EntityId| self.spec_is_live(f) ==> f.id != d,
        ensures
            self.spec_storages()[s].spec_len() <= self.entities.slots(),
            0 <= d < self.entities.slots() ==> self.spec_storages()[s].spec_len() < self.entities.slots(),
            self.entities.slots() <= u32::MAX,
    {
        let st = self.storages.spec_storages()[s];
        self.storages.lemma_wf();
        st.lemma_wf();
        self.entities.lemma_wf();
        let ids = st.spec_entities().map_values(|e: EntityId| e.id as int);
        assert forall|a: int, b: int| 0 <= a < ids.len() && 0 <= b < ids.len() && a != b implies ids[a] != ids[b] by {
            let ea = self.storages.spec_storages()[s].spec_entities()[a];
            let eb = self.storages.spec_storages()[s].spec_entities()[b];
            if ea.id == eb.id {
                self.entities.lemma_live_unique(ea, eb);
            }
        }
        ids.unique_seq_to_set();
        let range = set_int_range(0, self.entities.slots() as int);
        assert forall|x: int| ids.to_set().contains(x) implies range.contains(x) && x != d by {
            let i = choose|i: int| 0 <= i < ids.len() && ids[i] == x;
            let ei = self.storages.spec_storages()[s].spec_entities()[i];
            self.entities.lemma_live_in_range(ei);
            assert(self.spec_is_live(ei));
        }
        lemma_int_range(0, self.entities.slots() as int);
        lemma_len_subset(ids.to_set(), range);
        if 0 <= d < self.entities.slots() {
            assert(range.remove(d).len() == range.len() - 1);
            lemma_len_subset(ids.to_set(), range.remove(d));
        }
    }

    /// Makes an entity holding the values of `bundle`: registers the
    /// component types it has not seen yet, finds or makes the storage of the
    /// bundle's archetype, and adds a row there. Fails, changing nothing,
    /// where the bundle names a type twice, has more than
    /// [`MAX_COMPS_PER_ARCH`] components, needs more room in the registry than
    /// is left, or where no handle is left.
    pub fn spawn(&mut self, bundle: Vec<BundleItem<V>>) -> (r: Result<EntityId, WorldError>)
        requires
            old(self).wf(),
        ensures
            final(self).wf(),
            r is Err <==> spawn_error(old(self), bundle@).is_some(),
            r is Err ==> r == Err::<EntityId, WorldError>(spawn_error(old(self), bundle@).unwrap()) && *final(self) == *old(self),
            r is Ok ==> spawned(old(self), final(self), bundle@, r.unwrap()),
            generations_kept(old(self), final(self)),
    {
        if has_duplicate_keys(&bundle) {
            return Err(WorldError::DuplicateComponent);
        }
        if bundle.len() > MAX_COMPS_PER_ARCH {
            return Err(WorldError::TooManyComponents);
        }
        let fresh = count_unregistered(&self.components, &bundle);
        proof {
            self.components.lemma_wf();
        }
        if fresh > MAX_COMPONENTS - self.components.len() {
            return Err(WorldError::RegistryFull);
        }
        if !self.entities.can_allocate() {
            return Err(WorldError::EntitiesExhausted);
        }
        let ghost items = bundle@;
        let (ids, pairs) = register_items(&mut self.components, bundle);
        proof {
            self.components.lemma_wf();
            let keys = self.components.keys();
            let sq = id_seq(ids@);
            assert forall|j: int| 0 <= j < sq.len() implies #[trigger] sq[j] < MAX_COMPONENTS && sq[j] < keys.len() by {
                assert(keys.contains(items[j].type_key));
                let t = keys.index_of(items[j].type_key);
                assert(keys[t] == items[j].type_key);
            }
            assert(valid_ids(sq));
            lemma_key_fits(sq);
            assert forall|a: int, b: int| 0 <= a < sq.len() && 0 <= b < sq.len() && a != b implies sq[a] != sq[b] by {
                let ta = keys.index_of(items[a].type_key);
                let tb = keys.index_of(items[b].type_key);
                assert(keys[ta] == items[a].type_key);
                assert(keys[tb] == items[b].type_key);
                assert(item_keys(items)[a] != item_keys(items)[b]);
            }
            assert forall|j: int| 0 <= j < sq.len() implies #[trigger] bundle_ids(pairs@)[j] == sq[j] by {
                assert(keys.contains(items[j].type_key));
                assert(pairs@[j].0 == ids@[j]);
            }
            assert(bundle_ids(pairs@) =~= sq);
        }
        let ghost c1 = self.components;
        let ghost sq = id_seq(ids@);
        let ghost pairs_seq = pairs@;
        let info = ArchetypeInfo::from_ids(&ids).unwrap();
        let ghost s0 = self.storages;
        let sid = self.storages.get_mut_or_create_storage_with_exact_archetype(&self.components, &info).unwrap();
        let ghost s1 = self.storages;
        let index = self.storages.get_storage(sid).unwrap().next_index();
        proof {
            self.storages.lemma_wf();
            info.lemma_wf();
            let st = s1.spec_storages()[sid.0 as int];
            st.lemma_wf();
            let sids = st.columns().ids();
            lemma_same_key_same_components(sids, sq);
        }
        let ghost e0 = self.entities;
        let entity = self.entities.new_entity(EntityMeta { archetype_storage_id: sid, archetype_storage_index: index }).unwrap();
        proof {
            if sid.0 < s0.spec_storages().len() {
                assert(s1 == s0);
                old(self).lemma_storage_len_bound(sid.0 as int, entity.id as int);
            }
            assert(u32::MAX <= usize::MAX);
        }
        let stored = self.storages.store_entity(sid, entity, pairs);
        proof {
            assert(stored.is_some());
            let keys0 = old(self).components.keys();
            let keys1 = c1.keys();
            let st1 = s1.spec_storages()[sid.0 as int];
            let st2 = self.storages.spec_storages()[sid.0 as int];
            let n0 = s0.spec_storages().len();
            self.storages.lemma_wf();
            s0.lemma_wf();
            st1.lemma_wf();
            st2.lemma_wf();
            assert(self.entities.spec_meta(entity.id as nat) == EntityMeta { archetype_storage_id: sid, archetype_storage_index: index });
            // the storages before the new row, as they were before the spawn
            assert forall|s: int| 0 <= s < n0 implies #[trigger] s1.spec_storages()[s] == s0.spec_storages()[s] by {
                if sid.0 >= n0 {
                    assert(s1.spec_storages().subrange(0, n0 as int)[s] == s1.spec_storages()[s]);
                }
            }
            assert(s0 == old(self).storages);
            // an old live entity keeps its slot, liveness and metadata
            assert forall|f: EntityId| old(self).entities.spec_is_live(f) implies {
                &&& f.id != entity.id
                &&& #[trigger] self.entities.spec_is_live(f)
                &&& self.entities.spec_meta(f.id as nat) == old(self).entities.spec_meta(f.id as nat)
            } by {
                old(self).entities.lemma_live_in_range(f);
            }
            // liveness of every handle
            assert forall|f: EntityId| f != entity implies #[trigger] self.entities.spec_is_live(f)
                == old(self).entities.spec_is_live(f) by {
                if f.id == entity.id && self.entities.spec_is_live(f) {
                    self.entities.lemma_live_unique(f, entity);
                }
            }
            // metadata points at rows holding the entity
            assert forall|f: EntityId| #[trigger] self.entities.spec_is_live(f) implies {
                let m = self.entities.spec_meta(f.id as nat);
                let s = m.archetype_storage_id.0 as int;
                let r = m.archetype_storage_index.0 as int;
                &&& 0 <= s < self.storages.spec_storages().len()
                &&& 0 <= r < self.storages.spec_storages()[s].spec_len()
                &&& self.storages.spec_storages()[s].spec_entities()[r] == f
            } by {
                if f != entity {
                    assert(old(self).entities.spec_is_live(f));
                    let m = old(self).entities.spec_meta(f.id as nat);
                    let s = m.archetype_storage_id.0 as int;
                    let r = m.archetype_storage_index.0 as int;
                    assert(old(self).storages.spec_storages()[s].spec_entities()[r] == f);
                    assert(s1.spec_storages()[s] == s0.spec_storages()[s]);
                    if s == sid.0 {
                        assert(st2.spec_entities() == st1.spec_entities().push(entity));
                    }
                } else {
                    assert(st2.spec_entities() == st1.spec_entities().push(entity));
                }
            }
            // every row holds a live entity whose metadata names it
            assert forall|s: int, r: int|
                0 <= s < self.storages.spec_storages().len() && 0 <= r < self.storages.spec_storages()[s].spec_len() implies {
                let f = #[trigger] self.storages.spec_storages()[s].spec_entities()[r];
                &&& self.entities.spec_is_live(f)
                &&& self.entities.spec_meta(f.id as nat).archetype_storage_id.0 == s
                &&& self.entities.spec_meta(f.id as nat).archetype_storage_index.0 == r
            } by {
                let f = self.storages.spec_storages()[s].spec_entities()[r];
                if s == sid.0 && r == st1.spec_len() {
                    assert(st2.spec_entities() == st1.spec_entities().push(entity));
                    assert(f == entity);
                } else {
                    if s == sid.0 {
                        assert(st2.spec_entities() == st1.spec_entities().push(entity));
                        assert(f == st1.spec_entities()[r]);
                    } else {
                        assert(f == s1.spec_storages()[s].spec_entities()[r]);
                    }
                    assert(s < n0);
                    assert(s1.spec_storages()[s] == s0.spec_storages()[s]);
                    assert(f == old(self).storages.spec_storages()[s].spec_entities()[r]);
                    assert(old(self).entities.spec_is_live(f));
                }
            }
            // every storage's components are registered
            assert forall|s: int, j: int|
                0 <= s < self.storages.spec_storages().len() && 0 <= j
                    < self.storages.spec_storages()[s].columns().ids().len() implies #[trigger] self.storages.spec_storages()[s].columns().ids()[j]
                    < self.components.keys().len() by {
                assert(self.storages.spec_storages()[s].columns().ids() == s1.spec_storages()[s].columns().ids());
                if s < n0 {
                    assert(s1.spec_storages()[s] == s0.spec_storages()[s]);
                    assert(old(self).storages.spec_storages()[s].columns().ids()[j] < keys0.len());
                } else {
                    assert(sq[j] < keys1.len());
                }
            }
            assert(self.wf());
            // the new entity holds the bundle's values
            assert forall|j: int| 0 <= j < items.len() implies self.spec_get(entity, #[trigger] items[j].type_key)
                == Some(items[j].value) by {
                let c = sq[j];
                assert(keys1.index_of(items[j].type_key) == c);
                assert(st1.columns().ids().contains(c)) by {
                    assert(sq.contains(c));
                }
                assert(bundle_ids(pairs_seq).index_of(c) == j) by {
                    let t = bundle_ids(pairs_seq).index_of(c);
                    assert(bundle_ids(pairs_seq)[t] == c);
                    assert(sq.no_duplicates());
                }
                assert(pairs_seq[j].1 == items[j].value);
            }
            assert forall|k: u64| !item_keys(items).contains(k) implies #[trigger] self.spec_get(entity, k) == None::<V> by {
                if keys1.contains(k) {
                    let c = keys1.index_of(k);
                    assert(keys1[c] == k);
                    if st1.columns().ids().contains(c as nat) {
                        assert(sq.contains(c as nat));
                        let j = choose|j: int| 0 <= j < sq.len() && sq[j] == c as nat;
                        let tj = keys1.index_of(items[j].type_key);
                        assert(keys1[tj] == items[j].type_key);
                        assert(item_keys(items)[j] == k);
                    }
                }
            }
            // where the new entity sits
            let bids = bundle_component_ids(keys1, items);
            assert forall|j: int| 0 <= j < sq.len() implies #[trigger] sq[j] == bids[j] by {
                assert(keys1.contains(items[j].type_key));
            }
            assert(sq =~= bids);
            assert(self.spec_keys() == keys1);
            assert(st2.columns().spec_key() == key_of(bids));
            let n = s0.spec_storages().len();
            if sid.0 >= n {
                assert(sid.0 == n);
                assert(st1.spec_entities() =~= Seq::<EntityId>::empty());
                assert(st2.spec_entities() =~= seq![entity]);
                assert forall|i: int| 0 <= i < n implies #[trigger] old(self).spec_storages()[i].columns().spec_key()
                    != st2.columns().spec_key() by {
                    assert(old(self).storages.key_at(i) == s0.key_at(i));
                }
            } else {
                assert(s1 == s0);
            }
            assert(placed(old(self), self, items, entity));
            // every other entity keeps its values
            assert forall|f: EntityId, k: u64| old(self).spec_is_live(f) implies #[trigger] self.spec_get(f, k)
                == old(self).spec_get(f, k) by {
                let m = old(self).entities.spec_meta(f.id as nat);
                let s = m.archetype_storage_id.0 as int;
                let r = m.archetype_storage_index.0 as nat;
                assert(s1.spec_storages()[s] == s0.spec_storages()[s]);
                let so = old(self).storages.spec_storages()[s];
                so.lemma_wf();
                if keys0.contains(k) {
                    lemma_index_of_prefix(keys0, keys1, k);
                } else if keys1.contains(k) {
                    let c = keys1.index_of(k);
                    assert(keys1[c] == k);
                    if c < keys0.len() {
                        assert(keys0[c] == k);
                    }
                    if so.columns().ids().contains(c as nat) {
                        let j = choose|j: int| 0 <= j < so.columns().ids().len() && so.columns().ids()[j] == c as nat;
                        assert(old(self).storages.spec_storages()[s].columns().ids()[j] < keys0.len());
                    }
                    assert(so.columns().spec_get(r, c as nat).is_none());
                }
            }
        }
        Ok(entity)
    }

    /// A world whose allocator has fewer than `u32::MAX` slots can hand out a
    /// handle.
    pub proof fn lemma_can_allocate(&self)
        ensures
            self.spec_slots() < u32::MAX ==> self.spec_can_allocate(),
    {
    }

    /// What a well-formed world holds: every column of a storage is as long
    /// as its list of entities, no two storages have the same key, and every
    /// live entity's metadata names a row that holds it.
    pub proof fn lemma_invariants(&self)
        requires
            self.wf(),
        ensures
            forall|s: int|
                0 <= s < self.spec_storages().len() ==> {
                    let st = #[trigger] self.spec_storages()[s];
                    &&& st.spec_entities().len() == st.spec_len()
                    &&& forall|r: nat, c: nat| #[trigger] st.columns().spec_get(r, c).is_some() <==> (r
                        < st.spec_len() && st.columns().ids().contains(c))
                },
            forall|i: int, j: int|
                0 <= i < j < self.spec_storages().len() ==> #[trigger] self.spec_storages()[i].columns().spec_key()
                    != #[trigger] self.spec_storages()[j].columns().spec_key(),
            forall|e: EntityId|
                #[trigger] self.spec_is_live(e) ==> {
                    let m = self.spec_meta(e);
                    let s = m.archetype_storage_id.0 as int;
                    let r = m.archetype_storage_index.0 as int;
                    &&& 0 <= s < self.spec_storages().len()
                    &&& 0 <= r < self.spec_storages()[s].spec_len()
                    &&& self.spec_storages()[s].spec_entities()[r] == e
                },
            forall|s: int, r: int|
                0 <= s < self.spec_storages().len() && 0 <= r < self.spec_storages()[s].spec_len() ==> {
                    let e = #[trigger] self.spec_storages()[s].spec_entities()[r];
                    &&& self.spec_is_live(e)
                    &&& self.spec_meta(e).archetype_storage_id.0 == s
                    &&& self.spec_meta(e).archetype_storage_index.0 == r
                },
            self.spec_keys().no_duplicates(),
            self.spec_keys().len() <= MAX_COMPONENTS,
            self.spec_slots() <= u32::MAX,
    {
        self.components.lemma_wf();
        self.entities.lemma_wf();
        self.storages.lemma_wf();
        assert forall|s: int| 0 <= s < self.spec_storages().len() implies {
            let st = #[trigger] self.spec_storages()[s];
            &&& st.spec_entities().len() == st.spec_len()
            &&& forall|r: nat, c: nat| #[trigger] st.columns().spec_get(r, c).is_some() <==> (r < st.spec_len()
                && st.columns().ids().contains(c))
        } by {
            self.spec_storages()[s].lemma_wf();
        }
        assert forall|i: int, j: int| 0 <= i < j < self.spec_storages().len() implies #[trigger] self.spec_storages()[i].columns().spec_key()
            != #[trigger] self.spec_storages()[j].columns().spec_key() by {
            assert(self.storages.key_at(i) != self.storages.key_at(j));
        }
    }

    /// The number of slots of the entity allocator.
    pub closed spec fn spec_slots(&self) -> nat {
        self.entities.slots()
    }

    /// The generation of slot `i`.
    pub closed spec fn spec_generation(&self, i: nat) -> nat {
        self.entities.spec_generation(i)
    }

    /// The registry of component types.
    pub fn components(&self) -> (r: &ComponentFactory)
        ensures
            r.keys() == self.spec_keys(),
    {
        &self.components
    }

    /// The catalog of archetype storages.
    pub fn storages(&self) -> (r: &ArchStorages<V>)
        ensures
            r.spec_storages() == self.spec_storages(),
    {
        &self.storages
    }

    /// Registers the component type with key `type_key` and description
    /// `info`, unless it is registered already. Gives its id, or `None` where
    /// the registry is full.
    pub fn register_component(&mut self, type_key: u64, info: DataInfo) -> (r: Option<ComponentId>)
        requires
            old(self).wf(),
        ensures
            final(self).wf(),
            r.is_some() == register_result(old(self).spec_keys(), type_key).is_some(),
            r.is_some() ==> r.unwrap().0 == register_result(old(self).spec_keys(), type_key).unwrap(),
            final(self).spec_keys() == register_keys(old(self).spec_keys(), type_key),
            forall|f: EntityId, k: u64| #[trigger] final(self).spec_get(f, k) == old(self).spec_get(f, k),
            forall|f: EntityId| #[trigger] final(self).spec_is_live(f) == old(self).spec_is_live(f),
            final(self).spec_storages() == old(self).spec_storages(),
    {
        let r = self.components.register_component_from_data(type_key, info);
        proof {
            let keys0 = old(self).components.keys();
            let keys1 = self.components.keys();
            old(self).components.lemma_wf();
            self.components.lemma_wf();
            if !keys0.contains(type_key) && keys0.len() < MAX_COMPONENTS {
                assert(keys1.subrange(0, keys0.len() as int) =~= keys0);
            } else {
                assert(keys1.subrange(0, keys0.len() as int) =~= keys0);
            }
            assert forall|f: EntityId, k: u64| #[trigger] self.spec_get(f, k) == old(self).spec_get(f, k) by {
                if keys0.contains(k) {
                    lemma_index_of_prefix(keys0, keys1, k);
                } else if keys1.contains(k) && old(self).spec_is_live(f) {
                    let c = keys1.index_of(k);
                    assert(keys1[c] == k);
                    if c < keys0.len() {
                        assert(keys0[c] == k);
                    }
                    let m = old(self).entities.spec_meta(f.id as nat);
                    let so = old(self).storages.spec_storages()[m.archetype_storage_id.0 as int];
                    old(self).storages.lemma_wf();
                    so.lemma_wf();
                    if so.columns().ids().contains(c as nat) {
                        let j = choose|j: int| 0 <= j < so.columns().ids().len() && so.columns().ids()[j] == c as nat;
                        assert(old(self).storages.spec_storages()[m.archetype_storage_id.0 as int].columns().ids()[j] < keys0.len());
                    }
                }
            }
        }
        r
    }

    /// The rows that a query with `terms` and, where given, `filter` yields:
    /// see [`iter_filtered_query_matches`].
    pub fn query_filtered(&self, terms: &Vec<Term>, filter: &Option<Filter>) -> (r: Result<Vec<QueryRow>, QueryError>)
        requires
            self.wf(),
        ensures
            r is Err <==> query_error(terms@, *filter, self.spec_keys()).is_some(),
            r is Err ==> r == Err::<Vec<QueryRow>, QueryError>(query_error(terms@, *filter, self.spec_keys()).unwrap()),
            r is Ok ==> rows_at(
                r.unwrap()@,
                query_coords(
                    self.spec_storages(),
                    required_ids(terms@, self.spec_keys()),
                    *filter,
                    self.spec_keys(),
                    self.spec_storages().len() as int,
                ),
                terms@,
                self.spec_keys(),
                self.spec_storages(),
            ),
    {
        iter_filtered_query_matches(&self.components, &self.storages, terms, filter)
    }

    /// The rows that a query with `terms` yields, with no filter.
    pub fn query(&self, terms: &Vec<Term>) -> (r: Result<Vec<QueryRow>, QueryError>)
        requires
            self.wf(),
        ensures
            r is Err <==> query_error(terms@, None, self.spec_keys()).is_some(),
            r is Err ==> r == Err::<Vec<QueryRow>, QueryError>(query_error(terms@, None, self.spec_keys()).unwrap()),
            r is Ok ==> rows_at(
                r.unwrap()@,
                query_coords(
                    self.spec_storages(),
                    required_ids(terms@, self.spec_keys()),
                    None,
                    self.spec_keys(),
                    self.spec_storages().len() as int,
                ),
                terms@,
                self.spec_keys(),
                self.spec_storages(),
            ),
    {
        iter_filtered_query_matches(&self.components, &self.storages, terms, &None)
    }

    /// The value of component `comp_id` at row `row` of storage `storage`,
    /// where all three exist.
    pub fn get_component_at(&self, storage: ArchStorageId, row: ArchStorageIndex, comp_id: ComponentId) -> (r: Option<&V>)
        requires
            self.wf(),
        ensures
            r.is_some() == (storage.0 < self.spec_storages().len() && self.spec_storages()[storage.0 as int].columns().spec_get(
                row.0 as nat,
                comp_id.0 as nat,
            ).is_some()),
            r.is_some() ==> *r.unwrap() == self.spec_storages()[storage.0 as int].columns().spec_get(
                row.0 as nat,
                comp_id.0 as nat,
            ).unwrap(),
    {
        proof {
            self.storages.lemma_wf();
        }
        match self.storages.get_storage(storage) {
            Some(s) => s.get_component(row, comp_id),
            None => None,
        }
    }

    /// The value of component `comp_id` at row `row` of storage `storage`, to
    /// be changed in place, where all three exist.
    pub fn get_component_at_mut(&mut self, storage: ArchStorageId, row: ArchStorageIndex, comp_id: ComponentId) -> (r: Option<&mut V>)
        requires
            old(self).wf(),
        ensures
            r.is_some() == (storage.0 < old(self).spec_storages().len() && old(self).spec_storages()[storage.0 as int].columns().spec_get(
                row.0 as nat,
                comp_id.0 as nat,
            ).is_some()),
            r.is_none() ==> *final(self) == *old(self),
            r.is_some() ==> {
                &&& *r.unwrap() == old(self).spec_storages()[storage.0 as int].columns().spec_get(row.0 as nat, comp_id.0 as nat).unwrap()
                &&& final(self).wf()
                &&& final(self).spec_storages().len() == old(self).spec_storages().len()
                &&& forall|i: int| 0 <= i < old(self).spec_storages().len() && i != storage.0 ==> #[trigger] final(self).spec_storages()[i]
                    == old(self).spec_storages()[i]
                &&& cell_set(
                    old(self).spec_storages()[storage.0 as int],
                    final(self).spec_storages()[storage.0 as int],
                    row.0 as nat,
                    comp_id.0 as nat,
                    *final(r.unwrap()),
                )
                &&& forall|f: EntityId| #[trigger] final(self).spec_is_live(f) == old(self).spec_is_live(f)
                &&& final(self).spec_keys() == old(self).spec_keys()
            },
    {
        self.storages.get_component_mut(storage, row, comp_id)
    }
}

/// No slot of `after` has a lower generation than in `before`, and no slot
/// is gone.
pub open spec fn generations_kept<V>(before: &World<V>, after: &World<V>) -> bool {
    &&& before.spec_slots() <= after.spec_slots()
    &&& forall|i: nat| i < before.spec_slots() ==> before.spec_generation(i) <= #[trigger] after.spec_generation(i)
}

impl<V> Default for World<V> {
    /// An empty world.
    fn default() -> (r: World<V>)
        ensures
            r.wf(),
            r.spec_count() == 0,
            r.spec_keys() == Seq::<u64>::empty(),
            r.spec_storages().len() == 0,
    {
        World::new()
    }
}

/// Spawning an entity and then reading a component of its bundle gives the
/// value the bundle held.
pub proof fn lemma_spawn_then_read<V>(before: &World<V>, after: &World<V>, bundle: Seq<BundleItem<V>>, e: EntityId, j: int)
    requires
        spawned(before, after, bundle, e),
        0 <= j < bundle.len(),
    ensures
        after.spec_get(e, bundle[j].type_key) == Some(bundle[j].value),
{
}

/// Spawning with an empty bundle succeeds exactly when a handle is left, and
/// gives a live entity with no component.
pub proof fn lemma_spawn_empty<V>(before: &World<V>, after: &World<V>, e: EntityId)
    requires
        before.wf(),
    ensures
        spawn_error(before, Seq::<BundleItem<V>>::empty()) == if before.spec_can_allocate() {
            None::<WorldError>
        } else {
            Some(WorldError::EntitiesExhausted)
        },
        spawned(before, after, Seq::<BundleItem<V>>::empty(), e) ==> after.spec_is_live(e) && forall|k: u64|
            #[trigger] after.spec_get(e, k) == None::<V>,
{
    before.components.lemma_wf();
    assert(item_keys(Seq::<BundleItem<V>>::empty()) =~= Seq::<u64>::empty());
    assert(count_new(Seq::<u64>::empty(), before.spec_keys()) == 0);
}

/// A bundle of distinct, registered component types, no more than an
/// archetype holds, is spawned whenever a handle is left.
pub proof fn lemma_spawn_fits<V>(world: &World<V>, bundle: Seq<BundleItem<V>>)
    requires
        world.wf(),
        item_keys(bundle).no_duplicates(),
        bundle.len() <= MAX_COMPS_PER_ARCH,
        forall|j: int| 0 <= j < bundle.len() ==> world.spec_keys().contains(#[trigger] bundle[j].type_key),
        world.spec_can_allocate(),
    ensures
        spawn_error(world, bundle).is_none(),
{
    world.components.lemma_wf();
    lemma_count_new_registered(item_keys(bundle), world.spec_keys());
}

/// Entries that the registry holds are not new.
pub proof fn lemma_count_new_registered(s: Seq<u64>, reg: Seq<u64>)
    requires
        forall|j: int| 0 <= j < s.len() ==> reg.contains(#[trigger] s[j]),
    ensures
        count_new(s, reg) == 0,
    decreases s.len(),
{
    if s.len() > 0 {
        assert(reg.contains(s[0]));
        assert forall|j: int| 0 <= j < s.drop_first().len() implies reg.contains(#[trigger] s.drop_first()[j]) by {
            assert(s.drop_first()[j] == s[j + 1]);
        }
        lemma_count_new_registered(s.drop_first(), reg);
    }
}

/// A query over a world with no storage yields no row.
pub proof fn lemma_query_empty_world<V>(world: &World<V>, terms: Seq<Term>, filter: Option<Filter>)
    requires
        world.spec_storages().len() == 0,
    ensures
        query_coords(world.spec_storages(), required_ids(terms, world.spec_keys()), filter, world.spec_keys(), 0)
            == Seq::<(nat, nat)>::empty(),
{
}

/// A query over a world with no live entity yields no row, even where
/// storages were made and then emptied.
pub proof fn lemma_query_no_live_entity<V>(world: &World<V>, terms: Seq<Term>, filter: Option<Filter>)
    requires
        world.wf(),
        forall|e: EntityId| !world.spec_is_live(e),
    ensures
        query_coords(
            world.spec_storages(),
            required_ids(terms, world.spec_keys()),
            filter,
            world.spec_keys(),
            world.spec_storages().len() as int,
        ) == Seq::<(nat, nat)>::empty(),
{
    world.lemma_invariants();
    assert forall|i: int| 0 <= i < world.spec_storages().len() implies (#[trigger] world.spec_storages()[i]).spec_len() == 0 by {
        if world.spec_storages()[i].spec_len() > 0 {
            let e = world.spec_storages()[i].spec_entities()[0];
            assert(world.spec_is_live(e));
        }
    }
    lemma_coords_of_empty_storages(
        world.spec_storages(),
        required_ids(terms, world.spec_keys()),
        filter,
        world.spec_keys(),
        world.spec_storages().len() as int,
    );
}

} // verus!
