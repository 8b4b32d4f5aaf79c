use std::cell::Cell;
use std::rc::Rc;
use worlds_ecs::archetype::ArchetypeInfo;
use worlds_ecs::blob_vec::BlobVec;
use worlds_ecs::component::{ComponentFactory, ComponentId};
use worlds_ecs::data::{DataInfo, DataLayout};
use worlds_ecs::entity::{EntityFactory, EntityMeta};
use worlds_ecs::prime_key::{kth_prime, PrimeArchKey};
use worlds_ecs::query::Term;
use worlds_ecs::storage::{ArchStorage, ArchStorageId, ArchStorageIndex};
use worlds_ecs::world::{BundleItem, World, WorldError};

#[derive(Debug, PartialEq)]
enum Val {
    A(usize),
    B(Vec<u8>),
    C(String),
}

const KA: u64 = 1;
const KB: u64 = 2;
const KC: u64 = 3;

fn item(key: u64, value: Val) -> BundleItem<Val> {
    BundleItem { type_key: key, info: DataInfo::deafult_for::<Val>("Val"), value }
}

fn a_of(world: &World<Val>, e: worlds_ecs::entity::EntityId) -> usize {
    match world.get_component(e, KA) {
        Some(Val::A(v)) => *v,
        other => panic!("no A: {:?}", other),
    }
}

fn three_components() -> ComponentFactory {
    let mut f = ComponentFactory::new();
    f.register_component_from_data(KA, DataInfo::deafult_for::<usize>("A"));
    f.register_component_from_data(KB, DataInfo::deafult_for::<[usize; 2]>("B"));
    f.register_component_from_data(KC, DataInfo::deafult_for::<[u8; 3]>("C"));
    f
}

fn info_of(ids: &[usize]) -> ArchetypeInfo {
    let v: Vec<ComponentId> = ids.iter().map(|i| ComponentId::new(*i)).collect();
    ArchetypeInfo::from_ids(&v).unwrap()
}

#[test]
fn archetype_test_archetype_prime_keys() {
    let comp_factory = three_components();
    let id = |k: u64| comp_factory.get_component_id_from_type_id(k).unwrap().id();
    assert_eq!(info_of(&[id(KA)]).prime_key().as_u128(), 2);
    assert_eq!(info_of(&[id(KB)]).prime_key().as_u128(), 3);
    assert_eq!(info_of(&[id(KC)]).prime_key().as_u128(), 5);
    assert_eq!(info_of(&[id(KA), id(KB)]).prime_key().as_u128(), 6);
    assert_eq!(info_of(&[id(KB), id(KC)]).prime_key().as_u128(), 15);
    assert_eq!(info_of(&[id(KA), id(KC)]).prime_key().as_u128(), 10);
    assert_eq!(info_of(&[id(KA), id(KB), id(KC)]).prime_key().as_u128(), 30);
    assert_eq!(
        info_of(&[id(KA), id(KB), id(KC)]).prime_key().as_u128(),
        info_of(&[id(KC), id(KB), id(KA)]).prime_key().as_u128()
    );
}

#[test]
fn archetype_test_archetype_components() {
    let _comp_factory = three_components();
    let arch_info = info_of(&[0, 1, 2]);
    let comps = arch_info.component_ids();
    assert_eq!(comps[0], ComponentId::new(0));
    assert_eq!(comps[1], ComponentId::new(1));
    assert_eq!(comps[2], ComponentId::new(2));
    assert!(!arch_info.check_for_duplicates());

    let arch_info = info_of(&[0, 1, 2, 2]);
    let comps = arch_info.component_ids();
    assert_eq!(comps[0], ComponentId::new(0));
    assert_eq!(comps[1], ComponentId::new(1));
    assert_eq!(comps[2], ComponentId::new(2));
    assert_eq!(comps[3], ComponentId::new(2));
    assert!(arch_info.check_for_duplicates());
}

#[test]
fn component_test_components() {
    let mut components = ComponentFactory::new();
    assert!(!components.is_type_registered(KA));
    assert!(!components.is_type_registered(KB));
    assert!(!components.is_type_registered(KC));
    components.register_component_from_data(KA, DataInfo::deafult_for::<()>("worlds_ecs::component::tests::A"));
    components.register_component_from_data(KB, DataInfo::deafult_for::<()>("worlds_ecs::component::tests::B"));
    components.register_component_from_data_unchecked(KC, DataInfo::deafult_for::<()>("worlds_ecs::component::tests::C"));
    assert!(components.is_type_registered(KA));
    assert!(components.is_type_registered(KB));
    assert!(components.is_type_registered(KC));
    assert_eq!(components.get_component_id_from_type_id(KA).unwrap().id(), 0);
    assert_eq!(components.get_component_id_from_type_id(KB).unwrap().id(), 1);
    assert_eq!(components.get_component_id_from_type_id(KC).unwrap().id(), 2);
    assert_eq!(
        components.get_component_info_from_type_id(KA).unwrap().layout(),
        components.get_component_info_from_type_id(KB).unwrap().layout()
    );
    assert_ne!(
        components.get_component_info_from_type_id(KA).unwrap().name(),
        components.get_component_info_from_type_id(KB).unwrap().name()
    );
    assert_eq!(components.get_component_info_from_type_id(KA).unwrap().name(), "worlds_ecs::component::tests::A");
    assert_eq!(components.get_component_info_from_type_id(KB).unwrap().name(), "worlds_ecs::component::tests::B");
    assert_eq!(components.get_component_info_from_type_id(KC).unwrap().name(), "worlds_ecs::component::tests::C");
}

#[test]
fn register_twice_gives_same_id() {
    let mut components = ComponentFactory::new();
    let first = components.register_component_from_data(KA, DataInfo::deafult_for::<usize>("A"));
    let second = components.register_component_from_data(KA, DataInfo::deafult_for::<usize>("A"));
    assert_eq!(first, Some(ComponentId::new(0)));
    assert_eq!(first, second);
    assert_eq!(components.len(), 1);
}

#[test]
fn registry_refuses_beyond_prime_table() {
    let mut components = ComponentFactory::new();
    for k in 0..30u64 {
        assert_eq!(components.register_component_from_data(k, DataInfo::deafult_for::<u8>("N")), Some(ComponentId::new(k as usize)));
    }
    assert_eq!(components.register_component_from_data(99, DataInfo::deafult_for::<u8>("N")), None);
    assert_eq!(components.register_component_from_data(29, DataInfo::deafult_for::<u8>("N")), Some(ComponentId::new(29)));
}

fn placeholder() -> EntityMeta {
    EntityMeta {
        archetype_storage_id: ArchStorageId(usize::MAX),
        archetype_storage_index: ArchStorageIndex(usize::MAX),
    }
}

#[test]
fn test_entities() {
    let mut entity_factory = EntityFactory::new();
    let mut entities = Vec::new();
    (0..100).for_each(|_| {
        entities.push(entity_factory.new_entity(placeholder()).unwrap());
    });
    for entity in &entities {
        assert!(entity_factory.verify_generation(*entity));
    }
    for entity in &entities {
        assert!(entity_factory.get_entity_meta(*entity).is_some());
    }
    for entity in entities.iter().filter(|id| id.id() % 2 == 0) {
        entity_factory.remove_entity(*entity);
    }
    for entity in &entities {
        assert!(entity_factory.verify_generation(*entity) || entity.id() % 2 == 0);
    }
    assert_eq!(entity_factory.entities(), 50);
    (0..50).for_each(|_| {
        entity_factory.new_entity(placeholder()).unwrap();
    });
    assert_eq!(entity_factory.entities(), 100);
}

#[test]
fn freed_slots_come_back_at_next_generation() {
    let mut f = EntityFactory::new();
    let e0 = f.new_entity(placeholder()).unwrap();
    let e1 = f.new_entity(placeholder()).unwrap();
    assert_eq!((e0.id(), e0.generation()), (0, 0));
    assert_eq!((e1.id(), e1.generation()), (1, 0));
    f.remove_entity(e0);
    assert!(!f.verify_generation(e0));
    assert!(!f.verify_generation(e0.with_generation(1)));
    let e2 = f.new_entity(placeholder()).unwrap();
    assert_eq!((e2.id(), e2.generation()), (0, 1));
    assert!(f.verify_generation(e2));
    assert!(!f.verify_generation(e0));
    let e3 = f.new_entity(placeholder()).unwrap();
    assert_eq!((e3.id(), e3.generation()), (2, 0));
}

#[test]
fn test_component_storage() {
    let comp_factory = three_components();
    let mut abc_storage: ArchStorage<Val> = ArchStorage::new(&comp_factory, &info_of(&[0, 1, 2])).unwrap();
    assert_eq!(abc_storage.len(), 0);
    let bundle = |x: usize, y: u8| vec![
        (ComponentId::new(0), Val::A(x)),
        (ComponentId::new(1), Val::B(vec![y; 2])),
        (ComponentId::new(2), Val::C(String::from("255"))),
    ];
    assert_eq!(abc_storage.store_bundle(bundle(0, 1)).unwrap().0, 0);
    assert_eq!(abc_storage.store_bundle(bundle(1, 10)).unwrap().0, 1);
    assert_eq!(abc_storage.store_bundle(bundle(2, 100)).unwrap().0, 2);
    assert_eq!(abc_storage.store_bundle(bundle(3, 200)).unwrap().0, 3);
    assert_eq!(abc_storage.len(), 4);

    let id0 = ComponentId::new(0);
    assert_eq!(abc_storage.get_component(ArchStorageIndex(0), id0), Some(&Val::A(0)));
    assert_eq!(abc_storage.get_component(ArchStorageIndex(1), id0), Some(&Val::A(1)));
    assert_eq!(abc_storage.get_component_unchecked(ArchStorageIndex(2), id0), &Val::A(2));
    assert_eq!(abc_storage.get_component_unchecked(ArchStorageIndex(3), id0), &Val::A(3));

    for row in 0..4 {
        if let Some(Val::A(v)) = abc_storage.get_component_mut(ArchStorageIndex(row), id0) {
            *v *= 10;
        }
    }
    assert_eq!(abc_storage.get_component(ArchStorageIndex(0), id0), Some(&Val::A(0)));
    assert_eq!(abc_storage.get_component(ArchStorageIndex(1), id0), Some(&Val::A(10)));
    assert_eq!(abc_storage.get_component_unchecked(ArchStorageIndex(2), id0), &Val::A(20));
    assert_eq!(abc_storage.get_component_unchecked(ArchStorageIndex(3), id0), &Val::A(30));
    assert!(abc_storage.get_component(ArchStorageIndex(4), id0).is_none());
    assert!(abc_storage.store_bundle(vec![(ComponentId::new(0), Val::A(9))]).is_none());
    assert_eq!(abc_storage.len(), 4);
}

#[test]
fn test_bundle() {
    let mut comp_factory = ComponentFactory::new();
    comp_factory.register_component_from_data(KA, DataInfo::deafult_for::<usize>("A"));
    comp_factory.register_component_from_data(KB, DataInfo::deafult_for::<(isize, isize, [isize; 20])>("B"));
    let blob_vec_a: BlobVec<(isize, isize, [isize; 20])> = comp_factory.new_component_storage(ComponentId::new(0)).unwrap();
    let blob_vec_b: BlobVec<(isize, isize, [isize; 20])> = comp_factory.new_component_storage(ComponentId::new(1)).unwrap();
    let mut storage = vec![blob_vec_a, blob_vec_b];
    let rows = [
        (33, (-11, -99, [-456; 20])),
        (66, (-22, -99, [-56; 20])),
        (99, (-33, -99, [-4; 20])),
    ];
    for (a, b) in rows {
        storage[0].push((a, 0, [0; 20]));
        storage[1].push(b);
    }
    assert_eq!(storage[0].get_unchecked(0).0, 33);
    assert_eq!(storage[0].get_unchecked(1).0, 66);
    assert_eq!(storage[0].get_unchecked(2).0, 99);
    assert_eq!(storage[1].get_unchecked(0).0, -11);
    assert_eq!(storage[1].get_unchecked(1).0, -22);
    assert_eq!(storage[1].get_unchecked(2).0, -33);
    assert_eq!(storage[1].get_unchecked(0).1, -99);
    assert_eq!(storage[1].get_unchecked(1).1, -99);
    assert_eq!(storage[1].get_unchecked(2).1, -99);
    assert_eq!(storage[1].get_unchecked(0).2, [-456; 20]);
    assert_eq!(storage[1].get_unchecked(1).2, [-56; 20]);
    assert_eq!(storage[1].get_unchecked(2).2, [-4; 20]);
}

#[test]
fn column_growth_and_removal() {
    let layout = DataLayout::new::<u64>();
    let mut v: BlobVec<u64> = BlobVec::new(layout, false, 1);
    assert_eq!(v.capacity(), 1);
    v.push(10);
    v.push(20);
    assert_eq!(v.capacity(), 2);
    v.push(30);
    assert_eq!(v.capacity(), 4);
    v.reserve_exact(10);
    assert_eq!(v.capacity(), 13);
    v.reserve(20);
    assert_eq!(v.capacity(), 26);
    assert_eq!(v.swap_remove_and_forget_unchecked(0), 10);
    assert_eq!(v.get_slice(), &[30, 20]);
    v.replace_unchecked(1, 25);
    v.swap_remove_and_drop_unchecked(1);
    assert_eq!(v.get_slice(), &[30]);
    *v.get_mut_unchecked(0) += 1;
    assert_eq!(*v.get_unchecked(0), 31);
    v.clear();
    assert!(v.is_empty());
    assert_eq!(v.capacity(), 26);
    let zst: BlobVec<()> = BlobVec::new(DataLayout::new::<()>(), false, 3);
    assert_eq!(zst.capacity(), usize::MAX);
    assert_eq!(layout.size, 8);
}

#[test]
fn prime_key_arithmetic() {
    assert_eq!(kth_prime(0), 2);
    assert_eq!(kth_prime(29), 113);
    let mut k = PrimeArchKey::identity();
    k.merge_with(PrimeArchKey::of_component(1));
    k.merge_with(PrimeArchKey::of_component(2));
    assert_eq!(k.as_u128(), 15);
    assert!(k.is_supset_of(PrimeArchKey::of_component(2)));
    assert!(!k.is_supset_of(PrimeArchKey::of_component(0)));
    assert!(k.is_exact(PrimeArchKey { value: 15 }));
    assert_eq!(PrimeArchKey::of_component(29).squared().as_u128(), 12769);
    assert_eq!(PrimeArchKey { value: u128::MAX }.checked_merge(PrimeArchKey::of_component(0)), None);
}

#[test]
fn test_world_entities_1() {
    let mut world: World<Val> = World::new();
    let carter = world.spawn(vec![item(KA, Val::A(1)), item(KB, Val::B(vec![10, 20, 30, 40])), item(KC, Val::C("Carter".into()))]).unwrap();
    let alice = world.spawn(vec![item(KA, Val::A(2)), item(KB, Val::B(vec![133, 107])), item(KC, Val::C("Alice".into()))]).unwrap();
    let adam = world.spawn(vec![item(KA, Val::A(3)), item(KB, Val::B(vec![])), item(KC, Val::C("Adam".into()))]).unwrap();

    assert_eq!(a_of(&world, carter), 1);
    assert_eq!(a_of(&world, alice), 2);
    assert_eq!(a_of(&world, adam), 3);

    for e in [carter, alice, adam] {
        if let Some(Val::A(v)) = world.get_component_mut(e, KA) {
            *v *= 10;
        }
    }
    assert_eq!(a_of(&world, carter), 10);
    assert_eq!(a_of(&world, alice), 20);
    assert_eq!(a_of(&world, adam), 30);

    let b_len = |e| match world.get_component(e, KB) {
        Some(Val::B(v)) => v.len(),
        _ => panic!("no B"),
    };
    assert_eq!(b_len(carter), 4);
    assert_eq!(b_len(alice), 2);
    assert_eq!(b_len(adam), 0);

    assert_eq!(world.get_component(carter, KC), Some(&Val::C("Carter".into())));
    assert_eq!(world.get_component(alice, KC), Some(&Val::C("Alice".into())));
    assert_eq!(world.get_component(adam, KC), Some(&Val::C("Adam".into())));
}

#[test]
fn test_multiple_components_1() {
    let mut world: World<Val> = World::new();
    assert_eq!(world.spawn(vec![item(KA, Val::A(0)), item(KA, Val::A(1))]).err(), Some(WorldError::DuplicateComponent));
}

#[test]
fn test_multiple_components_2() {
    let mut world: World<Val> = World::new();
    let r = world.spawn(vec![item(KA, Val::A(0)), item(KA, Val::A(1)), item(KB, Val::B(vec![0, 1]))]);
    assert_eq!(r.err(), Some(WorldError::DuplicateComponent));
}

#[test]
fn test_despawning_entities_1() {
    let mut world: World<Val> = World::new();
    let a_cart = world.spawn(vec![item(KA, Val::A(1)), item(KC, Val::C(String::from("Cart")))]).unwrap();
    let a_alice = world.spawn(vec![item(KA, Val::A(2)), item(KC, Val::C(String::from("Alice")))]).unwrap();
    let a_james = world.spawn(vec![item(KA, Val::A(3)), item(KC, Val::C(String::from("James")))]).unwrap();

    assert_eq!(world.storages().get_storage(ArchStorageId(0)).unwrap().len(), 3);
    assert_eq!(world.query(&vec![Term::Read(KA), Term::Read(KC)]).unwrap().len(), 3);

    world.despawn(a_cart).unwrap();
    assert_eq!(a_of(&world, a_alice), 2);
    assert_eq!(a_of(&world, a_james), 3);
    assert!(world.get_component(a_cart, KA).is_none());

    assert_eq!(world.storages().get_storage(ArchStorageId(0)).unwrap().len(), 2);
    let filter = worlds_ecs::query::Filter::Has(vec![KA, KC]);
    for row in world.query_filtered(&vec![Term::Entity], &Some(filter)).unwrap() {
        assert_ne!(row.items[0], worlds_ecs::query::Fetched::Entity(a_cart));
    }
    assert_eq!(world.query(&vec![Term::Read(KA), Term::Read(KC)]).unwrap().len(), 2);
}

#[test]
fn test_despawning_entities_2() {
    let mut world: World<Val> = World::new();
    let mut entities = Vec::new();
    (0..1000).for_each(|i| entities.push(world.spawn(vec![item(KA, Val::A(i))]).unwrap()));
    (0..1000).filter(|i| i % 2 == 0).for_each(|i| world.despawn(entities[i]).unwrap());
    let rows = world.query(&vec![Term::Read(KA)]).unwrap();
    assert_eq!(rows.len(), 500);
    for row in &rows {
        match world.get_component_at(row.storage, row.row, ComponentId::new(0)) {
            Some(Val::A(i)) => assert!(i % 2 == 1),
            other => panic!("unexpected {:?}", other),
        }
    }
    assert_eq!(world.storages().get_storage(ArchStorageId(0)).unwrap().len(), 500);
}

struct Counted {
    drops: Rc<Cell<usize>>,
}

impl Drop for Counted {
    fn drop(&mut self) {
        self.drops.set(self.drops.get() + 1);
    }
}

#[test]
fn each_value_dropped_exactly_once() {
    let drops = Rc::new(Cell::new(0));
    {
        let mut world: World<Counted> = World::new();
        let mk = || BundleItem { type_key: 7, info: DataInfo::deafult_for::<Counted>("Counted"), value: Counted { drops: drops.clone() } };
        let mut es = Vec::new();
        for _ in 0..10 {
            es.push(world.spawn(vec![mk()]).unwrap());
        }
        assert_eq!(drops.get(), 0);
        world.despawn(es[3]).unwrap();
        world.despawn(es[9]).unwrap();
        assert_eq!(drops.get(), 2);
        if let Some(v) = world.get_component_mut(es[0], 7) {
            *v = Counted { drops: drops.clone() };
        }
        assert_eq!(drops.get(), 3);
        assert!(world.spawn(vec![mk(), mk()]).is_err());
        assert_eq!(drops.get(), 5);
    }
    assert_eq!(drops.get(), 13);
}

#[test]
fn stale_handles_read_nothing() {
    let mut world: World<Val> = World::new();
    let e = world.spawn(vec![item(KA, Val::A(1))]).unwrap();
    world.despawn(e).unwrap();
    let f = world.spawn(vec![item(KA, Val::A(2))]).unwrap();
    assert_eq!(f.id(), e.id());
    assert_ne!(f.generation(), e.generation());
    assert!(world.get_component(e, KA).is_none());
    assert!(world.get_component_mut(e, KA).is_none());
    assert_eq!(a_of(&world, f), 2);
    assert_eq!(world.entity_count(), 1);
}
