use worlds_ecs::data::DataInfo;
use worlds_ecs::entity::EntityId;
use worlds_ecs::query::{Fetched, Filter, QueryError, QueryRow, Term};
use worlds_ecs::storage::ArchStorageId;
use worlds_ecs::world::{BundleItem, World, WorldError};

#[derive(Debug, PartialEq)]
enum Comp {
    A(usize),
    B(String),
    C(usize),
}

const KA: u64 = 10;
const KB: u64 = 20;
const KC: u64 = 30;

fn a(v: usize) -> BundleItem<Comp> {
    BundleItem { type_key: KA, info: DataInfo::deafult_for::<usize>("A"), value: Comp::A(v) }
}

fn b(v: &str) -> BundleItem<Comp> {
    BundleItem { type_key: KB, info: DataInfo::deafult_for::<String>("B"), value: Comp::B(String::from(v)) }
}

fn c(v: usize) -> BundleItem<Comp> {
    BundleItem { type_key: KC, info: DataInfo::deafult_for::<usize>("C"), value: Comp::C(v) }
}

fn b_of(world: &World<Comp>, e: EntityId) -> String {
    match world.get_component(e, KB) {
        Some(Comp::B(s)) => s.clone(),
        other => panic!("no B: {:?}", other),
    }
}

fn a_of(world: &World<Comp>, e: EntityId) -> usize {
    match world.get_component(e, KA) {
        Some(Comp::A(v)) => *v,
        other => panic!("no A: {:?}", other),
    }
}

fn component_in(row: &QueryRow, i: usize) -> worlds_ecs::component::ComponentId {
    match row.items[i] {
        Fetched::Component(id) => id,
        other => panic!("not a component: {:?}", other),
    }
}

fn set_b(world: &mut World<Comp>, rows: &[QueryRow], i: usize, text: &str) {
    for row in rows {
        let id = component_in(row, i);
        match world.get_component_at_mut(row.storage, row.row, id) {
            Some(v) => *v = Comp::B(String::from(text)),
            None => panic!("row without B"),
        }
    }
}

fn spawn_setup(world: &mut World<Comp>) -> Vec<EntityId> {
    let mut out = Vec::new();
    out.push(world.spawn(vec![a(1), b("Cart")]).unwrap());
    out.push(world.spawn(vec![a(2), b("Alice")]).unwrap());
    out.push(world.spawn(vec![a(3), b("James")]).unwrap());
    out.push(world.spawn(vec![c(1), b("Cart")]).unwrap());
    out.push(world.spawn(vec![c(2), b("Alice")]).unwrap());
    out.push(world.spawn(vec![c(3), b("James")]).unwrap());
    out
}

#[test]
fn test_basic_component_queries_1() {
    let mut world: World<Comp> = World::new();
    spawn_setup(&mut world);
    let rows = world.query(&vec![Term::Read(KB)]).unwrap();
    assert_eq!(rows.len(), 6);
}

#[test]
fn test_basic_component_queries_2() {
    let mut world: World<Comp> = World::new();
    let es = spawn_setup(&mut world);
    let (cart1, alice1, james1, cart2, alice2, james2) = (es[0], es[1], es[2], es[3], es[4], es[5]);

    let rows = world.query(&vec![Term::Read(KB)]).unwrap();
    let mut alice_count = 0;
    let mut james_count = 0;
    let mut cart_count = 0;
    for row in &rows {
        let id = component_in(row, 0);
        match world.get_component_at(row.storage, row.row, id) {
            Some(Comp::B(name)) => {
                if name == "Alice" {
                    alice_count += 1;
                }
                if name == "James" {
                    james_count += 1;
                }
                if name == "Cart" {
                    cart_count += 1;
                }
            }
            other => panic!("unexpected {:?}", other),
        }
    }
    assert_eq!(alice_count, 2);
    assert_eq!(james_count, 2);
    assert_eq!(cart_count, 2);

    let rows = world.query(&vec![Term::Read(KC), Term::Write(KB)]).unwrap();
    set_b(&mut world, &rows, 1, "BOO!");

    let rows = world.query(&vec![Term::Read(KC), Term::Read(KB)]).unwrap();
    for row in &rows {
        let id = component_in(row, 1);
        assert_eq!(world.get_component_at(row.storage, row.row, id), Some(&Comp::B(String::from("BOO!"))));
    }

    assert_eq!(b_of(&world, alice2), "BOO!");
    assert_eq!(b_of(&world, cart2), "BOO!");
    assert_eq!(b_of(&world, james2), "BOO!");

    let rows = world.query(&vec![Term::Read(KA), Term::Read(KB)]).unwrap();
    for row in &rows {
        let id = component_in(row, 1);
        assert_ne!(world.get_component_at(row.storage, row.row, id), Some(&Comp::B(String::from("BOO!"))));
    }

    assert_eq!(b_of(&world, alice1), "Alice");
    assert_eq!(b_of(&world, cart1), "Cart");
    assert_eq!(b_of(&world, james1), "James");

    let rows = world.query(&vec![Term::Write(KB)]).unwrap();
    set_b(&mut world, &rows, 0, "Hej!");

    assert_eq!(b_of(&world, alice1), "Hej!");
    assert_eq!(b_of(&world, cart1), "Hej!");
    assert_eq!(b_of(&world, james1), "Hej!");
    assert_eq!(b_of(&world, alice2), "Hej!");
    assert_eq!(b_of(&world, cart2), "Hej!");
    assert_eq!(b_of(&world, james2), "Hej!");
}

#[test]
fn test_panic_on_duplicate_access_in_query() {
    let mut world: World<Comp> = World::new();
    world.spawn(vec![a(1), b("Cart")]).unwrap();
    world.spawn(vec![a(2), b("Alice")]).unwrap();
    world.spawn(vec![a(3), b("James")]).unwrap();
    let r = world.query(&vec![Term::Read(KB), Term::Read(KB)]);
    assert_eq!(r.err(), Some(QueryError::DuplicateAccess));
}

fn optional_setup(world: &mut World<Comp>) {
    spawn_setup(world);
    for i in 1..4 {
        world.spawn(vec![c(i)]).unwrap();
    }
    for i in 1..4 {
        world.spawn(vec![a(i)]).unwrap();
    }
}

#[test]
fn test_optional_queries_1() {
    let mut world: World<Comp> = World::new();
    optional_setup(&mut world);
    let optional = world.query(&vec![Term::OptRead(KB), Term::OptRead(KA), Term::OptRead(KC)]).unwrap();
    let empty = world.query(&vec![]).unwrap();
    assert_eq!(empty.len(), 12);
    assert_eq!(optional.len(), 12);
}

fn optional_setup_2(world: &mut World<Comp>) {
    spawn_setup(world);
    for _ in 0..2 {
        for i in 1..4 {
            world.spawn(vec![a(i)]).unwrap();
        }
    }
}

#[test]
fn test_optional_queries_2() {
    let mut world: World<Comp> = World::new();
    optional_setup_2(&mut world);
    let rows = world.query(&vec![Term::OptRead(KA), Term::OptRead(KB), Term::OptRead(KC)]).unwrap();
    let mut counts = [0; 3];
    for row in &rows {
        for i in 0..3 {
            if let Fetched::Optional(Some(_)) = row.items[i] {
                counts[i] += 1;
            }
        }
    }
    assert_eq!(counts[0], 9);
    assert_eq!(counts[1], 6);
    assert_eq!(counts[2], 3);
}

#[test]
fn test_containment_queries() {
    let mut world: World<Comp> = World::new();
    optional_setup_2(&mut world);
    let rows = world.query(&vec![Term::Has(vec![KA]), Term::Has(vec![KB]), Term::Has(vec![KC])]).unwrap();
    let mut counts = [0; 3];
    for row in &rows {
        for i in 0..3 {
            if row.items[i] == Fetched::Flag(true) {
                counts[i] += 1;
            }
        }
    }
    assert_eq!(counts[0], 9);
    assert_eq!(counts[1], 6);
    assert_eq!(counts[2], 3);
}

#[test]
fn optional_and_required_counts() {
    let mut world: World<Comp> = World::new();
    optional_setup(&mut world);
    assert_eq!(world.query(&vec![Term::OptRead(KA), Term::OptRead(KB), Term::OptRead(KC)]).unwrap().len(), 12);
    assert_eq!(world.query(&vec![Term::Read(KA), Term::Read(KB)]).unwrap().len(), 3);
    let rows = world.query(&vec![Term::Read(KA), Term::Has(vec![KC])]).unwrap();
    assert_eq!(rows.iter().filter(|r| r.items[1] == Fetched::Flag(true)).count(), 0);
}

#[test]
fn filter_composition() {
    let mut world: World<Comp> = World::new();
    optional_setup(&mut world);
    for i in 1..4 {
        world.spawn(vec![a(i)]).unwrap();
    }
    let or = Filter::Or(Box::new(Filter::Has(vec![KA])), Box::new(Filter::Has(vec![KC])));
    assert_eq!(world.query_filtered(&vec![Term::Read(KB)], &Some(or)).unwrap().len(), 6);
    let and_not = Filter::And(
        Box::new(Filter::Has(vec![KA])),
        Box::new(Filter::Not(Box::new(Filter::Has(vec![KC])))),
    );
    assert_eq!(world.query_filtered(&vec![Term::Read(KB)], &Some(and_not)).unwrap().len(), 3);
}

#[test]
fn has_pair_matches_both_probes() {
    let mut world: World<Comp> = World::new();
    optional_setup(&mut world);
    let rows = world
        .query(&vec![Term::Has(vec![KA, KB]), Term::Has(vec![KA]), Term::Has(vec![KB])])
        .unwrap();
    assert_eq!(rows.len(), 12);
    for row in &rows {
        let both = row.items[0] == Fetched::Flag(true);
        let each = row.items[1] == Fetched::Flag(true) && row.items[2] == Fetched::Flag(true);
        assert_eq!(both, each);
    }
}

#[test]
fn queries_over_empty_world() {
    let world: World<Comp> = World::new();
    assert_eq!(world.query(&vec![]).unwrap().len(), 0);
    assert_eq!(world.query(&vec![Term::Entity]).unwrap().len(), 0);
    assert_eq!(world.query(&vec![Term::Read(KA)]).err(), Some(QueryError::UnknownComponent));
}

#[test]
fn mutation_via_query() {
    let mut world: World<Comp> = World::new();
    let e1 = world.spawn(vec![a(1), b("Cart")]).unwrap();
    let e2 = world.spawn(vec![a(2), b("Alice")]).unwrap();
    let e3 = world.spawn(vec![a(3), b("James")]).unwrap();
    let rows = world.query(&vec![Term::Read(KA), Term::Write(KB)]).unwrap();
    assert_eq!(rows.len(), 3);
    set_b(&mut world, &rows, 1, "Hej");
    assert_eq!(b_of(&world, e1), "Hej");
    assert_eq!(b_of(&world, e2), "Hej");
    assert_eq!(b_of(&world, e3), "Hej");
}

#[test]
fn entity_term_yields_row_handles() {
    let mut world: World<Comp> = World::new();
    let e1 = world.spawn(vec![a(1)]).unwrap();
    let e2 = world.spawn(vec![a(2), b("x")]).unwrap();
    let rows = world.query(&vec![Term::Entity]).unwrap();
    assert_eq!(rows.len(), 2);
    assert_eq!(rows[0].items[0], Fetched::Entity(e1));
    assert_eq!(rows[1].items[0], Fetched::Entity(e2));
    assert_eq!(rows[0].storage, ArchStorageId(0));
    assert_eq!(rows[1].storage, ArchStorageId(1));
}

#[test]
fn query_with_too_many_terms() {
    let mut world: World<Comp> = World::new();
    world.spawn(vec![a(1)]).unwrap();
    let terms: Vec<Term> = (0..19).map(|_| Term::Read(KA)).collect();
    assert_eq!(world.query(&terms).err(), Some(QueryError::TooManyTerms));
}

#[test]
fn spawn_errors() {
    let mut world: World<Comp> = World::new();
    assert_eq!(world.spawn(vec![a(0), a(1)]).err(), Some(WorldError::DuplicateComponent));
    let many: Vec<BundleItem<Comp>> = (0..19u64)
        .map(|k| BundleItem { type_key: 100 + k, info: DataInfo::deafult_for::<usize>("N"), value: Comp::A(k as usize) })
        .collect();
    assert_eq!(world.spawn(many).err(), Some(WorldError::TooManyComponents));
    assert_eq!(world.entity_count(), 0);
    assert!(world.components().len() == 0);
}

#[test]
fn registry_full_is_refused() {
    let mut world: World<Comp> = World::new();
    for k in 0..30u64 {
        assert!(world.register_component(1000 + k, DataInfo::deafult_for::<usize>("N")).is_some());
    }
    assert_eq!(world.spawn(vec![a(1)]).err(), Some(WorldError::RegistryFull));
    assert!(world.spawn(vec![BundleItem { type_key: 1000, info: DataInfo::deafult_for::<usize>("N"), value: Comp::A(5) }]).is_ok());
}

#[test]
fn spawn_with_empty_bundle() {
    let mut world: World<Comp> = World::new();
    let e = world.spawn(vec![]).unwrap();
    assert!(world.is_live(e));
    assert!(world.get_component(e, KA).is_none());
    assert_eq!(world.query(&vec![Term::Entity]).unwrap().len(), 1);
}

#[test]
fn spawn_eighteen_components() {
    let mut world: World<Comp> = World::new();
    let bundle: Vec<BundleItem<Comp>> = (0..18u64)
        .map(|k| BundleItem { type_key: 500 + k, info: DataInfo::deafult_for::<usize>("N"), value: Comp::A(k as usize * 7) })
        .collect();
    let e = world.spawn(bundle).unwrap();
    for k in 0..18u64 {
        assert_eq!(world.get_component(e, 500 + k), Some(&Comp::A(k as usize * 7)));
    }
}

#[test]
fn despawn_last_and_non_last_rows() {
    let mut world: World<Comp> = World::new();
    let e1 = world.spawn(vec![a(1)]).unwrap();
    let e2 = world.spawn(vec![a(2)]).unwrap();
    let e3 = world.spawn(vec![a(3)]).unwrap();
    world.despawn(e3).unwrap();
    assert_eq!(world.storages().get_storage(ArchStorageId(0)).unwrap().len(), 2);
    world.despawn(e1).unwrap();
    assert_eq!(a_of(&world, e2), 2);
    assert_eq!(world.storages().get_storage(ArchStorageId(0)).unwrap().len(), 1);
    world.despawn(e2).unwrap();
    assert_eq!(world.storages().get_storage(ArchStorageId(0)).unwrap().len(), 0);
    assert_eq!(world.despawn(e2), Err(WorldError::StaleEntity));
    assert_eq!(world.query(&vec![Term::Read(KA)]).unwrap().len(), 0);
    let e4 = world.spawn(vec![a(4)]).unwrap();
    assert!(!world.is_live(e1));
    assert_eq!(a_of(&world, e4), 4);
}
