use worlds_ecs::blob_vec::{array_layout, padding_needed_for, repeat_layout};
use worlds_ecs::data::{DataInfo, DataLayout};
use worlds_ecs::entity::EntityId;
use worlds_ecs::tag::{TagFactory, TagStorage};
use worlds_ecs::world::{BundleItem, World};

const FLYING: u64 = 1;
const HAS_WINGS: u64 = 2;

#[derive(Debug)]
enum Bird {
    Name(&'static str),
    FlyingSpeed(f32),
}

#[test]
fn test_tags() {
    let mut tagf = TagFactory::new();
    assert_eq!(tagf.register_tag(FLYING), Some(0));
    assert_eq!(tagf.register_tag(HAS_WINGS), Some(1));

    let mut world: World<Bird> = World::new();
    let eagle = world
        .spawn(vec![
            BundleItem { type_key: 10, info: DataInfo::deafult_for::<&str>("Bird"), value: Bird::Name("Eagle") },
            BundleItem { type_key: 11, info: DataInfo::deafult_for::<f32>("FlyingSpeed"), value: Bird::FlyingSpeed(10.0) },
        ])
        .unwrap();
    assert!(matches!(world.get_component(eagle, 10), Some(Bird::Name("Eagle"))));
    assert!(matches!(world.get_component(eagle, 11), Some(Bird::FlyingSpeed(_))));

    let mut eagle_tracker = tagf.new_tracker();
    assert!(eagle_tracker.tag(&tagf, FLYING));
    assert!(eagle_tracker.tag(&tagf, HAS_WINGS));
    assert_eq!(eagle_tracker.is_tagged(&tagf, FLYING), Some(true));
    assert_eq!(eagle_tracker.is_tagged(&tagf, HAS_WINGS), Some(true));

    assert!(eagle_tracker.untag(&tagf, FLYING));
    eagle_tracker.untag_all();
    assert_eq!(eagle_tracker.is_tagged(&tagf, FLYING), Some(false));
    assert_eq!(eagle_tracker.is_tagged(&tagf, HAS_WINGS), Some(false));
}

#[test]
fn tag_registry_and_storage() {
    let mut tagf = TagFactory::new();
    assert_eq!(tagf.register_tag(7), Some(0));
    assert_eq!(tagf.register_tag(7), Some(0));
    assert_eq!(tagf.tag_id(7), Some(0));
    assert_eq!(tagf.tag_id(8), None);
    let mut tracker = tagf.new_tracker();
    assert!(!tracker.is_tag_registered(&tagf, 8));
    assert!(!tracker.tag(&tagf, 8));
    assert!(tracker.toggle(&tagf, 7));
    assert_eq!(tracker.is_tagged(&tagf, 7), Some(true));
    assert!(tracker.toggle(&tagf, 7));
    assert_eq!(tracker.is_tagged(&tagf, 7), Some(false));

    let mut storage = TagStorage::new(tagf);
    storage.new_entity();
    let e = EntityId::new(0);
    assert!(storage.get_tag_tracker(e).is_some());
    assert!(storage.get_tag_tracker(EntityId::new(1)).is_none());
    assert!(storage.untag_all(e));
    assert!(!storage.untag_all(EntityId::new(3)));
    let f = storage.tag_factory();
    assert_eq!(storage.get_tag_tracker(e).unwrap().is_tagged(f, 7), Some(false));
}

#[test]
fn layout_padding_and_arrays() {
    let odd = DataLayout { size: 5, align: 4 };
    assert_eq!(padding_needed_for(&odd, 4), 3);
    assert_eq!(padding_needed_for(&odd, 8), 3);
    assert_eq!(padding_needed_for(&DataLayout { size: 8, align: 8 }, 8), 0);
    let (array, stride) = repeat_layout(&odd, 3).unwrap();
    assert_eq!(stride, 8);
    assert_eq!(array.size, 24);
    assert_eq!(array.align, 4);
    assert_eq!(array_layout(&odd, 10).unwrap().size, 80);
    assert!(array_layout(&DataLayout { size: 8, align: 8 }, usize::MAX).is_none());
    let t = DataLayout::new::<u32>();
    assert_eq!((t.size, t.align), (4, 4));
}
