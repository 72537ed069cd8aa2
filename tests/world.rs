use sparse_ecs::World;

#[derive(Copy, Clone, Debug, PartialEq)]
struct Health {
    value: f64,
}

#[derive(Copy, Clone, Debug, PartialEq)]
struct Speed(u32);

#[test]
fn insertion() {
    let mut world = World::default();
    let entity = world.new_entity();
    entity.add_component(Health { value: 20.0 });
    assert_eq!(*entity.get_component::<Health>().unwrap(), Health { value: 20.0 });
}

#[test]
fn entity_ids_count_up_from_one() {
    let mut world = World::default();
    assert_eq!(world.new_entity().id(), 1);
    assert_eq!(world.new_entity().id(), 2);
    assert_eq!(world.new_entity().id(), 3);
}

#[test]
fn components_by_type() {
    let mut world = World::default();
    let entity = world.new_entity();
    assert!(entity.get_component::<Speed>().is_none());
    entity.add_component(Speed(3));
    entity.add_component(Health { value: 1.5 });
    entity.get_component_mut::<Speed>().unwrap().0 = 9;
    assert_eq!(*entity.get_component::<Speed>().unwrap(), Speed(9));
    entity.add_component(Speed(4));
    assert_eq!(entity.remove_component::<Speed>().map(|b| *b), Some(Speed(4)));
    assert!(entity.get_component::<Speed>().is_none());
    assert!(entity.remove_component::<Speed>().is_none());
    assert_eq!(*entity.get_component::<Health>().unwrap(), Health { value: 1.5 });
    assert_eq!(entity.id(), 1);
}
