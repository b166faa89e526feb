use wecs::{id, Component, Kind, World};

#[test]
fn get_test() {
    let mut world: World<usize> = World::new();
    let entity = world.create(id("entity"));

    let component = world.spawn(id("name"), id("test"), Kind::Custom, 10).unwrap();
    entity.add(&mut world, component);

    let component = entity.get(&world, &id("test"), &id("name"), Kind::Custom)[0];

    assert_eq!(*world.payload(component).unwrap(), 10);
}

#[test]
fn get_type_test() {
    let mut world: World<usize> = World::new();
    let entity = world.create(id("entity"));

    let component = world.spawn(id("name"), id("test"), Kind::Custom, 10).unwrap();
    entity.add(&mut world, component);

    let component = entity.get_type(&world, &id("test"), Kind::Custom)[0];

    assert_eq!(*world.payload(component).unwrap(), 10);

    entity.remove(&mut world, Component { index: component });

    assert_eq!(
        entity
            .get_type(&world, &id("test"), Kind::Custom)
            .iter()
            .map(|c| *world.payload(*c).unwrap())
            .collect::<Vec<usize>>(),
        Vec::<usize>::new()
    );

    world.remove(entity);

    assert_eq!(
        world
            .entities()
            .iter()
            .map(|e| world.id_of(*e).clone())
            .collect::<Vec<String>>(),
        Vec::<String>::new()
    );
}
