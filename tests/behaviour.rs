use wecs::{collect, id, resolve, Component, EcsError, Entity, Kind, World, LIGHT_ID, TRANSFORM_ID};

fn light(world: &mut World<u32>, name: &str, value: u32) -> Component {
    world.spawn(id(name), id(LIGHT_ID), Kind::Light, value).unwrap()
}

#[test]
fn second_add_moves_the_component() {
    let mut world: World<u32> = World::new();
    let e1 = world.create(id("one"));
    let e2 = world.create(id("two"));
    let c = light(&mut world, "lamp", 1);

    let first = e1.add(&mut world, c);
    assert!(first.is_empty());
    assert_eq!(world.owner_of(c.index), Some(e1.index));

    let moved = e2.add(&mut world, c);
    assert_eq!(moved, vec![c.index]);
    assert_eq!(world.owner_of(c.index), Some(e2.index));
    assert!(!e1.components(&world).contains(&c.index));
    assert_eq!(e2.components(&world), vec![c.index]);
}

#[test]
fn add_then_remove_round_trip() {
    let mut world: World<u32> = World::new();
    let e = world.create(id("e"));
    let c = light(&mut world, "lamp", 1);

    e.add(&mut world, c);
    let removed = e.remove(&mut world, c);
    assert_eq!(removed, vec![c.index]);
    assert_eq!(e.get_type(&world, &id(LIGHT_ID), Kind::Light), Vec::<usize>::new());
    assert_eq!(world.owner_of(c.index), None);

    let again = e.remove(&mut world, c);
    assert!(again.is_empty());
    assert!(e.components(&world).is_empty());
}

#[test]
fn remove_takes_every_component_with_the_same_tag_and_id() {
    let mut world: World<u32> = World::new();
    let e = world.create(id("e"));
    let a = light(&mut world, "lamp", 1);
    let b = light(&mut world, "other", 2);
    let c = light(&mut world, "lamp", 3);
    e.add_all(&mut world, &[a, b, c]);

    let removed = e.remove_by_id(&mut world, &id(LIGHT_ID), &id("lamp"));
    assert_eq!(removed, vec![a.index, c.index]);
    assert_eq!(e.components(&world), vec![b.index]);
    assert_eq!(world.owner_of(a.index), None);
    assert_eq!(world.owner_of(c.index), None);
    assert_eq!(world.owner_of(b.index), Some(e.index));
}

#[test]
fn remove_all_removes_each_in_turn() {
    let mut world: World<u32> = World::new();
    let e = world.create(id("e"));
    let a = light(&mut world, "a", 1);
    let b = light(&mut world, "b", 2);
    let c = light(&mut world, "c", 3);
    e.add_all(&mut world, &[a, b, c]);
    assert_eq!(e.components(&world), vec![a.index, b.index, c.index]);

    let removed = e.remove_all(&mut world, &[c, a]);
    assert_eq!(removed, vec![c.index, a.index]);
    assert_eq!(e.components(&world), vec![b.index]);
}

#[test]
fn cascade_reaches_each_attached_component_once() {
    let mut world: World<u32> = World::new();
    let parent = world.create(id("parent"));
    let child = Entity::new(&mut world, id("child"));
    let a = light(&mut world, "a", 1);
    let b = world.spawn(id("b"), id("camera"), Kind::Camera, 2).unwrap();
    child.add_all(&mut world, &[a, b]);
    parent.add(&mut world, child.as_component());

    let removed = parent.remove(&mut world, child.as_component());
    assert_eq!(removed, vec![child.index]);
    assert_eq!(world.owner_of(child.index), None);

    let mut reached = child.cascade(&world).unwrap();
    reached.sort();
    let mut attached = child.components(&world);
    attached.sort();
    assert_eq!(reached, attached);
}

#[test]
fn cascade_descends_into_nested_entities() {
    let mut world: World<u32> = World::new();
    let root = world.create(id("root"));
    let mid = Entity::new(&mut world, id("mid"));
    let a = light(&mut world, "a", 1);
    let b = light(&mut world, "b", 2);
    let c = light(&mut world, "c", 3);
    root.add(&mut world, a);
    root.add(&mut world, mid.as_component());
    mid.add(&mut world, b);
    root.add(&mut world, c);

    assert_eq!(root.cascade(&world), Ok(vec![a.index, mid.index, b.index, c.index]));
}

#[test]
fn collect_is_depth_first_pre_order_and_repeatable() {
    let mut world: World<u32> = World::new();
    let root = world.create(id("root"));
    let left = Entity::new(&mut world, id("left"));
    let right = Entity::new(&mut world, id("right"));
    let l1 = light(&mut world, "l1", 1);
    let l2 = light(&mut world, "l2", 2);
    let l3 = light(&mut world, "l3", 3);
    let l4 = light(&mut world, "l4", 4);
    root.add(&mut world, left.as_component());
    root.add(&mut world, l1);
    root.add(&mut world, right.as_component());
    left.add(&mut world, l2);
    right.add(&mut world, l3);
    root.add(&mut world, l4);

    let first = collect(&world, root, &id(LIGHT_ID), Kind::Light).unwrap();
    assert_eq!(first, vec![l1.index, l4.index, l2.index, l3.index]);
    let second = collect(&world, root, &id(LIGHT_ID), Kind::Light).unwrap();
    assert_eq!(first, second);
}

#[test]
fn collect_on_empty_entity_is_empty() {
    let mut world: World<u32> = World::new();
    let e = world.create(id("lonely"));
    assert_eq!(collect(&world, e, &id(LIGHT_ID), Kind::Light), Ok(vec![]));
}

#[test]
fn collect_through_a_cycle_is_too_deep() {
    let mut world: World<u32> = World::new();
    let e = world.create(id("loop"));
    e.add(&mut world, e.as_component());
    assert_eq!(collect(&world, e, &id(LIGHT_ID), Kind::Light), Err(EcsError::TooDeep));
    assert_eq!(e.cascade(&world), Err(EcsError::TooDeep));
}

#[test]
fn query_of_another_variant_under_a_tag_fails() {
    let mut world: World<u32> = World::new();
    let e = world.create(id("e"));
    let fake = world.spawn(id("impostor"), id(LIGHT_ID), Kind::Model, 7).unwrap();
    e.add(&mut world, fake);

    let expected = Err(EcsError::TypeMismatch { tid: id(LIGHT_ID), id: id("impostor") });
    assert_eq!(e.check_type(&world, &id(LIGHT_ID), None, Kind::Light), expected);
    assert_eq!(
        e.check_type(&world, &id(LIGHT_ID), Some(&id("impostor")), Kind::Light),
        Err(EcsError::TypeMismatch { tid: id(LIGHT_ID), id: id("impostor") })
    );
    assert_eq!(e.check_type(&world, &id(LIGHT_ID), Some(&id("other")), Kind::Light), Ok(()));
    assert!(matches!(
        collect(&world, e, &id(LIGHT_ID), Kind::Light),
        Err(EcsError::TypeMismatch { .. })
    ));
    assert_eq!(e.check_type(&world, &id(LIGHT_ID), None, Kind::Model), Ok(()));
    assert_eq!(e.get_type(&world, &id(LIGHT_ID), Kind::Model), vec![fake.index]);
}

#[test]
fn spawn_refuses_the_entity_tag_and_variant() {
    let mut world: World<u32> = World::new();
    assert_eq!(world.spawn(id("x"), id("entity"), Kind::Custom, 0), Err(EcsError::ReservedTag));
    assert_eq!(world.spawn(id("x"), id("thing"), Kind::Entity, 0), Err(EcsError::ReservedTag));
    assert_eq!(world.len(), 0);
    let ok = world.spawn(id("x"), id("thing"), Kind::Custom, 5).unwrap();
    assert_eq!(ok.index, 0);
    assert_eq!(world.tid_of(0), &id("thing"));
    assert_eq!(world.kind_of(0), Kind::Custom);
}

#[test]
fn get_first_picks_the_earliest_in_the_bucket() {
    let mut world: World<u32> = World::new();
    let e = world.create(id("e"));
    assert_eq!(e.get_first(&world, &id(LIGHT_ID), Kind::Light), None);
    let a = light(&mut world, "a", 1);
    let b = light(&mut world, "b", 2);
    e.add_all(&mut world, &[a, b]);
    assert_eq!(e.get_first(&world, &id(LIGHT_ID), Kind::Light), Some(a.index));
}

#[test]
fn world_lookup_by_id() {
    let mut world: World<u32> = World::new();
    let a = world.create(id("a"));
    let b = world.create(id("b"));
    let a2 = world.create(id("a"));
    assert_eq!(world.get(&id("a")), vec![a.index, a2.index]);
    assert_eq!(world.get_first(&id("b")), Some(b.index));
    assert_eq!(world.get_first(&id("z")), None);
    world.remove_by_id(&id("a"));
    assert_eq!(world.entities(), vec![b.index]);
}

fn transform(world: &mut World<[f32; 3]>, name: &str, position: [f32; 3]) -> Component {
    world.spawn(id(name), id(TRANSFORM_ID), Kind::Transform, position).unwrap()
}

fn summed(world: &World<[f32; 3]>, chain: &[usize]) -> [f32; 3] {
    let mut acc = [0.0f32; 3];
    for t in chain {
        let p = world.payload(*t).unwrap();
        for k in 0..3 {
            acc[k] += p[k];
        }
    }
    acc
}

#[test]
fn transform_positions_add_up_the_chain() {
    let mut world: World<[f32; 3]> = World::new();
    let root = world.create(id("root"));
    let mid = Entity::new(&mut world, id("mid"));
    let leaf = Entity::new(&mut world, id("leaf"));
    let rt = transform(&mut world, "rt", [1.0, 0.0, 0.0]);
    let mt = transform(&mut world, "mt", [0.0, 2.0, 0.0]);
    let lt = transform(&mut world, "lt", [0.0, 0.0, 3.0]);
    root.add(&mut world, rt);
    mid.add(&mut world, mt);
    leaf.add(&mut world, lt);
    root.add(&mut world, mid.as_component());
    mid.add(&mut world, leaf.as_component());

    let chain = resolve(&world, lt).unwrap();
    assert_eq!(chain, vec![lt.index, mt.index, rt.index]);
    assert_eq!(summed(&world, &chain), [1.0, 2.0, 3.0]);
}

#[test]
fn transform_of_a_top_level_entity_is_its_own() {
    let mut world: World<[f32; 3]> = World::new();
    let root = world.create(id("root"));
    let t = transform(&mut world, "t", [4.0, 5.0, 6.0]);
    root.add(&mut world, t);
    assert_eq!(resolve(&world, t), Ok(vec![t.index]));
    let detached = transform(&mut world, "d", [1.0, 1.0, 1.0]);
    assert_eq!(resolve(&world, detached), Ok(vec![detached.index]));
}

#[test]
fn transform_bucket_of_another_variant_fails() {
    let mut world: World<[f32; 3]> = World::new();
    let root = world.create(id("root"));
    let leaf = Entity::new(&mut world, id("leaf"));
    let lt = transform(&mut world, "lt", [0.0, 0.0, 3.0]);
    let odd = world.spawn(id("odd"), id(TRANSFORM_ID), Kind::Custom, [0.0; 3]).unwrap();
    leaf.add(&mut world, lt);
    root.add(&mut world, odd);
    root.add(&mut world, leaf.as_component());
    assert_eq!(
        resolve(&world, lt),
        Err(EcsError::TypeMismatch { tid: id(TRANSFORM_ID), id: id("odd") })
    );
}

#[test]
fn owner_transform_finds_the_holders_first_transform() {
    let mut world: World<[f32; 3]> = World::new();
    let e = world.create(id("e"));
    let model = world.spawn(id("m"), id("model"), Kind::Model, [0.0; 3]).unwrap();
    assert_eq!(wecs::owner_transform(&world, model), Ok(None));
    e.add(&mut world, model);
    assert_eq!(wecs::owner_transform(&world, model), Ok(None));
    let t1 = transform(&mut world, "t1", [1.0, 0.0, 0.0]);
    let t2 = transform(&mut world, "t2", [2.0, 0.0, 0.0]);
    e.add_all(&mut world, &[t1, t2]);
    assert_eq!(wecs::owner_transform(&world, model), Ok(Some(t1.index)));
}

#[test]
fn shaders_keep_their_words() {
    let s = wecs::Shaders::new(vec![1, 2, 3], vec![4]);
    assert_eq!(s.vertex, vec![1, 2, 3]);
    assert_eq!(s.fragment, vec![4]);
}

#[test]
fn set_payload_changes_component_data_only() {
    let mut world: World<u32> = World::new();
    let e = world.create(id("e"));
    let c = light(&mut world, "lamp", 1);
    assert!(world.set_payload(c.index, 9));
    assert_eq!(world.payload(c.index), Some(&9));
    assert!(!world.set_payload(e.index, 9));
    assert_eq!(world.payload(e.index), None);
}

#[test]
fn teardown_order_is_known_before_removal() {
    let mut world: World<u32> = World::new();
    let parent = world.create(id("parent"));
    let child = Entity::new(&mut world, id("child"));
    let a = light(&mut world, "a", 1);
    let b = light(&mut world, "b", 2);
    child.add_all(&mut world, &[a, b]);
    parent.add(&mut world, child.as_component());

    let order = parent.teardown(&world, &id("entity"), &id("child")).unwrap();
    assert_eq!(order, vec![child.index, a.index, b.index]);
    assert_eq!(world.owner_of(child.index), Some(parent.index));

    parent.remove(&mut world, child.as_component());
    assert_eq!(world.owner_of(child.index), None);
    assert_eq!(parent.teardown(&world, &id("entity"), &id("child")), Ok(vec![]));
}

#[test]
fn entity_bucket_holds_the_nested_entities() {
    let mut world: World<u32> = World::new();
    let root = world.create(id("root"));
    let kid = Entity::new(&mut world, id("kid"));
    let l = light(&mut world, "l", 1);
    root.add_all(&mut world, &[l, kid.as_component()]);
    assert_eq!(root.check_type(&world, &id("entity"), None, Kind::Entity), Ok(()));
    assert_eq!(root.get_type(&world, &id("entity"), Kind::Entity), vec![kid.index]);
}
