use new_ecs::{ComponentId, EntityRecord, QueryError, World};

#[derive(Debug, PartialEq)]
enum Comp {
    Health(u32),
    Name(String),
}

const HEALTH: ComponentId = 1;
const NAME: ComponentId = 2;

fn health_of(c: &Comp) -> u32 {
    match c {
        Comp::Health(h) => *h,
        other => panic!("not a health: {:?}", other),
    }
}

fn name_of(c: &Comp) -> &str {
    match c {
        Comp::Name(n) => n.as_str(),
        other => panic!("not a name: {:?}", other),
    }
}

fn set_name(c: &mut Comp, name: &str) {
    match c {
        Comp::Name(n) => *n = name.to_owned(),
        other => panic!("not a name: {:?}", other),
    }
}

#[test]
fn spawn_entity_with_single_component() {
    let mut world: World<Comp> = World::default();

    let entity_record = world.spawn().with_component(HEALTH, Comp::Health(150)).spawn(&mut world);

    assert_eq!(world.num_entities(), 1);

    assert_eq!(world.entity_record(entity_record.id).unwrap(), entity_record);
    assert_eq!(world.num_archetypes(), 1);
    assert_eq!(entity_record.archetype_id, 0);
    assert_eq!(entity_record.row, 0);

    assert_eq!(world.archetypes_with(HEALTH), 1);

    let column_id = world.column_of(HEALTH, entity_record.archetype_id).unwrap();
    assert_eq!(column_id, 0);

    let health = world
        .get_archetype(entity_record.archetype_id)
        .unwrap()
        .get_column(column_id)
        .unwrap()
        .components()
        .get(entity_record.row);

    assert_eq!(health_of(health.unwrap()), 150);
}

#[test]
fn spawn_entity_with_multiple_components() {
    let mut world: World<Comp> = World::default();

    let entity_record = world
        .spawn()
        .with_component(HEALTH, Comp::Health(40))
        .with_component(NAME, Comp::Name(String::from("Carles")))
        .spawn(&mut world);

    assert_eq!(world.num_archetypes(), 1);
    assert_eq!(entity_record.archetype_id, 0);
    assert_eq!(entity_record.row, 0);

    let components_set = vec![HEALTH, NAME];
    let archetype_id = world.archetype_of_set(&components_set).unwrap();

    assert_eq!(archetype_id, 0);

    let archetype = world.get_archetype(archetype_id).unwrap();

    assert_eq!(archetype.column_count(), 2);

    let healths = archetype.get_column(0).unwrap().components();
    let names = archetype.get_column(archetype.column_count() - 1).unwrap().components();

    assert_eq!(healths.len(), 1);
    assert_eq!(healths.len(), names.len());

    let health = healths.first().unwrap();
    let name = names.first().unwrap();

    assert_eq!(health_of(health), 40);
    assert_eq!(name_of(name), "Carles");

    let health = world.get_component(entity_record.id, HEALTH).unwrap();
    assert_eq!(health_of(health), 40);
    let name = world.get_component(entity_record.id, NAME).unwrap();
    assert_eq!(name_of(name), "Carles");

    let name = world.get_component_mut(entity_record.id, NAME).unwrap();
    set_name(name, "Queco");

    let name = world.get_component(entity_record.id, NAME).unwrap();
    assert_eq!(name_of(name), "Queco");
}

#[test]
fn spawn_two_entities_with_the_same_component() {
    let mut world: World<Comp> = World::default();

    let carles = Comp::Name(String::from("Carles"));
    let carles = world.spawn().with_component(NAME, carles).spawn(&mut world);

    let queco = Comp::Name(String::from("Queco"));
    let queco = world.spawn().with_component(NAME, queco).spawn(&mut world);

    assert_eq!(carles.id, 0);
    assert_eq!(carles.row, 0);

    assert_eq!(queco.id, 1);
    assert_eq!(queco.row, 1);

    assert_eq!(world.num_archetypes(), 1);
    assert_eq!(world.num_entities(), 2);
    assert_eq!(world.num_component_types(), 1);

    let carles = world.get_component(carles.id, NAME).unwrap();
    assert_eq!(name_of(carles), "Carles");
    let queco = world.get_component(queco.id, NAME).unwrap();
    assert_eq!(name_of(queco), "Queco");
}

fn two_named_world() -> World<Comp> {
    let mut world: World<Comp> = World::default();

    let carles = Comp::Name(String::from("Carles"));
    world.spawn().with_component(NAME, carles).spawn(&mut world);

    let queco = Comp::Name(String::from("Queco"));
    world
        .spawn()
        .with_component(NAME, queco)
        .with_component(HEALTH, Comp::Health(123))
        .spawn(&mut world);
    world
}

#[test]
fn query() {
    let world = two_named_world();

    let mut query_iter = world.query().with_component(NAME).iter(&world).unwrap();

    let x = query_iter.next(&world).unwrap();
    let name = x.get(&world, NAME).unwrap();
    assert_eq!(name_of(name), "Carles");

    let x = query_iter.next(&world).unwrap();
    let name = x.get(&world, NAME).unwrap();
    assert_eq!(name_of(name), "Queco");

    let health = x.get(&world, HEALTH);
    assert!(health.is_none());
}

#[test]
fn complex_queries() {
    let world = two_named_world();

    assert_eq!(world.num_component_types(), 2);
    assert_eq!(world.num_archetypes(), 2);
    assert_eq!(world.num_entities(), 2);

    let mut query = world
        .query()
        .with_component(NAME)
        .with_component(HEALTH)
        .iter(&world)
        .unwrap();

    assert_eq!(health_of(query.next(&world).unwrap().get(&world, HEALTH).unwrap()), 123);
    assert!(query.next(&world).is_none());

    let mut query = world.query().with_component(NAME).iter(&world).unwrap();
    assert_eq!(name_of(query.next(&world).unwrap().get(&world, NAME).unwrap()), "Carles");
    assert_eq!(name_of(query.next(&world).unwrap().get(&world, NAME).unwrap()), "Queco");
    assert!(query.next(&world).is_none());
}

#[test]
fn multiple_queries() {
    let mut world = two_named_world();

    let query1 = world.query().with_component(HEALTH);
    let query2 = world.query().with_component(NAME);

    let result1 = query1.iter(&world).unwrap().next(&world).unwrap();
    let result2 = query2.iter(&world).unwrap().next(&world).unwrap();

    let health = result1.get(&world, HEALTH).unwrap();
    assert_eq!(health_of(health), 123);

    let name = result2.get_mut(&mut world, NAME).unwrap();
    assert_eq!(name_of(name), "Carles");

    set_name(name, "Google");

    let mut query = world.query().with_component(NAME).iter(&world).unwrap();
    let result = query.next(&world).unwrap();
    let name = result.get(&world, NAME).unwrap();
    assert_eq!(name_of(name), "Google");
}

const A: ComponentId = 10;
const B: ComponentId = 20;

#[test]
fn query_yields_exactly_the_matching_entities() {
    let mut world: World<u32> = World::new();
    let only_a = world.spawn().with_component(A, 1).spawn(&mut world);
    let both = world.spawn().with_component(A, 2).with_component(B, 3).spawn(&mut world);
    let only_b = world.spawn().with_component(B, 4).spawn(&mut world);
    assert_eq!((only_a.id, both.id, only_b.id), (0, 1, 2));

    let mut q = world.query().with_component(A).with_component(B).iter(&world).unwrap();
    let r = q.next(&world).unwrap();
    assert_eq!(r.entity(), both.id);
    assert_eq!(*r.get(&world, A).unwrap(), 2);
    assert_eq!(*r.get(&world, B).unwrap(), 3);
    assert!(q.next(&world).is_none());

    let mut q = world.query().with_component(A).iter(&world).unwrap();
    let r = q.next(&world).unwrap();
    assert_eq!(r.entity(), only_a.id);
    assert_eq!(r.get(&world, A), world.get_component(r.entity(), A));
    assert_eq!(*r.get(&world, A).unwrap(), 1);
    let r = q.next(&world).unwrap();
    assert_eq!(r.entity(), both.id);
    assert_eq!(*r.get(&world, A).unwrap(), 2);
    assert!(r.get(&world, B).is_none());
    assert!(q.next(&world).is_none());
    assert!(q.next(&world).is_none());
}

#[test]
fn query_for_an_unregistered_type_fails() {
    let mut world: World<u32> = World::new();
    world.spawn().with_component(A, 1).spawn(&mut world);

    let r = world.query().with_component(A).with_component(B).iter(&world);
    assert_eq!(r.err(), Some(QueryError::UnregisteredComponent(B)));

    let empty: World<u32> = World::new();
    let r = empty.query().with_component(A).iter(&empty);
    assert_eq!(r.err(), Some(QueryError::UnregisteredComponent(A)));
}

#[test]
fn query_that_requires_nothing_yields_nothing() {
    let mut world: World<u32> = World::new();
    world.spawn().with_component(A, 1).spawn(&mut world);
    let mut q = world.query().iter(&world).unwrap();
    assert!(q.next(&world).is_none());
}

#[test]
fn health_and_name_scenario() {
    let mut world: World<Comp> = World::new();

    let e0 = world.spawn().with_component(HEALTH, Comp::Health(150)).spawn(&mut world);
    assert_eq!(world.num_archetypes(), 1);
    assert_eq!(world.get_archetype(0).unwrap().column_count(), 1);

    let e1 = world
        .spawn()
        .with_component(HEALTH, Comp::Health(40))
        .with_component(NAME, Comp::Name(String::from("Carles")))
        .spawn(&mut world);
    assert_eq!(world.num_archetypes(), 2);
    assert_ne!(e0.archetype_id, e1.archetype_id);
    assert_eq!(world.get_archetype(e1.archetype_id).unwrap().column_count(), 2);

    assert_eq!(health_of(world.get_component(e0.id, HEALTH).unwrap()), 150);

    let mut q = world.query().with_component(NAME).iter(&world).unwrap();
    let r = q.next(&world).unwrap();
    assert_eq!(r.entity(), e1.id);
    assert_eq!(name_of(r.get(&world, NAME).unwrap()), "Carles");
    assert!(q.next(&world).is_none());

    set_name(r.get_mut(&mut world, NAME).unwrap(), "Queco");

    let mut q = world.query().with_component(NAME).iter(&world).unwrap();
    let r = q.next(&world).unwrap();
    assert_eq!(name_of(r.get(&world, NAME).unwrap()), "Queco");
    assert!(q.next(&world).is_none());
}

#[test]
fn same_set_in_any_order_shares_an_archetype() {
    let mut world: World<u32> = World::new();
    let ab = world.spawn().with_component(A, 1).with_component(B, 2).spawn(&mut world);
    let ba = world.spawn().with_component(B, 3).with_component(A, 4).spawn(&mut world);
    let a = world.spawn().with_component(A, 5).spawn(&mut world);

    assert_eq!(ab.archetype_id, ba.archetype_id);
    assert_eq!(ba, EntityRecord { id: 1, archetype_id: ab.archetype_id, row: 1 });
    assert_ne!(a.archetype_id, ab.archetype_id);
    assert_eq!(world.num_archetypes(), 2);

    // Lookup goes by component type, not by column position.
    assert_eq!(*world.get_component(ba.id, A).unwrap(), 4);
    assert_eq!(*world.get_component(ba.id, B).unwrap(), 3);
    assert_eq!(world.archetype_of_set(&vec![A, B]), Some(ab.archetype_id));
    assert_eq!(world.archetype_of_set(&vec![B]), None);
}

#[test]
fn lookups_of_missing_things_give_nothing() {
    let mut world: World<u32> = World::new();
    let e = world.spawn().with_component(A, 7).spawn(&mut world);

    assert!(world.has_component(e.id, A));
    assert!(!world.has_component(e.id, B));
    assert!(!world.has_component(e.id + 1, A));
    assert!(world.get_component(e.id, B).is_none());
    assert!(world.get_component(e.id + 1, A).is_none());
    assert!(world.get_component_mut(e.id + 1, A).is_none());
    assert!(world.entity_record(e.id + 1).is_none());
    assert!(world.get_archetype(1).is_none());
    assert_eq!(world.archetypes_with(B), 0);

    *world.get_component_mut(e.id, A).unwrap() = 8;
    assert_eq!(*world.get_component(e.id, A).unwrap(), 8);
}

#[test]
fn entity_without_components() {
    let mut world: World<u32> = World::new();
    let e0 = world.spawn().spawn(&mut world);
    let e1 = world.spawn().spawn(&mut world);
    assert_eq!(e0, EntityRecord { id: 0, archetype_id: 0, row: 0 });
    assert_eq!(e1, EntityRecord { id: 1, archetype_id: 0, row: 1 });
    assert_eq!(world.num_component_types(), 0);
}
