use new_ecs::Resources;

struct WorldWidth(u32);

const WORLD_WIDTH: u64 = 0;
const WORLD_HEIGHT: u64 = 1;

#[test]
fn test_add_resource() {
    let mut resources = Resources::default();

    let resource = WorldWidth(150);

    resources.add(WORLD_WIDTH, resource);

    let extracted = resources.get_ref(WORLD_WIDTH).unwrap();

    assert_eq!(extracted.0, 150);
}

#[test]
fn test_get_resource() {
    let mut resources = Resources::default();

    let resource = WorldWidth(150);

    resources.add(WORLD_WIDTH, resource);

    let extracted = resources.get_ref(WORLD_WIDTH).unwrap();

    assert_eq!(extracted.0, 150);
}

#[test]
fn test_get_resource_mut() {
    let mut resources = Resources::default();

    let resource = WorldWidth(150);

    resources.add(WORLD_WIDTH, resource);

    let extracted = resources.get_mut(WORLD_WIDTH).unwrap();

    extracted.0 = 300;

    let extracted = resources.get_ref(WORLD_WIDTH).unwrap();

    assert_eq!(extracted.0, 300);
}

#[test]
fn test_delete_resource() {
    let mut resources = Resources::default();

    let resource = WorldWidth(150);
    resources.add(WORLD_WIDTH, resource);

    let extracted = resources.get_ref(WORLD_WIDTH);
    assert!(extracted.is_some());

    resources.delete(WORLD_WIDTH);
    let extracted = resources.get_ref(WORLD_WIDTH);
    assert!(extracted.is_none());
}

#[test]
fn adding_again_replaces_and_types_stay_apart() {
    let mut resources = Resources::new();
    resources.add(WORLD_WIDTH, WorldWidth(1));
    resources.add(WORLD_HEIGHT, WorldWidth(2));
    resources.add(WORLD_WIDTH, WorldWidth(3));
    assert_eq!(resources.get_ref(WORLD_WIDTH).unwrap().0, 3);
    assert_eq!(resources.get_ref(WORLD_HEIGHT).unwrap().0, 2);
    assert!(resources.get_mut(7).is_none());
    resources.delete(7);
    assert_eq!(resources.get_ref(WORLD_HEIGHT).unwrap().0, 2);
}
