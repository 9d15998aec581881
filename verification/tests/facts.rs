use bowl::component::Component;
use bowl::entity::Entity;
use bowl::facts::{component_of, Fact, COUNT, TEXT};
use bowl::world::World;

#[test]
fn equal_text_keeps_its_revision() {
    let mut world: World<Fact> = World::new();
    let entity: Entity = world.spawn_empty();
    assert!(world.insert_base(entity, Fact::Text { slot: 0, text: b"a".to_vec() }).is_ok());
    let first = world.revision_raw();
    assert!(world.insert_base(entity, Fact::Text { slot: 0, text: b"a".to_vec() }).is_ok());
    assert_eq!(world.revision_raw(), first);
    assert!(Fact::is_tracked(component_of(COUNT, 3)));
    assert_eq!(component_of(TEXT, 2), 17);
}
