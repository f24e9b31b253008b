use ecs_storage::component::ComponentId;
use ecs_storage::database::Database;
use ecs_storage::entity::EntityId;
use ecs_storage::errors::EcsError;

const POSITION: ComponentId = ComponentId(1);
const VELOCITY: ComponentId = ComponentId(2);
const HEALTH: ComponentId = ComponentId(3);

fn world_db() -> Database {
    let mut db = Database::new();
    db.register_component(POSITION, 2, 2).unwrap();
    db.register_component(VELOCITY, 2, 2).unwrap();
    db.register_component(HEALTH, 1, 1).unwrap();
    db
}

#[test]
fn spawn_roundtrip() {
    let mut db = world_db();
    let e = EntityId(10);
    db.spawn_entity(e, &vec![(POSITION, vec![1, 2]), (HEALTH, vec![7])]).unwrap();
    assert_eq!(db.get_component(e, POSITION).unwrap(), vec![1, 2]);
    assert_eq!(db.get_component(e, HEALTH).unwrap(), vec![7]);
}

#[test]
fn migration_preserves_unrelated_data() {
    let mut db = world_db();
    let e = EntityId(5);
    db.spawn_entity(e, &vec![(POSITION, vec![4, 5]), (VELOCITY, vec![6, 7])]).unwrap();
    db.add_component(e, HEALTH, &vec![9]).unwrap();
    assert_eq!(db.get_component(e, POSITION).unwrap(), vec![4, 5]);
    assert_eq!(db.get_component(e, VELOCITY).unwrap(), vec![6, 7]);
    assert_eq!(db.get_component(e, HEALTH).unwrap(), vec![9]);
    assert_eq!(db.entity_signature(e).unwrap(), vec![1, 2, 3]);
}

#[test]
fn add_then_remove_restores_signature() {
    let mut db = world_db();
    let e = EntityId(5);
    db.spawn_entity(e, &vec![(POSITION, vec![4, 5]), (VELOCITY, vec![6, 7])]).unwrap();
    let before = db.entity_signature(e).unwrap();
    db.add_component(e, HEALTH, &vec![9]).unwrap();
    db.remove_component(e, HEALTH).unwrap();
    assert_eq!(db.entity_signature(e).unwrap(), before);
    assert_eq!(db.get_component(e, POSITION).unwrap(), vec![4, 5]);
    assert_eq!(db.get_component(e, VELOCITY).unwrap(), vec![6, 7]);
}

#[test]
fn swap_remove_keeps_remaining_rows_intact() {
    let mut db = world_db();
    let (e1, e2, e3) = (EntityId(1), EntityId(2), EntityId(3));
    db.spawn_entity(e1, &vec![(HEALTH, vec![11])]).unwrap();
    db.spawn_entity(e2, &vec![(HEALTH, vec![22])]).unwrap();
    db.spawn_entity(e3, &vec![(HEALTH, vec![33])]).unwrap();
    db.despawn_entity(e1).unwrap();
    // The last row moved into the vacated slot: row order is now [e3, e2].
    assert_eq!(db.query(&vec![HEALTH]), vec![e3, e2]);
    assert_eq!(db.get_component(e3, HEALTH).unwrap(), vec![33]);
    assert_eq!(db.get_component(e2, HEALTH).unwrap(), vec![22]);
    assert_eq!(db.get_component(e1, HEALTH), Err(EcsError::EntityNotFound));
}

#[test]
fn no_dual_residency_over_a_mixed_history() {
    let mut db = world_db();
    let (a, b) = (EntityId(40), EntityId(41));
    db.spawn_entity(a, &vec![(POSITION, vec![1, 1])]).unwrap();
    db.spawn_entity(b, &vec![(POSITION, vec![2, 2])]).unwrap();
    db.add_component(a, HEALTH, &vec![5]).unwrap();
    db.remove_component(a, HEALTH).unwrap();
    db.despawn_entity(b).unwrap();
    // `a` answers from exactly one table; a query sees it exactly once.
    let hits = db.query(&vec![POSITION]);
    assert_eq!(hits.iter().filter(|e| **e == a).count(), 1);
    assert_eq!(hits.iter().filter(|e| **e == b).count(), 0);
    assert_eq!(db.get_component(a, POSITION).unwrap(), vec![1, 1]);
    assert_eq!(db.get_component(b, POSITION), Err(EcsError::EntityNotFound));
}

#[test]
fn signature_canonicalization() {
    let mut db = world_db();
    let t1 = db.get_or_create_table(&vec![POSITION, VELOCITY]).unwrap();
    let t2 = db.get_or_create_table(&vec![VELOCITY, POSITION]).unwrap();
    assert_eq!(t1, t2);
    let t3 = db.get_or_create_table(&vec![VELOCITY, POSITION, POSITION]).unwrap();
    assert_eq!(t1, t3);
    let t4 = db.get_or_create_table(&vec![VELOCITY]).unwrap();
    assert_ne!(t1, t4);
}

#[test]
fn concrete_scenario() {
    let mut db = world_db();
    let e = EntityId(76);
    db.spawn_entity(e, &vec![(POSITION, vec![1, 2]), (VELOCITY, vec![0, 1])]).unwrap();
    db.add_component(e, HEALTH, &vec![100]).unwrap();
    assert_eq!(db.entity_signature(e).unwrap(), vec![1, 2, 3]);
    assert_eq!(db.get_component(e, POSITION).unwrap(), vec![1, 2]);
    db.remove_component(e, VELOCITY).unwrap();
    assert_eq!(db.entity_signature(e).unwrap(), vec![1, 3]);
    assert_eq!(db.get_component(e, HEALTH).unwrap(), vec![100]);
    assert_eq!(db.get_component(e, VELOCITY), Err(EcsError::ComponentNotFound));
}

#[test]
fn spawn_errors() {
    let mut db = world_db();
    let e = EntityId(8);
    db.spawn_entity(e, &vec![(POSITION, vec![0, 0])]).unwrap();
    assert_eq!(
        db.spawn_entity(e, &vec![(HEALTH, vec![1])]),
        Err(EcsError::DuplicateEntity)
    );
    assert_eq!(
        db.spawn_entity(EntityId(9), &vec![(HEALTH, vec![1]), (HEALTH, vec![2])]),
        Err(EcsError::SignatureMismatch)
    );
    assert_eq!(
        db.spawn_entity(EntityId(9), &vec![(ComponentId(99), vec![1])]),
        Err(EcsError::TypeLayoutMismatch)
    );
    assert_eq!(
        db.spawn_entity(EntityId(9), &vec![(HEALTH, vec![1, 2])]),
        Err(EcsError::TypeLayoutMismatch)
    );
}

#[test]
fn add_and_remove_errors() {
    let mut db = world_db();
    let e = EntityId(8);
    db.spawn_entity(e, &vec![(POSITION, vec![0, 0])]).unwrap();
    assert_eq!(
        db.add_component(EntityId(99), HEALTH, &vec![1]),
        Err(EcsError::EntityNotFound)
    );
    assert_eq!(
        db.add_component(e, POSITION, &vec![1, 1]),
        Err(EcsError::DuplicateComponent)
    );
    assert_eq!(
        db.add_component(e, HEALTH, &vec![1, 2]),
        Err(EcsError::TypeLayoutMismatch)
    );
    assert_eq!(
        db.add_component(e, ComponentId(99), &vec![1]),
        Err(EcsError::TypeLayoutMismatch)
    );
    assert_eq!(db.remove_component(e, HEALTH), Err(EcsError::ComponentNotFound));
    assert_eq!(
        db.remove_component(EntityId(99), POSITION),
        Err(EcsError::EntityNotFound)
    );
    assert_eq!(db.despawn_entity(EntityId(99)), Err(EcsError::EntityNotFound));
}

#[test]
fn register_component_errors() {
    let mut db = world_db();
    assert_eq!(
        db.register_component(POSITION, 2, 2),
        Err(EcsError::DuplicateComponent)
    );
    assert_eq!(
        db.register_component(ComponentId(7), 0, 1),
        Err(EcsError::TypeLayoutMismatch)
    );
    assert_eq!(
        db.register_component(ComponentId(7), 4, 3),
        Err(EcsError::TypeLayoutMismatch)
    );
    db.register_component(ComponentId(7), 4, 4).unwrap();
}

#[test]
fn set_component_overwrites_in_place() {
    let mut db = world_db();
    let e = EntityId(12);
    db.spawn_entity(e, &vec![(POSITION, vec![1, 2]), (HEALTH, vec![3])]).unwrap();
    db.set_component(e, POSITION, &vec![8, 9]).unwrap();
    assert_eq!(db.get_component(e, POSITION).unwrap(), vec![8, 9]);
    assert_eq!(db.get_component(e, HEALTH).unwrap(), vec![3]);
    assert_eq!(
        db.set_component(e, POSITION, &vec![8]),
        Err(EcsError::TypeLayoutMismatch)
    );
    assert_eq!(
        db.set_component(e, VELOCITY, &vec![1, 1]),
        Err(EcsError::ComponentNotFound)
    );
    assert_eq!(
        db.set_component(EntityId(99), POSITION, &vec![1, 1]),
        Err(EcsError::EntityNotFound)
    );
}

#[test]
fn query_filters_by_signature_superset() {
    let mut db = world_db();
    let (a, b, c) = (EntityId(1), EntityId(2), EntityId(3));
    db.spawn_entity(a, &vec![(POSITION, vec![1, 1])]).unwrap();
    db.spawn_entity(b, &vec![(POSITION, vec![2, 2]), (HEALTH, vec![5])]).unwrap();
    db.spawn_entity(c, &vec![(HEALTH, vec![6])]).unwrap();
    assert_eq!(db.query(&vec![POSITION]), vec![a, b]);
    assert_eq!(db.query(&vec![HEALTH]), vec![b, c]);
    assert_eq!(db.query(&vec![POSITION, HEALTH]), vec![b]);
    assert_eq!(db.query(&vec![VELOCITY]), vec![]);
    // The empty requirement matches every live entity.
    assert_eq!(db.query(&vec![]), vec![a, b, c]);
}

#[test]
fn empty_signature_entity() {
    let mut db = world_db();
    let e = EntityId(50);
    db.spawn_entity(e, &vec![]).unwrap();
    assert_eq!(db.entity_signature(e).unwrap(), vec![]);
    assert_eq!(db.query(&vec![]), vec![e]);
    db.add_component(e, HEALTH, &vec![1]).unwrap();
    assert_eq!(db.entity_signature(e).unwrap(), vec![3]);
    assert_eq!(db.get_component(e, HEALTH).unwrap(), vec![1]);
}
