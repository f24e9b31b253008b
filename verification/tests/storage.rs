use ecs_storage::column::Column;
use ecs_storage::errors::EcsError;
use ecs_storage::table::Table;
use ecs_storage::world::World;
use ecs_storage::world::WorldIdCounter;

#[test]
fn column_create_rejects_bad_layouts() {
    assert!(matches!(Column::create(0, 1), Err(EcsError::TypeLayoutMismatch)));
    assert!(matches!(Column::create(4, 0), Err(EcsError::TypeLayoutMismatch)));
    assert!(matches!(Column::create(4, 3), Err(EcsError::TypeLayoutMismatch)));
    assert!(Column::create(4, 4).is_ok());
    assert!(Column::create(1, 1).is_ok());
}

#[test]
fn column_push_get_set() {
    let mut c = Column::create(2, 1).unwrap();
    assert_eq!(c.push(&vec![1, 2]), 0);
    assert_eq!(c.push(&vec![3, 4]), 1);
    assert_eq!(c.row_count(), 2);
    assert_eq!(c.get(0).unwrap(), vec![1, 2]);
    assert_eq!(c.get(1).unwrap(), vec![3, 4]);
    assert_eq!(c.get(2), Err(EcsError::IndexOutOfRange));
    c.set(0, &vec![9, 9]).unwrap();
    assert_eq!(c.get(0).unwrap(), vec![9, 9]);
    assert_eq!(c.set(5, &vec![0, 0]), Err(EcsError::IndexOutOfRange));
}

#[test]
fn column_swap_remove_moves_last_into_place() {
    let mut c = Column::create(1, 1).unwrap();
    c.push(&vec![10]);
    c.push(&vec![20]);
    c.push(&vec![30]);
    let moved = c.swap_remove(0);
    assert_eq!(moved, 2);
    assert_eq!(c.row_count(), 2);
    assert_eq!(c.get(0).unwrap(), vec![30]);
    assert_eq!(c.get(1).unwrap(), vec![20]);
}

#[test]
fn table_insert_and_remove_rows() {
    let mut t = Table::create(vec![1, 2], &vec![1, 2], &vec![1, 2]);
    assert_eq!(t.row_count(), 0);
    t.insert_row(7, &vec![(1, vec![5]), (2, vec![6, 7])]).unwrap();
    assert_eq!(t.row_count(), 1);
    assert_eq!(t.get_component(7, 1).unwrap(), vec![5]);
    assert_eq!(t.get_component(7, 2).unwrap(), vec![6, 7]);
    assert_eq!(
        t.insert_row(7, &vec![(1, vec![5]), (2, vec![6, 7])]),
        Err(EcsError::DuplicateEntity)
    );
    assert_eq!(
        t.insert_row(8, &vec![(1, vec![5])]),
        Err(EcsError::SignatureMismatch)
    );
    assert_eq!(
        t.insert_row(8, &vec![(1, vec![5]), (3, vec![6, 7])]),
        Err(EcsError::SignatureMismatch)
    );
    assert_eq!(
        t.insert_row(8, &vec![(1, vec![5]), (2, vec![6])]),
        Err(EcsError::TypeLayoutMismatch)
    );
    let vals = t.remove_row(7).unwrap();
    assert_eq!(vals.len(), 2);
    assert_eq!(vals[0].0, 1);
    assert_eq!(vals[0].1, vec![5]);
    assert_eq!(vals[1].0, 2);
    assert_eq!(vals[1].1, vec![6, 7]);
    assert_eq!(t.row_count(), 0);
    assert_eq!(t.remove_row(7), Err(EcsError::EntityNotFound));
    assert_eq!(t.get_component(7, 1), Err(EcsError::EntityNotFound));
}

#[test]
fn world_ids_are_unique_and_increasing() {
    let mut counter = WorldIdCounter::new();
    let w1 = World::new(&mut counter);
    let w2 = World::new(&mut counter);
    assert_eq!(w1.id, 1);
    assert_eq!(w2.id, 2);
    assert!(w1.entities.is_empty());
    assert!(w1.components.is_empty());
    assert_eq!(w1.database.tables.len(), 0);
}
