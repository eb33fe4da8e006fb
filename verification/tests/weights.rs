use simulated_annealing::matrix::tri_index;
use simulated_annealing::weights::{connection_slots, instance_city_ids, sub_connection_indices};

#[test]
fn instance_city_ids_follow_the_instance() {
    assert_eq!(instance_city_ids(&[10, 20, 30], &[2, 0, 2]), vec![30, 10, 30]);
}

#[test]
fn sub_connections_keep_those_inside_the_instance() {
    let ids = [1, 2, 3];
    let connections = [(1, 2), (2, 9), (3, 1), (4, 5), (2, 2)];
    assert_eq!(sub_connection_indices(&ids, &connections), vec![0, 2, 4]);
    assert!(sub_connection_indices(&[], &connections).is_empty());
}

#[test]
fn connection_slots_price_each_pair_by_its_last_connection() {
    let ids = [1, 2, 3, 4];
    let connections = [(1, 2), (3, 2), (2, 1), (4, 1), (7, 8)];
    let slots = connection_slots(&ids, &connections);
    assert_eq!(slots.len(), 6);
    assert_eq!(slots[tri_index(4, 0, 1)], Some(2));
    assert_eq!(slots[tri_index(4, 1, 2)], Some(1));
    assert_eq!(slots[tri_index(4, 0, 3)], Some(3));
    assert_eq!(slots[tri_index(4, 0, 2)], None);
    assert_eq!(slots[tri_index(4, 1, 3)], None);
    assert_eq!(slots[tri_index(4, 2, 3)], None);
}

#[test]
fn connection_slots_for_tiny_instances() {
    assert!(connection_slots(&[], &[(1, 2)]).is_empty());
    assert!(connection_slots(&[5], &[(5, 5)]).is_empty());
    assert_eq!(connection_slots(&[-3, i32::MAX], &[(i32::MAX, -3)]), vec![Some(0)]);
}
