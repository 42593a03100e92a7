use freertos::config::portMAX_DELAY;
use freertos::list::{
    current_list_length, get_list_item_container, get_list_item_owner, get_list_item_value,
    get_owner_of_head_entry, get_owner_of_next_entry, is_contained_within, list_insert, list_insert_end,
    list_is_empty, list_remove, set_list_item_owner, set_list_item_value, uxListRemove, vListInitialise,
    vListInitialiseItem, vListInsert, vListInsertEnd, ListItem, ListStore,
};

fn item(store: &mut ListStore, value: u32, owner: usize) -> usize {
    store.add_item(ListItem::new().item_value(value).owner(owner))
}

fn owners_in_turn(store: &mut ListStore, list: usize, n: usize) -> Vec<usize> {
    (0..n).map(|_| get_owner_of_next_entry(store, list)).collect()
}

#[test]
fn new_item_has_max_delay_value() {
    let it = ListItem::new();
    assert_eq!(it.get_value(), portMAX_DELAY);
    assert_eq!(ListItem::default().get_value(), portMAX_DELAY);
    assert_eq!(ListItem::new().item_value(7).get_value(), 7);
}

#[test]
fn new_list_is_empty() {
    let mut store = ListStore::new();
    let l = store.new_list();
    assert!(list_is_empty(&store, l));
    assert_eq!(current_list_length(&store, l), 0);
    assert_eq!(store.list_count(), 1);
    assert_eq!(store.item_count(), 1);
}

#[test]
fn sorted_insert_orders_by_value() {
    let mut store = ListStore::new();
    let l = store.new_list();
    let a = item(&mut store, 30, 1);
    let b = item(&mut store, 10, 2);
    let c = item(&mut store, 20, 3);
    let d = item(&mut store, 20, 4);
    list_insert(&mut store, l, a);
    list_insert(&mut store, l, b);
    list_insert(&mut store, l, c);
    list_insert(&mut store, l, d);
    assert_eq!(current_list_length(&store, l), 4);
    assert_eq!(get_owner_of_head_entry(&store, l), 2);
    // equal values keep their insertion order: 10, 20 (owner 3), 20 (owner 4), 30
    assert_eq!(owners_in_turn(&mut store, l, 4), vec![2, 3, 4, 1]);
}

#[test]
fn max_delay_item_sorts_last() {
    let mut store = ListStore::new();
    let l = store.new_list();
    let a = item(&mut store, 5, 1);
    let z = store.add_item(ListItem::new().owner(9));
    let b = item(&mut store, portMAX_DELAY - 1, 2);
    list_insert(&mut store, l, z);
    list_insert(&mut store, l, a);
    list_insert(&mut store, l, b);
    assert_eq!(owners_in_turn(&mut store, l, 3), vec![1, 2, 9]);
}

#[test]
fn insert_end_goes_before_cursor() {
    let mut store = ListStore::new();
    let l = store.new_list();
    let a = item(&mut store, 0, 1);
    let b = item(&mut store, 0, 2);
    let c = item(&mut store, 0, 3);
    list_insert_end(&mut store, l, a);
    list_insert_end(&mut store, l, b);
    // cursor moves onto owner 1; the next insertion lands just before it
    assert_eq!(get_owner_of_next_entry(&mut store, l), 1);
    list_insert_end(&mut store, l, c);
    assert_eq!(get_owner_of_head_entry(&store, l), 3);
    assert_eq!(owners_in_turn(&mut store, l, 3), vec![2, 3, 1]);
}

#[test]
fn round_robin_visits_each_once() {
    let mut store = ListStore::new();
    let l = store.new_list();
    for o in 0..3usize {
        let x = item(&mut store, 0, o);
        list_insert_end(&mut store, l, x);
    }
    assert_eq!(owners_in_turn(&mut store, l, 6), vec![0, 1, 2, 0, 1, 2]);
}

#[test]
fn remove_returns_remaining_and_undoes_insert() {
    let mut store = ListStore::new();
    let l = store.new_list();
    let a = item(&mut store, 1, 1);
    let b = item(&mut store, 2, 2);
    list_insert(&mut store, l, a);
    list_insert(&mut store, l, b);
    assert!(is_contained_within(&store, l, b));
    assert_eq!(get_list_item_container(&store, b), Some(l));
    assert_eq!(list_remove(&mut store, b), 1);
    assert!(!is_contained_within(&store, l, b));
    assert_eq!(get_list_item_container(&store, b), None);
    assert_eq!(current_list_length(&store, l), 1);
    assert_eq!(get_owner_of_head_entry(&store, l), 1);
    assert_eq!(list_remove(&mut store, a), 0);
    assert!(list_is_empty(&store, l));
}

#[test]
fn values_and_owners_can_change() {
    let mut store = ListStore::new();
    let _l = store.new_list();
    let a = item(&mut store, 1, 1);
    set_list_item_value(&mut store, a, 99);
    assert_eq!(get_list_item_value(&store, a), 99);
    set_list_item_owner(&mut store, a, 42);
    assert_eq!(get_list_item_owner(&store, a), 42);
}

#[test]
fn classic_names_work_alike() {
    let mut store = ListStore::new();
    let l = vListInitialise(&mut store);
    let a = vListInitialiseItem(&mut store);
    let b = vListInitialiseItem(&mut store);
    assert_eq!(get_list_item_value(&store, a), portMAX_DELAY);
    set_list_item_owner(&mut store, a, 1);
    set_list_item_owner(&mut store, b, 2);
    set_list_item_value(&mut store, b, 3);
    vListInsertEnd(&mut store, l, a);
    vListInsert(&mut store, l, b);
    assert_eq!(get_owner_of_head_entry(&store, l), 2);
    assert_eq!(uxListRemove(&mut store, a), 1);
    assert_eq!(current_list_length(&store, l), 1);
}

#[test]
fn item_builders_and_container() {
    let mut it = ListItem::new().item_value(3).owner(4);
    it.set_container(2);
    assert_eq!(it.get_value(), 3);
}
