use freertos::linkedlist::Linkedlist;
use freertos::mmuconf::Item;

fn drain(l: &mut Linkedlist<u32>) -> Vec<u32> {
    let mut v = Vec::new();
    while let Some(x) = l.pop() {
        v.push(x);
    }
    v
}

#[test]
fn push_then_pop_gives_value_back() {
    let mut l = Linkedlist::new();
    l.push(1).push(2);
    assert_eq!(l.len(), 2);
    l.push(3);
    assert_eq!(l.pop(), Some(3));
    assert_eq!(l.len(), 2);
    assert_eq!(drain(&mut l), vec![2, 1]);
    assert!(l.is_empty());
    assert_eq!(l.pop(), None);
}

#[test]
fn init_makes_single_element_list() {
    let mut l = Linkedlist::new();
    l.push(5).push(6);
    l.init(9);
    assert_eq!(drain(&mut l), vec![9]);
}

#[test]
fn push_pos_inserts_after_position() {
    let mut l = Linkedlist::new();
    l.push(3).push(1);
    assert!(l.push_pos(2, 1));
    assert!(l.push_pos(4, 3));
    assert!(!l.push_pos(9, 9));
    assert_eq!(drain(&mut l), vec![1, 2, 3, 4]);
}

#[test]
fn pop_pos_removes_at_position() {
    let mut l = Linkedlist::new();
    l.push(3).push(2).push(1);
    assert_eq!(l.pop_pos(1), Some(2));
    assert_eq!(l.pop_pos(7), None);
    assert_eq!(l.pop_pos(0), Some(1));
    assert_eq!(drain(&mut l), vec![3]);
}

#[test]
fn peek_and_last_give_mutable_ends() {
    let mut l = Linkedlist::new();
    assert!(l.peek_mut().is_none());
    assert!(l.last_mut().is_none());
    l.push(3).push(2).push(1);
    if let Some(x) = l.peek_mut() {
        *x = 10;
    }
    if let Some(x) = l.last_mut() {
        *x = 30;
    }
    assert_eq!(drain(&mut l), vec![10, 2, 30]);
}

#[test]
fn rev_twice_is_identity() {
    let mut l = Linkedlist::new();
    l.push(3).push(2).push(1);
    let mut r = l.rev();
    assert!(l.is_empty());
    let mut rr = r.rev();
    assert!(r.is_empty());
    assert_eq!(drain(&mut rr), vec![1, 2, 3]);
}

#[test]
fn rev_reverses() {
    let mut l = Linkedlist::new();
    l.push(3).push(2).push(1);
    let mut r = l.rev();
    assert_eq!(drain(&mut r), vec![3, 2, 1]);
}

#[test]
fn find_data_and_move_to_peek() {
    let mut l = Linkedlist::new();
    l.push(7).push(5).push(7).push(1);
    assert_eq!(l.find_data(&7), 1);
    assert_eq!(l.find_data(&4), usize::MAX);
    assert!(l.move_to_peek(&5));
    assert!(!l.move_to_peek(&4));
    assert_eq!(drain(&mut l), vec![5, 1, 7, 7]);
}

#[test]
fn traverse_shows_values_in_order() {
    let mut list = Linkedlist::new();
    list.push(1).push(2).push(3);
    if let Some(value) = list.peek_mut() {
        *value = 10;
    }
    assert_eq!(list.len(), 3);
    assert_eq!(list.traverse(), vec![10, 2, 1]);
    let list2 = list.rev();
    assert_eq!(list2.traverse(), vec![1, 2, 10]);
}

#[test]
fn move_to_peek_puts_the_probe_in_front() {
    let mut l: Linkedlist<Item> = Linkedlist::new();
    l.push(Item { frame_number: 1, page_number: 2, task_belong: 0 });
    let probe = Item { frame_number: 1, page_number: 5, task_belong: 0 };
    assert!(l.move_to_peek(&probe));
    let head = l.pop().unwrap();
    assert_eq!((head.frame_number, head.page_number), (1, 5));
    assert!(l.pop().is_none());
}
