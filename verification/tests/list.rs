use containers::list::LinkedList;

#[test]
fn test_empty_list_length() {
    assert_eq!(LinkedList::new().length, 0);
}

#[test]
fn test_empty_list_iterator() {
    let list = LinkedList::new();
    assert_eq!(list.iter().len(), 0);
}

#[test]
fn test_append_before_nll() {
    let mut list = LinkedList::new();

    list.append_before_nll(1);
    assert_eq!(list.length, 1);
    let v = list.iter();
    assert_eq!(v, vec![1]);

    list.append_before_nll(2);
    assert_eq!(list.length, 2);
    let v = list.iter();
    assert_eq!(v, vec![1, 2]);

    list.append_before_nll(3);
    assert_eq!(list.length, 3);
    let v = list.iter();
    assert_eq!(v, vec![1, 2, 3]);
}

#[test]
fn lib_test_append() {
    let mut list = LinkedList::new();

    list.append(1);
    assert_eq!(list.length, 1);
    let v = list.iter();
    assert_eq!(v, vec![1]);

    list.append(2);
    assert_eq!(list.length, 2);
    let v = list.iter();
    assert_eq!(v, vec![1, 2]);

    list.append(3);
    assert_eq!(list.length, 3);
    let v = list.iter();
    assert_eq!(v, vec![1, 2, 3]);
}

#[test]
fn test_remove_using_ref() {
    run_remove_sequence(LinkedList::remove_using_ref);
}

#[test]
fn test_remove_using_move() {
    run_remove_sequence(LinkedList::remove_using_move);
}

fn run_remove_sequence(remove_fn: fn(&mut LinkedList, i64) -> bool) {
    let mut list = LinkedList::new();
    list.append(1);
    list.append(2);
    list.append(3);
    list.append(4);
    list.append(5);

    assert_eq!(remove_fn(&mut list, 5), true);
    assert_eq!(list.length, 4);
    let v = list.iter();
    assert_eq!(v, vec![1, 2, 3, 4]);

    assert_eq!(remove_fn(&mut list, 1), true);
    assert_eq!(list.length, 3);
    let v = list.iter();
    assert_eq!(v, vec![2, 3, 4]);

    assert_eq!(remove_fn(&mut list, 3), true);
    assert_eq!(list.length, 2);
    let v = list.iter();
    assert_eq!(v, vec![2, 4]);

    assert_eq!(remove_fn(&mut list, 2), true);
    assert_eq!(list.length, 1);
    let v = list.iter();
    assert_eq!(v, vec![4]);

    assert_eq!(remove_fn(&mut list, 4), true);
    assert_eq!(list.length, 0);
    let v = list.iter();
    assert_eq!(v, vec![]);
}

#[test]
fn test_remove_absent_value() {
    let mut list = LinkedList::new();
    assert_eq!(list.remove_using_ref(7), false);
    assert_eq!(list.length, 0);

    list.append(1);
    list.append(2);
    assert_eq!(list.remove_using_ref(7), false);
    assert_eq!(list.length, 2);
    assert_eq!(list.iter(), vec![1, 2]);

    assert_eq!(list.remove_using_move(7), false);
    assert_eq!(list.length, 2);
    assert_eq!(list.iter(), vec![1, 2]);
}

#[test]
fn test_remove_only_first_duplicate() {
    let mut list = LinkedList::new();
    list.append(2);
    list.append(7);
    list.append(2);

    assert_eq!(list.remove_using_ref(2), true);
    assert_eq!(list.length, 2);
    assert_eq!(list.iter(), vec![7, 2]);
}

#[test]
fn test_append_order_kept() {
    let mut list = LinkedList::new();
    let values = [10, -3, 10, 0, 42];
    for v in values {
        list.append(v);
    }
    assert_eq!(list.length, values.len());
    assert_eq!(list.iter(), values.to_vec());
}
