use merge_dfs::list::LinkedList;

#[test]
fn create_numeric_list() {
    let mut list = LinkedList::<i32>::new();
    list.add(1);
    list.add(2);
    list.add(3);
    println!("Linked List is {}", list.render());
    assert_eq!(3, list.length);
}

#[test]
fn create_string_list() {
    let mut list_str = LinkedList::<String>::new();
    list_str.add("A".to_string());
    list_str.add("B".to_string());
    list_str.add("C".to_string());
    println!("Linked List is {}", list_str.render());
    assert_eq!(3, list_str.length);
}

#[test]
fn test_merge_linked_list_1() {
    let mut list_a = LinkedList::<i32>::new();
    let mut list_b = LinkedList::<i32>::new();
    let vec_a = vec![1, 3, 5, 7];
    let vec_b = vec![2, 4, 6, 8];
    let target_vec = vec![1, 2, 3, 4, 5, 6, 7, 8];

    for i in 0..vec_a.len() {
        list_a.add(vec_a[i]);
    }
    for i in 0..vec_b.len() {
        list_b.add(vec_b[i]);
    }
    println!("list a {} list b {}", list_a.render(), list_b.render());
    let mut list_c = LinkedList::<i32>::merge(list_a, list_b);
    println!("merged List is {}", list_c.render());
    for i in 0..target_vec.len() {
        assert_eq!(target_vec[i], *list_c.get(i as i32).unwrap());
    }
}

#[test]
fn test_merge_linked_list_2() {
    let mut list_a = LinkedList::<i32>::new();
    let mut list_b = LinkedList::<i32>::new();
    let vec_a = vec![11, 33, 44, 88, 89, 90, 100];
    let vec_b = vec![1, 22, 30, 45];
    let target_vec = vec![1, 11, 22, 30, 33, 44, 45, 88, 89, 90, 100];

    for i in 0..vec_a.len() {
        list_a.add(vec_a[i]);
    }
    for i in 0..vec_b.len() {
        list_b.add(vec_b[i]);
    }
    println!("list a {} list b {}", list_a.render(), list_b.render());
    let mut list_c = LinkedList::<i32>::merge(list_a, list_b);
    println!("merged List is {}", list_c.render());
    for i in 0..target_vec.len() {
        assert_eq!(target_vec[i], *list_c.get(i as i32).unwrap());
    }
    assert_eq!(list_c.length, target_vec.len() as u32);
}

#[test]
fn append_then_get_each_index() {
    let mut list = LinkedList::<i32>::new();
    let values = vec![10, -3, 0, 42, 7];
    for i in 0..values.len() {
        list.add(values[i]);
    }
    assert_eq!(list.length, values.len() as u32);
    for i in 0..values.len() {
        assert_eq!(*list.get(i as i32).unwrap(), values[i]);
    }
    assert!(list.get(values.len() as i32).is_none());
    assert!(list.get(100).is_none());
    assert!(list.get(-1).is_none());
}

#[test]
fn get_on_empty_list() {
    let mut list = LinkedList::<i32>::new();
    assert_eq!(list.length, 0);
    assert!(list.get(0).is_none());
}

#[test]
fn merge_empty_with_nonempty() {
    let list_a = LinkedList::<i32>::new();
    let mut list_b = LinkedList::<i32>::new();
    list_b.add(2);
    list_b.add(4);
    let mut merged = LinkedList::<i32>::merge(list_a, list_b);
    assert_eq!(merged.length, 2);
    assert_eq!(*merged.get(0).unwrap(), 2);
    assert_eq!(*merged.get(1).unwrap(), 4);
}

#[test]
fn merge_nonempty_with_empty() {
    let mut list_a = LinkedList::<i32>::new();
    list_a.add(1);
    list_a.add(9);
    let list_b = LinkedList::<i32>::new();
    let mut merged = LinkedList::<i32>::merge(list_a, list_b);
    assert_eq!(merged.length, 2);
    assert_eq!(*merged.get(0).unwrap(), 1);
    assert_eq!(*merged.get(1).unwrap(), 9);
}

#[test]
fn merge_singleton_tie() {
    let mut list_a = LinkedList::<i32>::new();
    list_a.add(5);
    let mut list_b = LinkedList::<i32>::new();
    list_b.add(5);
    let mut merged = LinkedList::<i32>::merge(list_a, list_b);
    assert_eq!(merged.length, 2);
    assert_eq!(*merged.get(0).unwrap(), 5);
    assert_eq!(*merged.get(1).unwrap(), 5);
}

#[test]
fn merge_with_duplicates() {
    let mut list_a = LinkedList::<i32>::new();
    for v in [1, 2, 2, 3] {
        list_a.add(v);
    }
    let mut list_b = LinkedList::<i32>::new();
    for v in [2, 3, 4] {
        list_b.add(v);
    }
    let mut merged = LinkedList::<i32>::merge(list_a, list_b);
    let expected = vec![1, 2, 2, 2, 3, 3, 4];
    assert_eq!(merged.length, expected.len() as u32);
    for i in 0..expected.len() {
        assert_eq!(*merged.get(i as i32).unwrap(), expected[i]);
    }
}

#[test]
fn pick_maller_head_takes_smaller() {
    let mut list_a = LinkedList::<i32>::new();
    list_a.add(1);
    list_a.add(3);
    let mut list_b = LinkedList::<i32>::new();
    list_b.add(2);
    let h = LinkedList::pick_maller_head(&mut list_a, &mut list_b);
    assert_eq!(h, 1);
    assert_eq!(list_a.length, 1);
    assert_eq!(*list_a.get(0).unwrap(), 3);
    assert_eq!(list_b.length, 1);
    assert_eq!(*list_b.get(0).unwrap(), 2);
}

#[test]
fn pick_maller_head_tie_favors_left() {
    let mut list_a = LinkedList::<i32>::new();
    list_a.add(2);
    list_a.add(9);
    let mut list_b = LinkedList::<i32>::new();
    list_b.add(2);
    let h = LinkedList::pick_maller_head(&mut list_a, &mut list_b);
    assert_eq!(h, 2);
    assert_eq!(list_a.length, 1);
    assert_eq!(*list_a.get(0).unwrap(), 9);
    assert_eq!(list_b.length, 1);
    assert_eq!(*list_b.get(0).unwrap(), 2);
}

#[test]
fn render_numbers() {
    let mut list = LinkedList::<i32>::new();
    assert_eq!(list.render(), "");
    list.add(1);
    assert_eq!(list.render(), "1");
    list.add(2);
    list.add(3);
    assert_eq!(list.render(), "1, 2, 3");
}

#[test]
fn render_negative_and_large_numbers() {
    let mut list = LinkedList::<i32>::new();
    list.add(-5);
    list.add(10);
    list.add(-2147483648);
    list.add(2147483647);
    assert_eq!(list.render(), "-5, 10, -2147483648, 2147483647");
}

#[test]
fn render_strings() {
    let mut list = LinkedList::<String>::new();
    assert_eq!(list.render(), "");
    list.add("A".to_string());
    list.add("B".to_string());
    list.add("C".to_string());
    assert_eq!(list.render(), "A, B, C");
}

#[test]
fn default_is_empty() {
    let mut list: LinkedList<i32> = Default::default();
    assert_eq!(list.length, 0);
    assert!(list.get(0).is_none());
}
