use fast_graph::LinkedList;
use fast_graph::LinkedListIndex;

#[test]
fn test_fn_push_back_fn_next_of_fn_prev_of() {
    let mut list = LinkedList::new();
    let a = list.push_back(1);
    let b = list.push_back(2);
    let c = list.push_back(3);

    assert!(list.prev_of(a).is_none());
    assert_eq!(list.get(a).unwrap().value, 1);
    assert_eq!(list.next_of(a).unwrap().value, 2);

    assert_eq!(list.prev_of(b).unwrap().value, 1);
    assert_eq!(list.get(b).unwrap().value, 2);
    assert_eq!(list.next_of(b).unwrap().value, 3);

    assert_eq!(list.prev_of(c).unwrap().value, 2);
    assert_eq!(list.get(c).unwrap().value, 3);
    assert!(list.next_of(c).is_none());
}

#[test]
fn test_fn_insert_after_fn_insert_before() {
    // a -> b -> c
    let mut list = LinkedList::new();

    let (a, b, c, d) = {
        let a = list.push_back(1);
        let b = list.push_back(2);
        let c = list.push_back(3);
        let d = list.insert_after(a.clone(), 4);

        // a -> d -> b -> c
        (a, b, c, d)
    };
    let _ = c;

    let prev_b = list.prev_of(b).unwrap();
    let next_d = list.next_of(d).unwrap();
    let next_a = list.next_of(a).unwrap();

    assert!(list.prev_of(a).is_none());
    assert_eq!(prev_b.value, 4);
    assert_eq!(next_d.value, 2);
    assert_eq!(next_a.value, 4);
}

#[test]
fn test_iter() {
    let mut list = LinkedList::new();
    let verticies: Vec<LinkedListIndex> = (0..100)
        .map(|i| list.push_back(format!("Node: {}", i.to_string())))
        .collect();

    for n in list.iter_next_index(verticies[0]) {
        println!("Value: \"{}\"", list.get(n).unwrap().value);
    }

    for n in list.iter_next_index(verticies[0]) {
        println!("Value: \"{}\"", list.get(n).unwrap().value);
    }
}

#[test]
fn test_popback() {
    let mut list = LinkedList::new();
    let verticies: Vec<LinkedListIndex> = (0..100)
        .map(|i| list.push_back(format!("Node: {}", i.to_string())))
        .collect();
    let _ = verticies;

    let mut i = 99;
    while let Some(popped) = list.pop_back() {
        i -= 1;

        println!("Popped: {:?}", popped);
        let expected = format!("Node: {}", (i).to_string());
        if i >= 0 {
            let last = list.tail.unwrap();
            assert_eq!(list.get(last).unwrap().value, expected);
        }
    }
}

#[test]
fn linked_list_front_back_and_bulk_ops() {
    let mut list: LinkedList<i32> = LinkedList::new();
    assert_eq!(list.len(), 0);
    assert!(list.pop_front().is_none());
    assert!(list.pop_back().is_none());

    let a = list.push_front(2);
    let b = list.push_front(1);
    let c = list.push_back(3);
    let _ = (a, c);
    assert_eq!(list.len(), 3);
    assert_eq!(list.pop_front(), Some(1));
    assert_eq!(list.pop_back(), Some(3));
    assert_eq!(list.pop_back(), Some(2));
    assert!(list.pop_back().is_none());

    let x = list.push_back(10);
    let y = list.insert_before(x, 9);
    list.insert_after(y, 95);
    // 9 -> 95 -> 10
    assert_eq!(list.remove(y), 9);
    assert_eq!(list.len(), 2);
    assert_eq!(list.pop_front(), Some(95));
    assert_eq!(list.pop_front(), Some(10));
    // a handle from before the drain never resolves again
    assert!(list.get(b).is_none());

    let handles = list.extend(vec![5, 6, 7]);
    assert_eq!(handles.len(), 3);
    let backwards = list.iter_prev_index(handles[2]);
    assert_eq!(backwards.len(), 3);
    assert_eq!(list.get(backwards[0]).unwrap().value, 7);
    assert_eq!(list.get(backwards[2]).unwrap().value, 5);

    let mut list2: LinkedList<String> = LinkedList::new();
    let h = list2.push_back("before".to_string());
    list2.get_mut(h).unwrap().value = "after".to_string();
    assert_eq!(list2.get(h).unwrap().value, "after");
    assert!(list2.get_mut(LinkedListIndex(fast_graph::SlotKey { idx: 9, version: 9 })).is_none());
    let h2 = list2.push_back("tail".to_string());
    list2.next_of_mut(h).unwrap().value = "tail!".to_string();
    assert_eq!(list2.get(h2).unwrap().value, "tail!");
    list2.prev_of_mut(h2).unwrap().value = "head!".to_string();
    assert_eq!(list2.get(h).unwrap().value, "head!");
    assert!(list2.next_of_mut(h2).is_none());
    assert!(list2.prev_of_mut(h).is_none());

    let mut other = LinkedList::new();
    other.push_front_many(vec![4, 3]);
    // other: 3 -> 4
    let moved = other.extend_back(&mut list);
    assert_eq!(moved.len(), 3);
    assert_eq!(other.len(), 5);
    assert_eq!(list.len(), 0);
    let front = other.head.unwrap();
    let forward: Vec<i32> = other
        .iter_next_index(front)
        .into_iter()
        .map(|i| other.get(i).unwrap().value)
        .collect();
    assert_eq!(forward, vec![3, 4, 5, 6, 7]);
}
