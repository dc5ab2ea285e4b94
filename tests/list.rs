use baby_mimalloc::list::LinkedList;

#[test]
fn push_front_and_back_keep_order() {
    let mut l = LinkedList::new();
    assert_eq!(l.first(), None);
    assert!(l.push_back(2));
    assert!(!l.push_back(3));
    l.push_front(1);
    assert_eq!(l.to_vec(), vec![1, 2, 3]);
    assert_eq!(l.first(), Some(1));
    assert_eq!(l.len(), 3);
    assert_eq!(l.get(2), 3);
}

#[test]
fn remove_reports_first_change() {
    let mut l = LinkedList::new();
    l.push_back(10);
    l.push_back(20);
    l.push_back(30);
    assert!(!l.remove(20));
    assert_eq!(l.to_vec(), vec![10, 30]);
    assert!(l.remove(10));
    assert_eq!(l.first(), Some(30));
    assert!(!l.remove(99));
    assert!(l.contains(30));
    assert!(!l.contains(10));
    assert_eq!(l.position(30), 0);
    assert_eq!(l.position(10), 1);
}
