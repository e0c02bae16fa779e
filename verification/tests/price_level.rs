use exchange::price_level::PriceLevel;

#[test]
fn pop_front_removes_the_head_entry() {
    let mut l = PriceLevel::new();
    l.push_back(3, 10);
    l.push_back(7, 5);
    assert_eq!(l.pop_front(10), Some(3));
    assert_eq!(l.count, 1);
    assert_eq!(l.total_qty, 5);
    l.head = Some(7);
    assert_eq!(l.pop_front(5), Some(7));
    assert_eq!(l.count, 0);
    assert_eq!(l.total_qty, 0);
    assert!(l.is_empty());
    assert_eq!(l.tail, None);
    assert_eq!(l.pop_front(1), None);
}

#[test]
fn remove_takes_one_entry_off() {
    let mut l = PriceLevel::new();
    l.push_back(1, 4);
    l.push_back(2, 6);
    l.remove(4);
    assert_eq!(l.count, 1);
    assert_eq!(l.total_qty, 6);
}
