use rustsearch::openlist::prio_list::PrioList;
use rustsearch::openlist::PriorityOpenList;

/// The integer that stands for a weight that is no less than zero: the bits
/// of such floats are ordered as the floats are.
fn weight(value: f32) -> u128 {
    assert!(value >= 0.0);
    value.to_bits() as u128
}

#[test]
fn prio_list_test_empty() {
    let list: PrioList<i32> = PrioList::new();
    assert!(list.is_empty());
    assert_eq!(0, list.len());
}

#[test]
fn test_empty_get() {
    let mut list: PrioList<i32> = PrioList::new();
    assert_eq!(None, list.get());
}

#[test]
fn test_empty_peek() {
    let list: PrioList<i32> = PrioList::new();
    assert_eq!(None, list.peek());
}

#[test]
fn prio_list_test_add() {
    let mut list: PrioList<i32> = PrioList::new();
    list.add(1, weight(1.0));
    assert!(!list.is_empty());
    assert_eq!(1, list.len());
    list.add(2, weight(2.0));
    assert!(!list.is_empty());
    assert_eq!(2, list.len());
}

#[test]
fn test_peek() {
    let mut list: PrioList<i32> = PrioList::new();
    let nelem = 100;
    for i in 0..nelem {
        list.add(i, weight(i as f32));
    }
    assert_eq!(nelem as usize, list.len());
    assert_eq!(Some(&0), list.peek());
}

#[test]
fn prio_list_test_clear() {
    let mut list: PrioList<i32> = PrioList::new();
    list.add(1, weight(1.0));
    list.add(2, weight(2.0));
    assert!(!list.is_empty());
    assert_eq!(2, list.len());
    list.clear();
    assert!(list.is_empty());
}

#[test]
fn test_sort() {
    let mut list: PrioList<i32> = PrioList::new();
    list.add(3, weight(3.3));
    list.add(2, weight(2.2));
    list.add(1, weight(1.1));
    list.add(5, weight(5.5));
    list.add(4, weight(4.4));

    for val in vec![1, 2, 3, 4, 5] {
        let res = list.get();
        assert_eq!(Some(val), res);
    }
    assert!(list.is_empty());
}

#[test]
fn test_add_clear_add() {
    let mut list: PrioList<i32> = PrioList::new();
    list.add(1, weight(1.0));
    assert!(!list.is_empty());
    list.clear();
    assert!(list.is_empty());
    list.add(2, weight(2.0));
    assert!(!list.is_empty());
}

#[test]
fn test_sequential_get() {
    let mut list: PrioList<i32> = PrioList::new();
    let nelem = 100;
    for i in 0..nelem {
        list.add(i, weight(i as f32));
    }
    assert_eq!(nelem as usize, list.len());
    for i in 0..nelem {
        assert_eq!(Some(i), list.get());
        assert_eq!((nelem - i - 1) as usize, list.len());
    }
    assert!(list.is_empty());
}
