use rustsearch::openlist::prio_list::PrioList;
use rustsearch::openlist::queue::Queue;
use rustsearch::openlist::stack::Stack;
use rustsearch::openlist::{OpenList, PriorityOpenList};
use rustsearch::search::Statistics;

#[test]
fn queue_hands_out_in_order() {
    for count in [0, 1, 2, 17] {
        let mut queue: Queue<i32> = OpenList::new();
        for i in 0..count {
            queue.add(i);
        }
        for i in 0..count {
            assert_eq!(Some(&i), queue.peek());
            assert_eq!(Some(i), queue.get());
        }
        assert_eq!(None, queue.get());
        assert!(queue.is_empty());
    }
}

#[test]
fn stack_hands_out_in_reverse() {
    for count in [0, 1, 2, 17] {
        let mut stack: Stack<i32> = OpenList::new();
        for i in 0..count {
            stack.add(i);
        }
        for i in (0..count).rev() {
            assert_eq!(Some(&i), stack.peek());
            assert_eq!(Some(i), stack.get());
        }
        assert_eq!(None, stack.get());
        assert!(stack.is_empty());
    }
}

#[test]
fn stack_and_queue_take_turns() {
    let mut queue: Queue<char> = Queue::new();
    let mut stack: Stack<char> = Stack::new();
    for c in ['a', 'b', 'c'] {
        queue.add(c);
        stack.add(c);
    }
    assert_eq!(Some('a'), queue.get());
    assert_eq!(Some('c'), stack.get());
    queue.add('d');
    stack.add('d');
    assert_eq!(Some('b'), queue.get());
    assert_eq!(Some('d'), stack.get());
    assert_eq!(2, queue.len());
    assert_eq!(2, stack.len());
}

#[test]
fn weights_decide_the_order() {
    let mut list: PrioList<&str> = PrioList::new();
    list.add("c", 30);
    list.add("a", 10);
    list.add("d", u128::MAX);
    list.add("b", 20);
    list.add("z", 0);
    assert_eq!(5, list.len());
    assert_eq!(Some(&"z"), list.peek());
    let mut out = vec![];
    while let Some(next) = list.get() {
        out.push(next);
    }
    assert_eq!(vec!["z", "a", "b", "c", "d"], out);
    assert_eq!(None, list.peek());
}

#[test]
fn of_equal_weights_the_latest_leaves_first() {
    let mut list: PrioList<&str> = PrioList::new();
    list.add("first", 7);
    list.add("second", 7);
    list.add("light", 1);
    list.add("third", 7);
    list.add("heavy", 9);
    assert_eq!(Some("light"), list.get());
    assert_eq!(Some("third"), list.get());
    assert_eq!(Some("second"), list.get());
    assert_eq!(Some("first"), list.get());
    assert_eq!(Some("heavy"), list.get());
    assert_eq!(None, list.get());
}

#[test]
fn statistics_read_as_one_line() {
    let statistics = Statistics { nodes_explored: 0, max_depth: 0, solutions: 0 };
    assert_eq!("[ nodes_explored: 0, max_depth: 0, solutions: 0 ]", statistics.to_string());
    let statistics = Statistics { nodes_explored: 1905, max_depth: 10, solutions: 7 };
    assert_eq!("[ nodes_explored: 1905, max_depth: 10, solutions: 7 ]", statistics.to_string());
    let statistics = Statistics { nodes_explored: usize::MAX, max_depth: 99, solutions: 100 };
    assert_eq!(
        format!("[ nodes_explored: {}, max_depth: 99, solutions: 100 ]", usize::MAX),
        statistics.to_string()
    );
}
