//! The frontier of breadth-first search.

use std::collections::VecDeque;
use vstd::prelude::*;

use super::{first_in_first_out, leaving_order, OpenList};

verus! {

/// First-in-first-out frontier.
#[derive(Debug)]
pub struct Queue<T> {
    queue: VecDeque<T>,
}

impl<T> View for Queue<T> {
    type V = Seq<T>;

    closed spec fn view(&self) -> Seq<T> {
        self.queue@
    }
}

impl<T> Queue<T> {
    pub fn new() -> (queue: Self)
        ensures
            queue@ == Seq::<T>::empty(),
    {
        Queue { queue: VecDeque::new() }
    }
}

/// A queue is first-in-first-out.
pub proof fn lemma_queue_discipline<T>()
    ensures
        first_in_first_out::<T, Queue<T>>(),
{
}

/// Elements leave a queue in the order in which they were added.
pub proof fn lemma_queue_keeps_order<T>(items: Seq<T>)
    ensures
        leaving_order::<T, Queue<T>>(items) == items,
    decreases items.len(),
{
    if items.len() > 0 {
        lemma_queue_keeps_order::<T>(items.remove(0));
        assert(seq![items[0]] + items.remove(0) =~= items);
    }
}

impl<T> OpenList<T> for Queue<T> {
    open spec fn items(&self) -> Seq<T> {
        self@
    }

    open spec fn next_index(len: int) -> int {
        0
    }

    fn new() -> (list: Self) {
        Queue::new()
    }

    fn add(&mut self, element: T) {
        self.queue.push_back(element)
    }

    fn get(&mut self) -> (next: Option<T>) {
        let next = self.queue.pop_front();
        proof {
            if old(self)@.len() > 0 {
                assert(self@ =~= old(self)@.remove(0));
            }
        }
        next
    }

    fn peek(&self) -> (next: Option<&T>) {
        if self.queue.len() == 0 {
            None
        } else {
            Some(&self.queue[0])
        }
    }

    fn is_empty(&self) -> (empty: bool) {
        self.queue.len() == 0
    }

    fn len(&self) -> (n: usize) {
        self.queue.len()
    }

    fn clear(&mut self) {
        self.queue.clear()
    }
}

} // verus!
