//! The frontier of depth-first search.

use std::collections::VecDeque;
use vstd::prelude::*;

use super::{last_in_first_out, leaving_order, OpenList};

verus! {

/// Last-in-first-out frontier.
pub struct Stack<T> {
    stack: VecDeque<T>,
}

impl<T> View for Stack<T> {
    type V = Seq<T>;

    closed spec fn view(&self) -> Seq<T> {
        self.stack@
    }
}

impl<T> Stack<T> {
    pub fn new() -> (stack: Self)
        ensures
            stack@ == Seq::<T>::empty(),
    {
        Stack { stack: VecDeque::new() }
    }
}

/// A stack is last-in-first-out.
pub proof fn lemma_stack_discipline<T>()
    ensures
        last_in_first_out::<T, Stack<T>>(),
{
}

/// Elements leave a stack in the reverse of the order in which they were
/// added.
pub proof fn lemma_stack_reverses_order<T>(items: Seq<T>)
    ensures
        leaving_order::<T, Stack<T>>(items) == items.reverse(),
    decreases items.len(),
{
    if items.len() > 0 {
        let rest = items.remove(items.len() - 1);
        lemma_stack_reverses_order::<T>(rest);
        assert(seq![items[items.len() - 1]] + rest.reverse() =~= items.reverse());
    }
}

impl<T> OpenList<T> for Stack<T> {
    open spec fn items(&self) -> Seq<T> {
        self@
    }

    open spec fn next_index(len: int) -> int {
        len - 1
    }

    fn new() -> (list: Self) {
        Stack::new()
    }

    fn add(&mut self, element: T) {
        self.stack.push_back(element)
    }

    fn get(&mut self) -> (next: Option<T>) {
        let next = self.stack.pop_back();
        proof {
            if old(self)@.len() > 0 {
                assert(self@ =~= old(self)@.remove(old(self)@.len() - 1));
            }
        }
        next
    }

    fn peek(&self) -> (next: Option<&T>) {
        if self.stack.len() == 0 {
            None
        } else {
            Some(&self.stack[self.stack.len() - 1])
        }
    }

    fn is_empty(&self) -> (empty: bool) {
        self.stack.len() == 0
    }

    fn len(&self) -> (n: usize) {
        self.stack.len()
    }

    fn clear(&mut self) {
        self.stack.clear()
    }
}

} // verus!
