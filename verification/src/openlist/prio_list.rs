//! The frontier of best-first search.

use std::collections::VecDeque;
use vstd::prelude::*;

use super::{ascending, lemma_place_is, lemma_place_keeps_order, PriorityOpenList};

verus! {

/// Frontier kept in ascending order of weight by sorted insertion.
#[derive(Debug)]
pub struct PrioList<T> {
    elements: VecDeque<T>,
    values: VecDeque<u128>,
}

impl<T> PrioList<T> {
    pub fn new() -> (list: Self)
        ensures
            list.well_formed(),
            list.items() == Seq::<T>::empty(),
            list.weights() == Seq::<u128>::empty(),
    {
        PrioList { elements: VecDeque::new(), values: VecDeque::new() }
    }
}

impl<T> PriorityOpenList<T> for PrioList<T> {
    closed spec fn items(&self) -> Seq<T> {
        self.elements@
    }

    closed spec fn weights(&self) -> Seq<u128> {
        self.values@
    }

    /// Each element has its weight, and the weights ascend.
    open spec fn well_formed(&self) -> bool {
        &&& self.items().len() == self.weights().len()
        &&& ascending(self.weights())
    }

    proof fn lemma_well_formed(&self) {
    }

    fn add(&mut self, element: T, weigth: u128) {
        let mut pos: usize = 0;
        while pos < self.values.len()
            invariant_except_break
                pos <= self.values@.len(),
                forall|i: int| 0 <= i < pos ==> self.values@[i] < weigth,
            ensures
                pos <= self.values@.len(),
                forall|i: int| 0 <= i < pos ==> self.values@[i] < weigth,
                pos < self.values@.len() ==> self.values@[pos as int] >= weigth,
            decreases self.values@.len() - pos,
        {
            if self.values[pos] >= weigth {
                break ;
            }
            pos += 1;
        }
        proof {
            lemma_place_is(self.values@, weigth, pos as int);
            lemma_place_keeps_order(self.values@, weigth);
        }
        self.elements.insert(pos, element);
        self.values.insert(pos, weigth);
    }

    fn get(&mut self) -> (next: Option<T>) {
        self.values.pop_front();
        let next = self.elements.pop_front();
        proof {
            if next is Some {
                assert(self.values@ =~= old(self).values@.drop_first());
                assert(self.elements@ =~= old(self).elements@.drop_first());
            }
        }
        next
    }

    fn peek(&self) -> (next: Option<&T>) {
        if self.elements.len() == 0 {
            None
        } else {
            Some(&self.elements[0])
        }
    }

    fn is_empty(&self) -> (empty: bool) {
        self.elements.len() == 0
    }

    fn len(&self) -> (n: usize) {
        self.elements.len()
    }

    fn clear(&mut self) {
        self.elements.clear();
        self.values.clear();
    }
}

} // verus!
