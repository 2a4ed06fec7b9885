//! Frontiers: the containers that hold the states a search has generated
//! and not yet explored, and decide which of them is next.
//!
//! A frontier is modelled by the sequence of its elements. [`OpenList`] is
//! the contract of the frontiers that order by arrival, [`PriorityOpenList`]
//! that of the frontiers that order by weight.

use vstd::prelude::*;

pub mod prio_list;
pub mod queue;
pub mod stack;

verus! {

/// A frontier of generated but not yet processed elements.
///
/// The container is modelled by the sequence of the elements it holds, in the
/// order in which they were added. The discipline of an implementation is the
/// position, within that sequence, of the element that leaves next.
pub trait OpenList<T>: Sized {
    /// The elements held, in the order in which they were added.
    spec fn items(&self) -> Seq<T>;

    /// Position of the element that leaves next in a container of `len`
    /// elements.
    spec fn next_index(len: int) -> int;

    fn new() -> (list: Self)
        ensures
            list.items() == Seq::<T>::empty(),
    ;

    fn add(&mut self, element: T)
        ensures
            final(self).items() == old(self).items().push(element),
    ;

    fn get(&mut self) -> (next: Option<T>)
        ensures
            old(self).items().len() == 0 ==> next is None && final(self).items() == old(
                self,
            ).items(),
            old(self).items().len() > 0 ==> {
                let k = Self::next_index(old(self).items().len() as int);
                &&& 0 <= k < old(self).items().len()
                &&& next == Some(old(self).items()[k])
                &&& final(self).items() == old(self).items().remove(k)
            },
    ;

    fn peek(&self) -> (next: Option<&T>)
        ensures
            self.items().len() == 0 ==> next is None,
            self.items().len() > 0 ==> {
                let k = Self::next_index(self.items().len() as int);
                &&& 0 <= k < self.items().len()
                &&& next == Some(&self.items()[k])
            },
    ;

    fn is_empty(&self) -> (empty: bool)
        ensures
            empty == (self.items().len() == 0),
    ;

    fn len(&self) -> (n: usize)
        ensures
            n == self.items().len(),
    ;

    fn clear(&mut self)
        ensures
            final(self).items() == Seq::<T>::empty(),
    ;
}

/// `L` hands its elements out in the order in which they came.
pub open spec fn first_in_first_out<T, L: OpenList<T>>() -> bool {
    forall|len: int| len > 0 ==> #[trigger] L::next_index(len) == 0
}

/// `L` hands the element out that came last.
pub open spec fn last_in_first_out<T, L: OpenList<T>>() -> bool {
    forall|len: int| len > 0 ==> #[trigger] L::next_index(len) == len - 1
}

/// The order in which the elements of `items` leave a container of the
/// discipline of `L` when nothing is added meanwhile.
pub open spec fn leaving_order<T, L: OpenList<T>>(items: Seq<T>) -> Seq<T>
    decreases items.len(),
{
    let k = L::next_index(items.len() as int);
    if 0 <= k < items.len() {
        seq![items[k]] + leaving_order::<T, L>(items.remove(k))
    } else {
        Seq::empty()
    }
}

/// The weights are in ascending order.
pub open spec fn ascending(weights: Seq<u128>) -> bool {
    forall|i: int, j: int| 0 <= i <= j < weights.len() ==> weights[i] <= weights[j]
}

/// Where an element of weight `weight` goes: before the first of `weights`
/// that is not smaller, and at the end if there is none.
pub open spec fn place(weights: Seq<u128>, weight: u128) -> int
    decreases weights.len(),
{
    if weights.len() == 0 || weights[0] >= weight {
        0
    } else {
        1 + place(weights.drop_first(), weight)
    }
}

/// `place` gives the one position with smaller weights before it and none
/// at it.
pub proof fn lemma_place_is(weights: Seq<u128>, weight: u128, at: int)
    requires
        0 <= at <= weights.len(),
        forall|i: int| 0 <= i < at ==> weights[i] < weight,
        at < weights.len() ==> weights[at] >= weight,
    ensures
        place(weights, weight) == at,
    decreases weights.len(),
{
    if at > 0 {
        let rest = weights.drop_first();
        assert forall|i: int| 0 <= i < at - 1 implies rest[i] < weight by {
            assert(rest[i] == weights[i + 1]);
        }
        lemma_place_is(rest, weight, at - 1);
    }
}

/// What `place` gives lies within the sequence or at its end; the weights
/// before it are smaller, the one at it is not.
pub proof fn lemma_place_found(weights: Seq<u128>, weight: u128)
    ensures
        0 <= place(weights, weight) <= weights.len(),
        forall|i: int| 0 <= i < place(weights, weight) ==> weights[i] < weight,
        place(weights, weight) < weights.len() ==> weights[place(weights, weight)] >= weight,
    decreases weights.len(),
{
    if weights.len() > 0 && weights[0] < weight {
        let rest = weights.drop_first();
        lemma_place_found(rest, weight);
        assert forall|i: int| 0 <= i < place(weights, weight) implies weights[i] < weight by {
            if i > 0 {
                assert(rest[i - 1] == weights[i]);
            }
        }
        if place(weights, weight) < weights.len() {
            assert(rest[place(rest, weight)] == weights[place(weights, weight)]);
        }
    }
}

/// An element goes before every element of its own weight that is held
/// already: among equal weights the one added last leaves first.
pub proof fn lemma_place_before_equals(weights: Seq<u128>, weight: u128, i: int)
    requires
        0 <= i < weights.len(),
        weights[i] == weight,
    ensures
        place(weights, weight) <= i,
{
    lemma_place_found(weights, weight);
}

/// Ascending weights stay ascending when a weight goes in at its place.
pub proof fn lemma_place_keeps_order(weights: Seq<u128>, weight: u128)
    requires
        ascending(weights),
    ensures
        ascending(weights.insert(place(weights, weight), weight)),
{
    lemma_place_found(weights, weight);
    let at = place(weights, weight);
    let more = weights.insert(at, weight);
    assert forall|i: int, j: int| 0 <= i <= j < more.len() implies more[i] <= more[j] by {
        let a = if i < at {
            i
        } else {
            i - 1
        };
        let b = if j < at {
            j
        } else {
            j - 1
        };
        if i != at && j != at {
            assert(weights[a] <= weights[b]);
        } else if i == at && j != at {
            assert(weights[at] <= weights[b]);
        }
    }
}

/// A frontier whose elements carry a weight and leave in ascending order of
/// it.
///
/// The container is modelled by two sequences of one length: the elements in
/// the order in which they leave, and the weight of each.
pub trait PriorityOpenList<T>: Sized {
    /// The elements held, the next to leave first.
    spec fn items(&self) -> Seq<T>;

    /// The weight of each element of `items`.
    spec fn weights(&self) -> Seq<u128>;

    /// What the container keeps true of itself between calls.
    spec fn well_formed(&self) -> bool;

    /// A well-formed container has a weight for each element, and the
    /// weights ascend.
    proof fn lemma_well_formed(&self)
        requires
            self.well_formed(),
        ensures
            self.items().len() == self.weights().len(),
            ascending(self.weights()),
    ;

    fn add(&mut self, element: T, weigth: u128)
        requires
            old(self).well_formed(),
        ensures
            final(self).well_formed(),
            final(self).items() == old(self).items().insert(
                place(old(self).weights(), weigth),
                element,
            ),
            final(self).weights() == old(self).weights().insert(
                place(old(self).weights(), weigth),
                weigth,
            ),
    ;

    fn get(&mut self) -> (next: Option<T>)
        requires
            old(self).well_formed(),
        ensures
            final(self).well_formed(),
            old(self).items().len() == 0 ==> {
                &&& next is None
                &&& final(self).items() == old(self).items()
                &&& final(self).weights() == old(self).weights()
            },
            old(self).items().len() > 0 ==> {
                &&& next == Some(old(self).items()[0])
                &&& final(self).items() == old(self).items().drop_first()
                &&& final(self).weights() == old(self).weights().drop_first()
            },
    ;

    fn peek(&self) -> (next: Option<&T>)
        requires
            self.well_formed(),
        ensures
            self.items().len() == 0 ==> next is None,
            self.items().len() > 0 ==> next == Some(&self.items()[0]),
    ;

    fn is_empty(&self) -> (empty: bool)
        requires
            self.well_formed(),
        ensures
            empty == (self.items().len() == 0),
    ;

    fn len(&self) -> (n: usize)
        requires
            self.well_formed(),
        ensures
            n == self.items().len(),
            n == self.weights().len(),
    ;

    fn clear(&mut self)
        ensures
            final(self).well_formed(),
            final(self).items() == Seq::<T>::empty(),
            final(self).weights() == Seq::<u128>::empty(),
    ;
}

} // verus!
