//! A persistent singly linked list whose tails are shared through reference
//! counting: consing onto the front reuses the old list unchanged, so many
//! lists can hold a common suffix without copying it.

use std::rc::Rc;
use vstd::prelude::*;

verus! {

/// A persistent list. `Node` holds an element and a shared tail; `Stop` ends
/// the list.
pub enum RcList<T> {
    Node(T, Rc<RcList<T>>),
    Stop,
}

impl<T> RcList<T> {
    /// The elements of the list, front first.
    pub open spec fn elems(self) -> Seq<T>
        decreases self,
    {
        match self {
            RcList::Stop => Seq::empty(),
            RcList::Node(head, tail) => seq![head] + (*tail).elems(),
        }
    }

    /// Starts a walk over the list's elements, front first.
    pub fn iter(&self) -> (it: RcListRefIterator<'_, T>)
        ensures
            it.current_list == self,
    {
        RcListRefIterator { current_list: self }
    }
}

/// Walks an `RcList` front to back without consuming it.
pub struct RcListRefIterator<'a, T> {
    pub current_list: &'a RcList<T>,
}

impl<'a, T> RcListRefIterator<'a, T> {
    /// Starts a walk over `current_list`, front first.
    pub fn new(current_list: &'a RcList<T>) -> (it: Self)
        ensures
            it.current_list == current_list,
    {
        RcListRefIterator { current_list }
    }

    /// Hands out the next element, or `None` once the list is exhausted.
    pub fn next(&mut self) -> (r: Option<&'a T>)
        ensures
            match r {
                None => {
                    &&& old(self).current_list.elems().len() == 0
                    &&& final(self).current_list == old(self).current_list
                },
                Some(t) => {
                    &&& old(self).current_list.elems().len() > 0
                    &&& *t == old(self).current_list.elems()[0]
                    &&& final(self).current_list.elems() == old(self).current_list.elems().drop_first()
                },
            },
    {
        match self.current_list {
            RcList::Stop => None,
            RcList::Node(t, next) => {
                self.current_list = &**next;
                Some(t)
            },
        }
    }
}

} // verus!
