//! A singly linked list that is never empty, with two ways to walk it.

use vstd::prelude::*;

verus! {

/// A list node: a value and the rest of the list.
pub struct Node<T> {
    pub val: T,
    pub next: Option<Box<Node<T>>>,
}

impl<T> Node<T> {
    /// The values of the list that starts at this node, first to last.
    pub open spec fn values(self) -> Seq<T>
        decreases self,
    {
        match self.next {
            None => seq![self.val],
            Some(rest) => seq![self.val] + rest.values(),
        }
    }

    pub fn new(val: T) -> (r: Self)
        ensures
            r.values() == seq![val],
    {
        Node { val, next: None }
    }

    pub fn push_left(self, val: T) -> (r: Self)
        ensures
            r.values() == seq![val] + self.values(),
    {
        Node { val, next: Some(Box::new(self)) }
    }

    pub fn iter(&self) -> (it: LinkedListIterator<'_, T>)
        ensures
            it.remaining() == self.values(),
    {
        LinkedListIterator(Some(self))
    }

    /// A walk that hands out the values themselves, using the list up.
    pub fn into_iter(self) -> (it: LinkedListIntoIterator<T>)
        ensures
            it.remaining() == self.values(),
    {
        LinkedListIntoIterator(Some(self))
    }
}

/// A walk over a list by reference.
pub struct LinkedListIterator<'a, T>(pub Option<&'a Node<T>>);

impl<'a, T> LinkedListIterator<'a, T> {
    /// The values still to come.
    pub open spec fn remaining(self) -> Seq<T> {
        match self.0 {
            None => Seq::empty(),
            Some(node) => node.values(),
        }
    }

    /// The next value of the walk, if any is left.
    pub fn next(&mut self) -> (r: Option<&'a T>)
        ensures
            match r {
                Some(v) => old(self).remaining().len() > 0 && *v == old(self).remaining()[0]
                    && final(self).remaining() == old(self).remaining().skip(1),
                None => old(self).remaining().len() == 0 && final(self).remaining().len() == 0,
            },
    {
        match self.0 {
            Some(node) => {
                let ret = &node.val;
                match &node.next {
                    Some(rest) => {
                        assert(node.values().skip(1) =~= rest.values());
                        self.0 = Some(&**rest);
                    },
                    None => {
                        assert(node.values().skip(1) =~= Seq::<T>::empty());
                        self.0 = None;
                    },
                }
                Some(ret)
            },
            None => None,
        }
    }
}

/// A walk over a list by value.
pub struct LinkedListIntoIterator<T>(pub Option<Node<T>>);

impl<T> LinkedListIntoIterator<T> {
    /// The values still to come.
    pub open spec fn remaining(self) -> Seq<T> {
        match self.0 {
            None => Seq::empty(),
            Some(node) => node.values(),
        }
    }

    /// The next value of the walk, if any is left.
    pub fn next(&mut self) -> (r: Option<T>)
        ensures
            match r {
                Some(v) => old(self).remaining().len() > 0 && v == old(self).remaining()[0]
                    && final(self).remaining() == old(self).remaining().skip(1),
                None => old(self).remaining().len() == 0 && final(self).remaining().len() == 0,
            },
    {
        match self.0.take() {
            Some(node) => {
                let Node { val, next } = node;
                match next {
                    Some(rest) => {
                        assert(node.values().skip(1) =~= rest.values());
                        self.0 = Some(*rest);
                    },
                    None => {
                        assert(node.values().skip(1) =~= Seq::<T>::empty());
                        self.0 = None;
                    },
                }
                Some(val)
            },
            None => None,
        }
    }
}

} // verus!
