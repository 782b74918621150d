use vstd::prelude::*;

verus! {

/// A node in the tree, generic over the value type it holds.
#[derive(Debug, Clone, Copy, PartialEq, Eq, Hash)]
pub struct Node<T> {
    pub id: usize,
    pub value: T,
}

impl<T: Copy> Node<T> {
    pub fn new(id: usize, value: T) -> (node: Node<T>)
        ensures
            node.id == id,
            node.value == value,
    {
        Node { id, value }
    }

    pub fn id(&self) -> (r: usize)
        ensures
            r == self.id,
    {
        self.id
    }

    pub fn value(&self) -> (r: &T)
        ensures
            *r == self.value,
    {
        &self.value
    }

    pub fn set_value(&mut self, value: T)
        ensures
            final(self).id == old(self).id,
            final(self).value == value,
    {
        self.value = value;
    }
}

} // verus!
