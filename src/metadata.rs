use vstd::prelude::*;

verus! {

/// The bookkeeping stored beside each value of a `PartitionVec`.
///
/// `parent` points up the union-find tree of the element's set, `link` points to the
/// next member of the set's circular list, and `rank` bounds the height of the tree
/// when the element is a root.
#[derive(Clone, Copy, Debug, PartialEq, Eq, Structural)]
pub struct Metadata {
    pub parent: usize,
    pub link: usize,
    pub rank: usize,
}

impl Metadata {
    /// The record of an element that forms a set of its own.
    pub open spec fn fresh(index: usize) -> Metadata {
        Metadata { parent: index, link: index, rank: 0 }
    }

    /// Creates the record of an element with the given index that is alone in its set.
    pub fn new(index: usize) -> (r: Self)
        ensures
            r == Metadata::fresh(index),
    {
        Metadata { parent: index, link: index, rank: 0 }
    }

    /// Returns the parent of the element in its set's tree.
    pub fn parent(&self) -> (r: usize)
        ensures
            r == self.parent,
    {
        self.parent
    }

    /// Sets the parent of the element in its set's tree.
    pub fn set_parent(&mut self, value: usize)
        ensures
            *final(self) == (Metadata { parent: value, ..*old(self) }),
    {
        self.parent = value;
    }

    /// Returns the next member of the element's set.
    pub fn link(&self) -> (r: usize)
        ensures
            r == self.link,
    {
        self.link
    }

    /// Sets the next member of the element's set.
    pub fn set_link(&mut self, value: usize)
        ensures
            *final(self) == (Metadata { link: value, ..*old(self) }),
    {
        self.link = value;
    }

    /// Returns the rank of the element.
    pub fn rank(&self) -> (r: usize)
        ensures
            r == self.rank,
    {
        self.rank
    }

    /// Sets the rank of the element.
    pub fn set_rank(&mut self, value: usize)
        ensures
            *final(self) == (Metadata { rank: value, ..*old(self) }),
    {
        self.rank = value;
    }
}

} // verus!
