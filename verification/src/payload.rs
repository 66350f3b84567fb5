use vstd::prelude::*;

verus! {

/// What a combining node's payload slot carries: the request of an operation
/// while it is pending, and its result once it was applied.
///
/// A payload names a queue node, or none. Besides the node's address it
/// records which item the node carried when the payload was made; its view is
/// that item.
pub struct Payload<T> {
    node: Option<usize>,
    item: Ghost<Option<T>>,
}

impl<T> Clone for Payload<T> {
    fn clone(&self) -> (copy: Self)
        ensures
            copy == *self,
    {
        Payload { node: self.node, item: self.item }
    }
}

impl<T> Copy for Payload<T> {

}

impl<T> View for Payload<T> {
    type V = Option<T>;

    closed spec fn view(&self) -> Option<T> {
        self.item@
    }
}

impl<T> Payload<T> {
    /// The payload that names no node.
    pub fn null() -> (payload: Self)
        ensures
            payload.node() is None,
            payload@ is None,
    {
        Payload { node: None, item: Ghost(None) }
    }

    /// The payload that names the node at `node`, which carries `item`.
    pub(crate) fn naming(node: usize, Ghost(item): Ghost<T>) -> (payload: Self)
        ensures
            payload.node() == Some(node),
            payload@ == Some(item),
    {
        Payload { node: Some(node), item: Ghost(Some(item)) }
    }

    /// The address of the node that the payload names, if any.
    pub fn target(&self) -> (node: Option<usize>)
        ensures
            node == self.node(),
    {
        self.node
    }

    /// The address of the node the payload names.
    pub closed spec fn node(self) -> Option<usize> {
        self.node
    }
}

} // verus!
