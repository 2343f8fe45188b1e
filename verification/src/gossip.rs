use vstd::prelude::*;

use crate::address::Address;

verus! {

/// What a gossip under construction holds, as contracts see it.
pub struct GossipsView {
    /// The peer the gossip will be sent to.
    pub recipient: Address,
    /// The peers recommended so far, in the order they were added.
    pub gossips: Seq<Address>,
}

/// Collects the peers that the layers of a topology recommend to one
/// recipient.
#[derive(Debug)]
pub struct GossipsBuilder {
    recipient: Address,
    gossips: Vec<Address>,
}

impl View for GossipsBuilder {
    type V = GossipsView;

    closed spec fn view(&self) -> GossipsView {
        GossipsView { recipient: self.recipient, gossips: self.gossips@ }
    }
}

impl GossipsBuilder {
    /// An empty gossip for `recipient`.
    pub fn new(recipient: Address) -> (builder: GossipsBuilder)
        ensures
            builder@.recipient == recipient,
            builder@.gossips == Seq::<Address>::empty(),
    {
        GossipsBuilder { recipient, gossips: Vec::new() }
    }

    /// The peer the gossip will be sent to.
    pub fn recipient(&self) -> (recipient: &Address)
        ensures
            *recipient == self@.recipient,
    {
        &self.recipient
    }

    /// Appends one recommendation.
    pub fn add(&mut self, node: Address)
        ensures
            final(self)@.recipient == old(self)@.recipient,
            final(self)@.gossips == old(self)@.gossips.push(node),
    {
        self.gossips.push(node);
    }

    /// The peers recommended so far, in the order they were added.
    pub fn gossips(&self) -> (gossips: &Vec<Address>)
        ensures
            gossips@ == self@.gossips,
    {
        &self.gossips
    }
}

} // verus!
