use vstd::prelude::*;

use crate::address::Address;

verus! {

/// What a peer tells the network about itself: the address it can be reached
/// at, if it has a public one, and where its interests lie. Interests are
/// points on a line; the layers ask nothing of them but that any two profiles
/// are some distance apart and that distances can be compared.
#[derive(Clone, Copy, Debug, PartialEq, Eq, Structural)]
pub struct NodeProfile {
    pub address: Option<Address>,
    pub interest: u64,
}

impl NodeProfile {
    /// The distance between the interests of two profiles. Lower is nearer.
    pub open spec fn distance(&self, other: &NodeProfile) -> nat {
        if self.interest <= other.interest {
            (other.interest - self.interest) as nat
        } else {
            (self.interest - other.interest) as nat
        }
    }

    /// The profile of a peer with the given public address, if any, and the
    /// given interests.
    pub fn new(address: Option<Address>, interest: u64) -> (profile: NodeProfile)
        ensures
            profile == (NodeProfile { address, interest }),
    {
        NodeProfile { address, interest }
    }

    /// The public address of the peer, if it has one.
    pub fn address(&self) -> (address: Option<&Address>)
        ensures
            address == match self.address { Some(a) => Some(&a), None => None },
    {
        self.address.as_ref()
    }

    /// How far the interests of `other` lie from this profile's.
    pub fn proximity(&self, other: &NodeProfile) -> (proximity: u64)
        ensures
            proximity == self.distance(other),
    {
        if self.interest <= other.interest {
            other.interest - self.interest
        } else {
            self.interest - other.interest
        }
    }
}

/// A peer as the registry knows it: its address and its profile.
#[derive(Clone, Copy, Debug, PartialEq, Eq, Structural)]
pub struct Node {
    pub address: Address,
    pub profile: NodeProfile,
}

impl Node {
    /// The peer at `address` with the given profile.
    pub fn new(address: Address, profile: NodeProfile) -> (node: Node)
        ensures
            node == (Node { address, profile }),
    {
        Node { address, profile }
    }

    /// The address the peer is known by.
    pub fn address(&self) -> (address: &Address)
        ensures
            *address == self.address,
    {
        &self.address
    }

    /// What the peer tells about itself.
    pub fn profile(&self) -> (profile: &NodeProfile)
        ensures
            *profile == self.profile,
    {
        &self.profile
    }
}

} // verus!
