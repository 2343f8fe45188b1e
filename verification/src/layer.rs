use vstd::prelude::*;

use crate::gossip::GossipsBuilder;
use crate::node::NodeProfile;
use crate::nodes::Nodes;
use crate::view_builder::ViewBuilder;

verus! {

/// What every layer of the topology offers to the code that drives it. One
/// round of the protocol resets each layer, populates it from the registry,
/// asks it for recommendations for each outgoing gossip, and collects its
/// view into the combined view of the overlay.
pub trait Layer {
    /// A stable name for the layer.
    fn alias(&self) -> &'static str;

    /// Forgets what the layer holds.
    fn reset(&mut self);

    /// Rebuilds what the layer holds for the node described by `identity`
    /// from the registry.
    fn populate(&mut self, identity: &NodeProfile, all_nodes: &Nodes);

    /// Adds to `gossips_builder` the peers that the layer recommends to the
    /// recipient of the gossip.
    fn gossips(
        &mut self,
        identity: &NodeProfile,
        gossips_builder: &mut GossipsBuilder,
        all_nodes: &Nodes,
    );

    /// Hands the peers that the layer holds to `view_builder`.
    fn view(&mut self, view_builder: &mut ViewBuilder, all_nodes: &mut Nodes);
}

} // verus!
