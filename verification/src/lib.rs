//! One layer of a gossip-based peer-sampling overlay: a bounded view of the
//! peers whose interests lie nearest to the local node's, together with the
//! small set of collaborators the layer talks to.

pub mod address;
pub mod candidates;
pub mod gossip;
pub mod layer;
pub mod node;
pub mod nodes;
pub mod poldercast;
pub mod selection;
pub mod view_builder;

pub use crate::address::Address;
pub use crate::gossip::GossipsBuilder;
pub use crate::layer::Layer;
pub use crate::node::{Node, NodeProfile};
pub use crate::nodes::Nodes;
pub use crate::poldercast::vicinity::Vicinity;
pub use crate::view_builder::ViewBuilder;
