use vstd::prelude::*;

use crate::address::{contains_address, lemma_merged_no_duplicates, merged, Address};
use crate::node::Node;

verus! {

/// `view` with every address of `added` merged in, first to last.
pub open spec fn merged_all(view: Seq<Address>, added: Seq<Address>) -> Seq<Address>
    decreases added.len(),
{
    if added.len() == 0 {
        view
    } else {
        merged(merged_all(view, added.drop_last()), added.last())
    }
}

/// Collects the peers that the layers of a topology export into one combined
/// view of the overlay. Each peer is held once, in the order of its first
/// export.
#[derive(Debug)]
pub struct ViewBuilder {
    view: Vec<Address>,
}

impl View for ViewBuilder {
    type V = Seq<Address>;

    closed spec fn view(&self) -> Seq<Address> {
        self.view@
    }
}

impl ViewBuilder {
    /// No peer is held twice.
    #[verifier::type_invariant]
    pub open spec fn wf(&self) -> bool {
        self@.no_duplicates()
    }

    /// An empty combined view.
    pub fn new() -> (builder: ViewBuilder)
        ensures
            builder@ == Seq::<Address>::empty(),
    {
        ViewBuilder { view: Vec::new() }
    }

    /// Merges one node into the combined view. The node itself is left as it
    /// was.
    pub fn add(&mut self, node: &mut Node)
        ensures
            final(self)@ == merged(old(self)@, old(node).address),
            *final(node) == *old(node),
    {
        proof {
            use_type_invariant(&*self);
        }
        if !contains_address(&self.view, &node.address) {
            proof {
                lemma_merged_no_duplicates(self@, node.address);
            }
            let mut view: Vec<Address> = Vec::new();
            std::mem::swap(&mut self.view, &mut view);
            view.push(node.address);
            self.view = view;
        }
    }

    /// The combined view: the exported peers, each once, in the order of
    /// their first export.
    pub fn build(self) -> (view: Vec<Address>)
        ensures
            view@ == self@,
            view@.no_duplicates(),
    {
        proof {
            use_type_invariant(&self);
        }
        self.view
    }
}

} // verus!
