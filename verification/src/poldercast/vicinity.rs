use vstd::prelude::*;

use crate::address::{merged, Address};
use crate::gossip::GossipsBuilder;
use crate::layer::Layer;
use crate::node::{Node, NodeProfile};
use crate::nodes::{Nodes, NodesView};
use crate::candidates::{available_candidates, candidates, is_candidate, lemma_candidates};
use crate::selection::{
    carries, closest_of, distinct_addresses, is_closest_selection, is_ranking,
    lemma_selection_from_pool, lemma_selection_len, lemma_selection_no_duplicates, nodes_of,
    rank_closest_nodes, selection_len, shuffle,
};
use crate::view_builder::{merged_all, ViewBuilder};

verus! {

/// How many peers a layer holds at most where nothing else is asked for.
pub const VICINITY_MAX_VIEW_SIZE: usize = 20;

/// How many peers a layer recommends at most where nothing else is asked for.
pub const VICINITY_MAX_GOSSIP_LENGTH: usize = 10;

/// Of the addresses `peers`, in their order, those that the registry can
/// resolve: what a layer holding `peers` exports.
pub open spec fn exported(peers: Seq<Address>, nodes: NodesView) -> Seq<Address> {
    peers.filter(|id: Address| nodes.known.contains_key(id))
}

/// A layer that holds no peers exports nothing: the combined view stays as
/// it was, whatever the registry holds.
pub proof fn lemma_empty_view_exports_nothing(combined: Seq<Address>, nodes: NodesView)
    ensures
        exported(Seq::<Address>::empty(), nodes) == Seq::<Address>::empty(),
        merged_all(combined, exported(Seq::<Address>::empty(), nodes)) == combined,
{
    reveal(Seq::filter);
    reveal_with_fuel(merged_all, 1);
}

/// Exporting one more peer merges it into the combined view where the
/// registry resolves it, and changes nothing otherwise.
proof fn lemma_exported_push(
    combined: Seq<Address>,
    peers: Seq<Address>,
    nodes: NodesView,
    id: Address,
)
    ensures
        merged_all(combined, exported(peers.push(id), nodes)) == if nodes.known.contains_key(id) {
            merged(merged_all(combined, exported(peers, nodes)), id)
        } else {
            merged_all(combined, exported(peers, nodes))
        },
{
    let resolves = |id: Address| nodes.known.contains_key(id);
    peers.lemma_filter_push(id, resolves);
    if nodes.known.contains_key(id) {
        assert(exported(peers, nodes).push(id).drop_last() =~= exported(peers, nodes));
    }
}

/// The vicinity layer keeps links to the peers whose interests lie nearest
/// to the node's own. Among peers that are equally near the choice is left
/// to chance, so that the links differ from round to round and from node to
/// node.
#[derive(Debug)]
pub struct Vicinity {
    view: Vec<Address>,
    max_view_size: usize,
    max_gossip_length: usize,
}

impl Layer for Vicinity {
    fn alias(&self) -> (alias: &'static str)
        ensures
            alias@ == "vicinity"@,
    {
        "vicinity"
    }

    fn reset(&mut self)
        ensures
            final(self).peers() == Seq::<Address>::empty(),
            final(self).max_view_size() == old(self).max_view_size(),
            final(self).max_gossip_length() == old(self).max_gossip_length(),
    {
        self.view = Vec::new();
    }

    fn populate(&mut self, identity: &NodeProfile, all_nodes: &Nodes)
        ensures
            is_closest_selection(
                final(self).peers(),
                *identity,
                candidates(all_nodes@, identity.address),
                old(self).max_view_size(),
            ),
            final(self).peers().len() == selection_len(
                old(self).max_view_size(),
                candidates(all_nodes@, identity.address).len(),
            ),
            final(self).peers().no_duplicates(),
            forall|i: int|
                0 <= i < final(self).peers().len() ==> is_candidate(
                    all_nodes@,
                    identity.address,
                    #[trigger] final(self).peers()[i],
                ),
            match identity.address {
                Some(own) => !final(self).peers().contains(own),
                None => true,
            },
            final(self).max_view_size() == old(self).max_view_size(),
            final(self).max_gossip_length() == old(self).max_gossip_length(),
    {
        let pool = available_candidates(all_nodes, identity.address());
        let closest = self.select_closest_nodes(identity, pool, self.max_view_size);
        proof {
            use_type_invariant(all_nodes);
            all_nodes.lemma_view_wf();
            lemma_selected_candidates(
                closest@,
                *identity,
                all_nodes@,
                identity.address,
                self.max_view_size as nat,
            );
        }
        self.view = closest;
    }

    fn gossips(
        &mut self,
        _identity: &NodeProfile,
        gossips_builder: &mut GossipsBuilder,
        all_nodes: &Nodes,
    )
        ensures
            *final(self) == *old(self),
            final(gossips_builder)@.recipient == old(gossips_builder)@.recipient,
            old(gossips_builder)@.gossips.is_prefix_of(final(gossips_builder)@.gossips),
            match all_nodes@.known.get(old(gossips_builder)@.recipient) {
                Some(recipient) => is_closest_selection(
                    final(gossips_builder)@.gossips.skip(
                        old(gossips_builder)@.gossips.len() as int,
                    ),
                    recipient.profile,
                    candidates(all_nodes@, Some(old(gossips_builder)@.recipient)),
                    old(self).max_gossip_length(),
                ) && final(gossips_builder)@.gossips.len() == old(gossips_builder)@.gossips.len()
                    + selection_len(
                    old(self).max_gossip_length(),
                    candidates(all_nodes@, Some(old(gossips_builder)@.recipient)).len(),
                ),
                None => final(gossips_builder)@.gossips == old(gossips_builder)@.gossips,
            },
            old(self).max_gossip_length() == 0 ==> final(gossips_builder)@.gossips == old(
                gossips_builder,
            )@.gossips,
            forall|i: int|
                old(gossips_builder)@.gossips.len() <= i < final(gossips_builder)@.gossips.len()
                    ==> is_candidate(
                    all_nodes@,
                    Some(old(gossips_builder)@.recipient),
                    #[trigger] final(gossips_builder)@.gossips[i],
                ),
            forall|i: int|
                old(gossips_builder)@.gossips.len() <= i < final(gossips_builder)@.gossips.len()
                    ==> #[trigger] final(gossips_builder)@.gossips[i] != old(
                    gossips_builder,
                )@.recipient,
            final(gossips_builder)@.gossips.skip(
                old(gossips_builder)@.gossips.len() as int,
            ).no_duplicates(),
    {
        let ghost before = gossips_builder@;
        assert(before.gossips.skip(before.gossips.len() as int) =~= Seq::<Address>::empty());
        if let Some(node) = all_nodes.peek(gossips_builder.recipient()) {
            let pool = available_candidates(all_nodes, Some(gossips_builder.recipient()));
            let gossips = self.select_closest_nodes(node.profile(), pool, self.max_gossip_length);
            proof {
                use_type_invariant(all_nodes);
                all_nodes.lemma_view_wf();
                lemma_selected_candidates(
                    gossips@,
                    node.profile,
                    all_nodes@,
                    Some(before.recipient),
                    self.max_gossip_length as nat,
                );
            }
            let mut i: usize = 0;
            while i < gossips.len()
                invariant
                    i <= gossips@.len(),
                    gossips_builder@.recipient == before.recipient,
                    gossips_builder@.gossips == before.gossips + gossips@.take(i as int),
                decreases gossips@.len() - i,
            {
                gossips_builder.add(gossips[i]);
                assert(gossips@.take(i + 1) =~= gossips@.take(i as int).push(gossips@[i as int]));
                i += 1;
            }
            assert(gossips@.take(i as int) =~= gossips@);
            assert(gossips_builder@.gossips.skip(before.gossips.len() as int) =~= gossips@);
        }
    }

    fn view(&mut self, view_builder: &mut ViewBuilder, all_nodes: &mut Nodes)
        ensures
            *final(self) == *old(self),
            final(all_nodes)@ == old(all_nodes)@,
            final(view_builder)@ == merged_all(
                old(view_builder)@,
                exported(old(self).peers(), old(all_nodes)@),
            ),
            old(self).peers().len() == 0 ==> final(view_builder)@ == old(view_builder)@,
    {
        let ghost combined = view_builder@;
        let ghost nodes = all_nodes@;
        proof {
            lemma_empty_view_exports_nothing(combined, nodes);
            assert(self.view@.take(0) =~= Seq::<Address>::empty());
        }
        let mut i: usize = 0;
        while i < self.view.len()
            invariant
                i <= self.view@.len(),
                all_nodes@.known == nodes.known,
                all_nodes@.available == nodes.available,
                view_builder@ == merged_all(combined, exported(self.view@.take(i as int), nodes)),
            decreases self.view@.len() - i,
        {
            let id = &self.view[i];
            proof {
                assert(self.view@.take(i + 1) =~= self.view@.take(i as int).push(*id));
                lemma_exported_push(combined, self.view@.take(i as int), nodes, *id);
            }
            if let Some(node) = all_nodes.peek_mut(id) {
                view_builder.add(node);
            }
            assert(all_nodes@.known =~= nodes.known);
            i += 1;
        }
        assert(self.view@.take(i as int) =~= self.view@);
        if self.view.len() == 0 {
            assert(self.view@ =~= Seq::<Address>::empty());
        }
    }
}

/// What selecting out of the candidates of a well-formed registry gives:
/// as many addresses as limit and candidates allow, none twice, each of them
/// a candidate.
proof fn lemma_selected_candidates(
    selected: Seq<Address>,
    to: NodeProfile,
    nodes: NodesView,
    excluded: Option<Address>,
    limit: nat,
)
    requires
        nodes.wf(),
        is_closest_selection(selected, to, candidates(nodes, excluded), limit),
    ensures
        selected.len() == selection_len(limit, candidates(nodes, excluded).len()),
        selected.no_duplicates(),
        forall|i: int|
            0 <= i < selected.len() ==> is_candidate(nodes, excluded, #[trigger] selected[i]),
        match excluded {
            Some(excluded) => !selected.contains(excluded),
            None => true,
        },
{
    let pool = candidates(nodes, excluded);
    lemma_candidates(nodes, excluded);
    lemma_selection_len(selected, to, pool, limit);
    lemma_selection_no_duplicates(selected, to, pool, limit);
    lemma_selection_from_pool(selected, to, pool, limit);
    assert forall|i: int| 0 <= i < selected.len() implies is_candidate(
        nodes,
        excluded,
        #[trigger] selected[i],
    ) by {
        assert(carries(pool, selected[i]));
        let at = choose|at: int| 0 <= at < pool.len() && #[trigger] pool[at].address == selected[i];
        assert(is_candidate(nodes, excluded, pool[at].address));
    }
}

impl Vicinity {
    /// The layer never holds more peers than it was made for, and none
    /// twice.
    #[verifier::type_invariant]
    pub open spec fn wf(&self) -> bool {
        &&& self.peers().len() <= self.max_view_size()
        &&& self.peers().no_duplicates()
    }

    /// The peers the layer holds, nearest first.
    pub closed spec fn peers(&self) -> Seq<Address> {
        self.view@
    }

    /// How many peers the layer holds at most.
    pub closed spec fn max_view_size(&self) -> nat {
        self.max_view_size as nat
    }

    /// How many peers the layer recommends at most to one recipient.
    pub closed spec fn max_gossip_length(&self) -> nat {
        self.max_gossip_length as nat
    }

    /// A layer that holds no peers yet, will hold at most `max_view_size`
    /// of them and recommend at most `max_gossip_length`.
    pub fn new(max_view_size: usize, max_gossip_length: usize) -> (layer: Vicinity)
        ensures
            layer.peers() == Seq::<Address>::empty(),
            layer.max_view_size() == max_view_size,
            layer.max_gossip_length() == max_gossip_length,
    {
        Vicinity { view: Vec::new(), max_view_size, max_gossip_length }
    }

    /// Selects, out of `profiles`, at most `max` of the nodes nearest to
    /// `to` and returns their addresses, nearest first. Nodes that are
    /// equally near come out in an order left to chance, and so does the
    /// choice among them where not all of them fit.
    pub fn select_closest_nodes<'a>(
        &self,
        to: &NodeProfile,
        profiles: Vec<&'a Node>,
        max: usize,
    ) -> (closest: Vec<Address>)
        ensures
            is_closest_selection(closest@, *to, nodes_of(profiles@), max as nat),
            closest@.len() == selection_len(max as nat, profiles@.len()),
            distinct_addresses(nodes_of(profiles@)) ==> closest@.no_duplicates(),
    {
        let ghost pool = nodes_of(profiles@);
        let mut shuffled = profiles;
        shuffle(&mut shuffled);
        let closest = rank_closest_nodes(to, shuffled, max);
        proof {
            broadcast use vstd::seq_lib::group_to_multiset_ensures;

            let ranked = choose|ranked: Seq<Node>| #[trigger]
                is_ranking(ranked, *to, nodes_of(shuffled@)) && closest@ == closest_of(
                    ranked,
                    max as nat,
                );
            assert(is_ranking(ranked, *to, pool));
            lemma_selection_len(closest@, *to, pool, max as nat);
            if distinct_addresses(pool) {
                lemma_selection_no_duplicates(closest@, *to, pool, max as nat);
            }
        }
        closest
    }
}

impl Clone for Vicinity {
    fn clone(&self) -> (copy: Vicinity)
        ensures
            copy.peers() == self.peers(),
            copy.max_view_size() == self.max_view_size(),
            copy.max_gossip_length() == self.max_gossip_length(),
    {
        proof {
            use_type_invariant(self);
        }
        let view = self.view.clone();
        assert(view@ =~= self.view@);
        Vicinity {
            view,
            max_view_size: self.max_view_size,
            max_gossip_length: self.max_gossip_length,
        }
    }
}

impl Default for Vicinity {
    fn default() -> (layer: Vicinity)
        ensures
            layer.peers() == Seq::<Address>::empty(),
            layer.max_view_size() == VICINITY_MAX_VIEW_SIZE,
            layer.max_gossip_length() == VICINITY_MAX_GOSSIP_LENGTH,
    {
        Vicinity {
            view: Vec::new(),
            max_view_size: VICINITY_MAX_VIEW_SIZE,
            max_gossip_length: VICINITY_MAX_GOSSIP_LENGTH,
        }
    }
}

} // verus!
