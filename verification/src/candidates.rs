use vstd::prelude::*;

use crate::address::Address;
use crate::node::Node;
use crate::nodes::{Nodes, NodesView};
use crate::selection::{distinct_addresses, nodes_of};

verus! {

/// Whether a registry offers the address `id` for selection when `excluded`
/// is left out: it is not the excluded address, and the registry can resolve
/// it.
pub open spec fn is_candidate(nodes: NodesView, excluded: Option<Address>, id: Address) -> bool {
    Some(id) != excluded && nodes.known.contains_key(id)
}

/// The nodes a registry offers for selection among the addresses `listed`:
/// the listed addresses in their order, without `excluded` and without those
/// the registry cannot resolve, each replaced by the node stored for it.
pub open spec fn candidates_among(
    nodes: NodesView,
    excluded: Option<Address>,
    listed: Seq<Address>,
) -> Seq<Node> {
    listed.filter(|id: Address| is_candidate(nodes, excluded, id)).map_values(
        |id: Address| nodes.known[id],
    )
}

/// The nodes a registry offers for selection: those among the addresses it
/// reports as available.
pub open spec fn candidates(nodes: NodesView, excluded: Option<Address>) -> Seq<Node> {
    candidates_among(nodes, excluded, nodes.available)
}

/// The address behind an optional borrowed address.
pub open spec fn owned(address: Option<&Address>) -> Option<Address> {
    match address {
        Some(address) => Some(*address),
        None => None,
    }
}

/// Listing one more address adds the node stored for it to the candidates
/// where the address is one, and nothing otherwise.
pub proof fn lemma_candidates_among_push(
    nodes: NodesView,
    excluded: Option<Address>,
    listed: Seq<Address>,
    id: Address,
)
    ensures
        candidates_among(nodes, excluded, listed.push(id)) == if is_candidate(nodes, excluded, id) {
            candidates_among(nodes, excluded, listed).push(nodes.known[id])
        } else {
            candidates_among(nodes, excluded, listed)
        },
{
    let keep = |id: Address| is_candidate(nodes, excluded, id);
    listed.lemma_filter_push(id, keep);
    if is_candidate(nodes, excluded, id) {
        assert(listed.filter(keep).push(id).map_values(|id: Address| nodes.known[id])
            =~= listed.filter(keep).map_values(|id: Address| nodes.known[id]).push(
            nodes.known[id],
        ));
    }
}

/// Filtering a list without duplicates leaves a list without duplicates.
pub proof fn lemma_filter_no_duplicates(listed: Seq<Address>, keep: spec_fn(Address) -> bool)
    requires
        listed.no_duplicates(),
    ensures
        listed.filter(keep).no_duplicates(),
    decreases listed.len(),
{
    reveal(Seq::filter);
    if listed.len() > 0 {
        let rest = listed.drop_last();
        lemma_filter_no_duplicates(rest, keep);
        if keep(listed.last()) {
            if rest.filter(keep).contains(listed.last()) {
                rest.lemma_filter_contains_rev(keep, listed.last());
                let at = choose|at: int| 0 <= at < rest.len() && rest[at] == listed.last();
                assert(listed[at] == listed[listed.len() - 1]);
            }
        }
    }
}

/// The candidates a well-formed registry offers carry pairwise distinct
/// addresses, each of them listed as available and known to the registry,
/// and none of them the excluded one.
pub proof fn lemma_candidates(nodes: NodesView, excluded: Option<Address>)
    requires
        nodes.wf(),
    ensures
        distinct_addresses(candidates(nodes, excluded)),
        forall|at: int|
            0 <= at < candidates(nodes, excluded).len() ==> is_candidate(
                nodes,
                excluded,
                #[trigger] candidates(nodes, excluded)[at].address,
            ),
{
    broadcast use vstd::seq_lib::group_filter_ensures;

    let keep = |id: Address| is_candidate(nodes, excluded, id);
    let kept = nodes.available.filter(keep);
    lemma_filter_no_duplicates(nodes.available, keep);
    assert forall|at: int| 0 <= at < kept.len() implies is_candidate(
        nodes,
        excluded,
        #[trigger] kept[at],
    ) && candidates(nodes, excluded)[at].address == kept[at] by {
        assert(keep(kept[at]));
    }
}

/// The nodes that `all_nodes` offers for selection when `excluded` is left
/// out: every available address but `excluded` that the registry resolves,
/// as the node stored for it. Addresses it cannot resolve are passed over.
pub fn available_candidates<'a>(
    all_nodes: &'a Nodes,
    excluded: Option<&Address>,
) -> (pool: Vec<&'a Node>)
    ensures
        nodes_of(pool@) == candidates(all_nodes@, owned(excluded)),
{
    let available = all_nodes.available_nodes();
    let mut pool: Vec<&'a Node> = Vec::new();
    let mut i: usize = 0;
    while i < available.len()
        invariant
            i <= available@.len(),
            available@ == all_nodes@.available,
            nodes_of(pool@) == candidates_among(
                all_nodes@,
                owned(excluded),
                available@.take(i as int),
            ),
        decreases available@.len() - i,
    {
        let id = &available[i];
        proof {
            assert(available@.take(i + 1) =~= available@.take(i as int).push(*id));
            lemma_candidates_among_push(
                all_nodes@,
                owned(excluded),
                available@.take(i as int),
                *id,
            );
        }
        let excluded_here = match excluded {
            Some(excluded) => *id == *excluded,
            None => false,
        };
        if !excluded_here {
            if let Some(node) = all_nodes.peek(id) {
                let ghost before = pool@;
                pool.push(node);
                assert(nodes_of(pool@) =~= nodes_of(before).push(*node));
            }
        }
        i += 1;
    }
    assert(available@.take(i as int) =~= available@);
    pool
}

} // verus!
