use rand::seq::SliceRandom;
use rayon::slice::ParallelSliceMut;
use std::cmp::Ordering;
use vstd::prelude::*;

use crate::address::Address;
use crate::node::{Node, NodeProfile};

verus! {

/// The nodes that a list of borrowed nodes points at.
pub open spec fn nodes_of(profiles: Seq<&Node>) -> Seq<Node> {
    profiles.map_values(|node: &Node| *node)
}

/// The addresses of a list of nodes, place by place.
pub open spec fn addresses_of(nodes: Seq<Node>) -> Seq<Address> {
    nodes.map_values(|node: Node| node.address)
}

/// No two places of the list carry the same address.
pub open spec fn distinct_addresses(nodes: Seq<Node>) -> bool {
    forall|i: int, j: int| 0 <= i < j < nodes.len() ==> nodes[i].address != nodes[j].address
}

/// Some node of the list carries `address`.
pub open spec fn carries(nodes: Seq<Node>, address: Address) -> bool {
    exists|at: int| 0 <= at < nodes.len() && #[trigger] nodes[at].address == address
}

/// The list runs from the nodes nearest to `to` to those farthest from it.
pub open spec fn sorted_by_distance(to: NodeProfile, nodes: Seq<Node>) -> bool {
    forall|i: int, j: int|
        0 <= i <= j < nodes.len() ==> to.distance(&nodes[i].profile) <= to.distance(
            &nodes[j].profile,
        )
}

/// `ranked` holds exactly the nodes of `pool`, nearest to `to` first. Nodes at
/// the same distance may stand in any order.
pub open spec fn is_ranking(ranked: Seq<Node>, to: NodeProfile, pool: Seq<Node>) -> bool {
    &&& ranked.to_multiset() == pool.to_multiset()
    &&& sorted_by_distance(to, ranked)
}

/// How many nodes a selection of at most `limit` out of `available` holds.
pub open spec fn selection_len(limit: nat, available: nat) -> nat {
    if limit <= available {
        limit
    } else {
        available
    }
}

/// The addresses of the first `limit` nodes of `ranked`, or of all of them
/// where it holds fewer.
pub open spec fn closest_of(ranked: Seq<Node>, limit: nat) -> Seq<Address> {
    addresses_of(ranked.take(selection_len(limit, ranked.len()) as int))
}

/// `selected` is what selecting at most `limit` of the nodes of `pool` nearest
/// to `to` may give: the head of some ranking of the pool. Which ranking is
/// left open, so that nodes at the same distance may come out in any order,
/// and any of them may be the ones to fall behind the limit.
pub open spec fn is_closest_selection(
    selected: Seq<Address>,
    to: NodeProfile,
    pool: Seq<Node>,
    limit: nat,
) -> bool {
    exists|ranked: Seq<Node>| #[trigger]
        is_ranking(ranked, to, pool) && selected == closest_of(ranked, limit)
}

/// Every node of a list is found in each of its rearrangements.
pub proof fn lemma_rearranged_contains(pool: Seq<Node>, ranked: Seq<Node>, at: int)
    requires
        ranked.to_multiset() == pool.to_multiset(),
        0 <= at < pool.len(),
    ensures
        exists|r: int| 0 <= r < ranked.len() && ranked[r] == pool[at],
{
    broadcast use vstd::seq_lib::group_to_multiset_ensures;

    assert(pool.contains(pool[at]));
    assert(ranked.to_multiset().count(pool[at]) > 0);
    assert(ranked.contains(pool[at]));
}

/// A rearrangement of a list with distinct addresses has distinct addresses.
pub proof fn lemma_rearranged_distinct(pool: Seq<Node>, ranked: Seq<Node>)
    requires
        ranked.to_multiset() == pool.to_multiset(),
        distinct_addresses(pool),
    ensures
        distinct_addresses(ranked),
{
    assert(pool.no_duplicates());
    pool.lemma_multiset_has_no_duplicates();
    ranked.lemma_multiset_has_no_duplicates_conv();
    assert forall|i: int, j: int| 0 <= i < j < ranked.len() implies ranked[i].address
        != ranked[j].address by {
        lemma_rearranged_contains(ranked, pool, i);
        lemma_rearranged_contains(ranked, pool, j);
        let p = choose|p: int| 0 <= p < pool.len() && pool[p] == ranked[i];
        let q = choose|q: int| 0 <= q < pool.len() && pool[q] == ranked[j];
        assert(p != q);
    }
}

/// A selection holds as many addresses as the limit allows and the pool
/// offers: the smaller of the two.
pub proof fn lemma_selection_len(
    selected: Seq<Address>,
    to: NodeProfile,
    pool: Seq<Node>,
    limit: nat,
)
    requires
        is_closest_selection(selected, to, pool, limit),
    ensures
        selected.len() == selection_len(limit, pool.len()),
{
    broadcast use vstd::seq_lib::group_to_multiset_ensures;

    let ranked = choose|ranked: Seq<Node>| #[trigger]
        is_ranking(ranked, to, pool) && selected == closest_of(ranked, limit);
    assert(ranked.len() == ranked.to_multiset().len());
    assert(pool.len() == pool.to_multiset().len());
}

/// Every selected address is carried by a node of the pool.
pub proof fn lemma_selection_from_pool(
    selected: Seq<Address>,
    to: NodeProfile,
    pool: Seq<Node>,
    limit: nat,
)
    requires
        is_closest_selection(selected, to, pool, limit),
    ensures
        forall|i: int| 0 <= i < selected.len() ==> carries(pool, #[trigger] selected[i]),
{
    let ranked = choose|ranked: Seq<Node>| #[trigger]
        is_ranking(ranked, to, pool) && selected == closest_of(ranked, limit);
    assert forall|i: int| 0 <= i < selected.len() implies carries(pool, #[trigger] selected[i]) by {
        lemma_rearranged_contains(ranked, pool, i);
        let p = choose|p: int| 0 <= p < pool.len() && pool[p] == ranked[i];
        assert(pool[p].address == selected[i]);
    }
}

/// A selection out of a pool in which no two nodes carry the same address
/// holds no address twice.
pub proof fn lemma_selection_no_duplicates(
    selected: Seq<Address>,
    to: NodeProfile,
    pool: Seq<Node>,
    limit: nat,
)
    requires
        is_closest_selection(selected, to, pool, limit),
        distinct_addresses(pool),
    ensures
        selected.no_duplicates(),
{
    let ranked = choose|ranked: Seq<Node>| #[trigger]
        is_ranking(ranked, to, pool) && selected == closest_of(ranked, limit);
    lemma_rearranged_distinct(pool, ranked);
}

/// A selection is sorted and holds the nearest nodes of the pool: it is the
/// list of addresses of some nodes `chosen` that run from nearest to farthest,
/// and `chosen` together with the nodes left out, `rest`, makes up the pool,
/// and no node left out is nearer to the target than a chosen one.
pub proof fn lemma_selection_nearest(
    selected: Seq<Address>,
    to: NodeProfile,
    pool: Seq<Node>,
    limit: nat,
)
    requires
        is_closest_selection(selected, to, pool, limit),
    ensures
        exists|chosen: Seq<Node>, rest: Seq<Node>|
            {
                &&& selected == #[trigger] addresses_of(chosen)
                &&& sorted_by_distance(to, chosen)
                &&& #[trigger] (chosen + rest).to_multiset() == pool.to_multiset()
                &&& forall|i: int, j: int|
                    0 <= i < chosen.len() && 0 <= j < rest.len() ==> to.distance(
                        &chosen[i].profile,
                    ) <= to.distance(&rest[j].profile)
            },
{
    let ranked = choose|ranked: Seq<Node>| #[trigger]
        is_ranking(ranked, to, pool) && selected == closest_of(ranked, limit);
    let k = selection_len(limit, ranked.len()) as int;
    let chosen = ranked.take(k);
    let rest = ranked.skip(k);
    assert(chosen + rest =~= ranked);
    assert(selected == addresses_of(chosen));
    assert((chosen + rest).to_multiset() == pool.to_multiset());
}

/// Among the nodes of a pool in which no two carry the same address, the
/// selected ones come out nearest first, and none that was left out is nearer
/// to the target than one that was selected.
pub proof fn lemma_selection_nearest_by_address(
    selected: Seq<Address>,
    to: NodeProfile,
    pool: Seq<Node>,
    limit: nat,
)
    requires
        is_closest_selection(selected, to, pool, limit),
        distinct_addresses(pool),
    ensures
        forall|i: int, j: int, p: int, q: int|
            #![trigger selected[i], selected[j], pool[p], pool[q]]
            0 <= i <= j < selected.len() && 0 <= p < pool.len() && 0 <= q < pool.len()
                && pool[p].address == selected[i] && pool[q].address == selected[j]
                ==> to.distance(&pool[p].profile) <= to.distance(&pool[q].profile),
        forall|p: int, q: int|
            0 <= p < pool.len() && 0 <= q < pool.len() && selected.contains(
                #[trigger] pool[p].address,
            ) && !selected.contains(#[trigger] pool[q].address) ==> to.distance(&pool[p].profile)
                <= to.distance(&pool[q].profile),
{
    let ranked = choose|ranked: Seq<Node>| #[trigger]
        is_ranking(ranked, to, pool) && selected == closest_of(ranked, limit);
    let k = selection_len(limit, ranked.len()) as int;
    lemma_rearranged_distinct(pool, ranked);
    assert forall|i: int, p: int|
        #![trigger selected[i], pool[p]]
        0 <= i < selected.len() && 0 <= p < pool.len() && pool[p].address
            == selected[i] implies pool[p] == ranked[i] by {
        lemma_rearranged_contains(pool, ranked, p);
        let r = choose|r: int| 0 <= r < ranked.len() && ranked[r] == pool[p];
        assert(ranked[i].address == selected[i]);
        assert(r == i);
    }
    assert forall|p: int, q: int|
        0 <= p < pool.len() && 0 <= q < pool.len() && selected.contains(
            #[trigger] pool[p].address,
        ) && !selected.contains(#[trigger] pool[q].address) implies to.distance(&pool[p].profile)
        <= to.distance(&pool[q].profile) by {
        let i = choose|i: int| 0 <= i < selected.len() && selected[i] == pool[p].address;
        assert(pool[p] == ranked[i]);
        lemma_rearranged_contains(pool, ranked, q);
        let r = choose|r: int| 0 <= r < ranked.len() && ranked[r] == pool[q];
        if r < k {
            assert(selected[r] == pool[q].address);
        }
    }
}

/// No two nodes of the list are equally near to `to`.
pub open spec fn distinct_distances(to: NodeProfile, nodes: Seq<Node>) -> bool {
    forall|i: int, j: int|
        0 <= i < j < nodes.len() ==> to.distance(&nodes[i].profile) != to.distance(
            &nodes[j].profile,
        )
}

/// A rearrangement of a list in which no two nodes are equally near to `to`
/// is such a list too.
pub proof fn lemma_rearranged_distinct_distances(
    to: NodeProfile,
    pool: Seq<Node>,
    ranked: Seq<Node>,
)
    requires
        ranked.to_multiset() == pool.to_multiset(),
        distinct_distances(to, pool),
    ensures
        distinct_distances(to, ranked),
{
    assert(pool.no_duplicates());
    pool.lemma_multiset_has_no_duplicates();
    ranked.lemma_multiset_has_no_duplicates_conv();
    assert forall|i: int, j: int| 0 <= i < j < ranked.len() implies to.distance(
        &ranked[i].profile,
    ) != to.distance(&ranked[j].profile) by {
        lemma_rearranged_contains(ranked, pool, i);
        lemma_rearranged_contains(ranked, pool, j);
        let p = choose|p: int| 0 <= p < pool.len() && pool[p] == ranked[i];
        let q = choose|q: int| 0 <= q < pool.len() && pool[q] == ranked[j];
        assert(p != q);
    }
}

/// Two lists that hold the same nodes, both nearest first, are the same list
/// where no two of the nodes are equally near.
pub proof fn lemma_sorted_rearrangements_equal(
    to: NodeProfile,
    first: Seq<Node>,
    second: Seq<Node>,
)
    requires
        first.to_multiset() == second.to_multiset(),
        sorted_by_distance(to, first),
        sorted_by_distance(to, second),
        distinct_distances(to, first),
    ensures
        first == second,
    decreases first.len(),
{
    broadcast use vstd::seq_lib::group_to_multiset_ensures;

    assert(first.len() == first.to_multiset().len());
    assert(second.len() == second.to_multiset().len());
    if first.len() == 0 {
        assert(first =~= second);
    } else {
        let last = first.len() - 1;
        lemma_rearranged_contains(first, second, last);
        lemma_rearranged_contains(second, first, last);
        let j = choose|j: int| 0 <= j < second.len() && second[j] == first[last];
        let i = choose|i: int| 0 <= i < first.len() && first[i] == second[last];
        assert(to.distance(&first[i].profile) <= to.distance(&first[last].profile));
        assert(to.distance(&second[j].profile) <= to.distance(&second[last].profile));
        assert(i == last);
        assert(first.remove(last) =~= first.drop_last());
        assert(second.remove(last) =~= second.drop_last());
        lemma_sorted_rearrangements_equal(to, first.drop_last(), second.drop_last());
        assert(first =~= first.drop_last().push(first[last]));
        assert(second =~= second.drop_last().push(second[last]));
    }
}

/// Where no two nodes of the pool are equally near to the target, chance has
/// no say: there is one selection only.
pub proof fn lemma_selection_unique(
    first: Seq<Address>,
    second: Seq<Address>,
    to: NodeProfile,
    pool: Seq<Node>,
    limit: nat,
)
    requires
        is_closest_selection(first, to, pool, limit),
        is_closest_selection(second, to, pool, limit),
        distinct_distances(to, pool),
    ensures
        first == second,
{
    let ranked = choose|ranked: Seq<Node>| #[trigger]
        is_ranking(ranked, to, pool) && first == closest_of(ranked, limit);
    let other = choose|other: Seq<Node>| #[trigger]
        is_ranking(other, to, pool) && second == closest_of(other, limit);
    lemma_rearranged_distinct_distances(to, pool, ranked);
    lemma_sorted_rearrangements_equal(to, ranked, other);
}

/// Orders two nodes by how near their interests lie to those of `to`.
pub fn by_proximity(to: &NodeProfile, left: &Node, right: &Node) -> (order: Ordering)
    ensures
        order == Ordering::Less <==> to.distance(&left.profile) < to.distance(&right.profile),
        order == Ordering::Equal <==> to.distance(&left.profile) == to.distance(&right.profile),
        order == Ordering::Greater <==> to.distance(&left.profile) > to.distance(&right.profile),
{
    let left_proximity = to.proximity(left.profile());
    let right_proximity = to.proximity(right.profile());
    if left_proximity < right_proximity {
        Ordering::Less
    } else if left_proximity == right_proximity {
        Ordering::Equal
    } else {
        Ordering::Greater
    }
}

/// Calls `rand::seq::SliceRandom::shuffle` on the list, with the generator
/// that `rand::thread_rng` hands out. The shuffle only swaps places of the
/// list, so what comes out holds the same nodes as what went in. In which
/// order is left to chance and nothing is claimed of it.
#[verifier::external_body]
pub(crate) fn shuffle<'a>(profiles: &mut Vec<&'a Node>)
    ensures
        nodes_of(final(profiles)@).to_multiset() == nodes_of(old(profiles)@).to_multiset(),
{
    profiles.shuffle(&mut rand::thread_rng());
}

/// Calls `rayon::slice::ParallelSliceMut::par_sort_unstable_by` on the list,
/// comparing nodes with `by_proximity`. The sort rearranges the list in place
/// into the order of the comparison; nodes that compare equal may end up in
/// any order.
#[verifier::external_body]
fn sort_by_proximity<'a>(to: &NodeProfile, profiles: &mut Vec<&'a Node>)
    ensures
        nodes_of(final(profiles)@).to_multiset() == nodes_of(old(profiles)@).to_multiset(),
        sorted_by_distance(*to, nodes_of(final(profiles)@)),
{
    profiles.par_sort_unstable_by(|left, right| by_proximity(to, left, right));
}

/// Selects, out of `profiles`, at most `max` of the nodes nearest to `to` and
/// returns their addresses, nearest first. No random source is drawn on here:
/// this is the selection for callers who bring the nodes in an order of
/// their own choosing.
pub fn rank_closest_nodes<'a>(
    to: &NodeProfile,
    profiles: Vec<&'a Node>,
    max: usize,
) -> (closest: Vec<Address>)
    ensures
        is_closest_selection(closest@, *to, nodes_of(profiles@), max as nat),
        closest@.len() == selection_len(max as nat, profiles@.len()),
        distinct_addresses(nodes_of(profiles@)) ==> closest@.no_duplicates(),
{
    let mut ranked = profiles;
    sort_by_proximity(to, &mut ranked);
    let closest = closest_addresses(&ranked, max);
    proof {
        assert(is_ranking(nodes_of(ranked@), *to, nodes_of(profiles@)));
        lemma_selection_len(closest@, *to, nodes_of(profiles@), max as nat);
        if distinct_addresses(nodes_of(profiles@)) {
            lemma_selection_no_duplicates(closest@, *to, nodes_of(profiles@), max as nat);
        }
    }
    closest
}

/// The addresses of the first `max` nodes of `ranked`, or of all of them where
/// it holds fewer.
pub fn closest_addresses(ranked: &Vec<&Node>, max: usize) -> (closest: Vec<Address>)
    ensures
        closest@ == closest_of(nodes_of(ranked@), max as nat),
{
    let mut closest: Vec<Address> = Vec::new();
    let mut i: usize = 0;
    while i < ranked.len() && i < max
        invariant
            i <= ranked@.len(),
            i <= max,
            closest@ == addresses_of(nodes_of(ranked@).take(i as int)),
        decreases ranked@.len() - i,
    {
        closest.push(*ranked[i].address());
        i += 1;
    }
    closest
}

} // verus!
