use vstd::prelude::*;

use crate::address::{contains_address, lemma_merged_no_duplicates, merged, Address};
use crate::node::Node;

verus! {

/// What a registry holds, as contracts see it.
pub struct NodesView {
    /// The node stored for each address the registry can resolve.
    pub known: Map<Address, Node>,
    /// The addresses the registry reports as available, in the order it
    /// enumerates them. An address may be listed here and still be unknown.
    pub available: Seq<Address>,
}

impl NodesView {
    /// No address is listed twice, and every node is stored under the address
    /// that it carries.
    pub open spec fn wf(self) -> bool {
        &&& self.available.no_duplicates()
        &&& forall|id: Address| #[trigger]
            self.known.contains_key(id) ==> self.known[id].address == id
    }
}

/// `at` is the first place in `all` whose node carries the address `id`.
pub open spec fn stored_at(all: Seq<Node>, id: Address, at: int) -> bool {
    &&& 0 <= at < all.len()
    &&& all[at].address == id
    &&& forall|before: int| 0 <= before < at ==> all[before].address != id
}

/// The lookup table that a list of nodes stands for: each address leads to
/// the first node in the list that carries it.
pub open spec fn known_of(all: Seq<Node>) -> Map<Address, Node> {
    Map::new(
        |id: Address| exists|at: int| stored_at(all, id, at),
        |id: Address| all[choose|at: int| stored_at(all, id, at)],
    )
}

/// An address has at most one first place.
pub proof fn lemma_stored_at_unique(all: Seq<Node>, id: Address, at: int, other: int)
    requires
        stored_at(all, id, at),
        stored_at(all, id, other),
    ensures
        at == other,
{
    if at < other {
        assert(all[at].address != id);
    } else if other < at {
        assert(all[other].address != id);
    }
}

/// Where `id` is first stored at `at`, the table leads from `id` to that node.
pub proof fn lemma_known_at(all: Seq<Node>, id: Address, at: int)
    requires
        stored_at(all, id, at),
    ensures
        known_of(all).contains_key(id),
        known_of(all)[id] == all[at],
{
    let chosen = choose|at: int| stored_at(all, id, at);
    lemma_stored_at_unique(all, id, at, chosen);
}

/// Where no node in the list carries `id`, the table does not hold `id`.
pub proof fn lemma_unknown(all: Seq<Node>, id: Address)
    requires
        forall|at: int| 0 <= at < all.len() ==> all[at].address != id,
    ensures
        !known_of(all).contains_key(id),
{
}

/// Every node in the table is found under its own address.
pub proof fn lemma_known_by_own_address(all: Seq<Node>)
    ensures
        forall|id: Address| #[trigger]
            known_of(all).contains_key(id) ==> known_of(all)[id].address == id,
{
}

/// Two lists that carry the same addresses place by place store every
/// address at the same place.
pub proof fn lemma_stored_at_same_addresses(
    all: Seq<Node>,
    other: Seq<Node>,
    id: Address,
    at: int,
)
    requires
        all.len() == other.len(),
        forall|i: int| 0 <= i < all.len() ==> all[i].address == other[i].address,
    ensures
        stored_at(other, id, at) == stored_at(all, id, at),
{
    if stored_at(all, id, at) {
        assert forall|before: int| 0 <= before < at implies other[before].address != id by {
            assert(all[before].address != id);
        }
    }
    if stored_at(other, id, at) {
        assert forall|before: int| 0 <= before < at implies all[before].address != id by {
            assert(other[before].address != id);
        }
    }
}

/// Replacing the first node stored for `id` by another node with the same
/// address changes the table at `id` and nowhere else.
pub proof fn lemma_known_update(all: Seq<Node>, id: Address, at: int, node: Node)
    requires
        stored_at(all, id, at),
        node.address == id,
    ensures
        known_of(all.update(at, node)) == known_of(all).insert(id, node),
{
    let after = all.update(at, node);
    assert forall|a: Address, i: int| stored_at(after, a, i) == stored_at(all, a, i) by {
        lemma_stored_at_same_addresses(all, after, a, i);
    }
    lemma_known_at(all, id, at);
    lemma_known_at(after, id, at);
    assert forall|a: Address| a != id && known_of(all).contains_key(a) implies known_of(after)[a]
        == known_of(all)[a] by {
        let i = choose|i: int| stored_at(all, a, i);
        lemma_known_at(all, a, i);
        lemma_known_at(after, a, i);
    }
    assert(known_of(after) =~= known_of(all).insert(id, node));
}

/// Appending a node whose address no node in the list carries adds it to the
/// table and changes nothing else.
pub proof fn lemma_known_push(all: Seq<Node>, node: Node)
    requires
        forall|at: int| 0 <= at < all.len() ==> all[at].address != node.address,
    ensures
        known_of(all.push(node)) == known_of(all).insert(node.address, node),
{
    let after = all.push(node);
    let id = node.address;
    assert(stored_at(after, id, all.len() as int));
    lemma_known_at(after, id, all.len() as int);
    assert forall|a: Address| a != id implies known_of(after).contains_key(a) == known_of(
        all,
    ).contains_key(a) by {
        if known_of(after).contains_key(a) {
            let i = choose|i: int| stored_at(after, a, i);
            assert(after[i].address == a);
            assert forall|before: int| 0 <= before < i implies all[before].address != a by {
                assert(after[before].address != a);
            }
            assert(stored_at(all, a, i));
        }
        if known_of(all).contains_key(a) {
            let i = choose|i: int| stored_at(all, a, i);
            assert forall|before: int| 0 <= before < i implies after[before].address != a by {
                assert(all[before].address != a);
            }
            assert(stored_at(after, a, i));
        }
    }
    assert forall|a: Address| a != id && known_of(all).contains_key(a) implies known_of(after)[a]
        == known_of(all)[a] by {
        let i = choose|i: int| stored_at(all, a, i);
        assert forall|before: int| 0 <= before < i implies after[before].address != a by {
            assert(all[before].address != a);
        }
        assert(stored_at(after, a, i));
        lemma_known_at(all, a, i);
        lemma_known_at(after, a, i);
    }
    assert(known_of(after) =~= known_of(all).insert(id, node));
}

/// Taking a node out of the list changes nothing for the addresses that the
/// node does not carry.
pub proof fn lemma_known_remove_other(all: Seq<Node>, at: int, id: Address)
    requires
        0 <= at < all.len(),
        all[at].address != id,
    ensures
        known_of(all.remove(at)).get(id) == known_of(all).get(id),
{
    let after = all.remove(at);
    if known_of(all).contains_key(id) {
        let i = choose|i: int| stored_at(all, id, i);
        let moved = if i < at {
            i
        } else {
            i - 1
        };
        assert forall|before: int| 0 <= before < moved implies after[before].address != id by {
            if before < at {
                assert(all[before].address != id);
            } else {
                assert(all[before + 1].address != id);
            }
        }
        assert(stored_at(after, id, moved));
        lemma_known_at(all, id, i);
        lemma_known_at(after, id, moved);
    }
    if known_of(after).contains_key(id) {
        let i = choose|i: int| stored_at(after, id, i);
        let origin = if i < at {
            i
        } else {
            i + 1
        };
        assert forall|before: int| 0 <= before < origin implies all[before].address != id by {
            if before < at {
                assert(after[before].address != id);
            } else if before > at {
                assert(after[before - 1].address != id);
            }
        }
        assert(stored_at(all, id, origin));
    }
}

/// The registry of the peers a node has heard of. It lists the addresses that
/// are currently available and resolves an address to the node stored for it.
/// The two are kept separately: an address can be listed while no node is
/// stored for it, and callers treat that as a normal condition.
#[derive(Debug)]
pub struct Nodes {
    all: Vec<Node>,
    available: Vec<Address>,
}

/// The first place of `all` at which a node with address `id` is stored.
fn position_in(all: &Vec<Node>, id: &Address) -> (at: Option<usize>)
    ensures
        match at {
            Some(at) => stored_at(all@, *id, at as int),
            None => forall|i: int| 0 <= i < all@.len() ==> all@[i].address != *id,
        },
{
    let mut i: usize = 0;
    while i < all.len()
        invariant
            i <= all@.len(),
            forall|j: int| 0 <= j < i ==> all@[j].address != *id,
        decreases all@.len() - i,
    {
        if all[i].address == *id {
            return Some(i);
        }
        i += 1;
    }
    None
}

impl View for Nodes {
    type V = NodesView;

    closed spec fn view(&self) -> NodesView {
        NodesView { known: known_of(self.all@), available: self.available@ }
    }
}

impl Nodes {
    /// No address is listed twice.
    #[verifier::type_invariant]
    pub open spec fn wf(&self) -> bool {
        self@.available.no_duplicates()
    }

    /// A registry that knows no node and lists no address.
    pub fn new() -> (nodes: Nodes)
        ensures
            nodes@.known == Map::<Address, Node>::empty(),
            nodes@.available == Seq::<Address>::empty(),
            nodes.wf(),
    {
        let nodes = Nodes { all: Vec::new(), available: Vec::new() };
        assert(nodes@.known =~= Map::<Address, Node>::empty());
        nodes
    }

    /// What a registry holds is well-formed: it lists no address twice, and
    /// it stores every node under the address that the node carries.
    pub proof fn lemma_view_wf(&self)
        requires
            self.wf(),
        ensures
            self@.wf(),
    {
        lemma_known_by_own_address(self.all@);
    }

    /// The addresses that are currently available.
    pub fn available_nodes(&self) -> (available: &Vec<Address>)
        ensures
            available@ == self@.available,
            available@.no_duplicates(),
    {
        proof {
            use_type_invariant(self);
        }
        &self.available
    }

    /// The node stored for `id`, if there is one.
    pub fn peek(&self, id: &Address) -> (node: Option<&Node>)
        ensures
            match node {
                Some(node) => self@.known.contains_key(*id) && self@.known[*id] == *node
                    && node.address == *id,
                None => !self@.known.contains_key(*id),
            },
    {
        match position_in(&self.all, id) {
            Some(at) => {
                proof {
                    lemma_known_at(self.all@, *id, at as int);
                }
                Some(&self.all[at])
            },
            None => {
                proof {
                    lemma_unknown(self.all@, *id);
                }
                None
            },
        }
    }

    /// A mutable handle on the node stored for `id`, if there is one. What the
    /// caller leaves in the handle is what the registry then stores for `id`,
    /// as long as it still carries the address `id`.
    pub fn peek_mut(&mut self, id: &Address) -> (node: Option<&mut Node>)
        ensures
            final(self)@.available == old(self)@.available,
            match node {
                Some(node) => old(self)@.known.contains_key(*id) && old(self)@.known[*id] == *node
                    && node.address == *id && (final(node).address == *id ==> final(self)@.known
                    == old(self)@.known.insert(*id, *final(node))),
                None => !old(self)@.known.contains_key(*id) && final(self)@.known == old(
                    self,
                )@.known,
            },
    {
        match position_in(&self.all, id) {
            Some(at) => {
                proof {
                    use_type_invariant(&*self);
                    lemma_known_at(self.all@, *id, at as int);
                    assert forall|node: Node| node.address == *id implies #[trigger] known_of(
                        self.all@.update(at as int, node),
                    ) == known_of(self.all@).insert(*id, node) by {
                        lemma_known_update(self.all@, *id, at as int, node);
                    }
                }
                Some(&mut self.all[at])
            },
            None => {
                proof {
                    lemma_unknown(self.all@, *id);
                }
                None
            },
        }
    }

    /// Stores `node` under the address it carries, in place of the node stored
    /// there before, which is returned, and lists the address as available.
    pub fn insert(&mut self, node: Node) -> (previous: Option<Node>)
        ensures
            final(self)@.known == old(self)@.known.insert(node.address, node),
            final(self)@.available == merged(old(self)@.available, node.address),
            previous == old(self)@.known.get(node.address),
    {
        proof {
            use_type_invariant(&*self);
            lemma_merged_no_duplicates(self.available@, node.address);
        }
        let mut all: Vec<Node> = Vec::new();
        let mut available: Vec<Address> = Vec::new();
        std::mem::swap(&mut self.all, &mut all);
        std::mem::swap(&mut self.available, &mut available);
        let previous = match position_in(&all, &node.address) {
            Some(at) => {
                proof {
                    lemma_known_at(all@, node.address, at as int);
                    lemma_known_update(all@, node.address, at as int, node);
                }
                let previous = all[at];
                all[at] = node;
                Some(previous)
            },
            None => {
                proof {
                    lemma_unknown(all@, node.address);
                    lemma_known_push(all@, node);
                }
                all.push(node);
                None
            },
        };
        if !contains_address(&available, &node.address) {
            available.push(node.address);
        }
        self.all = all;
        self.available = available;
        previous
    }

    /// Forgets the node stored for `id` and returns it. The address stays
    /// listed as available: the list is not brought up to date with what the
    /// registry can resolve.
    pub fn evict(&mut self, id: &Address) -> (evicted: Option<Node>)
        ensures
            final(self)@.known == old(self)@.known.remove(*id),
            final(self)@.available == old(self)@.available,
            evicted == old(self)@.known.get(*id),
    {
        proof {
            use_type_invariant(&*self);
        }
        let mut all: Vec<Node> = Vec::new();
        std::mem::swap(&mut self.all, &mut all);
        let ghost before = all@;
        let mut evicted: Option<Node> = None;
        loop
            invariant
                self.available@ == old(self).available@,
                self.available@.no_duplicates(),
                forall|other: Address|
                    other != *id ==> #[trigger] known_of(all@).get(other) == known_of(before).get(
                        other,
                    ),
                match evicted {
                    Some(_) => evicted == known_of(before).get(*id),
                    None => known_of(all@).get(*id) == known_of(before).get(*id),
                },
            ensures
                !known_of(all@).contains_key(*id),
            decreases all@.len(),
        {
            match position_in(&all, id) {
                Some(at) => {
                    proof {
                        lemma_known_at(all@, *id, at as int);
                        assert forall|other: Address| other != *id implies #[trigger] known_of(
                            all@.remove(at as int),
                        ).get(other) == known_of(all@).get(other) by {
                            lemma_known_remove_other(all@, at as int, other);
                        }
                    }
                    let node = all.remove(at);
                    if evicted.is_none() {
                        evicted = Some(node);
                    }
                },
                None => {
                    proof {
                        lemma_unknown(all@, *id);
                    }
                    break ;
                },
            }
        }
        assert forall|other: Address| #[trigger]
            known_of(all@).dom().contains(other) == known_of(before).remove(*id).dom().contains(
                other,
            ) by {
            if other != *id {
                assert(known_of(all@).get(other) == known_of(before).get(other));
            }
        }
        assert(known_of(all@).dom() =~= known_of(before).remove(*id).dom());
        assert forall|other: Address| #[trigger]
            known_of(all@).dom().contains(other) implies known_of(all@)[other] == known_of(
            before,
        ).remove(*id)[other] by {
            assert(known_of(all@).get(other) == known_of(before).get(other));
        }
        assert(known_of(all@) =~= known_of(before).remove(*id));
        self.all = all;
        evicted
    }
}

} // verus!
