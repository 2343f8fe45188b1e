use vstd::prelude::*;

verus! {

/// The identifier of a peer. Two peers are the same peer exactly when their
/// addresses are equal; addresses are totally ordered by their number.
#[derive(Clone, Copy, Debug, PartialEq, Eq, Structural, PartialOrd, Ord, Hash)]
pub struct Address(pub u64);

impl Address {
    /// The address with the given number.
    pub fn new(id: u64) -> (address: Address)
        ensures
            address == Address(id),
    {
        Address(id)
    }

    /// The number that identifies this address.
    pub fn id(&self) -> (id: u64)
        ensures
            id == self.0,
    {
        self.0
    }
}

/// `list` with `address` merged in: appended if it is new, left alone if the
/// list already holds it.
pub open spec fn merged(list: Seq<Address>, address: Address) -> Seq<Address> {
    if list.contains(address) {
        list
    } else {
        list.push(address)
    }
}

/// Merging keeps a list free of duplicates.
pub proof fn lemma_merged_no_duplicates(list: Seq<Address>, address: Address)
    requires
        list.no_duplicates(),
    ensures
        merged(list, address).no_duplicates(),
        merged(list, address).contains(address),
{
    if !list.contains(address) {
        assert(list.push(address)[list.len() as int] == address);
    }
}

/// Whether `list` holds `address`.
pub fn contains_address(list: &Vec<Address>, address: &Address) -> (found: bool)
    ensures
        found == list@.contains(*address),
{
    let mut i: usize = 0;
    while i < list.len()
        invariant
            i <= list@.len(),
            forall|j: int| 0 <= j < i ==> list@[j] != *address,
        decreases list@.len() - i,
    {
        if list[i] == *address {
            return true;
        }
        i += 1;
    }
    false
}

} // verus!
