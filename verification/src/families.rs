//! The queue families that may access a pool's buffers, kept in a small
//! vector that stays on the stack for the usual handful of families.

use smallvec::SmallVec;
use vstd::prelude::*;

verus! {

/// The ids of the queue families that may access a pool's buffers, kept in
/// a `smallvec::SmallVec` that holds up to four ids without allocating.
/// What it holds is not visible to the verifier: `family_ids` names it, and
/// the three functions below say what `SmallVec` does to it.
#[verifier::external_body]
pub struct QueueFamilies {
    ids: SmallVec<[u32; 4]>,
}

/// The ids that a small vector of queue families holds, in order.
pub uninterp spec fn family_ids(families: QueueFamilies) -> Seq<u32>;

/// Calls `SmallVec::from_vec`, which takes over the elements of `ids`: the
/// small vector holds them, in their order.
#[verifier::external_body]
pub(crate) fn families_from_vec(ids: Vec<u32>) -> (families: QueueFamilies)
    ensures
        family_ids(families) == ids@,
{
    QueueFamilies { ids: SmallVec::from_vec(ids) }
}

/// Calls `SmallVec::len`, which returns the number of elements held.
#[verifier::external_body]
pub(crate) fn families_len(families: &QueueFamilies) -> (n: usize)
    ensures
        n == family_ids(*families).len(),
{
    families.ids.len()
}

/// Calls `SmallVec::as_slice`, which returns the elements held, in their
/// order, as a slice.
#[verifier::external_body]
pub(crate) fn families_as_slice(families: &QueueFamilies) -> (ids: &[u32])
    ensures
        ids@ == family_ids(*families),
{
    families.ids.as_slice()
}

/// How the queue families share a buffer.
#[derive(Debug)]
pub enum Sharing {
    /// One queue family at a time owns the buffer.
    Exclusive,
    /// The listed queue families access the buffer concurrently.
    Concurrent(Vec<u32>),
}

impl Sharing {
    /// The families of concurrent sharing, if the sharing is concurrent.
    pub open spec fn concurrent_ids(self) -> Option<Seq<u32>> {
        match self {
            Sharing::Exclusive => None,
            Sharing::Concurrent(ids) => Some(ids@),
        }
    }
}

/// The sharing that a buffer for the families `ids` is created with:
/// concurrent among them where there are two or more, else exclusive.
pub open spec fn sharing_of(ids: Seq<u32>) -> Option<Seq<u32>> {
    if ids.len() >= 2 {
        Some(ids)
    } else {
        None
    }
}

/// Chooses the sharing mode for a new buffer of a pool with these families.
pub fn choose_sharing(families: &QueueFamilies) -> (sharing: Sharing)
    ensures
        sharing.concurrent_ids() == sharing_of(family_ids(*families)),
{
    if families_len(families) >= 2 {
        let held = families_as_slice(families);
        let mut ids: Vec<u32> = Vec::new();
        let mut i: usize = 0;
        while i < held.len()
            invariant
                i <= held@.len(),
                held@ == family_ids(*families),
                ids@ == held@.subrange(0, i as int),
            decreases held.len() - i,
        {
            ids.push(held[i]);
            i += 1;
            assert(ids@ == held@.subrange(0, i as int));
        }
        assert(ids@ == held@);
        Sharing::Concurrent(ids)
    } else {
        Sharing::Exclusive
    }
}

} // verus!
