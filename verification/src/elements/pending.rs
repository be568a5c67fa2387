//! The children that wait to be put into the order, kept by position in a
//! hash map.
//!
//! The map is `bevy::utils::HashMap`, which is the `HashMap` of the crate
//! `hashbrown` with a hasher of the crate `ahash`. For each waiting child
//! it holds the lines that the child writes, which is what the search for
//! the writer of a line looks at. Nothing in this module is proved: what
//! is said of the map's functions here is taken from their documentation
//! and their source, and the rest of the library relies on it. The map is
//! only asked for the entry at a given position, never walked, so the
//! order in which it would hand out its entries plays no part.

use vstd::prelude::*;
use crate::elements::wire::{lines_of, Wire};

verus! {

/// A hash map from positions to lists of lines. Its inside is hidden from
/// the verifier; what it holds is spoken of through [`held`].
#[verifier::external_body]
pub struct Pending {
    slots: bevy::utils::HashMap<usize, Vec<Wire>>,
}

/// What the map holds: for each position that has an entry, the
/// identities of the lines kept there, in their order.
pub uninterp spec fn held(pending: Pending) -> Map<int, Seq<int>>;

/// Each list of `outputs` at its position, as identities.
pub open spec fn indexed(outputs: Seq<Vec<Wire>>) -> Map<int, Seq<int>> {
    Map::new(|k: int| 0 <= k < outputs.len(), |k: int| lines_of(outputs[k]@))
}

impl Pending {
    /// Collects the lists of `outputs`, each paired with its position,
    /// into a map, by `HashMap`'s `FromIterator::from_iter`, which inserts
    /// the pairs one after the other into an empty map. As no position
    /// comes twice, the map then holds each list at its position, and
    /// nothing else.
    #[verifier::external_body]
    pub(crate) fn gather(outputs: Vec<Vec<Wire>>) -> (pending: Pending)
        ensures
            held(pending) == indexed(outputs@),
    {
        Pending { slots: outputs.into_iter().enumerate().collect() }
    }

    /// Calls `HashMap::remove`: where the map has an entry at `key`, the
    /// entry leaves the map and its list is returned; where it has none,
    /// the map stays as it is and nothing is returned.
    #[verifier::external_body]
    pub(crate) fn remove(&mut self, key: usize) -> (lines: Option<Vec<Wire>>)
        ensures
            held(*final(self)) == held(*old(self)).remove(key as int),
            match lines {
                Some(v) => held(*old(self)).contains_key(key as int) && lines_of(v@) == held(
                    *old(self),
                )[key as int],
                None => !held(*old(self)).contains_key(key as int),
            },
    {
        self.slots.remove(&key)
    }

    /// Calls `HashMap::get`: the list kept at `key`, where the map has an
    /// entry there, and nothing where it has none.
    #[verifier::external_body]
    pub(crate) fn get(&self, key: usize) -> (lines: Option<&Vec<Wire>>)
        ensures
            match lines {
                Some(v) => held(*self).contains_key(key as int) && lines_of(v@) == held(*self)[key as int],
                None => !held(*self).contains_key(key as int),
            },
    {
        self.slots.get(&key)
    }
}

} // verus!
