//! How a digest treats singletons and its edges.
use vstd::prelude::*;

verus! {

/// Controls how a digest treats true singletons (weight 1, or piles) and edges.
///
/// A singleton is a fact about the data: either a raw item, or a run of identical values
/// fused into one centroid (a pile). Everything else is a mixed cluster.
#[derive(Clone, Copy, Debug, PartialEq, Eq, Structural)]
pub enum SingletonPolicy {
    /// Everything is treated uniformly; nothing is marked as a singleton.
    Off,
    /// Singletons and piles are respected, without protection of the tails.
    Use,
    /// Like `Use`, and up to so many singletons at each edge are preserved outside the
    /// core capacity.
    UseWithProtectedEdges(usize),
}

impl SingletonPolicy {
    /// Whether runs of raw values count as singletons under this policy.
    pub open spec fn marks_values_spec(self) -> bool {
        !(self is Off)
    }

    /// How many centroids a digest of the given capacity may have under this policy: the
    /// protected edges stand outside the capacity.
    pub open spec fn room(self, max_size: int) -> int {
        match self {
            SingletonPolicy::UseWithProtectedEdges(k) => max_size + 2 * k,
            _ => max_size,
        }
    }

    /// Whether runs of raw values count as singletons under this policy.
    pub fn marks_values(&self) -> (r: bool)
        ensures
            r == self.marks_values_spec(),
    {
        match self {
            SingletonPolicy::Off => false,
            _ => true,
        }
    }
}

impl Default for SingletonPolicy {
    /// Singletons are respected, without protection of the tails.
    fn default() -> (r: SingletonPolicy)
        ensures
            r == SingletonPolicy::Use,
    {
        SingletonPolicy::Use
    }
}

} // verus!
