use vstd::prelude::*;

verus! {

/// The cluster size the user gave: unknown (to be estimated), unaligned (files are not
/// allocated on cluster boundaries), or a known size.
#[derive(Debug, Clone, Copy, PartialEq, Eq, Structural)]
pub enum ClusterSizeArg {
    Unknown,
    Unaligned,
    Known(u64),
}

impl ClusterSizeArg {
    /// The cluster size to carve with: None if unknown, 1 if unaligned, else the size.
    pub fn as_option(&self) -> (r: Option<u64>)
        ensures
            r == match self {
                ClusterSizeArg::Unknown => None,
                ClusterSizeArg::Unaligned => Some(1u64),
                ClusterSizeArg::Known(v) => Some(*v),
            },
    {
        match self {
            ClusterSizeArg::Unknown => None,
            ClusterSizeArg::Unaligned => Some(1),
            ClusterSizeArg::Known(val) => Some(*val),
        }
    }
}

} // verus!
