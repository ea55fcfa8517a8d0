use vstd::prelude::*;
use vstd::view::View as _;

verus! {

/// An IP network prefix, either family, held as plain integers: the prefix
/// bits (for the v4 family only the low 32 bits are meaningful) and the
/// prefix length.
#[derive(Clone, Copy, Debug)]
pub enum IpPrefix {
    V4 { bits: u32, len: u32 },
    V6 { bits: u128, len: u32 },
}

impl IpPrefix {
    /// A prefix length never exceeds the width of its address family.
    pub open spec fn wf(self) -> bool {
        match self {
            IpPrefix::V4 { bits, len } => len <= 32,
            IpPrefix::V6 { bits, len } => len <= 128,
        }
    }
}

/// An IP address of either family, held as a plain integer.
#[derive(Clone, Copy, Debug)]
pub enum IpAddress {
    V4(u32),
    V6(u128),
}

/// Filesystem locations the proxy works with: the data directory that holds
/// the certificate-authority material.
#[derive(Clone, Debug)]
pub struct Paths {
    pub data: String,
}

/// A named routing policy: every client whose source address falls in one of
/// the `source` prefixes (and in no more specific prefix of another view) is
/// routed by this view.
#[derive(Clone, Debug)]
pub struct View {
    pub name: String,
    pub source: Vec<IpPrefix>,
}

impl View {
    /// Every declared prefix is well formed.
    pub open spec fn wf(self) -> bool {
        forall|i: int| 0 <= i < self.source@.len() ==> #[trigger] self.source@[i].wf()
    }
}

/// The operator-supplied configuration: the data directory and the list of
/// routing views.
#[derive(Clone, Debug)]
pub struct Config {
    pub paths: Paths,
    pub views: Vec<View>,
}

impl Config {
    pub open spec fn wf(self) -> bool {
        forall|i: int| 0 <= i < self.views@.len() ==> #[trigger] self.views@[i].wf()
    }
}

} // verus!
