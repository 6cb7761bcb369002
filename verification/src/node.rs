//! Names that occur in a manifest.
use vstd::prelude::*;

verus! {

/// The name of a node, unique in its manifest.
pub type NodeName = String;

/// The name of a subnet.
pub type SubnetName = String;

/// An address block in CIDR notation.
pub type CidrBlock = String;

/// The texts of a sequence of strings.
pub open spec fn names(strings: Seq<String>) -> Seq<Seq<char>> {
    strings.map_values(|s: String| s@)
}

} // verus!
