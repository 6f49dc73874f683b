//! A point of the network.

use vstd::prelude::*;
use vstd::std_specs::cmp::PartialEqSpecImpl;

verus! {

/// A node of the network: its identity in the source data and where it lies.
///
/// `lat` and `lon` are degrees scaled by 10^7. Two nodes are the same node
/// when their ids agree, wherever they lie.
#[derive(Clone, Copy, Debug)]
pub struct RouteNode {
    pub id: i64,
    pub lat: i32,
    pub lon: i32,
}

impl PartialEq for RouteNode {
    fn eq(&self, other: &Self) -> (same: bool) {
        self.id == other.id
    }
}

impl PartialEqSpecImpl for RouteNode {
    open spec fn obeys_eq_spec() -> bool {
        true
    }

    open spec fn eq_spec(&self, other: &Self) -> bool {
        self.id == other.id
    }
}

impl Eq for RouteNode {

}

} // verus!
