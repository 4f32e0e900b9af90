use vstd::prelude::*;

verus! {

/// The rectangle of a map, in output units.
#[derive(PartialEq, Eq, Structural, Debug, Clone, Copy)]
pub struct MapExtent {
    pub left: i64,
    pub right: i64,
    pub bottom: i64,
    pub top: i64,
}

} // verus!
