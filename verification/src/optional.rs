//! Mirror types whose fields become optional, with a conversion from the
//! full type: the pattern used for partial updates of tracked records,
//! written out by hand.

use vstd::prelude::*;

verus! {

/// A full record with one plain and one optional field.
#[derive(Debug, PartialEq)]
pub struct S1 {
    pub x: i32,
    pub y: Option<i32>,
}

/// `S1` with every field made optional.
#[derive(Debug, PartialEq)]
pub struct S1Opt {
    pub x: Option<i32>,
    pub y: Option<Option<i32>>,
}

impl From<S1> for S1Opt {
    fn from(src: S1) -> (r: S1Opt) {
        S1Opt { x: Some(src.x), y: Some(src.y) }
    }
}

impl vstd::std_specs::convert::FromSpecImpl<S1> for S1Opt {
    open spec fn obeys_from_spec() -> bool {
        true
    }

    open spec fn from_spec(src: S1) -> S1Opt {
        S1Opt { x: Some(src.x), y: Some(src.y) }
    }
}

/// A richer record: one field renamed in the mirror, one skipped, one kept
/// required, one carried as text.
#[derive(Debug, PartialEq)]
pub struct S2 {
    pub x: i32,
    pub y: Option<i32>,
    pub z: bool,
    pub w: String,
}

impl Default for S2 {
    fn default() -> (r: S2)
        ensures
            r.x == 0,
            r.y is None,
            !r.z,
            r.w@ == Seq::<char>::empty(),
    {
        S2 { x: 0, y: None, z: false, w: String::new() }
    }
}

/// `S2` mirrored: `x` appears as `z`, `y` is skipped, `z` stays required
/// under the name `x`, and `w` becomes optional.
#[derive(Debug, PartialEq)]
pub struct OptionalS2 {
    pub z: Option<i32>,
    pub x: bool,
    pub w: Option<String>,
}

impl Default for OptionalS2 {
    fn default() -> (r: OptionalS2)
        ensures
            r.z is None,
            !r.x,
            r.w is None,
    {
        OptionalS2 { z: None, x: false, w: None }
    }
}

impl From<S2> for OptionalS2 {
    fn from(src: S2) -> (r: OptionalS2) {
        OptionalS2 { z: Some(src.x), x: src.z, w: Some(src.w) }
    }
}

impl vstd::std_specs::convert::FromSpecImpl<S2> for OptionalS2 {
    open spec fn obeys_from_spec() -> bool {
        true
    }

    open spec fn from_spec(src: S2) -> OptionalS2 {
        OptionalS2 { z: Some(src.x), x: src.z, w: Some(src.w) }
    }
}

} // verus!
