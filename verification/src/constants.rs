//! Status and classification codes shared with the file-tracking store that
//! consumes the digests.

use vstd::prelude::*;

verus! {

/// Whether a tracked entry is live.
#[derive(Clone, Copy, Debug, PartialEq, Eq, Structural)]
pub enum Status {
    Disabled,
    Enabled,
}

impl Status {
    /// The numeric code the store persists.
    pub open spec fn code_spec(self) -> i32 {
        match self {
            Status::Disabled => 0,
            Status::Enabled => 1,
        }
    }

    pub fn code(&self) -> (r: i32)
        ensures
            r == self.code_spec(),
    {
        match self {
            Status::Disabled => 0,
            Status::Enabled => 1,
        }
    }
}

/// Where a tracked group of files lives.
#[derive(Clone, Copy, Debug, PartialEq, Eq, Structural)]
pub enum GroupType {
    Local,
    Remote,
    Meta,
    Attr,
}

impl GroupType {
    /// The numeric code the store persists.
    pub open spec fn code_spec(self) -> i32 {
        match self {
            GroupType::Local => 0,
            GroupType::Remote => 1,
            GroupType::Meta => 2,
            GroupType::Attr => 3,
        }
    }

    pub fn code(&self) -> (r: i32)
        ensures
            r == self.code_spec(),
    {
        match self {
            GroupType::Local => 0,
            GroupType::Remote => 1,
            GroupType::Meta => 2,
            GroupType::Attr => 3,
        }
    }
}

/// How a tracked payload's bytes are to be read.
#[derive(Clone, Copy, Debug, PartialEq, Eq, Structural)]
pub enum ContentType {
    Unknown,
    Json,
    Text,
}

impl ContentType {
    /// The numeric code the store persists.
    pub open spec fn code_spec(self) -> i32 {
        match self {
            ContentType::Unknown => 0,
            ContentType::Json => 1,
            ContentType::Text => 2,
        }
    }

    pub fn code(&self) -> (r: i32)
        ensures
            r == self.code_spec(),
    {
        match self {
            ContentType::Unknown => 0,
            ContentType::Json => 1,
            ContentType::Text => 2,
        }
    }
}

} // verus!
