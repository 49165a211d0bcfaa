//! Domain-level errors: bad parameters, internal faults, and everything a
//! collaborator hands back.

use vstd::prelude::*;

verus! {

/// One reported fault: a stable code and a human-readable message.
#[derive(Debug)]
pub struct ErrorDetail {
    code: &'static str,
    message: String,
}

impl ErrorDetail {
    /// Which code this detail carries.
    pub closed spec fn code_spec(&self) -> Seq<char> {
        self.code@
    }

    /// Which message this detail carries.
    pub closed spec fn message_spec(&self) -> Seq<char> {
        self.message@
    }

    pub fn new(code: &'static str, message: String) -> (r: ErrorDetail)
        ensures
            r.code_spec() == code@,
            r.message_spec() == message@,
    {
        ErrorDetail { code, message }
    }

    /// The message, for display.
    pub fn message(&self) -> (r: &String)
        ensures
            r@ == self.message_spec(),
    {
        &self.message
    }
}

/// What went wrong at the domain level: rejected parameters, an internal
/// fault, or an error of some collaborator, carried as text.
#[derive(Debug)]
pub enum DomainError {
    Params(Vec<ErrorDetail>),
    Internal(ErrorDetail),
    Others(String),
}

impl DomainError {
    /// A parameter rejection holding exactly one detail.
    pub fn params(code: &'static str, message: String) -> (r: DomainError)
        ensures
            r matches DomainError::Params(ds) && ds@.len() == 1 && ds@[0].code_spec() == code@
                && ds@[0].message_spec() == message@,
    {
        let mut ds: Vec<ErrorDetail> = Vec::new();
        ds.push(ErrorDetail::new(code, message));
        DomainError::Params(ds)
    }

    /// An internal fault holding one detail.
    pub fn internal(code: &'static str, message: String) -> (r: DomainError)
        ensures
            r matches DomainError::Internal(d) && d.code_spec() == code@ && d.message_spec()
                == message@,
    {
        DomainError::Internal(ErrorDetail::new(code, message))
    }
}

} // verus!
