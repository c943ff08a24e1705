//! Errors from editing, loading, and saving designs.

use vstd::prelude::*;

use crate::model::views;
use crate::validation::{Problem, ProblemView};

verus! {

/// `std::io::Error`, carried in an error without being looked into.
#[verifier::external_type_specification]
#[verifier::external_body]
pub struct ExIoError(std::io::Error);

/// `serde_json::Error`, carried in an error without being looked into.
#[verifier::external_type_specification]
#[verifier::external_body]
pub struct ExJsonError(serde_json::Error);

/// Why an operation on a design failed.
#[derive(Debug)]
pub enum DesignError {
    /// Reading or writing the design file failed.
    Io(std::io::Error),
    /// The named element does not exist.
    NotFound { kind: &'static str, id: String },
    /// The design file is not JSON.
    Json(serde_json::Error),
    /// The design has these problems; nothing was changed.
    Validation(Vec<Problem>),
}

/// The error lists exactly these problems.
pub open spec fn reports(error: DesignError, problems: Seq<ProblemView>) -> bool {
    match error {
        DesignError::Validation(found) => views(found@) == problems,
        _ => false,
    }
}

/// The error says that no element of this kind has this id.
pub open spec fn not_found(error: DesignError, kind: Seq<char>, id: Seq<char>) -> bool {
    match error {
        DesignError::NotFound { kind: k, id: i } => k@ == kind && i@ == id,
        _ => false,
    }
}

} // verus!
