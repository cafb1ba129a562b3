//! The failures of an invocation.
use vstd::prelude::*;

use crate::model::ValidationIssue;

verus! {

/// Why an invocation failed. Each kind keeps the offending path, key or message.
#[derive(Debug)]
pub enum ComponentError {
    InvalidInput(String),
    Serde(String),
    Io(String),
    AssetNotFound(String),
    AssetParse(String),
    Asset(String),
    Binding(String),
    CardValidation(Vec<ValidationIssue>),
    InteractionInvalid(String),
    StateStore(String),
}

} // verus!
