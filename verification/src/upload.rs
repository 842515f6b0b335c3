use vstd::prelude::*;

verus! {

/// The error that the upload server sends back with its details.
#[derive(Debug, Clone)]
pub struct ServerError {
    pub detail: String,
}

} // verus!
