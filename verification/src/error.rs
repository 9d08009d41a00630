//! The error of reading an edge list.

use vstd::prelude::*;

verus! {

/// Why an edge list could not be read.
#[derive(Debug)]
pub struct GraphError {
    pub details: String,
}

impl GraphError {
    /// An error with the given description.
    pub fn new(msg: &str) -> (error: GraphError)
        ensures
            error.details@ == msg@,
    {
        GraphError { details: msg.to_owned() }
    }

    /// The description of the error.
    pub fn message(&self) -> (text: String)
        ensures
            text@ == self.details@,
    {
        self.details.clone()
    }
}

} // verus!
