//! The pipeline's failure cases. Every one is fatal: the run aborts, no
//! partial result is written.

use vstd::prelude::*;

verus! {

/// Why a run aborted.
#[derive(Debug, Clone, Copy, PartialEq, Eq, Structural)]
pub enum Error {
    /// A store access failed; raised by the surrounding application, never
    /// by the library itself.
    Store,
    /// An identity reached resolution without a single presence row, a
    /// violated invariant of the input log.
    MissingName,
    /// A row's event kind or location string is malformed.
    MalformedRow,
    /// A node's total outgoing weight does not fit the counter width; a
    /// machine-limit guard that real logs never hit.
    Overflow,
}

impl Error {
    /// A diagnostic line for the failure.
    pub fn message(&self) -> (r: String)
        ensures
            r@ == match self {
                Error::Store => "store access failed"@,
                Error::MissingName => "identity has no presence row to resolve a name from"@,
                Error::MalformedRow => "presence row holds a malformed event kind or location"@,
                Error::Overflow => "a node's total outgoing weight exceeds the counter width"@,
            },
            r@.len() > 0,
    {
        let r = match self {
            Error::Store => "store access failed",
            Error::MissingName => "identity has no presence row to resolve a name from",
            Error::MalformedRow => "presence row holds a malformed event kind or location",
            Error::Overflow => "a node's total outgoing weight exceeds the counter width",
        };
        proof {
            reveal_strlit("store access failed");
            reveal_strlit("identity has no presence row to resolve a name from");
            reveal_strlit("presence row holds a malformed event kind or location");
            reveal_strlit("a node's total outgoing weight exceeds the counter width");
        }
        r.to_owned()
    }
}

} // verus!
