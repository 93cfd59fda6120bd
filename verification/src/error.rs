//! The store's error taxonomy.
//!
//! Every fallible operation returns a `Result` whose error names the
//! specific failure.  Absence on `get` is not an error: it is the
//! designed `None` case.  Re-entrant mutation cannot arise here: the
//! mutating operations take the backend exclusively (`&mut`), so the
//! single-writer discipline is enforced at compile time instead of
//! being reported at run time.

use vstd::prelude::*;

verus! {

/// What went wrong.
#[derive(Debug)]
pub enum Error {
    /// `delete` targeted an identity with no stored object; carries
    /// the identity's text.
    ObjectNotFound(String),
    /// A label string lacks the `=` separator.
    InvalidLabelString,
    /// Stored bytes are not valid UTF-8 where text is required.
    Utf8,
}

} // verus!
