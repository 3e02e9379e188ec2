//! Identifiers for new accounts.

use crate::primitives::{is_v4_uuid_text, new_v4_uuid_text};
use vstd::prelude::*;

verus! {

/// A fresh random (version 4) UUID in its hyphenated lower-case text form.
pub fn generate_uuid() -> (id: String)
    ensures
        is_v4_uuid_text(id@),
{
    new_v4_uuid_text()
}

} // verus!
