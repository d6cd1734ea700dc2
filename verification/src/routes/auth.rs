//! The request payload of the authentication routes.

use vstd::prelude::*;

verus! {

/// The JSON payload naming the account a ceremony is started for.
pub struct SigninData {
    pub name: String,
}

} // verus!
