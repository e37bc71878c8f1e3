//! What the login and registration forms send.
use vstd::prelude::*;

verus! {

/// A user name and password, as the forms send them.
pub struct RegisterForm {
    pub name: String,
    pub password: String,
}

} // verus!
