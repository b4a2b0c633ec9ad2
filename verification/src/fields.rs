//! Names of the common fields of an entry.

use vstd::prelude::*;

verus! {

/// The title of an entry.
pub const TITLE: &'static str = "Title";

/// The user name of an entry.
pub const USERNAME: &'static str = "UserName";

/// The password of an entry.
pub const PASSWORD: &'static str = "Password";

/// The URL of an entry.
pub const URL: &'static str = "URL";

/// The one-time password of an entry.
pub const OTP: &'static str = "otp";

} // verus!
