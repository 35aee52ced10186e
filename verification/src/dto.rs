//! Plain data carried across the admin API boundary.

use vstd::prelude::*;

verus! {

/// One direct proxy rule: requests whose path starts with `path` are
/// forwarded to `url` plus the remainder of the path.
pub struct Proxy {
    pub path: String,
    pub url: String,
}

impl View for Proxy {
    type V = (Seq<char>, Seq<char>);

    open spec fn view(&self) -> (Seq<char>, Seq<char>) {
        (self.path@, self.url@)
    }
}

/// A page selector for listings: `number` counts pages of `size` entries.
pub struct Page {
    pub size: usize,
    pub number: usize,
}

/// Credentials presented by an operator.
pub struct Auth {
    pub username: String,
    pub password: String,
    pub home: String,
}

} // verus!
