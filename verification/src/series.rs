//! Series of works.

use vstd::prelude::*;
use crate::common::{Alternatives, Role};
use crate::keyed::Keyed;

verus! {

/// A series that items can belong to, with the people behind it.
#[derive(Clone, Debug, PartialEq)]
pub struct Series {
    pub key: String,
    pub name: Alternatives<String>,
    pub people: Vec<(Role, String)>,
}

impl Keyed for Series {
    open spec fn key_text(&self) -> Seq<char> {
        self.key@
    }

    fn key_ref(&self) -> (k: &String) {
        &self.key
    }
}

} // verus!
