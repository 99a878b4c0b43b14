//! Equality of paths: two paths are equal when they stand for the same
//! parts, however each of them is held.

use vstd::prelude::*;
use vstd::std_specs::cmp::PartialEqSpecImpl;
use crate::path::file::FilePath;
use crate::path::{parsed, ObjectStorePath};

verus! {

impl PartialEq for ObjectStorePath {
    fn eq(&self, other: &Self) -> (r: bool) {
        self.equals(other)
    }
}

impl PartialEqSpecImpl for ObjectStorePath {
    open spec fn obeys_eq_spec() -> bool {
        true
    }

    open spec fn eq_spec(&self, other: &Self) -> bool {
        parsed(self@) == parsed(other@)
    }
}

impl PartialEq for FilePath {
    fn eq(&self, other: &Self) -> (r: bool) {
        self.equals(other)
    }
}

impl PartialEqSpecImpl for FilePath {
    open spec fn obeys_eq_spec() -> bool {
        true
    }

    open spec fn eq_spec(&self, other: &Self) -> bool {
        parsed(self@) == parsed(other@)
    }
}

} // verus!
