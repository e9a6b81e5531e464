//! Equality of sets of states and of bindings: two of them are equal when
//! they hold the same, in whatever order it came in.

use vstd::prelude::*;
use crate::expression::Environment;
use crate::state::Member;
use crate::states::States;

verus! {

impl<S: Member> PartialEq for States<S> {
    fn eq(&self, other: &Self) -> (b: bool) {
        self.same(other)
    }
}

impl<S: Member> vstd::std_specs::cmp::PartialEqSpecImpl for States<S> {
    open spec fn obeys_eq_spec() -> bool {
        true
    }

    open spec fn eq_spec(&self, other: &Self) -> bool {
        self@ == other@
    }
}

impl PartialEq for Environment {
    fn eq(&self, other: &Self) -> (b: bool) {
        self.same(other)
    }
}

impl vstd::std_specs::cmp::PartialEqSpecImpl for Environment {
    open spec fn obeys_eq_spec() -> bool {
        true
    }

    open spec fn eq_spec(&self, other: &Self) -> bool {
        self@ == other@
    }
}

} // verus!
