//! Searching lists: the first item that is wanted, and whether a state is
//! in a list.

use vstd::prelude::*;

verus! {

/// The position of the first item of `s` that is wanted, if there is one.
pub open spec fn first_where<A>(s: Seq<A>, wanted: spec_fn(A) -> bool) -> Option<int>
    decreases s.len(),
{
    if s.len() == 0 {
        None
    } else {
        match first_where(s.drop_last(), wanted) {
            Some(i) => Some(i),
            None => if wanted(s.last()) {
                Some(s.len() - 1)
            } else {
                None
            },
        }
    }
}

/// What `first_where` finds: a wanted item before which none is wanted;
/// or nothing, where no item is wanted.
pub proof fn first_where_found<A>(s: Seq<A>, wanted: spec_fn(A) -> bool)
    ensures
        match first_where(s, wanted) {
            Some(i) => 0 <= i < s.len() && wanted(s[i]) && forall|j: int|
                0 <= j < i ==> !wanted(#[trigger] s[j]),
            None => forall|j: int| 0 <= j < s.len() ==> !wanted(#[trigger] s[j]),
        },
    decreases s.len(),
{
    if s.len() > 0 {
        let init = s.drop_last();
        first_where_found(init, wanted);
        match first_where(init, wanted) {
            Some(i) => {
                assert(s[i] == init[i]);
                assert forall|j: int| 0 <= j < i implies !wanted(#[trigger] s[j]) by {
                    assert(s[j] == init[j]);
                }
            },
            None => {
                assert forall|j: int| 0 <= j < s.len() - 1 implies !wanted(#[trigger] s[j]) by {
                    assert(s[j] == init[j]);
                }
            },
        }
    }
}

/// The first wanted item is at `i` when the item there is wanted and none
/// before it is.
pub proof fn first_where_is<A>(s: Seq<A>, wanted: spec_fn(A) -> bool, i: int)
    requires
        0 <= i < s.len(),
        wanted(s[i]),
        forall|j: int| 0 <= j < i ==> !wanted(#[trigger] s[j]),
    ensures
        first_where(s, wanted) == Some(i),
{
    first_where_found(s, wanted);
}

/// No item is found where none is wanted.
pub proof fn first_where_none<A>(s: Seq<A>, wanted: spec_fn(A) -> bool)
    requires
        forall|j: int| 0 <= j < s.len() ==> !wanted(#[trigger] s[j]),
    ensures
        first_where(s, wanted) is None,
{
    first_where_found(s, wanted);
}

/// Whether `state` is one of the states in `list`.
pub open spec fn among(list: Seq<i32>, state: int) -> bool {
    exists|i: int| 0 <= i < list.len() && #[trigger] list[i] as int == state
}

/// Whether `state` is one of the states in `list`.
pub fn is_among(list: &Vec<i32>, state: i32) -> (b: bool)
    ensures
        b == among(list@, state as int),
{
    let mut i: usize = 0;
    while i < list.len()
        invariant
            i <= list.len(),
            forall|j: int| 0 <= j < i ==> list@[j] != state,
        decreases list.len() - i,
    {
        if list[i] == state {
            return true;
        }
        i += 1;
    }
    false
}

} // verus!
