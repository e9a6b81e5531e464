//! Finite sets of automaton states.

use vstd::prelude::*;
use crate::state::Member;

verus! {

/// The identities of the states in `s`, in order.
pub open spec fn ids<S: Member>(s: Seq<S>) -> Seq<S::V> {
    s.map_values(|x: S| x@)
}

/// The set of the identities of the states in `s`.
pub open spec fn id_set<S: Member>(s: Seq<S>) -> Set<S::V> {
    ids(s).to_set()
}

/// Adding a state at the end adds its identity to the set.
pub proof fn id_set_push<S: Member>(s: Seq<S>, x: S)
    ensures
        ids(s.push(x)) == ids(s).push(x@),
        id_set(s.push(x)) == id_set(s).insert(x@),
{
    assert(ids(s.push(x)) =~= ids(s).push(x@));
    let a = ids(s).push(x@);
    assert(a.to_set() =~= ids(s).to_set().insert(x@)) by {
        assert forall|k: S::V| a.to_set().contains(k) implies ids(s).to_set().insert(x@).contains(
            k,
        ) by {
            let i = choose|i: int| 0 <= i < a.len() && a[i] == k;
            if i < s.len() {
                assert(ids(s)[i] == k);
            }
        }
        assert forall|k: S::V| ids(s).to_set().insert(x@).contains(k) implies a.to_set().contains(
            k,
        ) by {
            if k == x@ {
                assert(a[s.len() as int] == k);
            } else {
                let i = choose|i: int| 0 <= i < ids(s).len() && ids(s)[i] == k;
                assert(a[i] == k);
            }
        }
    }
}

/// The empty sequence holds no state.
pub proof fn id_set_empty<S: Member>()
    ensures
        id_set(Seq::<S>::empty()) == Set::<S::V>::empty(),
{
    assert(id_set(Seq::<S>::empty()) =~= Set::<S::V>::empty());
}

/// A prefix extended by the next state.
pub proof fn id_set_take_next<S: Member>(s: Seq<S>, i: int)
    requires
        0 <= i < s.len(),
    ensures
        id_set(s.take(i + 1)) == id_set(s.take(i)).insert(s[i]@),
        ids(s.take(i + 1)) == ids(s.take(i)).push(s[i]@),
{
    assert(s.take(i + 1) == s.take(i).push(s[i]));
    id_set_push(s.take(i), s[i]);
}

/// A finite set of states, without repetition.
#[derive(Debug)]
pub struct States<S: Member> {
    items: Vec<S>,
}

impl<S: Member> View for States<S> {
    type V = Set<S::V>;

    open spec fn view(&self) -> Set<S::V> {
        id_set(self.elems())
    }
}

impl<S: Member> States<S> {
    /// The states that the set holds, in the order in which they came in.
    pub closed spec fn elems(&self) -> Seq<S> {
        self.items@
    }

    /// No state occurs twice.
    pub open spec fn wf(&self) -> bool {
        ids(self.elems()).no_duplicates()
    }

    /// A well-formed set is finite and has as many members as it holds states.
    pub proof fn counted(&self)
        requires
            self.wf(),
        ensures
            self@.finite(),
            self@.len() == self.elems().len(),
    {
        ids(self.elems()).unique_seq_to_set();
        vstd::seq_lib::seq_to_set_is_finite(ids(self.elems()));
    }

    /// The empty set.
    pub fn new() -> (r: Self)
        ensures
            r.wf(),
            r@ == Set::<S::V>::empty(),
            r.elems().len() == 0,
    {
        proof {
            id_set_empty::<S>();
        }
        let r = States { items: Vec::new() };
        assert(r.elems() =~= Seq::<S>::empty());
        r
    }

    /// The number of states in the set.
    pub fn len(&self) -> (n: usize)
        ensures
            n == self.elems().len(),
            self.wf() ==> n == self@.len(),
    {
        proof {
            if self.wf() {
                self.counted();
            }
        }
        self.items.len()
    }

    /// The state at position `i`.
    pub fn get(&self, i: usize) -> (s: &S)
        requires
            i < self.elems().len(),
        ensures
            *s == self.elems()[i as int],
    {
        &self.items[i]
    }

    /// Whether the set holds the state `s`.
    pub fn contains(&self, s: &S) -> (b: bool)
        ensures
            b == self@.contains(s@),
    {
        let mut i: usize = 0;
        while i < self.items.len()
            invariant
                i <= self.items.len(),
                forall|j: int| 0 <= j < i ==> ids(self.items@)[j] != s@,
            decreases self.items.len() - i,
        {
            if self.items[i].same(s) {
                assert(ids(self.items@)[i as int] == s@);
                return true;
            }
            i += 1;
        }
        false
    }

    /// Puts `s` into the set; the result says whether it was new.
    pub fn insert(&mut self, s: S) -> (added: bool)
        requires
            old(self).wf(),
        ensures
            final(self).wf(),
            final(self)@ == old(self)@.insert(s@),
            added == !old(self)@.contains(s@),
            added ==> final(self).elems() == old(self).elems().push(s),
            !added ==> final(self).elems() == old(self).elems(),
    {
        if self.contains(&s) {
            assert(self@ =~= self@.insert(s@));
            false
        } else {
            proof {
                id_set_push(self.items@, s);
            }
            self.items.push(s);
            true
        }
    }

    /// Whether every state of `self` is in `other`.
    pub fn is_subset(&self, other: &States<S>) -> (b: bool)
        ensures
            b == self@.subset_of(other@),
    {
        let mut i: usize = 0;
        while i < self.items.len()
            invariant
                i <= self.items.len(),
                forall|j: int| 0 <= j < i ==> other@.contains(ids(self.items@)[j]),
            decreases self.items.len() - i,
        {
            if !other.contains(&self.items[i]) {
                assert(self@.contains(ids(self.items@)[i as int]));
                return false;
            }
            i += 1;
        }
        true
    }

    /// Whether `self` and `other` have no state in common.
    pub fn is_disjoint(&self, other: &States<S>) -> (b: bool)
        ensures
            b == self@.disjoint(other@),
    {
        let mut i: usize = 0;
        while i < self.items.len()
            invariant
                i <= self.items.len(),
                forall|j: int| 0 <= j < i ==> !other@.contains(ids(self.items@)[j]),
            decreases self.items.len() - i,
        {
            if other.contains(&self.items[i]) {
                assert(self@.contains(ids(self.items@)[i as int]));
                return false;
            }
            i += 1;
        }
        true
    }

    /// Whether `self` and `other` hold the same states.
    pub fn same(&self, other: &States<S>) -> (b: bool)
        ensures
            b == (self@ == other@),
    {
        let b = self.is_subset(other) && other.is_subset(self);
        assert(b ==> self@ =~= other@);
        b
    }

    /// A copy of the set.
    pub fn duplicate(&self) -> (r: Self)
        ensures
            r@ == self@,
            ids(r.elems()) == ids(self.elems()),
            self.wf() ==> r.wf(),
    {
        let mut items: Vec<S> = Vec::new();
        let mut i: usize = 0;
        while i < self.items.len()
            invariant
                i <= self.items.len(),
                ids(items@) == ids(self.items@.take(i as int)),
            decreases self.items.len() - i,
        {
            proof {
                id_set_take_next(self.items@, i as int);
                id_set_push(items@, self.items@[i as int]);
            }
            let c = self.items[i].duplicate();
            proof {
                id_set_push(items@, c);
            }
            items.push(c);
            i += 1;
        }
        assert(self.items@.take(self.items.len() as int) == self.items@);
        States { items }
    }

    /// Puts every state of `other` into the set.
    pub fn extend(&mut self, other: &States<S>)
        requires
            old(self).wf(),
        ensures
            final(self).wf(),
            final(self)@ == old(self)@.union(other@),
    {
        let mut i: usize = 0;
        while i < other.items.len()
            invariant
                i <= other.items.len(),
                self.wf(),
                self@ == old(self)@.union(id_set(other.items@.take(i as int))),
            decreases other.items.len() - i,
        {
            proof {
                id_set_take_next(other.items@, i as int);
            }
            let c = other.items[i].duplicate();
            self.insert(c);
            assert(self@ =~= old(self)@.union(id_set(other.items@.take(i as int + 1))));
            i += 1;
        }
        proof {
            assert(other.items@.take(other.items.len() as int) == other.items@);
            id_set_empty::<S>();
        }
    }

    /// The states that are in `self` or in `other`.
    pub fn union(&self, other: &States<S>) -> (r: Self)
        requires
            self.wf(),
        ensures
            r.wf(),
            r@ == self@.union(other@),
    {
        let mut r = self.duplicate();
        r.extend(other);
        r
    }

}

} // verus!
