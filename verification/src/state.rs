//! Identities of automaton states: plain numbers for the states of a
//! nondeterministic automaton, sets of numbers for the states that
//! determinization produces.

use std::collections::BTreeSet;
use vstd::prelude::*;
use vstd::relations::injective_on;
use vstd::set_lib::lemma_map_size;
use vstd::std_specs::btree::spec_btree_keys_iter;
use vstd::std_specs::iter::IteratorSpec;
use crate::states::{id_set, id_set_take_next, States};
use crate::text::{decimal, push_char, push_decimal};

verus! {

broadcast use vstd::std_specs::btree::group_btree_axioms;

/// A value with a mathematical identity, its view: two values are the
/// same member of a set exactly when their views are equal.
pub trait Member: Sized + View {
    /// Whether `self` and `other` are the same.
    fn same(&self, other: &Self) -> (b: bool)
        ensures
            b == (self@ == other@),
    ;

    /// A second handle on the same.
    fn duplicate(&self) -> (c: Self)
        ensures
            c@ == self@,
    ;
}

/// A state of a finite automaton.
pub trait State: Member {
    /// The text that `to_string` yields.
    spec fn text(&self) -> Seq<char>;

    /// The text form of the state.
    fn to_string(&self) -> (s: String)
        ensures
            s@ == self.text(),
    ;
}

/// A state named by a number.
#[derive(Clone, Debug, PartialEq, Eq, Hash)]
pub struct StateInt {
    value: i32,
}

impl View for StateInt {
    type V = int;

    closed spec fn view(&self) -> int {
        self.value as int
    }
}

impl StateInt {
    pub fn new(value: i32) -> (s: Self)
        ensures
            s@ == value as int,
    {
        StateInt { value }
    }

    /// The number that names the state.
    pub fn value(&self) -> (v: i32)
        ensures
            v as int == self@,
    {
        self.value
    }
}

impl Member for StateInt {
    fn same(&self, other: &Self) -> (b: bool) {
        self.value == other.value
    }

    fn duplicate(&self) -> (c: Self) {
        StateInt { value: self.value }
    }
}

impl State for StateInt {
    open spec fn text(&self) -> Seq<char> {
        decimal(self@)
    }

    fn to_string(&self) -> (s: String) {
        let mut s = String::new();
        push_decimal(&mut s, self.value);
        s
    }
}

/// The set of numbers that occur in `v`.
pub open spec fn ints_of(v: Seq<i32>) -> Set<int> {
    Set::new(|k: int| exists|i: int| 0 <= i < v.len() && #[trigger] v[i] as int == k)
}

/// A prefix extended by the next number.
pub proof fn ints_of_take_next(v: Seq<i32>, i: int)
    requires
        0 <= i < v.len(),
    ensures
        ints_of(v.take(i + 1)) == ints_of(v.take(i)).insert(v[i] as int),
{
    let prefix = v.take(i);
    let next = v.take(i + 1);
    assert(ints_of(Seq::<i32>::empty()) =~= Set::<int>::empty());
    assert(ints_of(next) =~= ints_of(prefix).insert(v[i] as int)) by {
        assert forall|k: int| ints_of(next).contains(k) implies ints_of(prefix).insert(
            v[i] as int,
        ).contains(k) by {
            let j = choose|j: int| 0 <= j < next.len() && #[trigger] next[j] as int == k;
            if j < i {
                assert(prefix[j] as int == k);
            }
        }
        assert forall|k: int| ints_of(prefix).insert(v[i] as int).contains(k) implies ints_of(
            next,
        ).contains(k) by {
            if k == v[i] as int {
                assert(next[i] as int == k);
            } else {
                let j = choose|j: int| 0 <= j < prefix.len() && #[trigger] prefix[j] as int == k;
                assert(next[j] as int == k);
            }
        }
    }
}

/// Whether `v` is strictly increasing.
pub open spec fn increasing(v: Seq<i32>) -> bool {
    forall|i: int, j: int| 0 <= i < j < v.len() ==> v[i] < v[j]
}

/// The text of a set of numbers given in increasing order: each number
/// followed by a comma and a space, all inside round brackets.
pub open spec fn listing(v: Seq<i32>) -> Seq<char> {
    seq!['('] + listing_body(v) + seq![')']
}

pub open spec fn listing_body(v: Seq<i32>) -> Seq<char>
    decreases v.len(),
{
    if v.len() == 0 {
        Seq::<char>::empty()
    } else {
        listing_body(v.drop_last()) + decimal(v.last() as int) + seq![',', ' ']
    }
}

/// The numbers in `s`, as integers.
pub open spec fn numbers(s: Set<i32>) -> Set<int> {
    Set::new(|k: int| exists|x: i32| #[trigger] s.contains(x) && x as int == k)
}

/// A set with one more number.
pub proof fn numbers_insert(s: Set<i32>, x: i32)
    ensures
        numbers(s.insert(x)) == numbers(s).insert(x as int),
{
    assert forall|k: int| numbers(s.insert(x)).contains(k) implies numbers(s).insert(
        x as int,
    ).contains(k) by {
        let y = choose|y: i32| #[trigger] s.insert(x).contains(y) && y as int == k;
        if y != x {
            assert(s.contains(y));
        }
    }
    assert forall|k: int| numbers(s).insert(x as int).contains(k) implies numbers(
        s.insert(x),
    ).contains(k) by {
        if k == x as int {
            assert(s.insert(x).contains(x));
        } else {
            let y = choose|y: i32| #[trigger] s.contains(y) && y as int == k;
            assert(s.insert(x).contains(y));
        }
    }
    assert(numbers(s.insert(x)) =~= numbers(s).insert(x as int));
}

/// The numbers in the set of a list are the numbers that occur in the
/// list.
pub proof fn numbers_of_list(v: Seq<i32>)
    ensures
        numbers(v.to_set()) == ints_of(v),
{
    assert forall|k: int| numbers(v.to_set()).contains(k) implies ints_of(v).contains(k) by {
        let y = choose|y: i32| #[trigger] v.to_set().contains(y) && y as int == k;
        let i = choose|i: int| 0 <= i < v.len() && v[i] == y;
        assert(v[i] as int == k);
    }
    assert forall|k: int| ints_of(v).contains(k) implies numbers(v.to_set()).contains(k) by {
        let i = choose|i: int| 0 <= i < v.len() && #[trigger] v[i] as int == k;
        assert(v.to_set().contains(v[i]));
    }
    assert(numbers(v.to_set()) =~= ints_of(v));
}

/// A finite set has as many numbers as it has members.
pub proof fn numbers_are_counted(s: Set<i32>)
    requires
        s.finite(),
    ensures
        numbers(s).finite(),
        numbers(s).len() == s.len(),
{
    let widen = |x: i32| x as int;
    assert forall|k: int| s.map(widen).contains(k) implies numbers(s).contains(k) by {
        let x = choose|x: i32| s.contains(x) && widen(x) == k;
        assert(s.contains(x));
    }
    assert forall|k: int| numbers(s).contains(k) implies s.map(widen).contains(k) by {
        let x = choose|x: i32| #[trigger] s.contains(x) && x as int == k;
        assert(s.contains(x) && widen(x) == k);
    }
    assert(s.map(widen) =~= numbers(s));
    assert(injective_on(widen, s));
    lemma_map_size(s, numbers(s), widen);
}

/// The numbers of `s` in increasing order.
pub open spec fn in_order(s: Set<int>) -> Seq<i32> {
    choose|v: Seq<i32>| increasing(v) && ints_of(v) == s
}

/// A state that is a set of numbers: the identity of a state of a
/// determinized automaton. Two such states are the same state exactly
/// when they have the same members.
#[derive(Debug, PartialEq, Eq, Hash)]
pub struct StateSet {
    values: BTreeSet<i32>,
}

impl View for StateSet {
    type V = Set<int>;

    closed spec fn view(&self) -> Set<int> {
        numbers(self.values@)
    }
}

impl StateSet {
    /// The members in increasing order.
    pub open spec fn members(&self) -> Seq<i32> {
        in_order(self@)
    }

    /// The set of the numbers in `values`; repetitions and order do not
    /// matter.
    pub fn new(values: Vec<i32>) -> (s: Self)
        ensures
            s@ == ints_of(values@),
    {
        let mut set: BTreeSet<i32> = BTreeSet::new();
        let mut i: usize = 0;
        proof {
            assert(numbers(set@) =~= ints_of(values@.take(0)));
        }
        while i < values.len()
            invariant
                i <= values.len(),
                numbers(set@) == ints_of(values@.take(i as int)),
            decreases values.len() - i,
        {
            proof {
                ints_of_take_next(values@, i as int);
                numbers_insert(set@, values@[i as int]);
            }
            set.insert(values[i]);
            i += 1;
        }
        assert(values@.take(values.len() as int) == values@);
        StateSet { values: set }
    }

    /// The set of the numbers that name the states in `states`.
    pub fn from_states(states: &States<StateInt>) -> (s: Self)
        ensures
            s@ == states@,
    {
        let mut set: BTreeSet<i32> = BTreeSet::new();
        let mut i: usize = 0;
        proof {
            assert(numbers(set@) =~= id_set(states.elems().take(0)));
        }
        while i < states.len()
            invariant
                i <= states.elems().len(),
                numbers(set@) == id_set(states.elems().take(i as int)),
            decreases states.elems().len() - i,
        {
            let k = states.get(i).value();
            proof {
                id_set_take_next(states.elems(), i as int);
                numbers_insert(set@, k);
            }
            set.insert(k);
            i += 1;
        }
        proof {
            assert(states.elems().take(states.elems().len() as int) == states.elems());
        }
        StateSet { values: set }
    }

    /// The members, each once, in the order in which the set hands them
    /// out.
    fn walk(&self) -> (v: Vec<i32>)
        ensures
            ints_of(v@) == self@,
            v@.to_set() == self.values@,
    {
        let mut v: Vec<i32> = Vec::new();
        for k in it: self.values.iter()
            invariant
                it.seq().unref().to_set() == self.values@,
                v@ == it.seq().unref().take(it.index()),
                it.seq().unref().take(it.seq().len() as int) =~= it.seq().unref(),
        {
            proof {
                let all = it.seq().unref();
                assert(all.take(it.index() + 1) =~= all.take(it.index()).push(all[it.index()]));
            }
            v.push(*k);
        }
        proof {
            numbers_of_list(v@);
        }
        v
    }

    /// The members in increasing order. The set hands them out in that
    /// order already, but only that each comes once is known of its walk
    /// here, so they are put in order again.
    fn sorted(&self) -> (v: Vec<i32>)
        ensures
            v@ == self.members(),
            increasing(v@),
            ints_of(v@) == self@,
    {
        let found = self.walk();
        let mut v: Vec<i32> = Vec::new();
        let mut i: usize = 0;
        proof {
            assert(ints_of(v@) =~= ints_of(found@.take(0)));
        }
        while i < found.len()
            invariant
                i <= found.len(),
                increasing(v@),
                ints_of(v@) == ints_of(found@.take(i as int)),
            decreases found.len() - i,
        {
            proof {
                ints_of_take_next(found@, i as int);
            }
            insert_sorted(&mut v, found[i]);
            i += 1;
        }
        proof {
            assert(found@.take(found.len() as int) == found@);
            let chosen = in_order(self@);
            increasing_unique(chosen, v@);
        }
        v
    }

    /// The numbered states that the set stands for.
    pub fn to_states(&self) -> (r: States<StateInt>)
        ensures
            r.wf(),
            r@ == self@,
    {
        let found = self.walk();
        let mut r: States<StateInt> = States::new();
        let mut i: usize = 0;
        proof {
            assert(r@ =~= ints_of(found@.take(0)));
        }
        while i < found.len()
            invariant
                i <= found.len(),
                r.wf(),
                r@ == ints_of(found@.take(i as int)),
            decreases found.len() - i,
        {
            proof {
                ints_of_take_next(found@, i as int);
            }
            r.insert(StateInt::new(found[i]));
            i += 1;
        }
        proof {
            assert(found@.take(found.len() as int) == found@);
        }
        r
    }

    /// Whether `k` is a member.
    pub fn contains(&self, k: i32) -> (b: bool)
        ensures
            b == self@.contains(k as int),
    {
        let b = self.values.contains(&k);
        proof {
            if b {
                assert(self.values@.contains(k));
            }
        }
        b
    }

    /// The number of members.
    pub fn len(&self) -> (n: usize)
        ensures
            n == self@.len(),
    {
        proof {
            let walk = spec_btree_keys_iter(&self.values).remaining().unref();
            vstd::seq_lib::seq_to_set_is_finite(walk);
            numbers_are_counted(self.values@);
        }
        self.values.len()
    }
}

impl Clone for StateSet {
    fn clone(&self) -> (c: Self)
        ensures
            c@ == self@,
    {
        StateSet { values: self.values.clone() }
    }
}

/// Puts `k` into the strictly increasing vector `v`, unless it is there.
fn insert_sorted(v: &mut Vec<i32>, k: i32)
    requires
        increasing(old(v)@),
    ensures
        increasing(final(v)@),
        ints_of(final(v)@) == ints_of(old(v)@).insert(k as int),
{
    let mut i: usize = 0;
    while i < v.len() && v[i] < k
        invariant
            i <= v.len(),
            v@ == old(v)@,
            forall|j: int| 0 <= j < i ==> v@[j] < k,
        decreases v.len() - i,
    {
        i += 1;
    }
    if i < v.len() && v[i] == k {
        assert(ints_of(v@) =~= ints_of(v@).insert(k as int)) by {
            assert(v@[i as int] as int == k as int);
        }
    } else {
        let ghost before = v@;
        v.insert(i, k);
        proof {
            let after = v@;
            assert(after == before.insert(i as int, k));
            assert forall|a: int, b: int| 0 <= a < b < after.len() implies after[a] < after[b] by {
                if b > i && a <= i {
                    assert(before[b - 1] >= before[i as int]);
                }
            }
            assert(ints_of(after) =~= ints_of(before).insert(k as int)) by {
                assert forall|x: int| ints_of(after).contains(x) implies ints_of(before).insert(
                    k as int,
                ).contains(x) by {
                    let j = choose|j: int| 0 <= j < after.len() && #[trigger] after[j] as int == x;
                    if j < i {
                        assert(before[j] as int == x);
                    } else if j > i {
                        assert(before[j - 1] as int == x);
                    }
                }
                assert forall|x: int| ints_of(before).insert(k as int).contains(
                    x,
                ) implies ints_of(after).contains(x) by {
                    if x == k as int {
                        assert(after[i as int] as int == x);
                    } else {
                        let j = choose|j: int|
                            0 <= j < before.len() && #[trigger] before[j] as int == x;
                        if j < i {
                            assert(after[j] as int == x);
                        } else {
                            assert(after[j + 1] as int == x);
                        }
                    }
                }
            }
        }
    }
}

/// Strictly increasing sequences with the same members are equal.
proof fn increasing_unique(a: Seq<i32>, b: Seq<i32>)
    requires
        increasing(a),
        increasing(b),
        ints_of(a) == ints_of(b),
    ensures
        a == b,
    decreases a.len(),
{
    if a.len() == 0 {
        if b.len() > 0 {
            assert(ints_of(b).contains(b[0] as int));
            let j = choose|j: int| 0 <= j < a.len() && #[trigger] a[j] as int == b[0] as int;
        }
        assert(a =~= b);
    } else {
        assert(ints_of(a).contains(a.last() as int));
        let jb = choose|j: int| 0 <= j < b.len() && #[trigger] b[j] as int == a.last() as int;
        assert(ints_of(b).contains(b.last() as int));
        let ja = choose|j: int| 0 <= j < a.len() && #[trigger] a[j] as int == b.last() as int;
        // The largest members coincide.
        assert(a.last() == b.last());
        let a0 = a.drop_last();
        let b0 = b.drop_last();
        assert(ints_of(a0) =~= ints_of(b0)) by {
            assert forall|x: int| ints_of(a0).contains(x) implies ints_of(b0).contains(x) by {
                let i = choose|i: int| 0 <= i < a0.len() && #[trigger] a0[i] as int == x;
                assert(a[i] as int == x);
                assert(ints_of(a).contains(x));
                let j = choose|j: int| 0 <= j < b.len() && #[trigger] b[j] as int == x;
                assert(b0[j] as int == x);
            }
            assert forall|x: int| ints_of(b0).contains(x) implies ints_of(a0).contains(x) by {
                let i = choose|i: int| 0 <= i < b0.len() && #[trigger] b0[i] as int == x;
                assert(b[i] as int == x);
                assert(ints_of(b).contains(x));
                let j = choose|j: int| 0 <= j < a.len() && #[trigger] a[j] as int == x;
                assert(a0[j] as int == x);
            }
        }
        increasing_unique(a0, b0);
        assert(a =~= a0.push(a.last()));
        assert(b =~= b0.push(b.last()));
    }
}

impl StateSet {
    /// Whether every member of `self` is a member of `other`.
    fn inside(&self, other: &StateSet) -> (b: bool)
        ensures
            b == self@.subset_of(other@),
    {
        let found = self.walk();
        let mut i: usize = 0;
        while i < found.len()
            invariant
                i <= found.len(),
                ints_of(found@) == self@,
                forall|j: int| 0 <= j < i ==> other@.contains(#[trigger] found@[j] as int),
            decreases found.len() - i,
        {
            if !other.contains(found[i]) {
                assert(ints_of(found@).contains(found@[i as int] as int));
                return false;
            }
            i += 1;
        }
        proof {
            assert forall|k: int| self@.contains(k) implies other@.contains(k) by {
                let j = choose|j: int| 0 <= j < found@.len() && #[trigger] found@[j] as int == k;
            }
        }
        true
    }
}

impl Member for StateSet {
    fn same(&self, other: &Self) -> (b: bool) {
        let b = self.inside(other) && other.inside(self);
        assert(b ==> self@ =~= other@);
        b
    }

    fn duplicate(&self) -> (c: Self) {
        self.clone()
    }
}

impl State for StateSet {
    open spec fn text(&self) -> Seq<char> {
        listing(self.members())
    }

    fn to_string(&self) -> (s: String) {
        let values = self.sorted();
        let mut s = String::new();
        push_char(&mut s, '(');
        let mut i: usize = 0;
        assert(listing_body(values@.take(0)) =~= Seq::empty());
        assert(seq!['('] + Seq::<char>::empty() =~= seq!['(']);
        while i < values.len()
            invariant
                i <= values.len(),
                s@ == seq!['('] + listing_body(values@.take(i as int)),
            decreases values.len() - i,
        {
            proof {
                let next = values@.take(i as int + 1);
                assert(next.drop_last() == values@.take(i as int));
                assert(next.last() == values@[i as int]);
            }
            push_decimal(&mut s, values[i]);
            push_char(&mut s, ',');
            push_char(&mut s, ' ');
            assert(s@ == seq!['('] + listing_body(values@.take(i as int + 1)));
            i += 1;
        }
        assert(values@.take(values.len() as int) == values@);
        push_char(&mut s, ')');
        s
    }
}

} // verus!
