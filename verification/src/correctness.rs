//! Why the automaton that Thompson's construction makes from a pattern
//! accepts exactly the strings that the pattern matches.

use vstd::prelude::*;
use vstd::relations::injective_on;
use vstd::set_lib::{lemma_map_size, lemma_set_disjoint_lens};
use crate::determinize::{determinized_accepts_the_same, determinizes};
use crate::paths::{
    accepts_iff_path,
    derives, derives_concat, derives_in_more_rules, derives_push, is_path, path_drop_last,
    path_of_nothing, path_push, reads, word,
};
use crate::pattern::{lang, Pattern};
use crate::rule::{Rule, EPSILON};
use crate::semantics::{dfa_accepts, nfa_accepts, DfaModel, NfaModel};
use crate::thompson::{
    accepted, accepts_needed, bridges, fragment_of, rules_needed, states_needed, thompson, Fragment,
};

verus! {

/// Whether every state of the fragment `f` has a number from `lo` up to,
/// but not including, `hi`.
pub open spec fn numbered_within(f: Fragment, lo: int, hi: int) -> bool {
    &&& lo <= f.start < hi
    &&& forall|q: int| f.accept.contains(q) ==> lo <= q < hi
    &&& forall|r: Rule<int>| #[trigger] f.rules.contains(r) ==> lo <= r.from < hi && lo <= r.to < hi
}

/// The automaton of a pattern uses exactly the numbers counted for it, so
/// automata numbered one after the other share no state.
pub proof fn states_are_fresh(p: Pattern, lo: int)
    ensures
        numbered_within(thompson(p, lo), lo, lo + states_needed(p)),
        states_needed(p) >= 1,
    decreases p,
{
    match p {
        Pattern::Empty => {},
        Pattern::Literal { character } => {},
        Pattern::Concatenate { first, second } => {
            states_are_fresh(*first, lo);
            states_are_fresh(*second, lo + states_needed(*first));
        },
        Pattern::Choose { first, second } => {
            states_are_fresh(*first, lo);
            states_are_fresh(*second, lo + states_needed(*first));
        },
        Pattern::Repeat(inner) => {
            states_are_fresh(*inner, lo);
        },
    }
}

/// A repetition matches what its inner pattern matches.
pub proof fn repeat_matches_once(inner: Pattern, w: Seq<char>)
    requires
        lang(inner, w),
    ensures
        lang(Pattern::Repeat(Box::new(inner)), w),
{
    if w.len() > 0 {
        let k = w.len() as int;
        assert(w.take(k) =~= w);
        assert(w.skip(k).len() == 0);
        assert(lang(Pattern::Repeat(Box::new(inner)), w.skip(k)));
        assert(0 < k <= w.len() && lang(inner, w.take(k)));
    }
}

/// A repetition matches what it matches twice over.
pub proof fn repeat_matches_again(inner: Pattern, a: Seq<char>, b: Seq<char>)
    requires
        lang(Pattern::Repeat(Box::new(inner)), a),
        lang(Pattern::Repeat(Box::new(inner)), b),
    ensures
        lang(Pattern::Repeat(Box::new(inner)), a + b),
    decreases a.len(),
{
    let p = Pattern::Repeat(Box::new(inner));
    if a.len() == 0 {
        assert(a + b =~= b);
    } else {
        let k = choose|k: int|
            0 < k <= a.len() && lang(inner, #[trigger] a.take(k)) && lang(p, a.skip(k));
        repeat_matches_again(inner, a.skip(k), b);
        assert((a + b).take(k) =~= a.take(k));
        assert((a + b).skip(k) =~= a.skip(k) + b);
        assert(0 < k <= (a + b).len() && lang(inner, (a + b).take(k)));
    }
}

/// A concatenation matches a string matched by its first part followed by
/// one matched by its second part.
pub proof fn concatenation_matches(first: Pattern, second: Pattern, u: Seq<char>, v: Seq<char>)
    requires
        lang(first, u),
        lang(second, v),
    ensures
        lang(Pattern::Concatenate { first: Box::new(first), second: Box::new(second) }, u + v),
{
    let k = u.len() as int;
    assert((u + v).take(k) =~= u);
    assert((u + v).skip(k) =~= v);
    assert(0 <= k <= (u + v).len() && lang(first, (u + v).take(k)) && lang(
        second,
        (u + v).skip(k),
    ));
}

/// The path of one rule.
pub proof fn path_of_one<K>(rules: Set<Rule<K>>, r: Rule<K>)
    requires
        rules.contains(r),
    ensures
        is_path(rules, seq![r], r.from, r.to),
        word(seq![r]) == reads(r),
        derives(rules, r.from, reads(r), r.to),
{
    path_of_nothing(rules, r.from);
    path_push(rules, Seq::<Rule<K>>::empty(), r.from, r.from, r);
    assert(Seq::<Rule<K>>::empty().push(r) =~= seq![r]);
    assert(Seq::<char>::empty() + reads(r) =~= reads(r));
    assert(is_path(rules, seq![r], r.from, r.to));
}

/// The automaton of the empty pattern accepts the empty string only.
proof fn empty_is_right(lo: int, w: Seq<char>)
    ensures
        accepted(thompson(Pattern::Empty, lo), w) == lang(Pattern::Empty, w),
{
    let f = thompson(Pattern::Empty, lo);
    if accepted(f, w) {
        let b = choose|b: int| f.accept.contains(b) && #[trigger] derives(f.rules, f.start, w, b);
        let path = choose|path: Seq<Rule<int>>|
            #[trigger] is_path(f.rules, path, f.start, b) && word(path) == w;
        if path.len() > 0 {
            assert(f.rules.contains(path[0]));
        }
    }
    if w.len() == 0 {
        path_of_nothing(f.rules, lo);
        assert(w =~= Seq::<char>::empty());
        assert(f.accept.contains(lo));
    }
}

/// The automaton of a literal accepts the one-symbol string of its
/// symbol; with the reserved symbol, the empty string.
proof fn literal_is_right(character: char, lo: int, w: Seq<char>)
    ensures
        accepted(thompson(Pattern::Literal { character }, lo), w) == lang(
            Pattern::Literal { character },
            w,
        ),
{
    let p = Pattern::Literal { character };
    let f = thompson(p, lo);
    let r = Rule { from: lo, symbol: character, to: lo + 1 };
    if accepted(f, w) {
        let b = choose|b: int| f.accept.contains(b) && #[trigger] derives(f.rules, f.start, w, b);
        let path = choose|path: Seq<Rule<int>>|
            #[trigger] is_path(f.rules, path, f.start, b) && word(path) == w;
        assert(path.len() > 0);
        assert(f.rules.contains(path[0]));
        if path.len() > 1 {
            assert(f.rules.contains(path[1]));
            assert(path[0int].to == path[0int + 1].from);
        }
        assert(path =~= seq![r]);
        path_of_one(f.rules, r);
    }
    if lang(p, w) {
        path_of_one(f.rules, r);
        assert(reads(r) =~= w);
        assert(f.accept.contains(lo + 1));
    }
}

/// Where a path through the automaton of a concatenation has come, from
/// the start of the first part: it is still in the first part, by a path
/// through the first part alone; or it is in the second part, having read
/// first a string that the first part accepts and then a string along a
/// path through the second part. The result is that pair of strings.
proof fn concatenation_trace(
    first: Pattern,
    second: Pattern,
    lo: int,
    path: Seq<Rule<int>>,
    y: int,
) -> (split: (Seq<char>, Seq<char>))
    requires
        is_path(
            thompson(Pattern::Concatenate { first: Box::new(first), second: Box::new(second) }, lo).rules,
            path,
            thompson(first, lo).start,
            y,
        ),
    ensures
        lo <= y < lo + states_needed(first) + states_needed(second),
        y < lo + states_needed(first) ==> derives(
            thompson(first, lo).rules,
            thompson(first, lo).start,
            word(path),
            y,
        ),
        y >= lo + states_needed(first) ==> word(path) == split.0 + split.1 && accepted(
            thompson(first, lo),
            split.0,
        ) && derives(
            thompson(second, lo + states_needed(first)).rules,
            thompson(second, lo + states_needed(first)).start,
            split.1,
            y,
        ),
    decreases path.len(),
{
    let mid = lo + states_needed(first);
    let a = thompson(first, lo);
    let b = thompson(second, mid);
    let all = thompson(
        Pattern::Concatenate { first: Box::new(first), second: Box::new(second) },
        lo,
    ).rules;
    states_are_fresh(first, lo);
    states_are_fresh(second, mid);
    let nothing = Seq::<char>::empty();
    if path.len() == 0 {
        path_of_nothing(a.rules, a.start);
        (nothing, nothing)
    } else {
        path_drop_last(all, path, a.start, y);
        let r = path.last();
        let shorter = path.drop_last();
        let before = concatenation_trace(first, second, lo, shorter, r.from);
        if a.rules.contains(r) {
            derives_push(a.rules, a.start, word(shorter), r);
            (nothing, nothing)
        } else if b.rules.contains(r) {
            derives_push(b.rules, b.start, before.1, r);
            assert(before.0 + before.1 + reads(r) =~= before.0 + (before.1 + reads(r)));
            (before.0, before.1 + reads(r))
        } else {
            assert(bridges(a.accept, b.start).contains(r));
            assert(a.accept.contains(r.from));
            path_of_nothing(b.rules, b.start);
            assert(word(shorter) + reads(r) =~= word(shorter) + nothing);
            (word(shorter), nothing)
        }
    }
}

/// The automaton of a concatenation is right when those of its parts are.
proof fn concatenation_is_right(first: Pattern, second: Pattern, lo: int, w: Seq<char>)
    requires
        forall|x: Seq<char>| #[trigger] accepted(thompson(first, lo), x) == lang(first, x),
        forall|x: Seq<char>| #[trigger]
            accepted(thompson(second, lo + states_needed(first)), x) == lang(second, x),
    ensures
        accepted(
            thompson(Pattern::Concatenate { first: Box::new(first), second: Box::new(second) }, lo),
            w,
        ) == lang(Pattern::Concatenate { first: Box::new(first), second: Box::new(second) }, w),
{
    let p = Pattern::Concatenate { first: Box::new(first), second: Box::new(second) };
    let mid = lo + states_needed(first);
    let a = thompson(first, lo);
    let b = thompson(second, mid);
    let f = thompson(p, lo);
    states_are_fresh(first, lo);
    states_are_fresh(second, mid);
    if accepted(f, w) {
        let g = choose|g: int| f.accept.contains(g) && #[trigger] derives(f.rules, f.start, w, g);
        let path = choose|path: Seq<Rule<int>>|
            #[trigger] is_path(f.rules, path, f.start, g) && word(path) == w;
        let split = concatenation_trace(first, second, lo, path, g);
        assert(accepted(b, split.1));
        concatenation_matches(first, second, split.0, split.1);
    }
    if lang(p, w) {
        let k = choose|k: int|
            0 <= k <= w.len() && lang(first, #[trigger] w.take(k)) && lang(second, w.skip(k));
        let u = w.take(k);
        let v = w.skip(k);
        assert(accepted(a, u));
        assert(accepted(b, v));
        let e = choose|e: int| a.accept.contains(e) && #[trigger] derives(a.rules, a.start, u, e);
        let g = choose|g: int| b.accept.contains(g) && #[trigger] derives(b.rules, b.start, v, g);
        let bridge = Rule { from: e, symbol: EPSILON, to: b.start };
        assert(bridges(a.accept, b.start).contains(bridge));
        derives_in_more_rules(a.rules, f.rules, a.start, u, e);
        derives_in_more_rules(b.rules, f.rules, b.start, v, g);
        derives_push(f.rules, a.start, u, bridge);
        derives_concat(f.rules, a.start, u + reads(bridge), b.start, v, g);
        assert(u + reads(bridge) + v =~= w);
        assert(f.accept.contains(g));
    }
}

/// Where a path through the automaton of a choice has come, from its
/// start state: nowhere yet, or into one of the parts, by a path through
/// that part alone from its start.
proof fn choice_trace(first: Pattern, second: Pattern, lo: int, path: Seq<Rule<int>>, y: int)
    requires
        is_path(
            thompson(Pattern::Choose { first: Box::new(first), second: Box::new(second) }, lo).rules,
            path,
            lo + states_needed(first) + states_needed(second),
            y,
        ),
    ensures
        path.len() == 0 ==> y == lo + states_needed(first) + states_needed(second),
        path.len() > 0 ==> lo <= y < lo + states_needed(first) + states_needed(second),
        path.len() > 0 && y < lo + states_needed(first) ==> derives(
            thompson(first, lo).rules,
            thompson(first, lo).start,
            word(path),
            y,
        ),
        path.len() > 0 && y >= lo + states_needed(first) ==> derives(
            thompson(second, lo + states_needed(first)).rules,
            thompson(second, lo + states_needed(first)).start,
            word(path),
            y,
        ),
    decreases path.len(),
{
    let mid = lo + states_needed(first);
    let top = mid + states_needed(second);
    let a = thompson(first, lo);
    let b = thompson(second, mid);
    let all = thompson(Pattern::Choose { first: Box::new(first), second: Box::new(second) }, lo).rules;
    states_are_fresh(first, lo);
    states_are_fresh(second, mid);
    if path.len() > 0 {
        path_drop_last(all, path, top, y);
        let r = path.last();
        let shorter = path.drop_last();
        choice_trace(first, second, lo, shorter, r.from);
        if a.rules.contains(r) {
            derives_push(a.rules, a.start, word(shorter), r);
        } else if b.rules.contains(r) {
            derives_push(b.rules, b.start, word(shorter), r);
        } else if bridges(set![top], a.start).contains(r) {
            path_of_nothing(a.rules, a.start);
            assert(word(path) =~= Seq::<char>::empty());
        } else {
            assert(bridges(set![top], b.start).contains(r));
            path_of_nothing(b.rules, b.start);
            assert(word(path) =~= Seq::<char>::empty());
        }
    }
}

/// The automaton of a choice is right when those of its parts are.
proof fn choice_is_right(first: Pattern, second: Pattern, lo: int, w: Seq<char>)
    requires
        forall|x: Seq<char>| #[trigger] accepted(thompson(first, lo), x) == lang(first, x),
        forall|x: Seq<char>| #[trigger]
            accepted(thompson(second, lo + states_needed(first)), x) == lang(second, x),
    ensures
        accepted(
            thompson(Pattern::Choose { first: Box::new(first), second: Box::new(second) }, lo),
            w,
        ) == lang(Pattern::Choose { first: Box::new(first), second: Box::new(second) }, w),
{
    let p = Pattern::Choose { first: Box::new(first), second: Box::new(second) };
    let mid = lo + states_needed(first);
    let top = mid + states_needed(second);
    let a = thompson(first, lo);
    let b = thompson(second, mid);
    let f = thompson(p, lo);
    states_are_fresh(first, lo);
    states_are_fresh(second, mid);
    if accepted(f, w) {
        let g = choose|g: int| f.accept.contains(g) && #[trigger] derives(f.rules, f.start, w, g);
        let path = choose|path: Seq<Rule<int>>|
            #[trigger] is_path(f.rules, path, f.start, g) && word(path) == w;
        choice_trace(first, second, lo, path, g);
        if g < mid {
            assert(a.accept.contains(g));
            assert(accepted(a, w));
        } else {
            assert(b.accept.contains(g));
            assert(accepted(b, w));
        }
    }
    if lang(first, w) {
        assert(accepted(a, w));
        let e = choose|e: int| a.accept.contains(e) && #[trigger] derives(a.rules, a.start, w, e);
        let bridge = Rule { from: top, symbol: EPSILON, to: a.start };
        assert(bridges(set![top], a.start).contains(bridge));
        path_of_one(f.rules, bridge);
        derives_in_more_rules(a.rules, f.rules, a.start, w, e);
        derives_concat(f.rules, top, reads(bridge), a.start, w, e);
        assert(reads(bridge) + w =~= w);
        assert(f.accept.contains(e));
    }
    if lang(second, w) {
        assert(accepted(b, w));
        let e = choose|e: int| b.accept.contains(e) && #[trigger] derives(b.rules, b.start, w, e);
        let bridge = Rule { from: top, symbol: EPSILON, to: b.start };
        assert(bridges(set![top], b.start).contains(bridge));
        path_of_one(f.rules, bridge);
        derives_in_more_rules(b.rules, f.rules, b.start, w, e);
        derives_concat(f.rules, top, reads(bridge), b.start, w, e);
        assert(reads(bridge) + w =~= w);
        assert(f.accept.contains(e));
    }
}

/// Where a path through the automaton of a repetition has come, from its
/// start state: nowhere yet, or into the inner automaton, having read
/// first a string that the repetition matches and then a string along a
/// path through the inner automaton from its start. The result is that
/// pair of strings.
proof fn repetition_trace(inner: Pattern, lo: int, path: Seq<Rule<int>>, y: int) -> (split: (
    Seq<char>,
    Seq<char>,
))
    requires
        forall|x: Seq<char>| #[trigger] accepted(thompson(inner, lo), x) == lang(inner, x),
        is_path(
            thompson(Pattern::Repeat(Box::new(inner)), lo).rules,
            path,
            lo + states_needed(inner),
            y,
        ),
    ensures
        path.len() == 0 ==> y == lo + states_needed(inner),
        path.len() > 0 ==> lo <= y < lo + states_needed(inner) && word(path) == split.0 + split.1
            && lang(Pattern::Repeat(Box::new(inner)), split.0) && derives(
            thompson(inner, lo).rules,
            thompson(inner, lo).start,
            split.1,
            y,
        ),
    decreases path.len(),
{
    let p = Pattern::Repeat(Box::new(inner));
    let top = lo + states_needed(inner);
    let a = thompson(inner, lo);
    let all = thompson(p, lo).rules;
    let nothing = Seq::<char>::empty();
    states_are_fresh(inner, lo);
    if path.len() == 0 {
        (nothing, nothing)
    } else {
        path_drop_last(all, path, top, y);
        let r = path.last();
        let shorter = path.drop_last();
        let before = repetition_trace(inner, lo, shorter, r.from);
        if a.rules.contains(r) {
            derives_push(a.rules, a.start, before.1, r);
            assert(before.0 + before.1 + reads(r) =~= before.0 + (before.1 + reads(r)));
            (before.0, before.1 + reads(r))
        } else if bridges(a.accept, a.start).contains(r) {
            assert(accepted(a, before.1));
            repeat_matches_once(inner, before.1);
            repeat_matches_again(inner, before.0, before.1);
            path_of_nothing(a.rules, a.start);
            assert(word(path) =~= before.0 + before.1 + nothing);
            (before.0 + before.1, nothing)
        } else {
            assert(bridges(set![top], a.start).contains(r));
            path_of_nothing(a.rules, a.start);
            assert(word(path) =~= nothing + nothing);
            assert(lang(p, nothing));
            (nothing, nothing)
        }
    }
}

/// A path through the automaton of a repetition that reads a string
/// matched by the repetition, from the inner start to an inner accept
/// state.
proof fn repetition_path(inner: Pattern, lo: int, w: Seq<char>) -> (e: int)
    requires
        forall|x: Seq<char>| #[trigger] accepted(thompson(inner, lo), x) == lang(inner, x),
        lang(Pattern::Repeat(Box::new(inner)), w),
        w.len() > 0,
    ensures
        thompson(inner, lo).accept.contains(e),
        derives(
            thompson(Pattern::Repeat(Box::new(inner)), lo).rules,
            thompson(inner, lo).start,
            w,
            e,
        ),
    decreases w.len(),
{
    let p = Pattern::Repeat(Box::new(inner));
    let a = thompson(inner, lo);
    let all = thompson(p, lo).rules;
    let k = choose|k: int|
        0 < k <= w.len() && lang(inner, #[trigger] w.take(k)) && lang(p, w.skip(k));
    let u = w.take(k);
    let v = w.skip(k);
    assert(accepted(a, u));
    let e = choose|e: int| a.accept.contains(e) && #[trigger] derives(a.rules, a.start, u, e);
    derives_in_more_rules(a.rules, all, a.start, u, e);
    if v.len() == 0 {
        assert(u =~= w);
        e
    } else {
        let last = repetition_path(inner, lo, v);
        let bridge = Rule { from: e, symbol: EPSILON, to: a.start };
        assert(bridges(a.accept, a.start).contains(bridge));
        derives_push(all, a.start, u, bridge);
        derives_concat(all, a.start, u + reads(bridge), a.start, v, last);
        assert(u + reads(bridge) + v =~= w);
        last
    }
}

/// The automaton of a repetition is right when that of its inner pattern
/// is.
proof fn repetition_is_right(inner: Pattern, lo: int, w: Seq<char>)
    requires
        forall|x: Seq<char>| #[trigger] accepted(thompson(inner, lo), x) == lang(inner, x),
    ensures
        accepted(thompson(Pattern::Repeat(Box::new(inner)), lo), w) == lang(
            Pattern::Repeat(Box::new(inner)),
            w,
        ),
{
    let p = Pattern::Repeat(Box::new(inner));
    let top = lo + states_needed(inner);
    let a = thompson(inner, lo);
    let f = thompson(p, lo);
    states_are_fresh(inner, lo);
    if accepted(f, w) {
        let g = choose|g: int| f.accept.contains(g) && #[trigger] derives(f.rules, f.start, w, g);
        let path = choose|path: Seq<Rule<int>>|
            #[trigger] is_path(f.rules, path, f.start, g) && word(path) == w;
        let split = repetition_trace(inner, lo, path, g);
        if path.len() > 0 {
            assert(a.accept.contains(g));
            assert(accepted(a, split.1));
            repeat_matches_once(inner, split.1);
            repeat_matches_again(inner, split.0, split.1);
        }
    }
    if lang(p, w) {
        if w.len() == 0 {
            path_of_nothing(f.rules, top);
            assert(w =~= Seq::<char>::empty());
            assert(f.accept.contains(top));
        } else {
            let e = repetition_path(inner, lo, w);
            let bridge = Rule { from: top, symbol: EPSILON, to: a.start };
            assert(bridges(set![top], a.start).contains(bridge));
            path_of_one(f.rules, bridge);
            derives_concat(f.rules, top, reads(bridge), a.start, w, e);
            assert(reads(bridge) + w =~= w);
            assert(f.accept.contains(e));
        }
    }
}

/// The automaton that Thompson's construction makes from a pattern
/// accepts exactly the strings that the pattern matches.
pub proof fn thompson_is_right(p: Pattern, lo: int, w: Seq<char>)
    ensures
        accepted(thompson(p, lo), w) == lang(p, w),
    decreases p,
{
    match p {
        Pattern::Empty => empty_is_right(lo, w),
        Pattern::Literal { character } => literal_is_right(character, lo, w),
        Pattern::Concatenate { first, second } => {
            assert forall|x: Seq<char>| #[trigger]
                accepted(thompson(*first, lo), x) == lang(*first, x) by {
                thompson_is_right(*first, lo, x);
            }
            assert forall|x: Seq<char>| #[trigger]
                accepted(thompson(*second, lo + states_needed(*first)), x) == lang(*second, x) by {
                thompson_is_right(*second, lo + states_needed(*first), x);
            }
            concatenation_is_right(*first, *second, lo, w);
        },
        Pattern::Choose { first, second } => {
            assert forall|x: Seq<char>| #[trigger]
                accepted(thompson(*first, lo), x) == lang(*first, x) by {
                thompson_is_right(*first, lo, x);
            }
            assert forall|x: Seq<char>| #[trigger]
                accepted(thompson(*second, lo + states_needed(*first)), x) == lang(*second, x) by {
                thompson_is_right(*second, lo + states_needed(*first), x);
            }
            choice_is_right(*first, *second, lo, w);
        },
        Pattern::Repeat(inner) => {
            assert forall|x: Seq<char>| #[trigger]
                accepted(thompson(*inner, lo), x) == lang(*inner, x) by {
                thompson_is_right(*inner, lo, x);
            }
            repetition_is_right(*inner, lo, w);
        },
    }
}

/// The deterministic automaton made by the subset construction from the
/// automaton of a pattern accepts exactly the strings that the pattern
/// matches; so the two automata accept the same strings.
pub proof fn determinized_pattern_is_right(
    p: Pattern,
    n: NfaModel<int>,
    d: DfaModel<Set<int>>,
    w: Seq<char>,
)
    requires
        fragment_of(n) == thompson(p, 0),
        determinizes(d, n),
    ensures
        dfa_accepts(d, w) == lang(p, w),
        dfa_accepts(d, w) == nfa_accepts(n, w),
{
    determinized_accepts_the_same(d, n, w);
    accepts_iff_path(n, w);
    thompson_is_right(p, 0, w);
}

/// The free moves from the states of a finite set to one state are as
/// many as the states.
proof fn bridges_are_counted(from: Set<int>, to: int)
    requires
        from.finite(),
    ensures
        bridges(from, to).finite(),
        bridges(from, to).len() == from.len(),
{
    let bridge = |q: int| Rule { from: q, symbol: EPSILON, to: to };
    assert forall|r: Rule<int>| from.map(bridge).contains(r) implies bridges(from, to).contains(
        r,
    ) by {
        let q = choose|q: int| from.contains(q) && bridge(q) == r;
    }
    assert forall|r: Rule<int>| bridges(from, to).contains(r) implies from.map(bridge).contains(
        r,
    ) by {
        assert(from.contains(r.from) && bridge(r.from) == r);
    }
    assert(from.map(bridge) =~= bridges(from, to));
    assert(injective_on(bridge, from));
    lemma_map_size(from, bridges(from, to), bridge);
}

/// The automaton of a pattern has as many rules and accept states as are
/// counted for it, each once, and no rule enters its start state.
pub proof fn automaton_is_counted(p: Pattern, lo: int)
    ensures
        thompson(p, lo).rules.finite(),
        thompson(p, lo).rules.len() == rules_needed(p),
        thompson(p, lo).accept.finite(),
        thompson(p, lo).accept.len() == accepts_needed(p),
        forall|r: Rule<int>| #[trigger]
            thompson(p, lo).rules.contains(r) ==> r.to != thompson(p, lo).start,
    decreases p,
{
    states_are_fresh(p, lo);
    match p {
        Pattern::Empty => {},
        Pattern::Literal { character } => {},
        Pattern::Concatenate { first, second } => {
            let mid = lo + states_needed(*first);
            let a = thompson(*first, lo);
            let b = thompson(*second, mid);
            automaton_is_counted(*first, lo);
            automaton_is_counted(*second, mid);
            states_are_fresh(*first, lo);
            states_are_fresh(*second, mid);
            let link = bridges(a.accept, b.start);
            bridges_are_counted(a.accept, b.start);
            assert(a.rules.disjoint(b.rules)) by {
                assert forall|r: Rule<int>| a.rules.contains(r) implies !b.rules.contains(r) by {
                    assert(r.from < mid);
                }
            }
            lemma_set_disjoint_lens(a.rules, b.rules);
            assert(a.rules.union(b.rules).disjoint(link)) by {
                assert forall|r: Rule<int>| a.rules.union(b.rules).contains(r) implies !link.contains(
                    r,
                ) by {
                    if a.rules.contains(r) {
                        assert(r.to < mid);
                    } else {
                        assert(r.from >= mid);
                    }
                }
            }
            lemma_set_disjoint_lens(a.rules.union(b.rules), link);
        },
        Pattern::Choose { first, second } => {
            let mid = lo + states_needed(*first);
            let top = mid + states_needed(*second);
            let a = thompson(*first, lo);
            let b = thompson(*second, mid);
            automaton_is_counted(*first, lo);
            automaton_is_counted(*second, mid);
            states_are_fresh(*first, lo);
            states_are_fresh(*second, mid);
            let left = bridges(set![top], a.start);
            let right = bridges(set![top], b.start);
            bridges_are_counted(set![top], a.start);
            bridges_are_counted(set![top], b.start);
            assert(a.rules.disjoint(b.rules)) by {
                assert forall|r: Rule<int>| a.rules.contains(r) implies !b.rules.contains(r) by {
                    assert(r.from < mid);
                }
            }
            lemma_set_disjoint_lens(a.rules, b.rules);
            let both = a.rules.union(b.rules);
            assert(both.disjoint(left)) by {
                assert forall|r: Rule<int>| both.contains(r) implies !left.contains(r) by {
                    assert(r.from < top);
                }
            }
            lemma_set_disjoint_lens(both, left);
            assert(both.union(left).disjoint(right)) by {
                assert forall|r: Rule<int>| both.union(left).contains(r) implies !right.contains(
                    r,
                ) by {
                    if both.contains(r) {
                        assert(r.from < top);
                    } else {
                        assert(r.to == a.start);
                    }
                }
            }
            lemma_set_disjoint_lens(both.union(left), right);
            assert(a.accept.disjoint(b.accept)) by {
                assert forall|q: int| a.accept.contains(q) implies !b.accept.contains(q) by {
                    assert(q < mid);
                }
            }
            lemma_set_disjoint_lens(a.accept, b.accept);
        },
        Pattern::Repeat(inner) => {
            let top = lo + states_needed(*inner);
            let a = thompson(*inner, lo);
            automaton_is_counted(*inner, lo);
            states_are_fresh(*inner, lo);
            let back = bridges(a.accept, a.start);
            let enter = bridges(set![top], a.start);
            bridges_are_counted(a.accept, a.start);
            bridges_are_counted(set![top], a.start);
            assert(a.rules.disjoint(back)) by {
                assert forall|r: Rule<int>| a.rules.contains(r) implies !back.contains(r) by {
                    assert(r.to != a.start);
                }
            }
            lemma_set_disjoint_lens(a.rules, back);
            assert(a.rules.union(back).disjoint(enter)) by {
                assert forall|r: Rule<int>| a.rules.union(back).contains(r) implies !enter.contains(
                    r,
                ) by {
                    assert(r.from < top);
                }
            }
            lemma_set_disjoint_lens(a.rules.union(back), enter);
        },
    }
}

} // verus!
