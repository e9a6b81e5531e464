//! Runs of an automaton as paths through its rules, and why reading input
//! on sets of states finds exactly the states that some path reaches.

use vstd::prelude::*;
use crate::rule::{Rule, EPSILON};
use crate::semantics::{
    closed_under_free_moves, closure_extends, closure_is_closed, closure_is_idempotent,
    closure_upto, consume, epsilon_closure, fires, free_moves, nfa_accepts, nfa_initial, nfa_run,
    NfaModel,
};

verus! {

/// Whether `path` is a chain of rules of `rules` that leads from `a` to
/// `b`: each rule starts where the one before it ends.
pub open spec fn is_path<K>(rules: Set<Rule<K>>, path: Seq<Rule<K>>, a: K, b: K) -> bool {
    &&& forall|i: int| 0 <= i < path.len() ==> rules.contains(#[trigger] path[i])
    &&& forall|i: int| 0 <= i < path.len() - 1 ==> (#[trigger] path[i]).to == path[i + 1].from
    &&& if path.len() == 0 {
        a == b
    } else {
        path[0].from == a && path.last().to == b
    }
}

/// What following `r` reads: nothing for a free move, else its symbol.
pub open spec fn reads<K>(r: Rule<K>) -> Seq<char> {
    if r.symbol == EPSILON {
        Seq::empty()
    } else {
        seq![r.symbol]
    }
}

/// The string read along `path`.
pub open spec fn word<K>(path: Seq<Rule<K>>) -> Seq<char>
    decreases path.len(),
{
    if path.len() == 0 {
        Seq::empty()
    } else {
        word(path.drop_last()) + reads(path.last())
    }
}

/// Whether some path through `rules` leads from `a` to `b` and reads `w`.
pub open spec fn derives<K>(rules: Set<Rule<K>>, a: K, w: Seq<char>, b: K) -> bool {
    exists|path: Seq<Rule<K>>| #[trigger] is_path(rules, path, a, b) && word(path) == w
}

/// Whether some path leads from the start state to an accept state and
/// reads `w`.
pub open spec fn reaches_accept<K>(
    rules: Set<Rule<K>>,
    start: K,
    accept: Set<K>,
    w: Seq<char>,
) -> bool {
    exists|b: K| accept.contains(b) && #[trigger] derives(rules, start, w, b)
}

/// The empty path stays where it is and reads nothing.
pub proof fn path_of_nothing<K>(rules: Set<Rule<K>>, a: K)
    ensures
        is_path(rules, Seq::<Rule<K>>::empty(), a, a),
        word(Seq::<Rule<K>>::empty()) == Seq::<char>::empty(),
        derives(rules, a, Seq::<char>::empty(), a),
{
    assert(is_path(rules, Seq::<Rule<K>>::empty(), a, a));
}

/// A path followed by one more rule.
pub proof fn path_push<K>(rules: Set<Rule<K>>, path: Seq<Rule<K>>, a: K, b: K, r: Rule<K>)
    requires
        is_path(rules, path, a, b),
        rules.contains(r),
        r.from == b,
    ensures
        is_path(rules, path.push(r), a, r.to),
        word(path.push(r)) == word(path) + reads(r),
{
    let longer = path.push(r);
    assert(longer.drop_last() == path);
    assert forall|i: int| 0 <= i < longer.len() implies rules.contains(#[trigger] longer[i]) by {
        if i < path.len() {
            assert(longer[i] == path[i]);
        }
    }
    assert forall|i: int| 0 <= i < longer.len() - 1 implies (#[trigger] longer[i]).to == longer[i
        + 1].from by {
        assert(longer[i] == path[i]);
        if i + 1 < path.len() {
            assert(longer[i + 1] == path[i + 1]);
        }
    }
}

/// A path without its last rule.
pub proof fn path_drop_last<K>(rules: Set<Rule<K>>, path: Seq<Rule<K>>, a: K, b: K)
    requires
        is_path(rules, path, a, b),
        path.len() > 0,
    ensures
        is_path(rules, path.drop_last(), a, path.last().from),
        rules.contains(path.last()),
        path.last().to == b,
        word(path) == word(path.drop_last()) + reads(path.last()),
{
    let shorter = path.drop_last();
    assert forall|i: int| 0 <= i < shorter.len() implies rules.contains(#[trigger] shorter[i]) by {
        assert(shorter[i] == path[i]);
    }
    assert forall|i: int| 0 <= i < shorter.len() - 1 implies (#[trigger] shorter[i]).to
        == shorter[i + 1].from by {
        assert(shorter[i] == path[i]);
        assert(shorter[i + 1] == path[i + 1]);
    }
    if shorter.len() > 0 {
        assert(shorter[0] == path[0]);
        assert(shorter.last() == path[path.len() - 2]);
        assert(path[path.len() - 2].to == path[path.len() - 2 + 1].from);
    }
}

/// Two paths, one after the other.
pub proof fn path_concat<K>(
    rules: Set<Rule<K>>,
    first: Seq<Rule<K>>,
    second: Seq<Rule<K>>,
    a: K,
    b: K,
    c: K,
)
    requires
        is_path(rules, first, a, b),
        is_path(rules, second, b, c),
    ensures
        is_path(rules, first + second, a, c),
        word(first + second) == word(first) + word(second),
    decreases second.len(),
{
    if second.len() == 0 {
        assert(first + second =~= first);
        assert(word(first) + word(second) =~= word(first));
    } else {
        path_drop_last(rules, second, b, c);
        path_concat(rules, first, second.drop_last(), a, b, second.last().from);
        path_push(
            rules,
            first + second.drop_last(),
            a,
            second.last().from,
            second.last(),
        );
        assert((first + second.drop_last()).push(second.last()) =~= first + second);
        assert(word(first) + word(second.drop_last()) + reads(second.last()) =~= word(first) + (
        word(second.drop_last()) + reads(second.last())));
    }
}

/// A path through some rules is a path through more rules.
pub proof fn path_in_more_rules<K>(
    rules: Set<Rule<K>>,
    more: Set<Rule<K>>,
    path: Seq<Rule<K>>,
    a: K,
    b: K,
)
    requires
        is_path(rules, path, a, b),
        rules.subset_of(more),
    ensures
        is_path(more, path, a, b),
{
}

/// What can be derived, can be derived with more rules.
pub proof fn derives_in_more_rules<K>(
    rules: Set<Rule<K>>,
    more: Set<Rule<K>>,
    a: K,
    w: Seq<char>,
    b: K,
)
    requires
        derives(rules, a, w, b),
        rules.subset_of(more),
    ensures
        derives(more, a, w, b),
{
    let path = choose|path: Seq<Rule<K>>| #[trigger] is_path(rules, path, a, b) && word(path) == w;
    path_in_more_rules(rules, more, path, a, b);
}

/// Derivations, one after the other.
pub proof fn derives_concat<K>(
    rules: Set<Rule<K>>,
    a: K,
    u: Seq<char>,
    b: K,
    v: Seq<char>,
    c: K,
)
    requires
        derives(rules, a, u, b),
        derives(rules, b, v, c),
    ensures
        derives(rules, a, u + v, c),
{
    let first = choose|path: Seq<Rule<K>>| #[trigger] is_path(rules, path, a, b) && word(path) == u;
    let second = choose|path: Seq<Rule<K>>|
        #[trigger] is_path(rules, path, b, c) && word(path) == v;
    path_concat(rules, first, second, a, b, c);
    assert(is_path(rules, first + second, a, c));
}

/// A derivation followed by one rule.
pub proof fn derives_push<K>(rules: Set<Rule<K>>, a: K, w: Seq<char>, r: Rule<K>)
    requires
        derives(rules, a, w, r.from),
        rules.contains(r),
    ensures
        derives(rules, a, w + reads(r), r.to),
{
    let path = choose|path: Seq<Rule<K>>|
        #[trigger] is_path(rules, path, a, r.from) && word(path) == w;
    path_push(rules, path, a, r.from, r);
    assert(is_path(rules, path.push(r), a, r.to));
}

/// Every state of the closure is reached from a given state by a path
/// that reads nothing.
pub proof fn closure_gives_path<K>(rules: Seq<Rule<K>>, states: Set<K>, n: nat, t: K) -> (s: K)
    requires
        closure_upto(rules, states, n).contains(t),
    ensures
        states.contains(s),
        derives(rules.to_set(), s, Seq::<char>::empty(), t),
    decreases n,
{
    if n == 0 {
        path_of_nothing(rules.to_set(), t);
        t
    } else {
        let prev = closure_upto(rules, states, (n - 1) as nat);
        if prev.contains(t) {
            closure_gives_path(rules, states, (n - 1) as nat, t)
        } else {
            let i = choose|i: int|
                0 <= i < rules.len() && fires(#[trigger] rules[i], prev, EPSILON) && rules[i].to
                    == t;
            let s = closure_gives_path(rules, states, (n - 1) as nat, rules[i].from);
            assert(rules.to_set().contains(rules[i]));
            derives_push(rules.to_set(), s, Seq::<char>::empty(), rules[i]);
            assert(Seq::<char>::empty() + reads(rules[i]) =~= Seq::<char>::empty());
            s
        }
    }
}

/// A path that reads nothing stays inside a set that no free move leaves.
pub proof fn silent_path_stays<K>(
    rules: Seq<Rule<K>>,
    states: Set<K>,
    path: Seq<Rule<K>>,
    a: K,
    b: K,
)
    requires
        closed_under_free_moves(rules, states),
        states.contains(a),
        is_path(rules.to_set(), path, a, b),
        word(path).len() == 0,
    ensures
        states.contains(b),
    decreases path.len(),
{
    if path.len() > 0 {
        path_drop_last(rules.to_set(), path, a, b);
        let r = path.last();
        assert(word(path.drop_last()).len() == 0 && reads(r).len() == 0);
        silent_path_stays(rules, states, path.drop_last(), a, r.from);
        let i = choose|i: int| 0 <= i < rules.len() && rules[i] == r;
        assert(fires(rules[i], states, EPSILON));
        assert(free_moves(rules, states).contains(b));
    }
}

/// The configuration of a run is a set that no free move leaves.
pub proof fn run_is_closed<K>(rules: Seq<Rule<K>>, states: Set<K>, input: Seq<char>)
    ensures
        closed_under_free_moves(
            rules,
            nfa_run(rules, epsilon_closure(rules, states), input),
        ),
        epsilon_closure(rules, nfa_run(rules, epsilon_closure(rules, states), input)) == nfa_run(
            rules,
            epsilon_closure(rules, states),
            input,
        ),
{
    if input.len() == 0 {
        closure_is_closed(rules, states);
        closure_is_idempotent(rules, states);
    } else {
        let read = consume(
            rules,
            nfa_run(rules, epsilon_closure(rules, states), input.drop_last()),
            input.last(),
        );
        closure_is_closed(rules, read);
        closure_is_idempotent(rules, read);
    }
}

/// Every state in the configuration after reading `input` is reached by a
/// path that reads `input`.
pub proof fn run_gives_path<K>(rules: Seq<Rule<K>>, a: K, input: Seq<char>, t: K)
    requires
        nfa_run(rules, epsilon_closure(rules, set![a]), input).contains(t),
    ensures
        derives(rules.to_set(), a, input, t),
    decreases input.len(),
{
    let all = rules.to_set();
    if input.len() == 0 {
        let n = choose|n: nat| #[trigger] closure_upto(rules, set![a], n).contains(t);
        let s = closure_gives_path(rules, set![a], n, t);
        assert(input =~= Seq::<char>::empty());
    } else {
        let before = nfa_run(rules, epsilon_closure(rules, set![a]), input.drop_last());
        let c = input.last();
        let read = consume(rules, before, c);
        let n = choose|n: nat| #[trigger] closure_upto(rules, read, n).contains(t);
        let u = closure_gives_path(rules, read, n, t);
        let i = choose|i: int|
            0 <= i < rules.len() && fires(#[trigger] rules[i], before, c) && rules[i].to == u;
        run_gives_path(rules, a, input.drop_last(), rules[i].from);
        assert(all.contains(rules[i]));
        assert(c != EPSILON);
        assert(reads(rules[i]) == seq![c]);
        assert(input.drop_last() + seq![c] =~= input);
        derives_push(all, a, input.drop_last(), rules[i]);
        derives_concat(all, a, input.drop_last() + reads(rules[i]), u, Seq::<char>::empty(), t);
        assert(input.drop_last() + reads(rules[i]) + Seq::<char>::empty() =~= input);
    }
}

/// Every state that a path reaches is in the configuration after reading
/// what the path reads.
pub proof fn path_gives_run<K>(rules: Seq<Rule<K>>, a: K, path: Seq<Rule<K>>, t: K)
    requires
        is_path(rules.to_set(), path, a, t),
    ensures
        nfa_run(rules, epsilon_closure(rules, set![a]), word(path)).contains(t),
    decreases path.len(),
{
    let start = epsilon_closure(rules, set![a]);
    if path.len() == 0 {
        closure_extends(rules, set![a]);
    } else {
        path_drop_last(rules.to_set(), path, a, t);
        let r = path.last();
        let shorter = path.drop_last();
        path_gives_run(rules, a, shorter, r.from);
        let before = nfa_run(rules, start, word(shorter));
        let i = choose|i: int| 0 <= i < rules.len() && rules[i] == r;
        if r.symbol == EPSILON {
            assert(word(path) =~= word(shorter));
            run_is_closed(rules, set![a], word(shorter));
            assert(fires(rules[i], before, EPSILON));
            assert(free_moves(rules, before).contains(t));
        } else {
            let w = word(path);
            assert(w.drop_last() =~= word(shorter));
            assert(w.last() == r.symbol);
            assert(fires(rules[i], before, r.symbol));
            assert(consume(rules, before, r.symbol).contains(t));
            closure_extends(rules, consume(rules, before, r.symbol));
        }
    }
}

/// An automaton accepts a string exactly when a path that reads the
/// string leads from its start state to an accept state.
pub proof fn accepts_iff_path<K>(m: NfaModel<K>, input: Seq<char>)
    ensures
        nfa_accepts(m, input) == reaches_accept(m.rules.to_set(), m.start, m.accept, input),
{
    let config = nfa_run(m.rules, nfa_initial(m), input);
    run_is_closed(m.rules, set![m.start], input);
    if nfa_accepts(m, input) {
        let t = choose|t: K| config.contains(t) && m.accept.contains(t);
        run_gives_path(m.rules, m.start, input, t);
        assert(derives(m.rules.to_set(), m.start, input, t));
    }
    if reaches_accept(m.rules.to_set(), m.start, m.accept, input) {
        let b = choose|b: K|
            m.accept.contains(b) && #[trigger] derives(m.rules.to_set(), m.start, input, b);
        let path = choose|path: Seq<Rule<K>>|
            #[trigger] is_path(m.rules.to_set(), path, m.start, b) && word(path) == input;
        path_gives_run(m.rules, m.start, path, b);
        assert(config.contains(b) && m.accept.contains(b));
    }
}

} // verus!
