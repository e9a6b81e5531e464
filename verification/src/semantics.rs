//! What a rulebook means: the states reached by reading a symbol, the
//! closure under free moves, and the strings that an automaton accepts.

use vstd::prelude::*;
use vstd::set_lib::*;
use crate::rule::{Rule, EPSILON};

verus! {

/// Whether `r` leaves a state of `states` and carries exactly `c`.
pub open spec fn fires<K>(r: Rule<K>, states: Set<K>, c: char) -> bool {
    states.contains(r.from) && r.symbol == c
}

/// The states entered by the rules that leave a state of `states` and
/// carry exactly `c`.
pub open spec fn targets<K>(rules: Seq<Rule<K>>, states: Set<K>, c: char) -> Set<K> {
    Set::new(
        |t: K|
            exists|i: int|
                0 <= i < rules.len() && fires(#[trigger] rules[i], states, c) && rules[i].to == t,
    )
}

/// The states reached from `states` by one free move.
pub open spec fn free_moves<K>(rules: Seq<Rule<K>>, states: Set<K>) -> Set<K> {
    targets(rules, states, EPSILON)
}

/// The states reached from `states` by reading the input symbol `c`.
/// Free-move rules are never used here: the reserved symbol matches no
/// input.
pub open spec fn consume<K>(rules: Seq<Rule<K>>, states: Set<K>, c: char) -> Set<K> {
    if c == EPSILON {
        Set::empty()
    } else {
        targets(rules, states, c)
    }
}

/// Whether no free move leaves `states`.
pub open spec fn closed_under_free_moves<K>(rules: Seq<Rule<K>>, states: Set<K>) -> bool {
    free_moves(rules, states).subset_of(states)
}

/// The states reached from `states` by at most `n` free moves.
pub open spec fn closure_upto<K>(rules: Seq<Rule<K>>, states: Set<K>, n: nat) -> Set<K>
    decreases n,
{
    if n == 0 {
        states
    } else {
        let prev = closure_upto(rules, states, (n - 1) as nat);
        prev.union(free_moves(rules, prev))
    }
}

/// The states reached from `states` by any number of free moves.
pub open spec fn epsilon_closure<K>(rules: Seq<Rule<K>>, states: Set<K>) -> Set<K> {
    Set::new(|t: K| exists|n: nat| #[trigger] closure_upto(rules, states, n).contains(t))
}

/// The states that some rule enters.
pub open spec fn rule_targets<K>(rules: Seq<Rule<K>>) -> Set<K> {
    rules.map_values(|r: Rule<K>| r.to).to_set()
}

/// More moves reach more states.
pub proof fn closure_upto_grows<K>(rules: Seq<Rule<K>>, states: Set<K>, n: nat, m: nat)
    requires
        n <= m,
    ensures
        closure_upto(rules, states, n).subset_of(closure_upto(rules, states, m)),
    decreases m,
{
    if n < m {
        closure_upto_grows(rules, states, n, (m - 1) as nat);
    }
}

/// Every state of the closure is a given state or is entered by a rule.
pub proof fn closure_upto_bounded<K>(rules: Seq<Rule<K>>, states: Set<K>, n: nat)
    ensures
        closure_upto(rules, states, n).subset_of(states.union(rule_targets(rules))),
    decreases n,
{
    if n > 0 {
        closure_upto_bounded(rules, states, (n - 1) as nat);
        let prev = closure_upto(rules, states, (n - 1) as nat);
        assert forall|t: K| free_moves(rules, prev).contains(t) implies rule_targets(
            rules,
        ).contains(t) by {
            let i = choose|i: int|
                0 <= i < rules.len() && fires(#[trigger] rules[i], prev, EPSILON) && rules[i].to
                    == t;
            assert(rules.map_values(|r: Rule<K>| r.to)[i] == t);
        }
    }
}

/// The closure holds the states it starts from.
pub proof fn closure_extends<K>(rules: Seq<Rule<K>>, states: Set<K>)
    ensures
        states.subset_of(epsilon_closure(rules, states)),
{
    assert forall|t: K| states.contains(t) implies epsilon_closure(rules, states).contains(t) by {
        assert(closure_upto(rules, states, 0).contains(t));
    }
}

/// No free move leaves the closure.
pub proof fn closure_is_closed<K>(rules: Seq<Rule<K>>, states: Set<K>)
    ensures
        closed_under_free_moves(rules, epsilon_closure(rules, states)),
{
    let cl = epsilon_closure(rules, states);
    assert forall|t: K| free_moves(rules, cl).contains(t) implies cl.contains(t) by {
        let i = choose|i: int|
            0 <= i < rules.len() && fires(#[trigger] rules[i], cl, EPSILON) && rules[i].to == t;
        let n = choose|n: nat| #[trigger] closure_upto(rules, states, n).contains(rules[i].from);
        let prev = closure_upto(rules, states, n);
        assert(fires(rules[i], prev, EPSILON));
        assert(free_moves(rules, prev).contains(t));
        assert(closure_upto(rules, states, n + 1).contains(t));
    }
}

/// The closure is inside every set that holds the given states and that no
/// free move leaves.
pub proof fn closure_is_least<K>(rules: Seq<Rule<K>>, states: Set<K>, bound: Set<K>)
    requires
        states.subset_of(bound),
        closed_under_free_moves(rules, bound),
    ensures
        epsilon_closure(rules, states).subset_of(bound),
{
    assert forall|t: K| epsilon_closure(rules, states).contains(t) implies bound.contains(t) by {
        let n = choose|n: nat| #[trigger] closure_upto(rules, states, n).contains(t);
        closure_upto_inside(rules, states, bound, n);
    }
}

proof fn closure_upto_inside<K>(rules: Seq<Rule<K>>, states: Set<K>, bound: Set<K>, n: nat)
    requires
        states.subset_of(bound),
        closed_under_free_moves(rules, bound),
    ensures
        closure_upto(rules, states, n).subset_of(bound),
    decreases n,
{
    if n > 0 {
        closure_upto_inside(rules, states, bound, (n - 1) as nat);
        let prev = closure_upto(rules, states, (n - 1) as nat);
        assert forall|t: K| free_moves(rules, prev).contains(t) implies bound.contains(t) by {
            let i = choose|i: int|
                0 <= i < rules.len() && fires(#[trigger] rules[i], prev, EPSILON) && rules[i].to
                    == t;
            assert(fires(rules[i], bound, EPSILON));
            assert(free_moves(rules, bound).contains(t));
        }
    }
}

/// A set that no free move leaves is its own closure.
pub proof fn closure_of_closed<K>(rules: Seq<Rule<K>>, states: Set<K>)
    requires
        closed_under_free_moves(rules, states),
    ensures
        epsilon_closure(rules, states) == states,
{
    closure_extends(rules, states);
    closure_is_least(rules, states, states);
    assert(epsilon_closure(rules, states) =~= states);
}

/// Closing a closure changes nothing.
pub proof fn closure_is_idempotent<K>(rules: Seq<Rule<K>>, states: Set<K>)
    ensures
        epsilon_closure(rules, epsilon_closure(rules, states)) == epsilon_closure(rules, states),
{
    closure_is_closed(rules, states);
    closure_of_closed(rules, epsilon_closure(rules, states));
}

/// Once a round of free moves adds nothing, the closure is reached.
pub proof fn closure_reached<K>(rules: Seq<Rule<K>>, states: Set<K>, n: nat)
    requires
        closed_under_free_moves(rules, closure_upto(rules, states, n)),
    ensures
        epsilon_closure(rules, states) == closure_upto(rules, states, n),
{
    let cur = closure_upto(rules, states, n);
    closure_upto_grows(rules, states, 0, n);
    closure_is_least(rules, states, cur);
    assert(epsilon_closure(rules, states) =~= cur);
}

/// The closure of the empty set is empty.
pub proof fn closure_of_nothing<K>(rules: Seq<Rule<K>>)
    ensures
        epsilon_closure(rules, Set::<K>::empty()) == Set::<K>::empty(),
{
    assert(free_moves(rules, Set::<K>::empty()) =~= Set::<K>::empty());
    closure_of_closed(rules, Set::<K>::empty());
}

/// The configuration of a nondeterministic automaton after it reads `c`
/// in the configuration `config`.
pub open spec fn nfa_step<K>(rules: Seq<Rule<K>>, config: Set<K>, c: char) -> Set<K> {
    epsilon_closure(rules, consume(rules, config, c))
}

/// The configuration after reading `input`, symbol by symbol, from
/// `config`.
pub open spec fn nfa_run<K>(rules: Seq<Rule<K>>, config: Set<K>, input: Seq<char>) -> Set<K>
    decreases input.len(),
{
    if input.len() == 0 {
        config
    } else {
        nfa_step(rules, nfa_run(rules, config, input.drop_last()), input.last())
    }
}

/// Whether a configuration is accepting: some state reached from it by
/// free moves is an accept state.
pub open spec fn nfa_accepting<K>(rules: Seq<Rule<K>>, accept: Set<K>, config: Set<K>) -> bool {
    !epsilon_closure(rules, config).disjoint(accept)
}

/// A nondeterministic automaton: a start state, accept states and rules.
#[verifier::reject_recursive_types(K)]
pub struct NfaModel<K> {
    pub start: K,
    pub accept: Set<K>,
    pub rules: Seq<Rule<K>>,
}

/// The configuration in which a nondeterministic automaton starts.
pub open spec fn nfa_initial<K>(m: NfaModel<K>) -> Set<K> {
    epsilon_closure(m.rules, set![m.start])
}

/// Whether the automaton `m` accepts `input`.
pub open spec fn nfa_accepts<K>(m: NfaModel<K>, input: Seq<char>) -> bool {
    nfa_accepting(m.rules, m.accept, nfa_run(m.rules, nfa_initial(m), input))
}

/// Whether at most one rule fires for each state and symbol, and none is
/// a free move.
pub open spec fn deterministic<K>(rules: Seq<Rule<K>>) -> bool {
    &&& forall|i: int| 0 <= i < rules.len() ==> (#[trigger] rules[i]).symbol != EPSILON
    &&& forall|i: int, j: int|
        0 <= i < rules.len() && 0 <= j < rules.len() && i != j ==> !((#[trigger] rules[i]).from
            == (#[trigger] rules[j]).from && rules[i].symbol == rules[j].symbol)
}

/// Whether some rule fires in state `q` on `c`.
pub open spec fn has_rule<K>(rules: Seq<Rule<K>>, q: K, c: char) -> bool {
    exists|i: int| 0 <= i < rules.len() && applies(#[trigger] rules[i], q, c)
}

/// Whether `r` fires in state `q` on `c`.
pub open spec fn applies<K>(r: Rule<K>, q: K, c: char) -> bool {
    r.from == q && r.symbol == c
}

/// The position of the first rule that fires in state `q` on `c`, if any.
pub open spec fn first_rule<K>(rules: Seq<Rule<K>>, q: K, c: char) -> Option<int>
    decreases rules.len(),
{
    if rules.len() == 0 {
        None
    } else {
        match first_rule(rules.drop_last(), q, c) {
            Some(i) => Some(i),
            None => if applies(rules.last(), q, c) {
                Some(rules.len() - 1)
            } else {
                None
            },
        }
    }
}

/// What `first_rule` finds.
pub proof fn first_rule_found<K>(rules: Seq<Rule<K>>, q: K, c: char)
    ensures
        match first_rule(rules, q, c) {
            Some(i) => 0 <= i < rules.len() && applies(rules[i], q, c) && forall|j: int|
                0 <= j < i ==> !applies(#[trigger] rules[j], q, c),
            None => !has_rule(rules, q, c),
        },
    decreases rules.len(),
{
    if rules.len() > 0 {
        let init = rules.drop_last();
        first_rule_found(init, q, c);
        match first_rule(init, q, c) {
            Some(i) => {
                assert(rules[i] == init[i]);
                assert forall|j: int| 0 <= j < i implies !applies(#[trigger] rules[j], q, c) by {
                    assert(rules[j] == init[j]);
                }
            },
            None => {
                assert forall|j: int| 0 <= j < rules.len() - 1 implies !applies(
                    #[trigger] rules[j],
                    q,
                    c,
                ) by {
                    assert(rules[j] == init[j]);
                }
            },
        }
    }
}

/// The state that a deterministic automaton enters from `q` on `c`; none
/// where no rule fires. Free-move rules never fire on input.
pub open spec fn dfa_next<K>(rules: Seq<Rule<K>>, q: K, c: char) -> Option<K> {
    if c == EPSILON {
        None
    } else {
        match first_rule(rules, q, c) {
            Some(i) => Some(rules[i].to),
            None => None,
        }
    }
}

/// One step of a deterministic automaton; `None` is the stuck
/// configuration, which nothing leaves.
pub open spec fn dfa_step<K>(rules: Seq<Rule<K>>, cur: Option<K>, c: char) -> Option<K> {
    match cur {
        Some(q) => dfa_next(rules, q, c),
        None => None,
    }
}

/// The configuration after reading `input` from `cur`.
pub open spec fn dfa_run<K>(rules: Seq<Rule<K>>, cur: Option<K>, input: Seq<char>) -> Option<K>
    decreases input.len(),
{
    if input.len() == 0 {
        cur
    } else {
        dfa_step(rules, dfa_run(rules, cur, input.drop_last()), input.last())
    }
}

/// A deterministic automaton: a start state, accept states and rules.
#[verifier::reject_recursive_types(K)]
pub struct DfaModel<K> {
    pub start: K,
    pub accept: Set<K>,
    pub rules: Seq<Rule<K>>,
}

/// Whether a configuration of a deterministic automaton is accepting.
pub open spec fn dfa_accepting<K>(accept: Set<K>, cur: Option<K>) -> bool {
    match cur {
        Some(q) => accept.contains(q),
        None => false,
    }
}

/// Whether the deterministic automaton `m` accepts `input`.
pub open spec fn dfa_accepts<K>(m: DfaModel<K>, input: Seq<char>) -> bool {
    dfa_accepting(m.accept, dfa_run(m.rules, Some(m.start), input))
}

} // verus!
