//! Thompson's construction: from a pattern to a nondeterministic
//! automaton with free moves. Every state gets the next number of one
//! counter, so the states of two fragments never collide.

use vstd::prelude::*;
use vstd::set_lib::lemma_set_disjoint_lens;
use crate::correctness::{automaton_is_counted, states_are_fresh, thompson_is_right};
use crate::nfa::{NFADesign, NFARuleBook};
use crate::paths::{accepts_iff_path, reaches_accept};
use crate::pattern::{lang, Pattern};
use crate::rule::{rule_models, FARule, Rule, EPSILON};
use crate::semantics::{nfa_accepts, NfaModel};
use crate::state::{Member, StateInt};
use crate::states::{id_set, id_set_take_next, States};

verus! {

/// An automaton as the construction sees it: a start state, accept states
/// and a set of rules over numbered states.
pub struct Fragment {
    pub start: int,
    pub accept: Set<int>,
    pub rules: Set<Rule<int>>,
}

/// The fragment that an automaton over numbered states is.
pub open spec fn fragment_of(m: NfaModel<int>) -> Fragment {
    Fragment { start: m.start, accept: m.accept, rules: m.rules.to_set() }
}

/// Whether some path through the fragment leads from its start state to
/// an accept state and reads `w`.
pub open spec fn accepted(f: Fragment, w: Seq<char>) -> bool {
    reaches_accept(f.rules, f.start, f.accept, w)
}

/// The number of states that the automaton of `p` has.
pub open spec fn states_needed(p: Pattern) -> nat
    decreases p,
{
    match p {
        Pattern::Empty => 1,
        Pattern::Literal { .. } => 2,
        Pattern::Concatenate { first, second } => states_needed(*first) + states_needed(*second),
        Pattern::Choose { first, second } => states_needed(*first) + states_needed(*second) + 1,
        Pattern::Repeat(inner) => states_needed(*inner) + 1,
    }
}

/// The number of accept states that the automaton of `p` has.
pub open spec fn accepts_needed(p: Pattern) -> nat
    decreases p,
{
    match p {
        Pattern::Empty => 1,
        Pattern::Literal { .. } => 1,
        Pattern::Concatenate { first, second } => accepts_needed(*second),
        Pattern::Choose { first, second } => accepts_needed(*first) + accepts_needed(*second),
        Pattern::Repeat(inner) => accepts_needed(*inner) + 1,
    }
}

/// The number of rules that the automaton of `p` has: none for the empty
/// pattern, one for a literal; a concatenation adds a free move for each
/// accept state of its first part, a choice adds two free moves, and a
/// repetition adds a free move for each accept state of its inner
/// pattern and one more from its new start state.
pub open spec fn rules_needed(p: Pattern) -> nat
    decreases p,
{
    match p {
        Pattern::Empty => 0,
        Pattern::Literal { .. } => 1,
        Pattern::Concatenate { first, second } => rules_needed(*first) + rules_needed(*second)
            + accepts_needed(*first),
        Pattern::Choose { first, second } => rules_needed(*first) + rules_needed(*second) + 2,
        Pattern::Repeat(inner) => rules_needed(*inner) + accepts_needed(*inner) + 1,
    }
}

/// The free moves from each state of `from` to the state `to`.
pub open spec fn bridges(from: Set<int>, to: int) -> Set<Rule<int>> {
    Set::new(|r: Rule<int>| from.contains(r.from) && r.symbol == EPSILON && r.to == to)
}

/// The automaton of `p` whose states are numbered from `lo` upwards.
///
/// - The empty pattern: one state, which starts and accepts.
/// - A literal: two states and one rule between them on the literal's
///   symbol.
/// - A concatenation: the automata of both parts, with a free move from
///   each accept state of the first to the start of the second.
/// - A choice: the automata of both parts and a new start state with a
///   free move to the start of each.
/// - A repetition: the automaton of the inner pattern, a new start state
///   that also accepts, a free move from it to the inner start, and one
///   from each inner accept state back to the inner start.
pub open spec fn thompson(p: Pattern, lo: int) -> Fragment
    decreases p,
{
    match p {
        Pattern::Empty => Fragment { start: lo, accept: set![lo], rules: Set::empty() },
        Pattern::Literal { character } => Fragment {
            start: lo,
            accept: set![lo + 1],
            rules: set![Rule { from: lo, symbol: character, to: lo + 1 }],
        },
        Pattern::Concatenate { first, second } => {
            let a = thompson(*first, lo);
            let b = thompson(*second, lo + states_needed(*first));
            Fragment {
                start: a.start,
                accept: b.accept,
                rules: a.rules.union(b.rules).union(bridges(a.accept, b.start)),
            }
        },
        Pattern::Choose { first, second } => {
            let a = thompson(*first, lo);
            let b = thompson(*second, lo + states_needed(*first));
            let s = lo + states_needed(*first) + states_needed(*second);
            Fragment {
                start: s,
                accept: a.accept.union(b.accept),
                rules: a.rules.union(b.rules).union(bridges(set![s], a.start)).union(
                    bridges(set![s], b.start),
                ),
            }
        },
        Pattern::Repeat(inner) => {
            let a = thompson(*inner, lo);
            let s = lo + states_needed(*inner);
            Fragment {
                start: s,
                accept: a.accept.insert(s),
                rules: a.rules.union(bridges(a.accept, a.start)).union(bridges(set![s], a.start)),
            }
        },
    }
}

/// The rules in `rules` as a set.
pub open spec fn rule_set(rules: Seq<FARule<StateInt>>) -> Set<Rule<int>> {
    rule_models(rules).to_set()
}

proof fn rule_set_push(rules: Seq<FARule<StateInt>>, r: FARule<StateInt>)
    ensures
        rule_set(rules.push(r)) == rule_set(rules).insert(r@),
{
    assert(rule_models(rules.push(r)) =~= rule_models(rules).push(r@));
    rule_models(rules).lemma_push_to_set_commute(r@);
}

proof fn rule_set_add(a: Seq<FARule<StateInt>>, b: Seq<FARule<StateInt>>)
    ensures
        rule_set(a + b) == rule_set(a).union(rule_set(b)),
{
    assert(rule_models(a + b) =~= rule_models(a) + rule_models(b));
    vstd::seq_lib::seq_to_set_distributes_over_add(rule_models(a), rule_models(b));
}

proof fn rule_set_empty()
    ensures
        rule_set(Seq::empty()) == Set::<Rule<int>>::empty(),
{
    assert(rule_set(Seq::empty()) =~= Set::<Rule<int>>::empty());
}

/// Adds a free move from each state of `from` to `to`.
fn add_bridges(rules: &mut Vec<FARule<StateInt>>, from: &States<StateInt>, to: &StateInt)
    ensures
        rule_set(final(rules)@) == rule_set(old(rules)@).union(bridges(from@, to@)),
        final(rules)@.len() == old(rules)@.len() + from.elems().len(),
{
    let mut i: usize = 0;
    proof {
        assert(from.elems().take(0) =~= Seq::empty());
        assert(bridges(id_set(from.elems().take(0)), to@) =~= Set::empty());
        assert(rule_set(rules@).union(Set::empty()) =~= rule_set(rules@));
    }
    while i < from.len()
        invariant
            i <= from.elems().len(),
            rules@.len() == old(rules)@.len() + i,
            rule_set(rules@) == rule_set(old(rules)@).union(
                bridges(id_set(from.elems().take(i as int)), to@),
            ),
        decreases from.elems().len() - i,
    {
        let rule = FARule::new(from.get(i).duplicate(), EPSILON, to.duplicate());
        proof {
            rule_set_push(rules@, rule);
            id_set_take_next(from.elems(), i as int);
            let seen = id_set(from.elems().take(i as int));
            let f = from.elems()[i as int]@;
            assert(bridges(seen.insert(f), to@) =~= bridges(seen, to@).insert(rule@));
        }
        rules.push(rule);
        i += 1;
    }
    proof {
        assert(from.elems().take(from.elems().len() as int) == from.elems());
    }
}

/// Adds the free move from `from` to `to`.
fn add_bridge(rules: &mut Vec<FARule<StateInt>>, from: &StateInt, to: &StateInt)
    ensures
        rule_set(final(rules)@) == rule_set(old(rules)@).union(bridges(set![from@], to@)),
        final(rules)@.len() == old(rules)@.len() + 1,
{
    let rule = FARule::new(from.duplicate(), EPSILON, to.duplicate());
    proof {
        rule_set_push(rules@, rule);
        assert(bridges(set![from@], to@) =~= set![rule@]);
        assert(rule_set(rules@).insert(rule@) =~= rule_set(rules@).union(set![rule@]));
    }
    rules.push(rule);
}

impl Pattern {
    /// The number of states that the automaton of the pattern has; none
    /// where the number does not fit.
    pub fn state_count(&self) -> (n: Option<i32>)
        ensures
            match n {
                Some(k) => k == states_needed(*self),
                None => states_needed(*self) > i32::MAX,
            },
        decreases *self,
    {
        match self {
            Pattern::Empty => Some(1),
            Pattern::Literal { character: _ } => Some(2),
            Pattern::Concatenate { first, second } => {
                match (first.state_count(), second.state_count()) {
                    (Some(a), Some(b)) => a.checked_add(b),
                    _ => None,
                }
            },
            Pattern::Choose { first, second } => {
                match (first.state_count(), second.state_count()) {
                    (Some(a), Some(b)) => match a.checked_add(b) {
                        Some(c) => c.checked_add(1),
                        None => None,
                    },
                    _ => None,
                }
            },
            Pattern::Repeat(inner) => {
                match inner.state_count() {
                    Some(a) => a.checked_add(1),
                    None => None,
                }
            },
        }
    }

    /// The automaton of the pattern with its states numbered from `lo`,
    /// and the next free number.
    fn compile(&self, lo: i32) -> (made: (NFADesign<StateInt>, i32))
        requires
            0 <= lo,
            lo + states_needed(*self) <= i32::MAX,
        ensures
            made.1 == lo + states_needed(*self),
            fragment_of(made.0@) == thompson(*self, lo as int),
            made.0.accept_states.wf(),
            made.0.accept_states.elems().len() == accepts_needed(*self),
            made.0.rulebook.rules@.len() == rules_needed(*self),
        decreases *self,
    {
        match self {
            Pattern::Empty => {
                let mut accept_states: States<StateInt> = States::new();
                accept_states.insert(StateInt::new(lo));
                proof {
                    rule_set_empty();
                    assert(accept_states@ =~= set![lo as int]);
                }
                let rules: Vec<FARule<StateInt>> = Vec::new();
                (
                    NFADesign {
                        start_state: StateInt::new(lo),
                        accept_states,
                        rulebook: NFARuleBook { rules },
                    },
                    lo + 1,
                )
            },
            Pattern::Literal { character } => {
                let rule = FARule::new(StateInt::new(lo), *character, StateInt::new(lo + 1));
                let mut rules: Vec<FARule<StateInt>> = Vec::new();
                proof {
                    rule_set_empty();
                    rule_set_push(rules@, rule);
                }
                rules.push(rule);
                let mut accept_states: States<StateInt> = States::new();
                accept_states.insert(StateInt::new(lo + 1));
                proof {
                    assert(accept_states@ =~= set![lo as int + 1]);
                    assert(rule_set(rules@) =~= set![
                        Rule { from: lo as int, symbol: *character, to: lo as int + 1 },
                    ]);
                }
                (
                    NFADesign {
                        start_state: StateInt::new(lo),
                        accept_states,
                        rulebook: NFARuleBook { rules },
                    },
                    lo + 2,
                )
            },
            Pattern::Concatenate { first, second } => {
                let (a, mid) = first.compile(lo);
                let (b, hi) = second.compile(mid);
                let NFADesign { start_state: a_start, accept_states: a_accept, rulebook: a_book } =
                    a;
                let NFADesign { start_state: b_start, accept_states: b_accept, rulebook: b_book } =
                    b;
                let mut rules = a_book.rules;
                let mut b_rules = b_book.rules;
                proof {
                    rule_set_add(rules@, b_rules@);
                }
                rules.append(&mut b_rules);
                add_bridges(&mut rules, &a_accept, &b_start);
                (
                    NFADesign {
                        start_state: a_start,
                        accept_states: b_accept,
                        rulebook: NFARuleBook { rules },
                    },
                    hi,
                )
            },
            Pattern::Choose { first, second } => {
                let (a, mid) = first.compile(lo);
                let (b, top) = second.compile(mid);
                let NFADesign { start_state: a_start, accept_states: a_accept, rulebook: a_book } =
                    a;
                let NFADesign { start_state: b_start, accept_states: b_accept, rulebook: b_book } =
                    b;
                let start_state = StateInt::new(top);
                proof {
                    states_are_fresh(**first, lo as int);
                    states_are_fresh(**second, mid as int);
                    a_accept.counted();
                    b_accept.counted();
                    assert(a_accept@ == thompson(**first, lo as int).accept);
                    assert(b_accept@ == thompson(**second, mid as int).accept);
                    assert forall|q: int| a_accept@.contains(q) implies !b_accept@.contains(q) by {
                        assert(q < mid);
                    }
                    lemma_set_disjoint_lens(a_accept@, b_accept@);
                }
                let mut accept_states = a_accept;
                accept_states.extend(&b_accept);
                proof {
                    accept_states.counted();
                }
                let mut rules = a_book.rules;
                let mut b_rules = b_book.rules;
                proof {
                    rule_set_add(rules@, b_rules@);
                }
                rules.append(&mut b_rules);
                add_bridge(&mut rules, &start_state, &a_start);
                add_bridge(&mut rules, &start_state, &b_start);
                (NFADesign { start_state, accept_states, rulebook: NFARuleBook { rules } }, top + 1)
            },
            Pattern::Repeat(inner) => {
                let (a, top) = inner.compile(lo);
                let NFADesign { start_state: a_start, accept_states: a_accept, rulebook: a_book } =
                    a;
                let start_state = StateInt::new(top);
                let mut rules = a_book.rules;
                add_bridges(&mut rules, &a_accept, &a_start);
                add_bridge(&mut rules, &start_state, &a_start);
                proof {
                    states_are_fresh(**inner, lo as int);
                }
                let mut accept_states = a_accept;
                accept_states.insert(start_state.duplicate());
                (NFADesign { start_state, accept_states, rulebook: NFARuleBook { rules } }, top + 1)
            },
        }
    }

    /// The automaton of the pattern, with its states numbered from zero:
    /// its rulebook holds each rule of the construction once, and it
    /// accepts exactly the strings that the pattern matches.
    pub fn to_nfa_design(&self) -> (design: NFADesign<StateInt>)
        requires
            states_needed(*self) <= i32::MAX,
        ensures
            fragment_of(design@) == thompson(*self, 0),
            design.accept_states.wf(),
            design.accept_states.elems().len() == accepts_needed(*self),
            design.rulebook.rules@.len() == rules_needed(*self),
            rule_models(design.rulebook.rules@).no_duplicates(),
            forall|w: Seq<char>| nfa_accepts(design@, w) == lang(*self, w),
    {
        let (design, _) = self.compile(0);
        proof {
            automaton_is_counted(*self, 0);
            assert(rule_models(design.rulebook.rules@).to_set() == thompson(*self, 0).rules);
            rule_models(design.rulebook.rules@).lemma_no_dup_set_cardinality();
            assert forall|w: Seq<char>| nfa_accepts(design@, w) == lang(*self, w) by {
                accepts_iff_path(design@, w);
                thompson_is_right(*self, 0, w);
            }
        }
        design
    }

    /// Whether the pattern matches the string `s`.
    pub fn matches(&self, s: String) -> (b: bool)
        requires
            states_needed(*self) <= i32::MAX,
        ensures
            b == lang(*self, s@),
    {
        let design = self.to_nfa_design();
        design.accepts(s)
    }
}

} // verus!
