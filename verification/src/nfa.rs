//! Nondeterministic finite automata with free moves: rulebooks, the
//! automaton that reads input, and the design it is made from.

use vstd::prelude::*;
use vstd::set_lib::*;
use crate::rule::{duplicate_rules, rule_models, FARule, Rule, EPSILON};
use crate::semantics::{
    applies, closure_is_idempotent, closure_reached, closure_upto, closure_upto_bounded, consume,
    epsilon_closure, fires, free_moves, nfa_accepting, nfa_accepts, nfa_run, rule_targets,
    targets, NfaModel,
};
use crate::state::State;
use crate::states::{id_set, id_set_empty, id_set_push, id_set_take_next, ids, States};
use crate::text::chars_of;

verus! {

/// The rules of `rules` that fire in state `q` on `c`, in order.
pub open spec fn matching<K>(rules: Seq<Rule<K>>, q: K, c: char) -> Seq<Rule<K>>
    decreases rules.len(),
{
    if rules.len() == 0 {
        Seq::empty()
    } else {
        let init = matching(rules.drop_last(), q, c);
        if applies(rules.last(), q, c) {
            init.push(rules.last())
        } else {
            init
        }
    }
}

/// The states that the rules in `rules` enter, in order.
pub open spec fn entered<K>(rules: Seq<Rule<K>>) -> Seq<K> {
    rules.map_values(|r: Rule<K>| r.to)
}

/// The contents of the rules behind the references in `v`, in order.
pub open spec fn ref_models<S: State>(v: Seq<&FARule<S>>) -> Seq<Rule<S::V>> {
    v.map_values(|r: &FARule<S>| r@)
}

/// The symbols, other than the free move, that occur on a rule.
pub open spec fn symbols<K>(rules: Seq<Rule<K>>) -> Set<char> {
    Set::new(
        |c: char|
            c != EPSILON && exists|i: int| 0 <= i < rules.len() && (#[trigger] rules[i]).symbol == c,
    )
}

/// Whether `v` is strictly increasing by code point.
pub open spec fn increasing_chars(v: Seq<char>) -> bool {
    forall|i: int, j: int| 0 <= i < j < v.len() ==> v[i] < v[j]
}

/// The matching rules enter exactly the targets of the one state.
pub proof fn matching_enters_targets<K>(rules: Seq<Rule<K>>, q: K, c: char)
    ensures
        entered(matching(rules, q, c)).to_set() == targets(rules, set![q], c),
    decreases rules.len(),
{
    let lhs = entered(matching(rules, q, c)).to_set();
    let rhs = targets(rules, set![q], c);
    if rules.len() == 0 {
        assert(lhs =~= rhs);
    } else {
        let init = rules.drop_last();
        matching_enters_targets(init, q, c);
        let m0 = matching(init, q, c);
        assert forall|t: K| lhs.contains(t) implies rhs.contains(t) by {
            let m = matching(rules, q, c);
            let j = choose|j: int| 0 <= j < entered(m).len() && entered(m)[j] == t;
            if j < m0.len() {
                assert(entered(m0)[j] == t);
                assert(entered(m0).to_set().contains(t));
                let i = choose|i: int|
                    0 <= i < init.len() && fires(#[trigger] init[i], set![q], c) && init[i].to == t;
                assert(rules[i] == init[i]);
            } else {
                assert(fires(rules[rules.len() - 1], set![q], c));
            }
        }
        assert forall|t: K| rhs.contains(t) implies lhs.contains(t) by {
            let m = matching(rules, q, c);
            let i = choose|i: int|
                0 <= i < rules.len() && fires(#[trigger] rules[i], set![q], c) && rules[i].to == t;
            if i < rules.len() - 1 {
                assert(init[i] == rules[i]);
                assert(targets(init, set![q], c).contains(t));
                let j = choose|j: int| 0 <= j < entered(m0).len() && entered(m0)[j] == t;
                assert(entered(m)[j] == t);
            } else {
                assert(entered(m)[m.len() - 1] == t);
            }
        }
        assert(lhs =~= rhs);
    }
}

/// The targets of a set with one more state.
pub proof fn targets_insert<K>(rules: Seq<Rule<K>>, states: Set<K>, q: K, c: char)
    ensures
        targets(rules, states.insert(q), c) == targets(rules, states, c).union(
            targets(rules, set![q], c),
        ),
{
    let lhs = targets(rules, states.insert(q), c);
    let rhs = targets(rules, states, c).union(targets(rules, set![q], c));
    assert forall|t: K| lhs.contains(t) implies rhs.contains(t) by {
        let i = choose|i: int|
            0 <= i < rules.len() && fires(#[trigger] rules[i], states.insert(q), c) && rules[i].to
                == t;
        if rules[i].from == q {
            assert(fires(rules[i], set![q], c));
        } else {
            assert(fires(rules[i], states, c));
        }
    }
    assert forall|t: K| rhs.contains(t) implies lhs.contains(t) by {
        if targets(rules, states, c).contains(t) {
            let i = choose|i: int|
                0 <= i < rules.len() && fires(#[trigger] rules[i], states, c) && rules[i].to == t;
            assert(fires(rules[i], states.insert(q), c));
        } else {
            let i = choose|i: int|
                0 <= i < rules.len() && fires(#[trigger] rules[i], set![q], c) && rules[i].to == t;
            assert(fires(rules[i], states.insert(q), c));
        }
    }
    assert(lhs =~= rhs);
}

/// No rule leaves the empty set.
pub proof fn targets_of_nothing<K>(rules: Seq<Rule<K>>, c: char)
    ensures
        targets(rules, Set::<K>::empty(), c) == Set::<K>::empty(),
{
    assert(targets(rules, Set::<K>::empty(), c) =~= Set::<K>::empty());
}

/// The rules of a nondeterministic automaton.
#[derive(Clone, Debug, PartialEq)]
pub struct NFARuleBook<S: State> {
    pub rules: Vec<FARule<S>>,
}

impl<S: State> View for NFARuleBook<S> {
    type V = Seq<Rule<S::V>>;

    open spec fn view(&self) -> Seq<Rule<S::V>> {
        rule_models(self.rules@)
    }
}

impl<S: State> NFARuleBook<S> {
    /// The rules that fire in `state` on exactly `character`, in the order
    /// of the rulebook.
    pub fn rules_for(&self, state: &S, character: char) -> (found: Vec<&FARule<S>>)
        ensures
            ref_models(found@) == matching(self@, state@, character),
    {
        let mut found: Vec<&FARule<S>> = Vec::new();
        let mut i: usize = 0;
        assert(self@.take(0) =~= Seq::empty());
        assert(ref_models(found@) =~= Seq::empty());
        while i < self.rules.len()
            invariant
                i <= self.rules.len(),
                ref_models(found@) == matching(self@.take(i as int), state@, character),
            decreases self.rules.len() - i,
        {
            proof {
                let next = self@.take(i as int + 1);
                assert(next.drop_last() == self@.take(i as int));
                assert(next.last() == self.rules@[i as int]@);
            }
            if self.rules[i].applies_to(state, character) {
                assert(ref_models(found@.push(&self.rules@[i as int])) =~= ref_models(found@).push(
                    self.rules@[i as int]@,
                ));
                found.push(&self.rules[i]);
            }
            i += 1;
        }
        assert(self@.take(self.rules.len() as int) == self@);
        found
    }

    /// The states entered from `state` on exactly `character`, one for each
    /// rule that fires.
    pub fn follow_rules_for(&self, state: &S, character: char) -> (next: Vec<S>)
        ensures
            ids(next@) == entered(matching(self@, state@, character)),
            id_set(next@) == targets(self@, set![state@], character),
    {
        let found = self.rules_for(state, character);
        let mut next: Vec<S> = Vec::new();
        let mut i: usize = 0;
        assert(ids(next@) =~= entered(ref_models(found@).take(0)));
        while i < found.len()
            invariant
                i <= found.len(),
                ids(next@) == entered(ref_models(found@).take(i as int)),
            decreases found.len() - i,
        {
            let s = found[i].follow();
            proof {
                id_set_push(next@, s);
                assert(ref_models(found@).take(i as int + 1) == ref_models(found@).take(
                    i as int,
                ).push(found@[i as int]@));
                assert(entered(ref_models(found@).take(i as int + 1)) =~= entered(
                    ref_models(found@).take(i as int),
                ).push(s@));
            }
            next.push(s);
            i += 1;
        }
        proof {
            assert(ref_models(found@).take(found.len() as int) == ref_models(found@));
            matching_enters_targets(self@, state@, character);
        }
        next
    }

    /// The states entered from a state of `states` by a rule that carries
    /// exactly `character`.
    fn targets_of(&self, states: &States<S>, character: char) -> (next: States<S>)
        ensures
            next.wf(),
            next@ == targets(self@, states@, character),
    {
        let mut next: States<S> = States::new();
        let mut i: usize = 0;
        proof {
            id_set_empty::<S>();
            assert(states.elems().take(0) =~= Seq::empty());
            targets_of_nothing(self@, character);
        }
        while i < states.len()
            invariant
                i <= states.elems().len(),
                next.wf(),
                next@ == targets(self@, id_set(states.elems().take(i as int)), character),
            decreases states.elems().len() - i,
        {
            let state = states.get(i);
            let followed = self.follow_rules_for(state, character);
            let ghost before = next@;
            let mut j: usize = 0;
            proof {
                id_set_empty::<S>();
                assert(followed@.take(0) =~= Seq::empty());
                assert(before.union(Set::<S::V>::empty()) =~= before);
            }
            while j < followed.len()
                invariant
                    j <= followed.len(),
                    next.wf(),
                    next@ == before.union(id_set(followed@.take(j as int))),
                decreases followed.len() - j,
            {
                proof {
                    id_set_take_next(followed@, j as int);
                }
                let s = followed[j].duplicate();
                next.insert(s);
                assert(next@ =~= before.union(id_set(followed@.take(j as int + 1))));
                j += 1;
            }
            proof {
                assert(followed@.take(followed.len() as int) == followed@);
                id_set_take_next(states.elems(), i as int);
                targets_insert(self@, id_set(states.elems().take(i as int)), state@, character);
            }
            i += 1;
        }
        proof {
            assert(states.elems().take(states.elems().len() as int) == states.elems());
        }
        next
    }

    /// The states reached from `states` by reading `character`. The
    /// reserved free-move symbol is no input: reading it reaches nothing.
    pub fn next_states(&self, states: &States<S>, character: char) -> (next: States<S>)
        ensures
            next.wf(),
            next@ == consume(self@, states@, character),
    {
        if character == EPSILON {
            States::new()
        } else {
            self.targets_of(states, character)
        }
    }

    /// The states reached from `states` by one free move.
    pub fn free_moves(&self, states: &States<S>) -> (next: States<S>)
        ensures
            next.wf(),
            next@ == free_moves(self@, states@),
    {
        self.targets_of(states, EPSILON)
    }

    /// The closure of `states` under free moves: the smallest set that
    /// holds `states` and that no free move leaves.
    pub fn follow_free_moves(&self, states: &States<S>) -> (closed: States<S>)
        requires
            states.wf(),
        ensures
            closed.wf(),
            closed@ == epsilon_closure(self@, states@),
    {
        let mut cur = states.duplicate();
        let ghost mut n: nat = 0;
        let ghost universe = states@.union(rule_targets(self@));
        proof {
            states.counted();
            vstd::seq_lib::seq_to_set_is_finite(entered(self@));
        }
        loop
            invariant
                states.wf(),
                cur.wf(),
                cur@ == closure_upto(self@, states@, n),
                universe == states@.union(rule_targets(self@)),
                universe.finite(),
            decreases universe.difference(cur@).len(),
        {
            let more = self.free_moves(&cur);
            if more.is_subset(&cur) {
                proof {
                    closure_reached(self@, states@, n);
                }
                return cur;
            }
            let ghost before = cur@;
            cur.extend(&more);
            proof {
                let t = choose|t: S::V| more@.contains(t) && !before.contains(t);
                closure_upto_bounded(self@, states@, n + 1);
                assert(cur@ == closure_upto(self@, states@, n + 1));
                assert(universe.contains(t));
                universe.difference(cur@).lemma_subset_not_in_lt(universe.difference(before), t);
                n = n + 1;
            }
        }
    }

    /// The symbols, other than the free move, that occur on a rule: each
    /// once, in increasing order.
    pub fn alphabet(&self) -> (uniq: Vec<char>)
        ensures
            increasing_chars(uniq@),
            uniq@.to_set() == symbols(self@),
    {
        let mut uniq: Vec<char> = Vec::new();
        let mut i: usize = 0;
        assert(uniq@.to_set() =~= symbols(self@.take(0)));
        while i < self.rules.len()
            invariant
                i <= self.rules.len(),
                increasing_chars(uniq@),
                uniq@.to_set() == symbols(self@.take(i as int)),
            decreases self.rules.len() - i,
        {
            let c = self.rules[i].character();
            let ghost before = uniq@;
            if c != EPSILON {
                insert_char(&mut uniq, c);
            }
            proof {
                let prefix = self@.take(i as int);
                let next = self@.take(i as int + 1);
                let grown = if c != EPSILON {
                    symbols(prefix).insert(c)
                } else {
                    symbols(prefix)
                };
                assert forall|x: char| symbols(next).contains(x) implies grown.contains(x) by {
                    let k = choose|k: int| 0 <= k < next.len() && (#[trigger] next[k]).symbol == x;
                    if k < i {
                        assert(prefix[k].symbol == x);
                    }
                }
                assert forall|x: char| grown.contains(x) implies symbols(next).contains(x) by {
                    if symbols(prefix).contains(x) {
                        let k = choose|k: int|
                            0 <= k < prefix.len() && (#[trigger] prefix[k]).symbol == x;
                        assert(next[k].symbol == x);
                    } else {
                        assert(next[i as int].symbol == x);
                    }
                }
                assert(symbols(next) =~= grown);
            }
            i += 1;
        }
        assert(self@.take(self.rules.len() as int) == self@);
        uniq
    }

    /// A copy of the rulebook.
    pub fn duplicate(&self) -> (r: Self)
        ensures
            r@ == self@,
    {
        NFARuleBook { rules: duplicate_rules(&self.rules) }
    }
}

/// Puts `c` into the strictly increasing vector `v`, unless it is there.
fn insert_char(v: &mut Vec<char>, c: char)
    requires
        increasing_chars(old(v)@),
    ensures
        increasing_chars(final(v)@),
        final(v)@.to_set() == old(v)@.to_set().insert(c),
{
    let mut i: usize = 0;
    while i < v.len() && v[i] < c
        invariant
            i <= v.len(),
            v@ == old(v)@,
            forall|j: int| 0 <= j < i ==> v@[j] < c,
        decreases v.len() - i,
    {
        i += 1;
    }
    if i < v.len() && v[i] == c {
        assert(v@.to_set() =~= v@.to_set().insert(c)) by {
            assert(v@[i as int] == c);
        }
    } else {
        let ghost before = v@;
        v.insert(i, c);
        proof {
            let after = v@;
            assert(after == before.insert(i as int, c));
            assert forall|a: int, b: int| 0 <= a < b < after.len() implies after[a] < after[b] by {
                if b > i && a <= i {
                    assert(before[b - 1] >= before[i as int]);
                }
            }
            assert forall|x: char| after.to_set().contains(x) implies before.to_set().insert(
                c,
            ).contains(x) by {
                let j = choose|j: int| 0 <= j < after.len() && after[j] == x;
                if j < i {
                    assert(before[j] == x);
                } else if j > i {
                    assert(before[j - 1] == x);
                }
            }
            assert forall|x: char| before.to_set().insert(c).contains(x) implies after.to_set().contains(
                x,
            ) by {
                if x == c {
                    assert(after[i as int] == x);
                } else {
                    let j = choose|j: int| 0 <= j < before.len() && before[j] == x;
                    if j < i {
                        assert(after[j] == x);
                    } else {
                        assert(after[j + 1] == x);
                    }
                }
            }
            assert(after.to_set() =~= before.to_set().insert(c));
        }
    }
}

/// The states that an automaton holds after it has read `input` from the
/// held states `held`: before each symbol it follows the free moves, then
/// it reads the symbol.
pub open spec fn nfa_read<K>(rules: Seq<Rule<K>>, held: Set<K>, input: Seq<char>) -> Set<K>
    decreases input.len(),
{
    if input.len() == 0 {
        held
    } else {
        consume(
            rules,
            epsilon_closure(rules, nfa_read(rules, held, input.drop_last())),
            input.last(),
        )
    }
}

/// The closure of the held states is the configuration of the run that
/// starts from the closure of the states first held.
pub proof fn nfa_read_is_run<K>(rules: Seq<Rule<K>>, held: Set<K>, input: Seq<char>)
    ensures
        epsilon_closure(rules, nfa_read(rules, held, input)) == nfa_run(
            rules,
            epsilon_closure(rules, held),
            input,
        ),
    decreases input.len(),
{
    if input.len() > 0 {
        nfa_read_is_run(rules, held, input.drop_last());
    }
}

/// A nondeterministic automaton that reads input.
#[derive(Debug)]
pub struct NFA<S: State> {
    pub current_states: States<S>,
    pub accept_states: States<S>,
    pub rulebook: NFARuleBook<S>,
}

impl<S: State> NFA<S> {
    /// The held states are a set without repetition.
    pub open spec fn wf(&self) -> bool {
        self.current_states.wf()
    }

    /// Whether a state reached from the held states by free moves is an
    /// accept state.
    pub fn accepting(&self) -> (b: bool)
        requires
            self.wf(),
        ensures
            b == nfa_accepting(self.rulebook@, self.accept_states@, self.current_states@),
    {
        let cs = self.get_current_states();
        !cs.is_disjoint(&self.accept_states)
    }

    /// Follows the free moves, then reads `character`.
    pub fn read_character(&mut self, character: char)
        requires
            old(self).wf(),
        ensures
            final(self).wf(),
            final(self).current_states@ == consume(
                old(self).rulebook@,
                epsilon_closure(old(self).rulebook@, old(self).current_states@),
                character,
            ),
            final(self).accept_states == old(self).accept_states,
            final(self).rulebook == old(self).rulebook,
    {
        let cs = self.get_current_states();
        self.current_states = self.rulebook.next_states(&cs, character);
    }

    /// Reads `string` symbol by symbol; the result is a copy of the
    /// automaton as it then stands.
    pub fn read_string(&mut self, string: String) -> (copy: Self)
        requires
            old(self).wf(),
        ensures
            final(self).wf(),
            final(self).current_states@ == nfa_read(
                old(self).rulebook@,
                old(self).current_states@,
                string@,
            ),
            final(self).accept_states == old(self).accept_states,
            final(self).rulebook == old(self).rulebook,
            copy.wf(),
            copy.current_states@ == final(self).current_states@,
            copy.accept_states@ == final(self).accept_states@,
            copy.rulebook@ == final(self).rulebook@,
    {
        let chars = chars_of(string.as_str());
        let mut i: usize = 0;
        assert(string@.take(0) =~= Seq::empty());
        while i < chars.len()
            invariant
                i <= chars.len(),
                chars@ == string@,
                self.wf(),
                self.current_states@ == nfa_read(
                    old(self).rulebook@,
                    old(self).current_states@,
                    string@.take(i as int),
                ),
                self.accept_states == old(self).accept_states,
                self.rulebook == old(self).rulebook,
            decreases chars.len() - i,
        {
            proof {
                let next = string@.take(i as int + 1);
                assert(next.drop_last() == string@.take(i as int));
                assert(next.last() == string@[i as int]);
            }
            self.read_character(chars[i]);
            i += 1;
        }
        assert(string@.take(chars.len() as int) == string@);
        self.duplicate()
    }

    /// The states reached from the held states by free moves.
    pub fn get_current_states(&self) -> (closed: States<S>)
        requires
            self.wf(),
        ensures
            closed.wf(),
            closed@ == epsilon_closure(self.rulebook@, self.current_states@),
    {
        self.rulebook.follow_free_moves(&self.current_states)
    }

    /// A copy of the automaton.
    pub fn duplicate(&self) -> (copy: Self)
        ensures
            copy.current_states@ == self.current_states@,
            copy.accept_states@ == self.accept_states@,
            copy.rulebook@ == self.rulebook@,
            self.wf() ==> copy.wf(),
    {
        NFA {
            current_states: self.current_states.duplicate(),
            accept_states: self.accept_states.duplicate(),
            rulebook: self.rulebook.duplicate(),
        }
    }
}

/// The design of a nondeterministic automaton: where it starts, which
/// states accept, and its rules.
#[derive(Debug)]
pub struct NFADesign<S: State> {
    pub start_state: S,
    pub accept_states: States<S>,
    pub rulebook: NFARuleBook<S>,
}

impl<S: State> View for NFADesign<S> {
    type V = NfaModel<S::V>;

    open spec fn view(&self) -> NfaModel<S::V> {
        NfaModel {
            start: self.start_state@,
            accept: self.accept_states@,
            rules: self.rulebook@,
        }
    }
}

impl<S: State> NFADesign<S> {
    /// An automaton of this design that holds `current_states`.
    pub fn to_nfa(&self, current_states: States<S>) -> (nfa: NFA<S>)
        ensures
            nfa.current_states == current_states,
            nfa.accept_states@ == self.accept_states@,
            nfa.rulebook@ == self.rulebook@,
    {
        NFA {
            current_states,
            accept_states: self.accept_states.duplicate(),
            rulebook: self.rulebook.duplicate(),
        }
    }

    /// An automaton of this design that holds the start state.
    pub fn to_nfa_init(&self) -> (nfa: NFA<S>)
        ensures
            nfa.wf(),
            nfa.current_states@ == set![self.start_state@],
            nfa.accept_states@ == self.accept_states@,
            nfa.rulebook@ == self.rulebook@,
    {
        let mut cs: States<S> = States::new();
        cs.insert(self.start_state.duplicate());
        assert(cs@ =~= set![self.start_state@]);
        NFA {
            current_states: cs,
            accept_states: self.accept_states.duplicate(),
            rulebook: self.rulebook.duplicate(),
        }
    }

    /// Whether the automaton accepts `string`.
    pub fn accepts(&self, string: String) -> (b: bool)
        ensures
            b == nfa_accepts(self@, string@),
    {
        let mut nfa = self.to_nfa_init();
        proof {
            nfa_read_is_run(self.rulebook@, set![self.start_state@], string@);
            closure_is_idempotent(
                self.rulebook@,
                nfa_read(self.rulebook@, set![self.start_state@], string@),
            );
        }
        let done = nfa.read_string(string);
        done.accepting()
    }
}

} // verus!
