//! Deterministic finite automata: rulebooks in which at most one rule
//! fires, the automaton that reads input, and the design it is made from.
//! Where no rule fires the automaton is stuck, and stays so.

use vstd::prelude::*;
use crate::rule::{duplicate_rules, rule_models, rule_text, FARule, Rule, EPSILON};
use crate::semantics::{
    applies, deterministic, dfa_accepting, dfa_accepts, dfa_next, dfa_run, dfa_step, first_rule,
    first_rule_found, has_rule, DfaModel,
};
use crate::state::State;
use crate::states::States;
use crate::text::{chars_of, push_char};

verus! {

/// Whether exactly one rule fires in state `q` on `c`.
pub open spec fn fires_once<K>(rules: Seq<Rule<K>>, q: K, c: char) -> bool {
    &&& has_rule(rules, q, c)
    &&& forall|i: int, j: int|
        0 <= i < rules.len() && 0 <= j < rules.len() && applies(#[trigger] rules[i], q, c)
            && applies(#[trigger] rules[j], q, c) ==> i == j
}

/// The identity of a configuration: the state, or none when stuck.
pub open spec fn config_of<S: State>(state: Option<S>) -> Option<S::V> {
    match state {
        Some(s) => Some(s@),
        None => None,
    }
}

/// The text that `DFARuleBook::inspect` yields: the text of each rule,
/// followed by a line break.
pub open spec fn book_text<S: State>(rules: Seq<FARule<S>>) -> Seq<char>
    decreases rules.len(),
{
    if rules.len() == 0 {
        Seq::empty()
    } else {
        book_text(rules.drop_last()) + rule_text(
            rules.last().from_text(),
            rules.last()@.symbol,
            rules.last().to_text(),
        ) + seq!['\n']
    }
}

/// The rules of a deterministic automaton.
#[derive(Clone, Debug)]
pub struct DFARuleBook<S: State> {
    pub rules: Vec<FARule<S>>,
}

impl<S: State> View for DFARuleBook<S> {
    type V = Seq<Rule<S::V>>;

    open spec fn view(&self) -> Seq<Rule<S::V>> {
        rule_models(self.rules@)
    }
}

impl<S: State> DFARuleBook<S> {
    /// The position of the first rule that fires in `state` on exactly
    /// `character`, if any.
    pub fn find_rule(&self, state: &S, character: char) -> (found: Option<usize>)
        ensures
            match found {
                Some(i) => first_rule(self@, state@, character) == Some(i as int),
                None => first_rule(self@, state@, character) is None,
            },
    {
        let mut i: usize = 0;
        proof {
            first_rule_found(self@, state@, character);
        }
        while i < self.rules.len()
            invariant
                i <= self.rules.len(),
                forall|j: int| 0 <= j < i ==> !applies(#[trigger] self@[j], state@, character),
            decreases self.rules.len() - i,
        {
            if self.rules[i].applies_to(state, character) {
                proof {
                    first_rule_found(self@, state@, character);
                    assert(applies(self@[i as int], state@, character));
                }
                return Some(i);
            }
            i += 1;
        }
        proof {
            first_rule_found(self@, state@, character);
            if let Some(k) = first_rule(self@, state@, character) {
                assert(applies(self@[k], state@, character));
            }
        }
        None
    }

    /// The one rule that fires in `state` on `character`.
    pub fn rule_for(&self, state: S, character: char) -> (rule: FARule<S>)
        requires
            fires_once(self@, state@, character),
        ensures
            first_rule(self@, state@, character) matches Some(i) && rule@ == self@[i],
            applies(rule@, state@, character),
    {
        proof {
            first_rule_found(self@, state@, character);
        }
        let found = self.find_rule(&state, character);
        self.rules[found.unwrap()].duplicate()
    }

    /// The state entered from `state` on `character` by the one rule that
    /// fires.
    pub fn next_state(&self, state: S, character: char) -> (next: S)
        requires
            fires_once(self@, state@, character),
        ensures
            first_rule(self@, state@, character) matches Some(i) && next@ == self@[i].to,
    {
        self.rule_for(state, character).follow()
    }

    /// The state entered from `state` on the input symbol `character`; none
    /// where no rule fires.
    pub fn step(&self, state: &S, character: char) -> (next: Option<S>)
        ensures
            config_of(next) == dfa_next(self@, state@, character),
    {
        if character == EPSILON {
            return None;
        }
        match self.find_rule(state, character) {
            Some(i) => {
                proof {
                    first_rule_found(self@, state@, character);
                }
                Some(self.rules[i].follow())
            },
            None => None,
        }
    }

    /// A copy of the rulebook.
    pub fn duplicate(&self) -> (r: Self)
        ensures
            r@ == self@,
    {
        DFARuleBook { rules: duplicate_rules(&self.rules) }
    }

    /// A readable form of the rulebook: its rules, one to a line.
    pub fn inspect(&self) -> (s: String)
        ensures
            s@ == book_text(self.rules@),
    {
        let mut s = String::new();
        let mut i: usize = 0;
        assert(self.rules@.take(0) =~= Seq::empty());
        while i < self.rules.len()
            invariant
                i <= self.rules.len(),
                s@ == book_text(self.rules@.take(i as int)),
            decreases self.rules.len() - i,
        {
            proof {
                let next = self.rules@.take(i as int + 1);
                assert(next.drop_last() == self.rules@.take(i as int));
                assert(next.last() == self.rules@[i as int]);
            }
            let line = self.rules[i].inspect();
            s.append(line.as_str());
            push_char(&mut s, '\n');
            assert(s@ =~= book_text(self.rules@.take(i as int + 1)));
            i += 1;
        }
        assert(self.rules@.take(self.rules.len() as int) == self.rules@);
        s
    }
}

/// A deterministic automaton that reads input. It holds one state, or none
/// once it is stuck.
#[derive(Debug)]
pub struct DFA<S: State> {
    pub current_state: Option<S>,
    pub accept_states: States<S>,
    pub rulebook: DFARuleBook<S>,
}

impl<S: State> DFA<S> {
    /// At most one rule fires for each state and symbol.
    pub open spec fn wf(&self) -> bool {
        deterministic(self.rulebook@)
    }

    /// Whether the automaton holds an accept state.
    pub fn accepting(&self) -> (b: bool)
        ensures
            b == dfa_accepting(self.accept_states@, config_of(self.current_state)),
    {
        match &self.current_state {
            Some(s) => self.accept_states.contains(s),
            None => false,
        }
    }

    /// Reads `character`: follows the rule that fires, or gets stuck.
    pub fn read_character(&mut self, character: char)
        requires
            old(self).wf(),
        ensures
            final(self).wf(),
            config_of(final(self).current_state) == dfa_step(
                old(self).rulebook@,
                config_of(old(self).current_state),
                character,
            ),
            final(self).accept_states == old(self).accept_states,
            final(self).rulebook == old(self).rulebook,
    {
        let next = match &self.current_state {
            Some(s) => self.rulebook.step(s, character),
            None => None,
        };
        self.current_state = next;
    }

    /// Reads `string` symbol by symbol; the result is a copy of the
    /// automaton as it then stands.
    pub fn read_string(&mut self, string: String) -> (copy: Self)
        requires
            old(self).wf(),
        ensures
            final(self).wf(),
            config_of(final(self).current_state) == dfa_run(
                old(self).rulebook@,
                config_of(old(self).current_state),
                string@,
            ),
            final(self).accept_states == old(self).accept_states,
            final(self).rulebook == old(self).rulebook,
            copy.wf(),
            config_of(copy.current_state) == config_of(final(self).current_state),
            copy.accept_states@ == final(self).accept_states@,
            copy.rulebook@ == final(self).rulebook@,
    {
        let chars = chars_of(string.as_str());
        let mut i: usize = 0;
        assert(string@.take(0) =~= Seq::empty());
        while i < chars.len()
            invariant
                i <= chars.len(),
                chars@ == string@,
                self.wf(),
                config_of(self.current_state) == dfa_run(
                    old(self).rulebook@,
                    config_of(old(self).current_state),
                    string@.take(i as int),
                ),
                self.accept_states == old(self).accept_states,
                self.rulebook == old(self).rulebook,
            decreases chars.len() - i,
        {
            proof {
                let next = string@.take(i as int + 1);
                assert(next.drop_last() == string@.take(i as int));
                assert(next.last() == string@[i as int]);
            }
            self.read_character(chars[i]);
            i += 1;
        }
        assert(string@.take(chars.len() as int) == string@);
        self.duplicate()
    }

    /// A copy of the automaton.
    pub fn duplicate(&self) -> (copy: Self)
        ensures
            config_of(copy.current_state) == config_of(self.current_state),
            copy.accept_states@ == self.accept_states@,
            copy.rulebook@ == self.rulebook@,
    {
        let current_state = match &self.current_state {
            Some(s) => Some(s.duplicate()),
            None => None,
        };
        DFA {
            current_state,
            accept_states: self.accept_states.duplicate(),
            rulebook: self.rulebook.duplicate(),
        }
    }
}

/// The design of a deterministic automaton: where it starts, which states
/// accept, and its rules.
#[derive(Debug)]
pub struct DFADesign<S: State> {
    pub start_state: S,
    pub accept_states: States<S>,
    pub rulebook: DFARuleBook<S>,
}

impl<S: State> View for DFADesign<S> {
    type V = DfaModel<S::V>;

    open spec fn view(&self) -> DfaModel<S::V> {
        DfaModel {
            start: self.start_state@,
            accept: self.accept_states@,
            rules: self.rulebook@,
        }
    }
}

impl<S: State> DFADesign<S> {
    /// At most one rule fires for each state and symbol.
    pub open spec fn wf(&self) -> bool {
        deterministic(self.rulebook@)
    }

    /// An automaton of this design that holds the start state.
    pub fn to_dfa(&self) -> (dfa: DFA<S>)
        ensures
            config_of(dfa.current_state) == Some(self.start_state@),
            dfa.accept_states@ == self.accept_states@,
            dfa.rulebook@ == self.rulebook@,
    {
        DFA {
            current_state: Some(self.start_state.duplicate()),
            accept_states: self.accept_states.duplicate(),
            rulebook: self.rulebook.duplicate(),
        }
    }

    /// Whether the automaton accepts `string`. A symbol for which no rule
    /// fires leaves the automaton stuck, and it then rejects.
    pub fn accepts(&self, string: String) -> (b: bool)
        requires
            self.wf(),
        ensures
            b == dfa_accepts(self@, string@),
    {
        let mut dfa = self.to_dfa();
        dfa.read_string(string).accepting()
    }
}

} // verus!
