//! Transition rules of finite automata.

use vstd::prelude::*;
use crate::state::{State, StateInt, StateSet};
use crate::states::States;
use crate::text::push_char;

verus! {

/// The reserved symbol of a free move: a rule that carries it is followed
/// without reading input, and no input symbol ever matches it.
pub const EPSILON: char = '\u{029e}';

/// The mathematical content of a rule: in state `from`, on `symbol`, go to
/// `to`.
pub struct Rule<K> {
    pub from: K,
    pub symbol: char,
    pub to: K,
}

/// The text that `FARule::inspect` yields for a rule whose states have the
/// given texts.
pub open spec fn rule_text(from: Seq<char>, symbol: char, to: Seq<char>) -> Seq<char> {
    seq!['#', '<', 'F', 'A', 'R', 'u', 'l', 'e', ' ', '#'] + from + seq![' ', '-', '-', '#']
        + seq![symbol] + seq!['-', '-', '>', ' ', '#'] + to + seq!['>']
}

/// A rule of a finite automaton.
#[derive(Clone, Debug, PartialEq, Eq, Hash)]
pub struct FARule<S: State> {
    state: S,
    character: char,
    next_state: S,
}

impl<S: State> View for FARule<S> {
    type V = Rule<S::V>;

    closed spec fn view(&self) -> Rule<S::V> {
        Rule { from: self.state@, symbol: self.character, to: self.next_state@ }
    }
}

impl<S: State> FARule<S> {
    /// The text of the state that the rule leaves.
    pub closed spec fn from_text(&self) -> Seq<char> {
        self.state.text()
    }

    /// The text of the state that the rule enters.
    pub closed spec fn to_text(&self) -> Seq<char> {
        self.next_state.text()
    }

    pub fn new(state: S, character: char, next_state: S) -> (r: Self)
        ensures
            r@ == (Rule { from: state@, symbol: character, to: next_state@ }),
            r.from_text() == state.text(),
            r.to_text() == next_state.text(),
    {
        FARule { state, character, next_state }
    }

    /// A readable form of the rule.
    pub fn inspect(&self) -> (s: String)
        ensures
            s@ == rule_text(self.from_text(), self@.symbol, self.to_text()),
    {
        let mut s = String::from_str("#<FARule #");
        proof {
            reveal_strlit("#<FARule #");
            reveal_strlit(" --#");
            reveal_strlit("--> #");
            assert(s@ =~= seq!['#', '<', 'F', 'A', 'R', 'u', 'l', 'e', ' ', '#']);
        }
        let from = self.state.to_string();
        s.append(from.as_str());
        s.append(" --#");
        push_char(&mut s, self.character);
        s.append("--> #");
        let to = self.next_state.to_string();
        s.append(to.as_str());
        push_char(&mut s, '>');
        assert(s@ =~= rule_text(self.from_text(), self@.symbol, self.to_text()));
        s
    }

    /// The state that the rule leads to.
    pub fn follow(&self) -> (s: S)
        ensures
            s@ == self@.to,
    {
        self.next_state.duplicate()
    }

    /// The symbol on which the rule fires.
    pub fn character(&self) -> (c: char)
        ensures
            c == self@.symbol,
    {
        self.character
    }

    /// Whether the rule fires in `state` on `character`.
    pub fn applies_to(&self, state: &S, character: char) -> (b: bool)
        ensures
            b == (self@.from == state@ && self@.symbol == character),
    {
        self.state.same(state) && self.character == character
    }

    /// A copy of the rule.
    pub fn duplicate(&self) -> (r: Self)
        ensures
            r@ == self@,
    {
        FARule {
            state: self.state.duplicate(),
            character: self.character,
            next_state: self.next_state.duplicate(),
        }
    }
}

impl FARule<StateSet> {
    /// The rule between two states of a determinized automaton, each given
    /// as the set of numbered states that it stands for.
    pub fn from_states(
        state: &States<StateInt>,
        character: char,
        next_state: &States<StateInt>,
    ) -> (r: Self)
        ensures
            r@ == (Rule { from: state@, symbol: character, to: next_state@ }),
    {
        FARule {
            state: StateSet::from_states(state),
            character,
            next_state: StateSet::from_states(next_state),
        }
    }
}

/// The mathematical contents of the rules in `rules`, in order.
pub open spec fn rule_models<S: State>(rules: Seq<FARule<S>>) -> Seq<Rule<S::V>> {
    rules.map_values(|r: FARule<S>| r@)
}

/// Copies a list of rules.
pub fn duplicate_rules<S: State>(rules: &Vec<FARule<S>>) -> (r: Vec<FARule<S>>)
    ensures
        rule_models(r@) == rule_models(rules@),
{
    let mut r: Vec<FARule<S>> = Vec::new();
    let mut i: usize = 0;
    while i < rules.len()
        invariant
            i <= rules.len(),
            rule_models(r@) == rule_models(rules@.take(i as int)),
        decreases rules.len() - i,
    {
        let c = rules[i].duplicate();
        proof {
            assert(rules@.take(i as int + 1) == rules@.take(i as int).push(rules@[i as int]));
            assert(rule_models(r@.push(c)) =~= rule_models(r@).push(c@));
            assert(rule_models(rules@.take(i as int).push(rules@[i as int])) =~= rule_models(
                rules@.take(i as int),
            ).push(rules@[i as int]@));
        }
        r.push(c);
        i += 1;
    }
    assert(rules@.take(rules.len() as int) == rules@);
    r
}

} // verus!
