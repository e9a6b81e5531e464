//! Determinization: the subset construction that turns a nondeterministic
//! automaton into a deterministic one whose states are sets of states.

use vstd::prelude::*;
use vstd::set_lib::*;
use crate::determinize::{
    accepting_sets, determinized_accepts_the_same, determinizes, discovered, discovered_upto,
    discovery_reached, is_table, subsets_are_finite, subsets_of, successor, successor_is_bounded,
    successors,
};
use crate::dfa::{DFADesign, DFARuleBook};
use crate::nfa::{increasing_chars, symbols, NFADesign};
use crate::rule::{rule_models, FARule, Rule, EPSILON};
use crate::semantics::{applies, deterministic, dfa_accepts, has_rule, nfa_accepts, rule_targets};
use crate::state::{Member, StateInt, StateSet};
use crate::states::{id_set, id_set_empty, id_set_take_next, ids, States};

verus! {

/// Whether `row` holds, for the set `q` and each symbol of `rules`, one
/// rule that leads to the successor, in increasing order of the symbols.
pub open spec fn is_row<K>(row: Seq<Rule<Set<K>>>, q: Set<K>, rules: Seq<Rule<K>>) -> bool {
    &&& forall|k: int|
        0 <= k < row.len() ==> (#[trigger] row[k]).from == q && symbols(rules).contains(
            row[k].symbol,
        ) && row[k].to == successor(rules, q, row[k].symbol)
    &&& forall|c: char| symbols(rules).contains(c) ==> #[trigger] has_rule(row, q, c)
    &&& forall|i: int, j: int|
        0 <= i < j < row.len() ==> (#[trigger] row[i]).symbol < (#[trigger] row[j]).symbol
}

/// The states that the rules of `table` enter.
pub open spec fn table_targets<K>(table: Seq<Rule<K>>) -> Set<K> {
    Set::new(|t: K| exists|k: int| 0 <= k < table.len() && (#[trigger] table[k]).to == t)
}

/// A table for a family and a row for a set outside it make a table for
/// the family with that set.
proof fn table_with_row<K>(
    table: Seq<Rule<Set<K>>>,
    row: Seq<Rule<Set<K>>>,
    family: Set<Set<K>>,
    q: Set<K>,
    rules: Seq<Rule<K>>,
)
    requires
        is_table(table, family, rules),
        is_row(row, q, rules),
        !family.contains(q),
    ensures
        is_table(table + row, family.insert(q), rules),
{
    let all = table + row;
    let grown = family.insert(q);
    assert forall|k: int| 0 <= k < all.len() implies grown.contains((#[trigger] all[k]).from)
        && symbols(rules).contains(all[k].symbol) && all[k].to == successor(
        rules,
        all[k].from,
        all[k].symbol,
    ) by {
        if k < table.len() {
            assert(all[k] == table[k]);
        } else {
            assert(all[k] == row[k - table.len()]);
        }
    }
    assert forall|p: Set<K>, c: char|
        grown.contains(p) && symbols(rules).contains(c) implies #[trigger] has_rule(all, p, c) by {
        if p == q {
            assert(has_rule(row, q, c));
            let k = choose|k: int| 0 <= k < row.len() && applies(#[trigger] row[k], q, c);
            assert(all[table.len() + k] == row[k]);
        } else {
            assert(has_rule(table, p, c));
            let k = choose|k: int| 0 <= k < table.len() && applies(#[trigger] table[k], p, c);
            assert(all[k] == table[k]);
        }
    }
    assert forall|i: int| 0 <= i < all.len() implies (#[trigger] all[i]).symbol != EPSILON by {
        if i < table.len() {
            assert(all[i] == table[i]);
        } else {
            assert(all[i] == row[i - table.len()]);
        }
    }
    assert forall|i: int, j: int|
        0 <= i < all.len() && 0 <= j < all.len() && i != j implies !((#[trigger] all[i]).from == (
        #[trigger] all[j]).from && all[i].symbol == all[j].symbol) by {
        if i < table.len() {
            assert(all[i] == table[i]);
        } else {
            assert(all[i] == row[i - table.len()]);
        }
        if j < table.len() {
            assert(all[j] == table[j]);
        } else {
            assert(all[j] == row[j - table.len()]);
        }
    }
}

/// The rules of a table enter exactly the successors of its family.
proof fn table_enters_successors<K>(
    table: Seq<Rule<Set<K>>>,
    family: Set<Set<K>>,
    rules: Seq<Rule<K>>,
)
    requires
        is_table(table, family, rules),
    ensures
        table_targets(table) == successors(rules, family),
{
    assert forall|t: Set<K>| table_targets(table).contains(t) implies successors(
        rules,
        family,
    ).contains(t) by {
        let k = choose|k: int| 0 <= k < table.len() && (#[trigger] table[k]).to == t;
        assert(t == successor(rules, table[k].from, table[k].symbol));
    }
    assert forall|t: Set<K>| successors(rules, family).contains(t) implies table_targets(
        table,
    ).contains(t) by {
        let (q, c) = choose|q: Set<K>, c: char|
            family.contains(q) && symbols(rules).contains(c) && t == #[trigger] successor(
                rules,
                q,
                c,
            );
        assert(has_rule(table, q, c));
        let k = choose|k: int| 0 <= k < table.len() && applies(#[trigger] table[k], q, c);
        assert(table[k].to == t);
    }
    assert(table_targets(table) =~= successors(rules, family));
}

/// A nondeterministic automaton, simulated on sets of its states.
#[derive(Debug)]
pub struct NFASimulation {
    pub nfa_design: NFADesign<StateInt>,
}

impl NFASimulation {
    /// The set of states reached from the set `state` by free moves, one
    /// reading of `character`, and free moves again.
    pub fn next_state(&self, state: StateSet, character: char) -> (next: StateSet)
        ensures
            next@ == successor(self.nfa_design.rulebook@, state@, character),
    {
        let mut nfa = self.nfa_design.to_nfa(state.to_states());
        nfa.read_character(character);
        StateSet::from_states(&nfa.get_current_states())
    }

    /// The rules that leave the set `state`: one for each symbol of the
    /// rulebook, in increasing order of the symbols.
    pub fn rules_for(&self, state: StateSet) -> (row: Vec<FARule<StateSet>>)
        ensures
            is_row(rule_models(row@), state@, self.nfa_design.rulebook@),
    {
        let alphabet = self.nfa_design.rulebook.alphabet();
        let ghost rules = self.nfa_design.rulebook@;
        let mut row: Vec<FARule<StateSet>> = Vec::new();
        let mut i: usize = 0;
        while i < alphabet.len()
            invariant
                i <= alphabet.len(),
                rules == self.nfa_design.rulebook@,
                increasing_chars(alphabet@),
                alphabet@.to_set() == symbols(rules),
                row.len() == i,
                forall|k: int|
                    0 <= k < i ==> (#[trigger] rule_models(row@)[k]) == (Rule {
                        from: state@,
                        symbol: alphabet@[k],
                        to: successor(rules, state@, alphabet@[k]),
                    }),
            decreases alphabet.len() - i,
        {
            let c = alphabet[i];
            let next = self.next_state(state.duplicate(), c);
            let rule = FARule::new(state.duplicate(), c, next);
            proof {
                assert(rule_models(row@.push(rule)) =~= rule_models(row@).push(rule@));
            }
            row.push(rule);
            i += 1;
        }
        proof {
            let built = rule_models(row@);
            assert forall|k: int| 0 <= k < built.len() implies (#[trigger] built[k]).from == state@
                && symbols(rules).contains(built[k].symbol) && built[k].to == successor(
                rules,
                state@,
                built[k].symbol,
            ) by {
                assert(alphabet@.to_set().contains(alphabet@[k]));
            }
            assert forall|c: char| symbols(rules).contains(c) implies #[trigger] has_rule(
                built,
                state@,
                c,
            ) by {
                assert(alphabet@.to_set().contains(c));
                let k = choose|k: int| 0 <= k < alphabet@.len() && alphabet@[k] == c;
                assert(applies(built[k], state@, c));
            }
        }
        row
    }

    /// The table of rules for the sets in `states`.
    fn table_for(&self, states: &States<StateSet>) -> (table: Vec<FARule<StateSet>>)
        requires
            states.wf(),
        ensures
            is_table(rule_models(table@), states@, self.nfa_design.rulebook@),
    {
        let ghost rules = self.nfa_design.rulebook@;
        let mut table: Vec<FARule<StateSet>> = Vec::new();
        let mut i: usize = 0;
        proof {
            id_set_empty::<StateSet>();
            assert(states.elems().take(0) =~= Seq::empty());
            assert(rule_models(table@) =~= Seq::empty());
        }
        while i < states.len()
            invariant
                i <= states.elems().len(),
                states.wf(),
                rules == self.nfa_design.rulebook@,
                is_table(rule_models(table@), id_set(states.elems().take(i as int)), rules),
            decreases states.elems().len() - i,
        {
            let state = states.get(i);
            let mut row = self.rules_for(state.duplicate());
            proof {
                let q = state@;
                let seen = states.elems().take(i as int);
                id_set_take_next(states.elems(), i as int);
                if id_set(seen).contains(q) {
                    let j = choose|j: int| 0 <= j < ids(seen).len() && ids(seen)[j] == q;
                    assert(ids(states.elems())[j] == q);
                    assert(ids(states.elems())[i as int] == q);
                }
                table_with_row(rule_models(table@), rule_models(row@), id_set(seen), q, rules);
                assert(rule_models(table@ + row@) =~= rule_models(table@) + rule_models(row@));
            }
            table.append(&mut row);
            i += 1;
        }
        proof {
            assert(states.elems().take(states.elems().len() as int) == states.elems());
        }
        table
    }

    /// The sets that the rules of `table` enter.
    fn entered_by(table: &Vec<FARule<StateSet>>) -> (more: States<StateSet>)
        ensures
            more.wf(),
            more@ == table_targets(rule_models(table@)),
    {
        let mut more: States<StateSet> = States::new();
        let mut i: usize = 0;
        let ghost models = rule_models(table@);
        assert(more@ =~= table_targets(models.take(0)));
        while i < table.len()
            invariant
                i <= table.len(),
                models == rule_models(table@),
                more.wf(),
                more@ == table_targets(models.take(i as int)),
            decreases table.len() - i,
        {
            let ghost before = more@;
            more.insert(table[i].follow());
            proof {
                let prefix = models.take(i as int);
                let next = models.take(i as int + 1);
                let t = models[i as int].to;
                assert forall|x: Set<int>| table_targets(next).contains(x) implies before.insert(
                    t,
                ).contains(x) by {
                    let k = choose|k: int| 0 <= k < next.len() && (#[trigger] next[k]).to == x;
                    if k < i {
                        assert(prefix[k].to == x);
                    }
                }
                assert forall|x: Set<int>| before.insert(t).contains(x) implies table_targets(
                    next,
                ).contains(x) by {
                    if before.contains(x) {
                        let k = choose|k: int|
                            0 <= k < prefix.len() && (#[trigger] prefix[k]).to == x;
                        assert(next[k].to == x);
                    } else {
                        assert(next[i as int].to == x);
                    }
                }
                assert(table_targets(next) =~= before.insert(t));
            }
            i += 1;
        }
        assert(models.take(table.len() as int) == models);
        more
    }

    /// Starting from `states`, the sets found by taking successors until
    /// no new set appears, and the table of rules for them.
    pub fn discover_states_and_rules(&self, states: States<StateSet>) -> (found: (
        States<StateSet>,
        Vec<FARule<StateSet>>,
    ))
        requires
            states.wf(),
        ensures
            found.0.wf(),
            found.0@ == discovered(self.nfa_design.rulebook@, states@),
            is_table(rule_models(found.1@), found.0@, self.nfa_design.rulebook@),
    {
        let ghost rules = self.nfa_design.rulebook@;
        let ghost seeds = states@;
        let ghost pool = subsets_of(rule_targets(rules));
        let ghost mut n: nat = 0;
        let mut cur = states;
        proof {
            vstd::seq_lib::seq_to_set_is_finite(rules.map_values(|r: Rule<int>| r.to));
            subsets_are_finite(rule_targets(rules));
        }
        loop
            invariant
                rules == self.nfa_design.rulebook@,
                seeds == states@,
                pool == subsets_of(rule_targets(rules)),
                pool.finite(),
                cur.wf(),
                cur@ == discovered_upto(rules, seeds, n),
            decreases pool.difference(cur@).len(),
        {
            let table = self.table_for(&cur);
            let more = Self::entered_by(&table);
            proof {
                table_enters_successors(rule_models(table@), cur@, rules);
            }
            if more.is_subset(&cur) {
                proof {
                    discovery_reached(rules, seeds, n);
                }
                return (cur, table);
            }
            let ghost before = cur@;
            cur.extend(&more);
            proof {
                let t = choose|t: Set<int>| more@.contains(t) && !before.contains(t);
                let (q, c) = choose|q: Set<int>, c: char|
                    before.contains(q) && symbols(rules).contains(c) && t == #[trigger] successor(
                        rules,
                        q,
                        c,
                    );
                successor_is_bounded(rules, q, c);
                assert(pool.contains(t));
                pool.difference(cur@).lemma_subset_not_in_lt(pool.difference(before), t);
                n = n + 1;
            }
        }
    }

    /// The sets of `states` from which free moves reach an accept state.
    fn accepting_among(&self, states: &States<StateSet>) -> (accept: States<StateSet>)
        requires
            states.wf(),
        ensures
            accept.wf(),
            accept@ == accepting_sets(
                self.nfa_design.rulebook@,
                self.nfa_design.accept_states@,
                states@,
            ),
    {
        let ghost rules = self.nfa_design.rulebook@;
        let ghost marks = self.nfa_design.accept_states@;
        let mut accept: States<StateSet> = States::new();
        let mut i: usize = 0;
        proof {
            id_set_empty::<StateSet>();
            assert(states.elems().take(0) =~= Seq::empty());
            assert(accept@ =~= accepting_sets(rules, marks, Set::empty()));
        }
        while i < states.len()
            invariant
                i <= states.elems().len(),
                rules == self.nfa_design.rulebook@,
                marks == self.nfa_design.accept_states@,
                accept.wf(),
                accept@ == accepting_sets(rules, marks, id_set(states.elems().take(i as int))),
            decreases states.elems().len() - i,
        {
            let state = states.get(i);
            let ghost before = accept@;
            let nfa = self.nfa_design.to_nfa(state.to_states());
            if nfa.accepting() {
                accept.insert(state.duplicate());
            }
            proof {
                id_set_take_next(states.elems(), i as int);
                assert(accept@ =~= accepting_sets(
                    rules,
                    marks,
                    id_set(states.elems().take(i as int + 1)),
                ));
            }
            i += 1;
        }
        proof {
            assert(states.elems().take(states.elems().len() as int) == states.elems());
        }
        accept
    }

    /// The deterministic automaton that accepts exactly what the simulated
    /// automaton accepts.
    pub fn to_dfa_design(&self) -> (design: DFADesign<StateSet>)
        ensures
            design.wf(),
            determinizes(design@, self.nfa_design@),
            forall|input: Seq<char>|
                dfa_accepts(design@, input) == nfa_accepts(self.nfa_design@, input),
    {
        let start_state = StateSet::from_states(
            &self.nfa_design.to_nfa_init().get_current_states(),
        );
        let mut initial_state: States<StateSet> = States::new();
        initial_state.insert(start_state.duplicate());
        assert(initial_state@ =~= set![start_state@]);
        let (states, rules) = self.discover_states_and_rules(initial_state);
        let accept_states = self.accepting_among(&states);
        let design = DFADesign { start_state, accept_states, rulebook: DFARuleBook { rules } };
        proof {
            assert forall|input: Seq<char>|
                dfa_accepts(design@, input) == nfa_accepts(self.nfa_design@, input) by {
                determinized_accepts_the_same(design@, self.nfa_design@, input);
            }
        }
        design
    }
}

} // verus!
