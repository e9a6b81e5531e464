//! The subset construction, stated over mathematical automata: which sets
//! of states it discovers, which rules it records, and why the resulting
//! deterministic automaton accepts what the nondeterministic one accepts.

use vstd::prelude::*;
use vstd::set_lib::*;
use crate::nfa::symbols;
use crate::rule::{Rule, EPSILON};
use crate::semantics::{
    applies, closure_is_idempotent, closure_of_closed, closure_of_nothing, closure_upto,
    closure_upto_bounded, consume, deterministic, dfa_accepts, dfa_next, dfa_run, dfa_step,
    epsilon_closure, fires, first_rule, first_rule_found, free_moves, has_rule, nfa_accepting,
    nfa_accepts, nfa_initial, nfa_run, nfa_step, rule_targets, targets, DfaModel, NfaModel,
};

verus! {

/// The set of states reached from a state of `q` by free moves, one
/// reading of `c`, and free moves again.
pub open spec fn successor<K>(rules: Seq<Rule<K>>, q: Set<K>, c: char) -> Set<K> {
    epsilon_closure(rules, consume(rules, epsilon_closure(rules, q), c))
}

/// The successors of the sets in `family` on the symbols of the rules.
pub open spec fn successors<K>(rules: Seq<Rule<K>>, family: Set<Set<K>>) -> Set<Set<K>> {
    Set::new(
        |t: Set<K>|
            exists|q: Set<K>, c: char|
                family.contains(q) && symbols(rules).contains(c) && t == #[trigger] successor(
                    rules,
                    q,
                    c,
                ),
    )
}

/// The sets found from `seeds` in at most `n` rounds of taking successors.
pub open spec fn discovered_upto<K>(rules: Seq<Rule<K>>, seeds: Set<Set<K>>, n: nat) -> Set<
    Set<K>,
>
    decreases n,
{
    if n == 0 {
        seeds
    } else {
        let prev = discovered_upto(rules, seeds, (n - 1) as nat);
        prev.union(successors(rules, prev))
    }
}

/// The sets found from `seeds` by taking successors any number of times.
pub open spec fn discovered<K>(rules: Seq<Rule<K>>, seeds: Set<Set<K>>) -> Set<Set<K>> {
    Set::new(|t: Set<K>| exists|n: nat| #[trigger] discovered_upto(rules, seeds, n).contains(t))
}

/// Whether `table` holds, for each set of `family` and each symbol of
/// `rules`, exactly one rule, and that rule leads to the successor.
pub open spec fn is_table<K>(
    table: Seq<Rule<Set<K>>>,
    family: Set<Set<K>>,
    rules: Seq<Rule<K>>,
) -> bool {
    &&& forall|k: int|
        0 <= k < table.len() ==> family.contains((#[trigger] table[k]).from) && symbols(
            rules,
        ).contains(table[k].symbol) && table[k].to == successor(
            rules,
            table[k].from,
            table[k].symbol,
        )
    &&& forall|q: Set<K>, c: char|
        family.contains(q) && symbols(rules).contains(c) ==> #[trigger] has_rule(table, q, c)
    &&& deterministic(table)
}

/// The sets of `family` from which free moves reach an accept state.
pub open spec fn accepting_sets<K>(
    rules: Seq<Rule<K>>,
    accept: Set<K>,
    family: Set<Set<K>>,
) -> Set<Set<K>> {
    family.filter(|q: Set<K>| nfa_accepting(rules, accept, q))
}

/// Whether `d` is the deterministic automaton that the subset construction
/// makes from `n`: it starts in the closure of the start state, its states
/// are the sets discovered from there, it has one rule for each such set
/// and symbol, and a set accepts when it reaches an accept state of `n`.
pub open spec fn determinizes<K>(d: DfaModel<Set<K>>, n: NfaModel<K>) -> bool {
    &&& d.start == nfa_initial(n)
    &&& is_table(d.rules, discovered(n.rules, set![d.start]), n.rules)
    &&& d.accept == accepting_sets(n.rules, n.accept, discovered(n.rules, set![d.start]))
}

/// Once a round of successors adds nothing, everything is discovered.
pub proof fn discovery_reached<K>(rules: Seq<Rule<K>>, seeds: Set<Set<K>>, n: nat)
    requires
        successors(rules, discovered_upto(rules, seeds, n)).subset_of(
            discovered_upto(rules, seeds, n),
        ),
    ensures
        discovered(rules, seeds) == discovered_upto(rules, seeds, n),
{
    let cur = discovered_upto(rules, seeds, n);
    assert forall|t: Set<K>| discovered(rules, seeds).contains(t) implies cur.contains(t) by {
        let m = choose|m: nat| #[trigger] discovered_upto(rules, seeds, m).contains(t);
        discovery_stays(rules, seeds, n, m);
    }
    assert(discovered(rules, seeds) =~= cur);
}

proof fn discovery_stays<K>(rules: Seq<Rule<K>>, seeds: Set<Set<K>>, n: nat, m: nat)
    requires
        successors(rules, discovered_upto(rules, seeds, n)).subset_of(
            discovered_upto(rules, seeds, n),
        ),
    ensures
        discovered_upto(rules, seeds, m).subset_of(discovered_upto(rules, seeds, n)),
    decreases m,
{
    if m <= n {
        discovery_grows(rules, seeds, m, n);
    } else {
        discovery_stays(rules, seeds, n, (m - 1) as nat);
        let prev = discovered_upto(rules, seeds, (m - 1) as nat);
        let cur = discovered_upto(rules, seeds, n);
        assert forall|t: Set<K>| successors(rules, prev).contains(t) implies cur.contains(t) by {
            let (q, c) = choose|q: Set<K>, c: char|
                prev.contains(q) && symbols(rules).contains(c) && t == #[trigger] successor(
                    rules,
                    q,
                    c,
                );
            assert(successors(rules, cur).contains(t));
        }
    }
}

/// More rounds discover more.
pub proof fn discovery_grows<K>(rules: Seq<Rule<K>>, seeds: Set<Set<K>>, n: nat, m: nat)
    requires
        n <= m,
    ensures
        discovered_upto(rules, seeds, n).subset_of(discovered_upto(rules, seeds, m)),
    decreases m,
{
    if n < m {
        discovery_grows(rules, seeds, n, (m - 1) as nat);
    }
}

/// The seeds are discovered, and so is every successor of a discovered set.
pub proof fn discovery_is_closed<K>(rules: Seq<Rule<K>>, seeds: Set<Set<K>>)
    ensures
        seeds.subset_of(discovered(rules, seeds)),
        successors(rules, discovered(rules, seeds)).subset_of(discovered(rules, seeds)),
{
    let all = discovered(rules, seeds);
    assert forall|t: Set<K>| seeds.contains(t) implies all.contains(t) by {
        assert(discovered_upto(rules, seeds, 0).contains(t));
    }
    assert forall|t: Set<K>| successors(rules, all).contains(t) implies all.contains(t) by {
        let (q, c) = choose|q: Set<K>, c: char|
            all.contains(q) && symbols(rules).contains(c) && t == #[trigger] successor(rules, q, c);
        let n = choose|n: nat| #[trigger] discovered_upto(rules, seeds, n).contains(q);
        assert(successors(rules, discovered_upto(rules, seeds, n)).contains(t));
        assert(discovered_upto(rules, seeds, n + 1).contains(t));
    }
}

/// Every successor is a set of states that rules enter.
pub proof fn successor_is_bounded<K>(rules: Seq<Rule<K>>, q: Set<K>, c: char)
    ensures
        successor(rules, q, c).subset_of(rule_targets(rules)),
{
    let read = consume(rules, epsilon_closure(rules, q), c);
    assert forall|t: K| read.contains(t) implies rule_targets(rules).contains(t) by {
        let i = choose|i: int|
            0 <= i < rules.len() && fires(
                #[trigger] rules[i],
                epsilon_closure(rules, q),
                c,
            ) && rules[i].to == t;
        assert(rules.map_values(|r: Rule<K>| r.to)[i] == t);
    }
    assert forall|t: K| successor(rules, q, c).contains(t) implies rule_targets(rules).contains(
        t,
    ) by {
        let n = choose|n: nat| #[trigger] closure_upto(rules, read, n).contains(t);
        closure_upto_bounded(rules, read, n);
    }
}

/// The subsets of `t`.
pub open spec fn subsets_of<K>(t: Set<K>) -> Set<Set<K>> {
    Set::new(|a: Set<K>| a.subset_of(t))
}

/// A finite set has finitely many subsets.
pub proof fn subsets_are_finite<K>(t: Set<K>)
    requires
        t.finite(),
    ensures
        subsets_of(t).finite(),
    decreases t.len(),
{
    if t.len() == 0 {
        assert forall|a: Set<K>| subsets_of(t).contains(a) implies a == Set::<K>::empty() by {
            assert(a =~= Set::<K>::empty());
        }
        assert(subsets_of(t) =~= set![Set::<K>::empty()]);
    } else {
        let x = t.choose();
        let rest = t.remove(x);
        subsets_are_finite(rest);
        let without = subsets_of(rest);
        let put = |a: Set<K>| a.insert(x);
        let with = without.map(put);
        without.lemma_map_finite(put);
        assert forall|a: Set<K>| subsets_of(t).contains(a) implies without.union(with).contains(
            a,
        ) by {
            if a.contains(x) {
                let b = a.remove(x);
                assert(b.subset_of(rest));
                assert(without.contains(b));
                assert(a =~= put(b));
            } else {
                assert(a.subset_of(rest));
            }
        }
        lemma_set_subset_finite(without.union(with), subsets_of(t));
    }
}

/// On a set that no free move leaves, the successor is one step of the
/// nondeterministic automaton.
pub proof fn successor_of_closed<K>(rules: Seq<Rule<K>>, q: Set<K>, c: char)
    requires
        epsilon_closure(rules, q) == q,
    ensures
        successor(rules, q, c) == nfa_step(rules, q, c),
{
}

/// No rule carries a symbol outside the symbols of the rulebook, and none
/// is followed on the reserved symbol: reading such a symbol reaches
/// nothing.
pub proof fn foreign_symbol_reaches_nothing<K>(rules: Seq<Rule<K>>, config: Set<K>, c: char)
    requires
        !symbols(rules).contains(c),
    ensures
        nfa_step(rules, config, c) == Set::<K>::empty(),
{
    assert(consume(rules, config, c) =~= Set::<K>::empty());
    closure_of_nothing(rules);
}

/// The rule that a table holds for a set and a symbol.
pub proof fn table_lookup<K>(
    table: Seq<Rule<Set<K>>>,
    family: Set<Set<K>>,
    rules: Seq<Rule<K>>,
    q: Set<K>,
    c: char,
)
    requires
        is_table(table, family, rules),
    ensures
        family.contains(q) && symbols(rules).contains(c) ==> dfa_next(table, q, c) == Some(
            successor(rules, q, c),
        ),
        !symbols(rules).contains(c) ==> dfa_next(table, q, c) is None,
{
    first_rule_found(table, q, c);
    if family.contains(q) && symbols(rules).contains(c) {
        assert(has_rule(table, q, c));
    }
    if !symbols(rules).contains(c) {
        if let Some(i) = first_rule(table, q, c) {
            assert(symbols(rules).contains(table[i].symbol));
        }
    }
}

/// The run of the determinized automaton holds exactly the configuration
/// of the nondeterministic one, as long as every symbol read occurs on a
/// rule; after any other symbol it is stuck, and the nondeterministic
/// configuration is empty.
pub proof fn runs_agree<K>(d: DfaModel<Set<K>>, n: NfaModel<K>, input: Seq<char>)
    requires
        determinizes(d, n),
    ensures
        match dfa_run(d.rules, Some(d.start), input) {
            Some(q) => q == nfa_run(n.rules, nfa_initial(n), input) && discovered(
                n.rules,
                set![d.start],
            ).contains(q) && epsilon_closure(n.rules, q) == q,
            None => nfa_run(n.rules, nfa_initial(n), input) == Set::<K>::empty(),
        },
    decreases input.len(),
{
    let family = discovered(n.rules, set![d.start]);
    discovery_is_closed(n.rules, set![d.start]);
    if input.len() == 0 {
        closure_is_idempotent(n.rules, set![n.start]);
    } else {
        let before = input.drop_last();
        let c = input.last();
        runs_agree(d, n, before);
        let config = nfa_run(n.rules, nfa_initial(n), before);
        match dfa_run(d.rules, Some(d.start), before) {
            Some(q) => {
                table_lookup(d.rules, family, n.rules, q, c);
                if symbols(n.rules).contains(c) {
                    successor_of_closed(n.rules, q, c);
                    assert(successors(n.rules, family).contains(successor(n.rules, q, c)));
                    closure_is_idempotent(n.rules, consume(n.rules, q, c));
                } else {
                    foreign_symbol_reaches_nothing(n.rules, config, c);
                }
            },
            None => {
                assert(consume(n.rules, config, c) =~= Set::<K>::empty()) by {
                    assert(targets(n.rules, Set::<K>::empty(), c) =~= Set::<K>::empty());
                }
                closure_of_nothing(n.rules);
            },
        }
    }
}

/// The deterministic automaton made by the subset construction accepts
/// exactly the strings that the nondeterministic automaton accepts.
pub proof fn determinized_accepts_the_same<K>(
    d: DfaModel<Set<K>>,
    n: NfaModel<K>,
    input: Seq<char>,
)
    requires
        determinizes(d, n),
    ensures
        dfa_accepts(d, input) == nfa_accepts(n, input),
{
    runs_agree(d, n, input);
    match dfa_run(d.rules, Some(d.start), input) {
        Some(q) => {},
        None => {
            closure_of_nothing(n.rules);
            assert(Set::<K>::empty().disjoint(n.accept));
        },
    }
}

/// The configuration of a nondeterministic automaton that stands for a
/// configuration of a deterministic one: the one state, or no state when
/// stuck.
pub open spec fn as_config<K>(cur: Option<K>) -> Set<K> {
    match cur {
        Some(q) => set![q],
        None => Set::empty(),
    }
}

/// Without free-move rules every set is its own closure.
pub proof fn no_free_moves<K>(rules: Seq<Rule<K>>, states: Set<K>)
    requires
        deterministic(rules),
    ensures
        epsilon_closure(rules, states) == states,
{
    assert(free_moves(rules, states) =~= Set::<K>::empty());
    closure_of_closed(rules, states);
}

/// A deterministic rulebook read as a nondeterministic one takes the same
/// steps.
pub proof fn deterministic_step<K>(rules: Seq<Rule<K>>, cur: Option<K>, c: char)
    requires
        deterministic(rules),
    ensures
        nfa_step(rules, as_config(cur), c) == as_config(dfa_step(rules, cur, c)),
{
    let read = consume(rules, as_config(cur), c);
    let next = as_config(dfa_step(rules, cur, c));
    no_free_moves(rules, read);
    match cur {
        Some(q) => {
            first_rule_found(rules, q, c);
            if c != EPSILON {
                assert forall|t: K| read.contains(t) implies next.contains(t) by {
                    let i = choose|i: int|
                        0 <= i < rules.len() && fires(#[trigger] rules[i], set![q], c)
                            && rules[i].to == t;
                    assert(applies(rules[i], q, c));
                    let k = first_rule(rules, q, c).unwrap();
                    assert(applies(rules[k], q, c));
                }
                assert forall|t: K| next.contains(t) implies read.contains(t) by {
                    let k = first_rule(rules, q, c).unwrap();
                    assert(fires(rules[k], set![q], c));
                }
            }
            assert(read =~= next);
        },
        None => {
            assert(read =~= next);
        },
    }
}

/// A deterministic automaton read as a nondeterministic one accepts the
/// same strings.
pub proof fn deterministic_accepts_the_same<K>(m: DfaModel<K>, input: Seq<char>)
    requires
        deterministic(m.rules),
    ensures
        nfa_accepts(NfaModel { start: m.start, accept: m.accept, rules: m.rules }, input)
            == dfa_accepts(m, input),
{
    let n = NfaModel { start: m.start, accept: m.accept, rules: m.rules };
    deterministic_run(m.rules, m.start, input);
    let cur = dfa_run(m.rules, Some(m.start), input);
    no_free_moves(m.rules, as_config(cur));
    match cur {
        Some(q) => {
            if m.accept.contains(q) {
                assert(set![q].contains(q));
            }
        },
        None => {},
    }
}

proof fn deterministic_run<K>(rules: Seq<Rule<K>>, start: K, input: Seq<char>)
    requires
        deterministic(rules),
    ensures
        nfa_run(rules, epsilon_closure(rules, set![start]), input) == as_config(
            dfa_run(rules, Some(start), input),
        ),
    decreases input.len(),
{
    if input.len() == 0 {
        no_free_moves(rules, set![start]);
    } else {
        deterministic_run(rules, start, input.drop_last());
        deterministic_step(rules, dfa_run(rules, Some(start), input.drop_last()), input.last());
    }
}

/// Determinizing an automaton that is already deterministic changes the
/// states but not the strings accepted.
pub proof fn determinizing_deterministic_keeps_language<K>(
    d: DfaModel<Set<K>>,
    m: DfaModel<K>,
    input: Seq<char>,
)
    requires
        deterministic(m.rules),
        determinizes(d, NfaModel { start: m.start, accept: m.accept, rules: m.rules }),
    ensures
        dfa_accepts(d, input) == dfa_accepts(m, input),
{
    let n = NfaModel { start: m.start, accept: m.accept, rules: m.rules };
    determinized_accepts_the_same(d, n, input);
    deterministic_accepts_the_same(m, input);
}

} // verus!
