use std::collections::HashSet;

use regex_engine::dfa::{DFADesign, DFARuleBook};
use regex_engine::nfa::{NFADesign, NFARuleBook, NFA};
use regex_engine::rule::FARule;
use regex_engine::simulation::NFASimulation;
use regex_engine::state::{Member, State, StateInt, StateSet};
use regex_engine::states::States;

const FREE: char = '\u{029e}';

fn ints(values: Vec<i32>) -> States<StateInt> {
    let mut s = States::new();
    for v in values {
        s.insert(StateInt::new(v));
    }
    s
}

fn sets(values: Vec<Vec<i32>>) -> States<StateSet> {
    let mut s = States::new();
    for v in values {
        s.insert(StateSet::new(v));
    }
    s
}

fn int_rule(from: i32, c: char, to: i32) -> FARule<StateInt> {
    FARule::new(StateInt::new(from), c, StateInt::new(to))
}

fn set_rule(from: Vec<i32>, c: char, to: Vec<i32>) -> FARule<StateSet> {
    FARule::new(StateSet::new(from), c, StateSet::new(to))
}

fn branching_int_rules() -> Vec<FARule<StateInt>> {
    vec![
        int_rule(1, 'a', 1),
        int_rule(1, 'b', 1),
        int_rule(1, 'b', 2),
        int_rule(2, 'a', 3),
        int_rule(2, 'b', 3),
        int_rule(3, 'a', 4),
        int_rule(3, 'b', 4),
    ]
}

fn branching_set_rules() -> Vec<FARule<StateSet>> {
    vec![
        set_rule(vec![1, 2], 'a', vec![1, 2]),
        set_rule(vec![1, 2], 'b', vec![1, 2]),
        set_rule(vec![1, 2], 'b', vec![2, 3]),
        set_rule(vec![2, 3], 'a', vec![3, 4]),
        set_rule(vec![2, 3], 'b', vec![3, 4]),
        set_rule(vec![3, 4], 'a', vec![4, 5]),
        set_rule(vec![3, 4], 'b', vec![4, 5]),
    ]
}

fn free_int_rules() -> Vec<FARule<StateInt>> {
    vec![
        int_rule(1, FREE, 2),
        int_rule(1, FREE, 4),
        int_rule(2, 'a', 3),
        int_rule(3, 'a', 2),
        int_rule(4, 'a', 5),
        int_rule(5, 'a', 6),
        int_rule(6, 'a', 4),
    ]
}

fn free_set_rules() -> Vec<FARule<StateSet>> {
    vec![
        set_rule(vec![1, 2], FREE, vec![2, 3]),
        set_rule(vec![1, 2], FREE, vec![4, 5]),
        set_rule(vec![2, 3], 'a', vec![3, 4]),
        set_rule(vec![3, 4], 'a', vec![2, 3]),
        set_rule(vec![4, 5], 'a', vec![5, 6]),
        set_rule(vec![5, 6], 'a', vec![6, 7]),
        set_rule(vec![6, 7], 'a', vec![4, 5]),
    ]
}

fn book_design() -> NFADesign<StateInt> {
    NFADesign {
        start_state: StateInt::new(1),
        accept_states: ints(vec![3]),
        rulebook: NFARuleBook {
            rules: vec![
                int_rule(1, 'a', 1),
                int_rule(1, 'a', 2),
                int_rule(1, FREE, 2),
                int_rule(2, 'b', 3),
                int_rule(3, 'b', 1),
                int_rule(3, FREE, 2),
            ],
        },
    }
}

#[test]
fn test_stateint() {
    let si = StateInt::new(10);
    assert_eq!(si.to_string(), String::from("10"));
}

#[test]
fn test_dfarulebook_int() {
    let rulebook = DFARuleBook {
        rules: vec![
            int_rule(1, 'a', 2),
            int_rule(1, 'b', 1),
            int_rule(2, 'a', 2),
            int_rule(2, 'b', 3),
            int_rule(3, 'a', 3),
            int_rule(3, 'b', 3),
        ],
    };
    assert_eq!(rulebook.next_state(StateInt::new(1), 'a'), StateInt::new(2));
    assert_eq!(rulebook.next_state(StateInt::new(1), 'b'), StateInt::new(1));
    assert_eq!(rulebook.next_state(StateInt::new(2), 'b'), StateInt::new(3));
}

#[test]
fn test_dfarulebook_set() {
    let rulebook = DFARuleBook {
        rules: vec![
            set_rule(vec![1, 2], 'a', vec![2, 3]),
            set_rule(vec![1, 2], 'b', vec![1, 2]),
            set_rule(vec![2, 3], 'a', vec![2, 3]),
            set_rule(vec![2, 3], 'b', vec![3, 4]),
            set_rule(vec![3, 4], 'a', vec![3, 4]),
            set_rule(vec![3, 4], 'b', vec![3, 4]),
        ],
    };
    assert_eq!(
        rulebook.next_state(StateSet::new(vec![1, 2]), 'a'),
        StateSet::new(vec![2, 3])
    );
    assert_eq!(
        rulebook.next_state(StateSet::new(vec![1, 2]), 'b'),
        StateSet::new(vec![1, 2])
    );
    assert_eq!(
        rulebook.next_state(StateSet::new(vec![2, 3]), 'b'),
        StateSet::new(vec![3, 4])
    );
}

#[test]
fn test_nfarulebook_int() {
    let rulebook = NFARuleBook { rules: branching_int_rules() };
    assert_eq!(rulebook.next_states(&ints(vec![1]), 'b'), ints(vec![1, 2]));
    assert_eq!(rulebook.next_states(&ints(vec![1, 2]), 'a'), ints(vec![1, 3]));
    assert_eq!(rulebook.next_states(&ints(vec![1, 3]), 'b'), ints(vec![1, 2, 4]));
}

#[test]
fn test_nfarulebook_set() {
    let rulebook = NFARuleBook { rules: branching_set_rules() };
    assert_eq!(
        rulebook.next_states(&sets(vec![vec![1, 2]]), 'b'),
        sets(vec![vec![1, 2], vec![2, 3]])
    );
    assert_eq!(
        rulebook.next_states(&sets(vec![vec![1, 2], vec![2, 3]]), 'a'),
        sets(vec![vec![1, 2], vec![3, 4]])
    );
    assert_eq!(
        rulebook.next_states(&sets(vec![vec![1, 2], vec![3, 4]]), 'b'),
        sets(vec![vec![1, 2], vec![2, 3], vec![4, 5]])
    );
}

#[test]
fn test_nfa_int() {
    let mut nfa = NFA {
        current_states: ints(vec![1]),
        accept_states: ints(vec![4]),
        rulebook: NFARuleBook { rules: branching_int_rules() },
    };
    assert!(!nfa.accepting());
    nfa.read_character('b');
    assert!(!nfa.accepting());
    nfa.read_character('a');
    assert!(!nfa.accepting());
    nfa.read_character('b');
    assert!(nfa.accepting());

    let mut nfa = NFA {
        current_states: ints(vec![1]),
        accept_states: ints(vec![4]),
        rulebook: NFARuleBook { rules: branching_int_rules() },
    };
    nfa.read_string(String::from("bbbbb"));
    assert!(nfa.accepting());
}

#[test]
fn test_follow_free_moves_int() {
    let rulebook = NFARuleBook { rules: free_int_rules() };
    assert_eq!(rulebook.follow_free_moves(&ints(vec![1])), ints(vec![1, 2, 4]));
    assert_eq!(rulebook.follow_free_moves(&ints(vec![1, 5])), ints(vec![1, 2, 4, 5]));
}

#[test]
fn test_nfa_set() {
    let mut nfa = NFA {
        current_states: sets(vec![vec![1, 2]]),
        accept_states: sets(vec![vec![4, 5]]),
        rulebook: NFARuleBook { rules: branching_set_rules() },
    };
    assert!(!nfa.accepting());
    nfa.read_character('b');
    assert!(!nfa.accepting());
    nfa.read_character('a');
    assert!(!nfa.accepting());
    nfa.read_character('b');
    assert!(nfa.accepting());
}

#[test]
fn test_follow_free_moves_set() {
    let rulebook = NFARuleBook { rules: free_set_rules() };
    assert_eq!(
        rulebook.follow_free_moves(&sets(vec![vec![1, 2]])),
        sets(vec![vec![1, 2], vec![2, 3], vec![4, 5]])
    );
    assert_eq!(
        rulebook.follow_free_moves(&sets(vec![vec![1, 2], vec![5, 6]])),
        sets(vec![vec![1, 2], vec![2, 3], vec![4, 5], vec![5, 6]])
    );
}

#[test]
fn test_nfa_design_int() {
    let nfa_design = NFADesign {
        start_state: StateInt::new(1),
        accept_states: ints(vec![2, 4]),
        rulebook: NFARuleBook { rules: free_int_rules() },
    };
    assert!(nfa_design.accepts(String::from("aa")));
    assert!(nfa_design.accepts(String::from("aaa")));
    assert!(!nfa_design.accepts(String::from("aaaaa")));
    assert!(nfa_design.accepts(String::from("aaaaaa")));
}

#[test]
fn test_nfa_design_set() {
    let nfa_design = NFADesign {
        start_state: StateSet::new(vec![1, 2]),
        accept_states: sets(vec![vec![2, 3], vec![4, 5]]),
        rulebook: NFARuleBook { rules: free_set_rules() },
    };
    assert!(nfa_design.accepts(String::from("aa")));
    assert!(nfa_design.accepts(String::from("aaa")));
    assert!(!nfa_design.accepts(String::from("aaaaa")));
    assert!(nfa_design.accepts(String::from("aaaaaa")));
}

#[test]
fn test_nfa_design_to_nfa() {
    let nfa_design = book_design();
    assert_eq!(nfa_design.to_nfa_init().get_current_states(), ints(vec![1, 2]));
    assert_eq!(nfa_design.to_nfa(ints(vec![2])).get_current_states(), ints(vec![2]));
    assert_eq!(nfa_design.to_nfa(ints(vec![3])).get_current_states(), ints(vec![2, 3]));
}

#[test]
fn test_simulation() {
    let simulation = NFASimulation { nfa_design: book_design() };
    assert_eq!(
        simulation.next_state(StateSet::from_states(&ints(vec![1, 2])), 'a'),
        StateSet::from_states(&ints(vec![1, 2]))
    );
    assert_eq!(
        simulation.next_state(StateSet::from_states(&ints(vec![1, 2])), 'b'),
        StateSet::from_states(&ints(vec![2, 3]))
    );
    assert_eq!(
        simulation.next_state(StateSet::from_states(&ints(vec![2, 3])), 'b'),
        StateSet::from_states(&ints(vec![1, 2, 3]))
    );
    assert_eq!(
        simulation.next_state(StateSet::from_states(&ints(vec![1, 2, 3])), 'b'),
        StateSet::from_states(&ints(vec![1, 2, 3]))
    );
    assert_eq!(
        simulation.next_state(StateSet::from_states(&ints(vec![1, 2, 3])), 'a'),
        StateSet::from_states(&ints(vec![1, 2]))
    );
}

#[test]
fn test_simulation_rule_for() {
    let nfa_design = book_design();
    assert_eq!(nfa_design.rulebook.alphabet(), vec!['a', 'b']);
    let simulation = NFASimulation { nfa_design };
    let mut rules = HashSet::new();
    rules.insert(set_rule(vec![1, 2], 'a', vec![1, 2]));
    rules.insert(set_rule(vec![1, 2], 'a', vec![1, 2]));
    rules.insert(set_rule(vec![1, 2], 'b', vec![2, 3]));
    let found: HashSet<FARule<StateSet>> = simulation
        .rules_for(StateSet::from_states(&ints(vec![1, 2])))
        .into_iter()
        .collect();
    assert_eq!(found, rules);

    let expected_set = sets(vec![vec![], vec![1, 2], vec![2, 3], vec![1, 2, 3]]);
    let mut rules = HashSet::new();
    rules.insert(set_rule(vec![1, 2], 'a', vec![1, 2]));
    rules.insert(set_rule(vec![1, 2], 'b', vec![2, 3]));
    rules.insert(set_rule(vec![2, 3], 'a', vec![]));
    rules.insert(set_rule(vec![2, 3], 'b', vec![1, 2, 3]));
    rules.insert(set_rule(vec![], 'a', vec![]));
    rules.insert(set_rule(vec![], 'b', vec![]));
    rules.insert(set_rule(vec![1, 2, 3], 'a', vec![1, 2]));
    rules.insert(set_rule(vec![1, 2, 3], 'b', vec![1, 2, 3]));
    let (found_set, found_rules) = simulation.discover_states_and_rules(sets(vec![vec![1, 2]]));
    assert_eq!(found_rules.len(), 8);
    let found_rules: HashSet<FARule<StateSet>> = found_rules.into_iter().collect();
    assert_eq!((found_set, found_rules), (expected_set, rules));
}

#[test]
fn test_simulation_to_dfa() {
    let nfa_design = book_design();
    assert_eq!(nfa_design.rulebook.alphabet(), vec!['a', 'b']);
    let simulation = NFASimulation { nfa_design };
    let dfa_design = simulation.to_dfa_design();
    assert!(!dfa_design.accepts(String::from("aaa")));
    assert!(dfa_design.accepts(String::from("aab")));
    assert!(dfa_design.accepts(String::from("bbbabb")));
}

#[test]
fn closing_a_closure_changes_nothing() {
    let rulebook = NFARuleBook { rules: free_int_rules() };
    for start in [vec![], vec![1], vec![2], vec![1, 5], vec![3, 6], vec![7]] {
        let once = rulebook.follow_free_moves(&ints(start));
        let twice = rulebook.follow_free_moves(&once);
        assert_eq!(once, twice);
    }
    let chain = NFARuleBook { rules: vec![int_rule(1, FREE, 2), int_rule(2, FREE, 3), int_rule(3, FREE, 1)] };
    assert_eq!(chain.follow_free_moves(&ints(vec![2])), ints(vec![1, 2, 3]));
}

#[test]
fn reserved_symbol_reads_nothing() {
    let rulebook = NFARuleBook { rules: free_int_rules() };
    assert_eq!(rulebook.next_states(&ints(vec![1]), FREE), ints(vec![]));
    assert_eq!(rulebook.free_moves(&ints(vec![1])), ints(vec![2, 4]));
    let nfa_design = NFADesign {
        start_state: StateInt::new(1),
        accept_states: ints(vec![2, 4]),
        rulebook: NFARuleBook { rules: free_int_rules() },
    };
    assert!(nfa_design.accepts(String::new()));
    assert!(!nfa_design.accepts(FREE.to_string()));
}

#[test]
fn rulebook_prints_one_rule_to_a_line() {
    let rulebook = DFARuleBook { rules: vec![int_rule(1, 'a', 2), int_rule(2, 'b', 3)] };
    assert_eq!(rulebook.inspect(), "#<FARule #1 --#a--> #2>\n#<FARule #2 --#b--> #3>\n");
}

#[test]
fn rules_and_states_print() {
    assert_eq!(int_rule(1, 'a', 2).inspect(), "#<FARule #1 --#a--> #2>");
    assert_eq!(StateSet::new(vec![3, 1, 2, 3]).to_string(), "(1, 2, 3, )");
    assert_eq!(StateSet::new(vec![]).to_string(), "()");
    assert_eq!(StateInt::new(-12).to_string(), "-12");
    assert_eq!(
        FARule::from_states(&ints(vec![2, 1]), 'b', &ints(vec![3])),
        set_rule(vec![1, 2], 'b', vec![3])
    );
}

#[test]
fn state_sets_are_sets() {
    let s = StateSet::new(vec![5, 1, 5, 3]);
    assert_eq!(s, StateSet::new(vec![1, 3, 5]));
    assert_eq!(s.len(), 3);
    assert!(s.contains(3));
    assert!(!s.contains(4));
    assert!(s.same(&StateSet::new(vec![3, 5, 1])));
    assert!(!s.same(&StateSet::new(vec![3, 5])));
    assert_eq!(s.to_states(), ints(vec![5, 3, 1]));
    let mut set = ints(vec![1, 2]);
    assert!(!set.insert(StateInt::new(2)));
    assert!(set.insert(StateInt::new(3)));
    assert_eq!(set.len(), 3);
    assert!(ints(vec![1]).is_subset(&set));
    assert!(!ints(vec![4]).is_subset(&set));
    assert!(ints(vec![4]).is_disjoint(&set));
    assert_eq!(ints(vec![1, 4]).union(&set), ints(vec![4, 3, 2, 1]));
    assert_ne!(ints(vec![1, 4]), set);
}

#[test]
fn deterministic_automaton_gets_stuck_without_a_rule() {
    let design = DFADesign {
        start_state: StateInt::new(1),
        accept_states: ints(vec![2]),
        rulebook: DFARuleBook { rules: vec![int_rule(1, 'a', 2), int_rule(2, 'b', 2)] },
    };
    assert!(design.accepts("a".to_string()));
    assert!(design.accepts("abb".to_string()));
    assert!(!design.accepts("".to_string()));
    assert!(!design.accepts("b".to_string()));
    assert!(!design.accepts("abab".to_string()));
    assert!(!design.accepts("ac".to_string()));
    assert_eq!(design.rulebook.find_rule(&StateInt::new(2), 'b'), Some(1));
    assert_eq!(design.rulebook.find_rule(&StateInt::new(2), 'a'), None);
    assert_eq!(design.rulebook.rule_for(StateInt::new(1), 'a'), int_rule(1, 'a', 2));
}

#[test]
fn determinizing_a_deterministic_automaton_keeps_its_language() {
    let rules = || vec![int_rule(1, 'a', 2), int_rule(1, 'b', 1), int_rule(2, 'a', 2), int_rule(2, 'b', 3)];
    let dfa = DFADesign {
        start_state: StateInt::new(1),
        accept_states: ints(vec![3]),
        rulebook: DFARuleBook { rules: rules() },
    };
    let again = NFASimulation {
        nfa_design: NFADesign {
            start_state: StateInt::new(1),
            accept_states: ints(vec![3]),
            rulebook: NFARuleBook { rules: rules() },
        },
    }
    .to_dfa_design();
    for input in ["", "a", "ab", "bab", "aab", "abb", "aba", "babab", "abc"] {
        assert_eq!(dfa.accepts(input.to_string()), again.accepts(input.to_string()), "{}", input);
    }
}
