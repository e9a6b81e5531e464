use regex_engine::pda::{DPDADesign, DPDARuleBook, PDAConfiguration, PDARule, Stack, DPDA, NIL};

#[test]
fn test_stack() {
    let mut contents = vec!['a', 'b', 'c', 'd', 'e'];
    contents.reverse();
    let stack = Stack { contents };
    assert_eq!(stack.top(), 'a');
    assert_eq!(stack.pop().pop().top(), 'c');
    assert_eq!(stack.push('x').push('y').top(), 'y');
    assert_eq!(stack.push('x').push('y').pop().top(), 'x');
}

#[test]
fn test_pdarule() {
    let rule = PDARule {
        state: 1,
        character: '(',
        next_state: 2,
        pop_character: '$',
        push_characters: vec!['b', '$'],
    };
    let configuration = PDAConfiguration {
        state: 1,
        stack: Stack::new(vec!['$']),
    };
    assert!(rule.applies_to(configuration, '('));
}

#[test]
fn test_dpdarulebook() {
    let rulebook = DPDARuleBook {
        rules: vec![
            PDARule {
                state: 1,
                character: '(',
                next_state: 2,
                pop_character: '$',
                push_characters: vec!['b', '$'],
            },
            PDARule {
                state: 2,
                character: '(',
                next_state: 2,
                pop_character: 'b',
                push_characters: vec!['b', 'b'],
            },
            PDARule {
                state: 2,
                character: ')',
                next_state: 2,
                pop_character: 'b',
                push_characters: vec![],
            },
            PDARule {
                state: 2,
                character: NIL,
                next_state: 1,
                pop_character: '$',
                push_characters: vec!['$'],
            },
        ],
    };
    let mut configuration = PDAConfiguration {
        state: 1,
        stack: Stack::new(vec!['$']),
    };
    configuration = rulebook.next_configuration(&configuration, '(');
    assert_eq!(
        configuration,
        PDAConfiguration {
            state: 2,
            stack: Stack::new(vec!['b', '$'])
        }
    );
    configuration = rulebook.next_configuration(&configuration, '(');
    assert_eq!(
        configuration,
        PDAConfiguration {
            state: 2,
            stack: Stack::new(vec!['b', 'b', '$'])
        }
    );
    configuration = rulebook.next_configuration(&configuration, ')');
    assert_eq!(
        configuration,
        PDAConfiguration {
            state: 2,
            stack: Stack::new(vec!['b', '$'])
        }
    );

    let configuration = PDAConfiguration {
        state: 2,
        stack: Stack::new(vec!['$']),
    };
    assert_eq!(
        rulebook.follow_free_moves(&configuration),
        PDAConfiguration {
            state: 1,
            stack: Stack::new(vec!['$'])
        }
    );

    let mut dpda = DPDA {
        current_configuration: PDAConfiguration {
            state: 1,
            stack: Stack::new(vec!['$']),
        },
        accept_states: vec![1],
        rulebook: rulebook.clone(),
    };
    assert!(dpda.clone().accepting());
    dpda.read_string(String::from("(()("));
    assert!(!dpda.clone().accepting());
    assert_eq!(
        dpda.get_current_configuration(),
        PDAConfiguration {
            state: 2,
            stack: Stack::new(vec!['b', 'b', '$'])
        }
    );

    dpda.read_string(String::from("))()"));
    assert!(dpda.clone().accepting());
    assert_eq!(
        dpda.get_current_configuration(),
        PDAConfiguration {
            state: 1,
            stack: Stack::new(vec!['$'])
        }
    );
}

#[test]
fn test_dpdadesign() {
    let rulebook = DPDARuleBook {
        rules: vec![
            PDARule {
                state: 1,
                character: '(',
                next_state: 2,
                pop_character: '$',
                push_characters: vec!['b', '$'],
            },
            PDARule {
                state: 2,
                character: '(',
                next_state: 2,
                pop_character: 'b',
                push_characters: vec!['b', 'b'],
            },
            PDARule {
                state: 2,
                character: ')',
                next_state: 2,
                pop_character: 'b',
                push_characters: vec![],
            },
            PDARule {
                state: 2,
                character: NIL,
                next_state: 1,
                pop_character: '$',
                push_characters: vec!['$'],
            },
        ],
    };
    let dpda_design = DPDADesign {
        start_state: 1,
        bottom_character: '$',
        accept_states: vec![1],
        rulebook,
    };
    assert!(dpda_design.accepts(String::from("(((((((((())))))))))")));
    assert!(dpda_design.accepts(String::from("()(())((()))(()(()))")));
    assert!(!dpda_design.accepts(String::from("(()(()(()()(()()))()")));
}

#[test]
fn test_dpda_stuck() {
    let rulebook = DPDARuleBook {
        rules: vec![
            PDARule {
                state: 1,
                character: '(',
                next_state: 2,
                pop_character: '$',
                push_characters: vec!['b', '$'],
            },
            PDARule {
                state: 2,
                character: '(',
                next_state: 2,
                pop_character: 'b',
                push_characters: vec!['b', 'b'],
            },
            PDARule {
                state: 2,
                character: ')',
                next_state: 2,
                pop_character: 'b',
                push_characters: vec![],
            },
            PDARule {
                state: 2,
                character: NIL,
                next_state: 1,
                pop_character: '$',
                push_characters: vec!['$'],
            },
        ],
    };
    let mut dpda = DPDA {
        current_configuration: PDAConfiguration {
            state: 1,
            stack: Stack::new(vec!['$']),
        },
        accept_states: vec![1],
        rulebook: rulebook.clone(),
    };
    dpda.read_string(String::from("())"));
    assert_eq!(
        dpda.get_current_configuration(),
        PDAConfiguration {
            state: PDAConfiguration::STUCK_STATE,
            stack: Stack::new(vec!['$'])
        }
    );
    assert!(!dpda.accepting());
    assert!(dpda.is_stuck());

    let dpda_design = DPDADesign {
        start_state: 1,
        bottom_character: '$',
        accept_states: vec![1],
        rulebook: rulebook.clone(),
    };
    assert!(!dpda_design.accepts(String::from("())")))
}

#[test]
fn test_same_chars() {
    let rulebook = DPDARuleBook {
        rules: vec![
            PDARule {
                state: 1,
                character: 'a',
                next_state: 2,
                pop_character: '$',
                push_characters: vec!['a', '$'],
            },
            PDARule {
                state: 1,
                character: 'b',
                next_state: 2,
                pop_character: '$',
                push_characters: vec!['b', '$'],
            },
            PDARule {
                state: 2,
                character: 'a',
                next_state: 2,
                pop_character: 'a',
                push_characters: vec!['a', 'a'],
            },
            PDARule {
                state: 2,
                character: 'b',
                next_state: 2,
                pop_character: 'b',
                push_characters: vec!['b', 'b'],
            },
            PDARule {
                state: 2,
                character: 'a',
                next_state: 2,
                pop_character: 'b',
                push_characters: vec![],
            },
            PDARule {
                state: 2,
                character: 'b',
                next_state: 2,
                pop_character: 'a',
                push_characters: vec![],
            },
            PDARule {
                state: 2,
                character: NIL,
                next_state: 1,
                pop_character: '$',
                push_characters: vec!['$'],
            },
        ]
    };
    let dpda_design = DPDADesign {
        start_state: 1,
        bottom_character: '$',
        accept_states: vec![1],
        rulebook
    };
    assert!(dpda_design.accepts(String::from("ababab")));
    assert!(dpda_design.accepts(String::from("bbbaaaab")));
    assert!(!dpda_design.accepts(String::from("baa")));
}

#[test]
fn test_palindrome() {
    let rulebook = DPDARuleBook {
        rules: vec![
            PDARule {
                state: 1,
                character: 'a',
                next_state: 1,
                pop_character: '$',
                push_characters: vec!['a', '$'],
            },
            PDARule {
                state: 1,
                character: 'a',
                next_state: 1,
                pop_character: 'a',
                push_characters: vec!['a', 'a'],
            },
            PDARule {
                state: 1,
                character: 'a',
                next_state: 1,
                pop_character: 'b',
                push_characters: vec!['a', 'b'],
            },
            PDARule {
                state: 1,
                character: 'b',
                next_state: 1,
                pop_character: '$',
                push_characters: vec!['b', '$'],
            },
            PDARule {
                state: 1,
                character: 'b',
                next_state: 1,
                pop_character: 'a',
                push_characters: vec!['b', 'a'],
            },
            PDARule {
                state: 1,
                character: 'b',
                next_state: 1,
                pop_character: 'b',
                push_characters: vec!['b', 'b'],
            },
            PDARule {
                state: 1,
                character: 'm',
                next_state: 2,
                pop_character: '$',
                push_characters: vec!['$'],
            },
            PDARule {
                state: 1,
                character: 'm',
                next_state: 2,
                pop_character: 'a',
                push_characters: vec!['a'],
            },
            PDARule {
                state: 1,
                character: 'm',
                next_state: 2,
                pop_character: 'b',
                push_characters: vec!['b'],
            },
            PDARule {
                state: 2,
                character: 'a',
                next_state: 2,
                pop_character: 'a',
                push_characters: vec![],
            },
            PDARule {
                state: 2,
                character: 'b',
                next_state: 2,
                pop_character: 'b',
                push_characters: vec![],
            },
            PDARule {
                state: 2,
                character: NIL,
                next_state: 3,
                pop_character: '$',
                push_characters: vec!['$'],
            },
        ]
    };
    let dpda_design = DPDADesign {
        start_state: 1,
        bottom_character: '$',
        accept_states: vec![3],
        rulebook
    };
    assert!(dpda_design.accepts(String::from("abmba")));
    assert!(dpda_design.accepts(String::from("babbamabbab")));
    assert!(!dpda_design.accepts(String::from("abmb")));
    assert!(!dpda_design.accepts(String::from("baambaa")));
}

#[test]
fn stack_prints_from_the_top() {
    assert_eq!(Stack::new(vec!['a', 'b', 'c']).inspect(), "#<Stack (a)bc>");
    assert_eq!(Stack::new(vec!['$']).inspect(), "#<Stack ($)>");
    assert_eq!(Stack::new(vec![]).pop(), Stack::new(vec![]));
}

#[test]
fn rule_puts_its_first_character_uppermost() {
    let rule = PDARule::new(1, '(', 2, '$', vec!['b', '$']);
    let configuration = PDAConfiguration { state: 1, stack: Stack::new(vec!['$', 'x']) };
    assert_eq!(
        rule.follow(&configuration),
        PDAConfiguration { state: 2, stack: Stack::new(vec!['b', '$', 'x']) }
    );
    assert_eq!(rule.next_stack(&configuration).top(), 'b');
    assert!(!configuration.is_stuck());
    assert!(configuration.stuck().is_stuck());
}
