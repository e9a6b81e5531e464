use regex_engine::nfa::NFADesign;
use regex_engine::parse::{parse, Expected, ParseError};
use regex_engine::pattern::Pattern;
use regex_engine::rule::FARule;
use regex_engine::simulation::NFASimulation;
use regex_engine::state::StateInt;

fn lit(c: char) -> Pattern {
    Pattern::Literal { character: c }
}

fn cat(a: Pattern, b: Pattern) -> Pattern {
    Pattern::Concatenate { first: Box::new(a), second: Box::new(b) }
}

fn alt(a: Pattern, b: Pattern) -> Pattern {
    Pattern::Choose { first: Box::new(a), second: Box::new(b) }
}

fn star(a: Pattern) -> Pattern {
    Pattern::Repeat(Box::new(a))
}

fn matches(source: &str, input: &str) -> bool {
    parse(source.to_string()).unwrap().matches(input.to_string())
}

fn design(source: &str) -> NFADesign<StateInt> {
    parse(source.to_string()).unwrap().to_nfa_design()
}

#[test]
fn single_literal() {
    assert!(matches("a", "a"));
    assert!(!matches("a", ""));
    assert!(!matches("a", "aa"));
}

#[test]
fn choice_of_two_literals() {
    assert!(matches("a|b", "a"));
    assert!(matches("a|b", "b"));
    assert!(!matches("a|b", "c"));
    assert!(!matches("a|b", "ab"));
}

#[test]
fn repeated_choice() {
    for input in ["", "a", "ab", "aba", "abab"] {
        assert!(matches("(ab|a)*", input), "{}", input);
    }
    for input in ["b", "ba"] {
        assert!(!matches("(ab|a)*", input), "{}", input);
    }
}

#[test]
fn repeated_choice_with_an_empty_side() {
    for input in ["a", "ab", "abb"] {
        assert!(matches("a(b|)*", input), "{}", input);
    }
    for input in ["", "b", "abab", "abba"] {
        assert!(!matches("a(b|)*", input), "{}", input);
    }
    for input in ["a", "ab", "abab", "abba", "aaab"] {
        assert!(matches("a(b|a)*", input), "{}", input);
    }
    assert!(!matches("a(b|a)*", ""));
}

#[test]
fn unclosed_bracket_is_an_error() {
    assert_eq!(
        parse("(a".to_string()),
        Err(ParseError { position: 2, found: None, expected: Expected::ClosingBracket })
    );
}

#[test]
fn each_failure_has_its_input() {
    assert_eq!(
        parse("".to_string()),
        Err(ParseError { position: 0, found: None, expected: Expected::Atom })
    );
    assert_eq!(
        parse("*".to_string()),
        Err(ParseError { position: 0, found: Some('*'), expected: Expected::Atom })
    );
    assert_eq!(
        parse("()".to_string()),
        Err(ParseError { position: 1, found: Some(')'), expected: Expected::Atom })
    );
    assert_eq!(
        parse("a)b".to_string()),
        Err(ParseError { position: 1, found: Some(')'), expected: Expected::End })
    );
    assert_eq!(
        parse("a**".to_string()),
        Err(ParseError { position: 2, found: Some('*'), expected: Expected::End })
    );
    assert_eq!(
        parse("(a**)".to_string()),
        Err(ParseError { position: 3, found: Some('*'), expected: Expected::ClosingBracket })
    );
    assert_eq!(
        parse("a|*".to_string()),
        Err(ParseError { position: 2, found: Some('*'), expected: Expected::Atom })
    );
}

#[test]
fn parse_trees() {
    assert_eq!(parse("a".to_string()), Ok(cat(lit('a'), Pattern::Empty)));
    assert_eq!(
        parse("ab".to_string()),
        Ok(cat(lit('a'), cat(lit('b'), Pattern::Empty)))
    );
    assert_eq!(parse("a*".to_string()), Ok(cat(star(lit('a')), Pattern::Empty)));
    assert_eq!(
        parse("a|b".to_string()),
        Ok(alt(cat(lit('a'), Pattern::Empty), cat(lit('b'), Pattern::Empty)))
    );
    assert_eq!(
        parse("a(b)".to_string()),
        Ok(cat(lit('a'), cat(cat(lit('b'), Pattern::Empty), Pattern::Empty)))
    );
}

#[test]
fn missing_side_of_a_choice_is_empty() {
    assert_eq!(parse("|".to_string()), Ok(alt(Pattern::Empty, Pattern::Empty)));
    assert_eq!(
        parse("|a".to_string()),
        Ok(alt(Pattern::Empty, cat(lit('a'), Pattern::Empty)))
    );
    assert_eq!(
        parse("a|".to_string()),
        Ok(alt(cat(lit('a'), Pattern::Empty), Pattern::Empty))
    );
    assert_eq!(
        parse("(a|)".to_string()),
        Ok(cat(alt(cat(lit('a'), Pattern::Empty), Pattern::Empty), Pattern::Empty))
    );
    assert!(matches("|a", ""));
    assert!(matches("|a", "a"));
    assert!(!matches("|a", "aa"));
}

#[test]
fn precedence_table() {
    assert_eq!(Pattern::Empty.precedence(), 3);
    assert_eq!(lit('a').precedence(), 3);
    assert_eq!(cat(lit('a'), lit('b')).precedence(), 3);
    assert_eq!(alt(lit('a'), lit('b')).precedence(), 0);
    assert_eq!(star(lit('a')).precedence(), 2);
}

#[test]
fn printed_forms() {
    assert_eq!(Pattern::Empty.to_s(), "");
    assert_eq!(lit('a').to_s(), "a");
    assert_eq!(cat(lit('a'), lit('b')).to_s(), "ab");
    assert_eq!(alt(lit('a'), lit('b')).to_s(), "a|b");
    assert_eq!(star(lit('a')).to_s(), "a*");
    assert_eq!(star(alt(lit('a'), lit('b'))).to_s(), "(a|b)*");
    assert_eq!(cat(alt(lit('a'), lit('b')), star(lit('c'))).to_s(), "(a|b)(c*)");
    assert_eq!(alt(cat(lit('a'), lit('b')), star(lit('c'))).to_s(), "ab|c*");
    assert_eq!(lit('a').bracket(3), "a");
    assert_eq!(star(lit('a')).bracket(3), "(a*)");
    assert_eq!(star(lit('a')).bracket(2), "a*");
}

#[test]
fn printing_and_parsing_again_keeps_the_language() {
    for source in ["a", "a|b", "(ab|a)*", "a(b|)*", "|a", "a*b*", "((a|b)c)|d*", "(ab)*", "(a*)*"] {
        let first = parse(source.to_string()).unwrap();
        let second = parse(first.to_s()).unwrap();
        for input in ["", "a", "b", "ab", "ba", "aa", "aba", "abab", "abb", "abc", "d", "dd", "ac"] {
            assert_eq!(
                first.matches(input.to_string()),
                second.matches(input.to_string()),
                "{} on {}",
                source,
                input
            );
        }
    }
}

#[test]
fn states_are_numbered_by_one_counter() {
    assert_eq!(lit('a').state_count(), Some(2));
    assert_eq!(Pattern::Empty.state_count(), Some(1));
    assert_eq!(cat(lit('a'), lit('b')).state_count(), Some(4));
    assert_eq!(alt(lit('a'), lit('b')).state_count(), Some(5));
    assert_eq!(star(lit('a')).state_count(), Some(3));
    let d = alt(lit('a'), star(lit('b'))).to_nfa_design();
    // a: 0, 1; b: 2, 3; the star: 4; the choice: 5.
    assert_eq!(d.start_state, StateInt::new(5));
    assert_eq!(d.rulebook.rules.len(), 6);
    assert!(d.accept_states.contains(&StateInt::new(1)));
    assert!(d.accept_states.contains(&StateInt::new(3)));
    assert!(d.accept_states.contains(&StateInt::new(4)));
    assert_eq!(d.accept_states.len(), 3);
}

#[test]
fn free_move_symbol_is_no_input() {
    let free = '\u{029e}';
    let p = cat(Pattern::Empty, Pattern::Empty);
    assert!(p.matches("".to_string()));
    assert!(!p.matches(free.to_string()));
    assert!(lit(free).matches("".to_string()));
    assert!(!lit(free).matches(free.to_string()));
}

#[test]
fn determinized_pattern_accepts_the_same() {
    for source in ["a", "a|b", "(ab|a)*", "a(b|)*", "(a|b)*abb"] {
        let dfa = NFASimulation { nfa_design: design(source) }.to_dfa_design();
        let nfa = design(source);
        for input in ["", "a", "b", "ab", "ba", "aba", "abab", "abb", "aabb", "babb", "c", "ac"] {
            assert_eq!(
                nfa.accepts(input.to_string()),
                dfa.accepts(input.to_string()),
                "{} on {}",
                source,
                input
            );
        }
    }
}

#[test]
fn star_binds_to_one_atom() {
    assert_eq!(star(lit('a')).to_s(), "a*");
    assert_eq!(star(alt(lit('a'), lit('b'))).to_s(), "(a|b)*");
    assert_eq!(star(cat(lit('a'), lit('b'))).to_s(), "(ab)*");
    assert_eq!(star(star(lit('a'))).to_s(), "(a*)*");
    assert_eq!(star(cat(lit('a'), Pattern::Empty)).to_s(), "(a)*");
    assert_eq!(star(Pattern::Empty).to_s(), "(|)*");
    assert_eq!(star(cat(Pattern::Empty, Pattern::Empty)).to_s(), "(|)*");
    assert_eq!(star(lit('a')).star_form(), "(a*)");
    assert_eq!(lit('a').star_form(), "a");

    let first = parse("(ab)*".to_string()).unwrap();
    assert!(first.is_printable());
    assert_eq!(first.to_s(), "((ab)*)");
    let second = parse(first.to_s()).unwrap();
    for input in ["", "ab", "abab", "a", "abb", "aba", "b"] {
        assert_eq!(
            first.matches(input.to_string()),
            second.matches(input.to_string()),
            "{}",
            input
        );
    }
    assert!(second.matches("abab".to_string()));
    assert!(!second.matches("abb".to_string()));
}

#[test]
fn reserved_literals_are_not_printable() {
    assert!(star(star(lit('a'))).is_printable());
    assert!(star(cat(lit('a'), lit('b'))).is_printable());
    assert!(star(Pattern::Empty).is_printable());
    assert!(cat(star(lit('a')), alt(Pattern::Empty, lit('b'))).is_printable());
    for c in ['*', '|', '(', ')'] {
        assert!(!lit(c).is_printable());
        assert!(!star(alt(lit('a'), cat(Pattern::Empty, lit(c)))).is_printable());
    }
}

#[test]
fn printable_patterns_are_read_back_with_their_language() {
    let patterns = vec![
        lit('a'),
        alt(alt(lit('a'), Pattern::Empty), lit('b')),
        cat(cat(lit('a'), lit('b')), cat(Pattern::Empty, lit('c'))),
        star(cat(Pattern::Empty, cat(alt(lit('a'), lit('b')), Pattern::Empty))),
        cat(star(lit('a')), star(alt(lit('b'), star(lit('c'))))),
        alt(Pattern::Empty, Pattern::Empty),
        star(cat(lit('a'), lit('b'))),
        star(cat(lit('a'), cat(lit('b'), lit('c')))),
        star(star(lit('a'))),
        star(Pattern::Empty),
        star(cat(Pattern::Empty, Pattern::Empty)),
        cat(star(cat(lit('a'), star(lit('b')))), lit('c')),
        alt(star(cat(alt(lit('a'), Pattern::Empty), lit('b'))), lit('c')),
    ];
    for p in patterns {
        assert!(p.is_printable());
        let q = parse(p.to_s()).unwrap();
        for input in ["", "a", "b", "c", "ab", "abc", "aab", "bcb", "abcc", "ba", "cc"] {
            assert_eq!(p.matches(input.to_string()), q.matches(input.to_string()), "{:?} on {}", p, input);
        }
    }
}

#[test]
fn rulebook_holds_each_rule_once() {
    use_rules(lit('a'), 1, 1);
    use_rules(Pattern::Empty, 0, 1);
    use_rules(cat(lit('a'), lit('b')), 3, 1);
    use_rules(alt(lit('a'), lit('b')), 4, 2);
    use_rules(star(lit('a')), 3, 2);
    use_rules(star(alt(lit('a'), star(lit('b')))), 10, 4);
    let d = lit('a').to_nfa_design();
    assert_eq!(d.start_state, StateInt::new(0));
    assert_eq!(
        d.rulebook.rules,
        vec![FARule::new(StateInt::new(0), 'a', StateInt::new(1))]
    );
    assert!(d.accept_states.contains(&StateInt::new(1)));
}

fn use_rules(p: Pattern, rules: usize, accepts: usize) {
    let d = p.to_nfa_design();
    assert_eq!(d.rulebook.rules.len(), rules, "{:?}", p);
    assert_eq!(d.accept_states.len(), accepts, "{:?}", p);
    for (i, a) in d.rulebook.rules.iter().enumerate() {
        for b in d.rulebook.rules.iter().skip(i + 1) {
            assert_ne!(a, b);
        }
    }
}
