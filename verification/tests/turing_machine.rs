use regex_engine::turing_machine::{Direction, DTMRulebook, TMConfiguration, TMRule, Tape, DTM};

#[test]
fn test_tape() {
    let tape = Tape::new(vec!['1', '0', '1'], '1', vec![], '_');
    assert_eq!('1', tape.middle);

    assert_eq!(
        Tape::new(vec!['1', '0'], '1', vec!['1'], '_'),
        tape.move_head_left()
    );
    assert_eq!(
        Tape::new(vec!['1', '0', '1'], '0', vec![], '_'),
        tape.write('0')
    );
    assert_eq!(
        Tape::new(vec!['1', '0', '1', '1'], '_', vec![], '_'),
        tape.move_head_right()
    );
    assert_eq!(
        Tape::new(vec!['1', '0', '1', '1'], '0', vec![], '_'),
        tape.move_head_right().write('0')
    );
}

#[test]
fn test_rule() {
    let rule = TMRule::new(1, '0', 2, '1', Direction::Right);
    assert!(rule.applies_to(&TMConfiguration::new(
        1,
        Tape::new(vec![], '0', vec![], '_')
    )));
    assert!(!rule.applies_to(&TMConfiguration::new(
        1,
        Tape::new(vec![], '1', vec![], '_')
    )));
    assert!(!rule.applies_to(&TMConfiguration::new(
        2,
        Tape::new(vec![], '0', vec![], '_')
    )));
}

#[test]
fn test_follow() {
    let rule = TMRule::new(1, '0', 2, '1', Direction::Right);
    assert_eq!(
        rule.follow(&TMConfiguration::new(
            1,
            Tape::new(vec![], '0', vec![], '_')
        )),
        TMConfiguration::new(2, Tape::new(vec!['1'], '_', vec![], '_'))
    );
}

#[test]
fn test_dtmrulebook() {
    let rulebook = DTMRulebook {
        rules: vec![
            TMRule::new(1, '0', 2, '1', Direction::Right),
            TMRule::new(1, '1', 1, '0', Direction::Left),
            TMRule::new(1, '_', 2, '1', Direction::Right),
            TMRule::new(2, '0', 2, '0', Direction::Right),
            TMRule::new(2, '1', 2, '1', Direction::Right),
            TMRule::new(2, '_', 3, '_', Direction::Left),
        ],
    };
    let mut configuration =
        TMConfiguration::new(1, Tape::new(vec!['1', '0', '1'], '1', vec![], '_'));
    configuration = rulebook.next_configuration(&configuration);
    assert_eq!(
        TMConfiguration::new(1, Tape::new(vec!['1', '0'], '1', vec!['0'], '_')),
        configuration
    );
    configuration = rulebook.next_configuration(&configuration);
    assert_eq!(
        TMConfiguration::new(1, Tape::new(vec!['1',], '0', vec!['0', '0'], '_')),
        configuration
    );
    configuration = rulebook.next_configuration(&configuration);
    assert_eq!(
        TMConfiguration::new(2, Tape::new(vec!['1', '1'], '0', vec!['0'], '_')),
        configuration
    );
}

#[test]
fn test_dtm() {
    let rulebook = DTMRulebook {
        rules: vec![
            TMRule::new(1, '0', 2, '1', Direction::Right),
            TMRule::new(1, '1', 1, '0', Direction::Left),
            TMRule::new(1, '_', 2, '1', Direction::Right),
            TMRule::new(2, '0', 2, '0', Direction::Right),
            TMRule::new(2, '1', 2, '1', Direction::Right),
            TMRule::new(2, '_', 3, '_', Direction::Left),
        ],
    };
    let tape = Tape::new(vec!['1', '0', '1'], '1', vec![], '_');
    let mut dtm = DTM {
        current_configuration: TMConfiguration::new(1, tape),
        accept_states: vec![3],
        rulebook,
    };
    assert!(!dtm.accepting());
    dtm.step();
    assert_eq!(
        TMConfiguration::new(1, Tape::new(vec!['1', '0'], '1', vec!['0'], '_')),
        dtm.current_configuration
    );
    assert!(!dtm.accepting());
    dtm.run();
    assert_eq!(
        TMConfiguration::new(3, Tape::new(vec!['1', '1', '0'], '0', vec!['_'], '_')),
        dtm.current_configuration
    );
    assert!(dtm.accepting());
}

#[test]
fn test_dtm_stuck() {
    let rulebook = DTMRulebook {
        rules: vec![
            TMRule::new(1, '0', 2, '1', Direction::Right),
            TMRule::new(1, '1', 1, '0', Direction::Left),
            TMRule::new(1, '_', 2, '1', Direction::Right),
            TMRule::new(2, '0', 2, '0', Direction::Right),
            TMRule::new(2, '1', 2, '1', Direction::Right),
            TMRule::new(2, '_', 3, '_', Direction::Left),
        ],
    };
    let tape = Tape::new(vec!['1', '2', '1'], '1', vec![], '_');
    let mut dtm = DTM {
        current_configuration: TMConfiguration::new(1, tape),
        accept_states: vec![3],
        rulebook,
    };

    dtm.run();

    assert_eq!(
        TMConfiguration::new(1, Tape::new(vec!['1'], '2', vec!['0', '0'], '_')),
        dtm.current_configuration
    );
    assert!(!dtm.accepting());
    assert!(dtm.is_stuck());
}

#[test]
fn test_aaabbbccc() {
    let rulebook = DTMRulebook {
        rules: vec![
            TMRule::new(1, 'X', 1, 'X', Direction::Right),
            TMRule::new(1, 'a', 2, 'X', Direction::Right),
            TMRule::new(1, '_', 6, '_', Direction::Left),
            TMRule::new(2, 'a', 2, 'a', Direction::Right),
            TMRule::new(2, 'X', 2, 'X', Direction::Right),
            TMRule::new(2, 'b', 3, 'X', Direction::Right),
            TMRule::new(3, 'b', 3, 'b', Direction::Right),
            TMRule::new(3, 'X', 3, 'X', Direction::Right),
            TMRule::new(3, 'c', 4, 'X', Direction::Right),
            TMRule::new(4, 'c', 4, 'c', Direction::Right),
            TMRule::new(4, '_', 5, '_', Direction::Left),
            TMRule::new(5, 'a', 5, 'a', Direction::Left),
            TMRule::new(5, 'b', 5, 'b', Direction::Left),
            TMRule::new(5, 'c', 5, 'c', Direction::Left),
            TMRule::new(5, 'X', 5, 'X', Direction::Left),
            TMRule::new(5, '_', 1, '_', Direction::Right),
        ],
    };
    let tape = Tape::new(
        vec![],
        'a',
        vec!['a', 'a', 'b', 'b', 'b', 'c', 'c', 'c'],
        '_',
    );
    let mut dtm = DTM {
        current_configuration: TMConfiguration::new(1, tape),
        accept_states: vec![6],
        rulebook,
    };

    for _ in 0..10 {
        dtm.step();
    }
    assert_eq!(
        TMConfiguration::new(
            5,
            Tape::new(
                vec!['X', 'a', 'a', 'X', 'b', 'b', 'X', 'c'],
                'c',
                vec!['_'],
                '_'
            )
        ),
        dtm.current_configuration
    );

    for _ in 0..25 {
        dtm.step();
    }
    assert_eq!(
        TMConfiguration::new(
            5,
            Tape::new(
                vec!['_', 'X', 'X', 'a'],
                'X',
                vec!['X', 'b', 'X', 'X', 'c', '_'],
                '_'
            )
        ),
        dtm.current_configuration
    );

    dtm.run();
    assert_eq!(
        TMConfiguration::new(
            6,
            Tape::new(
                vec!['_', 'X', 'X', 'X', 'X', 'X', 'X', 'X', 'X'],
                'X',
                vec!['_'],
                '_'
            )
        ),
        dtm.current_configuration
    );
}
