use regex_engine::expression::Expression;
use regex_engine::statement::Machine;
use regex_engine::statement::Statement::{Assign, DoNothing, If, Sequence, While};

#[test]
fn statement_test_to_string() {
    let dn = DoNothing;
    assert_eq!(dn.to_string(), "do-nothing".to_string());

    let assign = Assign { name: "x".to_string(), expression: Expression::new_add(1, 2) };
    assert_eq!(assign.to_string(), "x = 1 + 2".to_string());

    let if_s = If {
        condition: Expression::Boolean(true),
        consequence: Box::new(Assign { name: "x".to_string(), expression: Expression::Number(1) }),
        alternative: Box::new(DoNothing),
    };
    assert_eq!(if_s.to_string(), "If true { x = 1 } else { do-nothing }");

    let while_s = While {
        condition: Expression::Boolean(true),
        body: Box::new(Assign { name: "x".to_string(), expression: Expression::Number(22) }),
    };
    assert_eq!(while_s.to_string(), "While { true } { x = 22 }");

    let seq = Sequence {
        first: Box::new(Assign { name: "x".to_string(), expression: Expression::Number(11) }),
        second: Box::new(Assign { name: "y".to_string(), expression: Expression::Number(22) }),
    };
    assert_eq!(seq.to_string(), "x = 11; y = 22");
}

#[test]
fn statement_test_reduce() {
    let assign1 = Assign { name: "x".to_string(), expression: Expression::Number(1) };
    let mut env = Expression::new_env();
    let (reduced, new_env) = assign1.reduce(&mut env);
    let mut expected_env = Expression::new_env();
    expected_env.insert("x".to_string(), Expression::Number(1));
    assert_eq!(reduced, DoNothing);
    assert_eq!(new_env, expected_env);

    let assign2 = Assign { name: "x".to_string(), expression: Expression::new_add(1, 2) };
    let mut env = Expression::new_env();
    let (reduced, new_env) = assign2.reduce(&mut env);
    let expected = Assign { name: "x".to_string(), expression: Expression::Number(3) };
    assert_eq!(reduced, expected);
    assert_eq!(new_env, env);

    let if_1 = If {
        condition: Expression::LessThan {
            left: Box::new(Expression::Number(1)),
            right: Box::new(Expression::Number(22)),
        },
        consequence: Box::new(DoNothing),
        alternative: Box::new(DoNothing),
    };
    let mut env = Expression::new_env();
    let (reduced, new_env) = if_1.reduce(&mut env);
    let expected = If {
        condition: Expression::Boolean(true),
        consequence: Box::new(DoNothing),
        alternative: Box::new(DoNothing),
    };
    assert_eq!(reduced, expected);
    assert_eq!(new_env, env);

    let if_2 = If {
        condition: Expression::Boolean(true),
        consequence: Box::new(Assign { name: "x".to_string(), expression: Expression::Number(1) }),
        alternative: Box::new(DoNothing),
    };
    let mut env = Expression::new_env();
    let (reduced, new_env) = if_2.reduce(&mut env);
    let expected = Assign { name: "x".to_string(), expression: Expression::Number(1) };
    assert_eq!(reduced, expected);
    assert_eq!(new_env, env);

    let body = Box::new(Assign { name: "x".to_string(), expression: Expression::Number(1) });
    let while_s = While { condition: Expression::Boolean(true), body: body.clone() };
    let mut env = Expression::new_env();
    let (reduced, new_env) = while_s.reduce(&mut env);
    let expected = If {
        condition: Expression::Boolean(true),
        consequence: Box::new(Sequence {
            first: body.clone(),
            second: Box::new(While { condition: Expression::Boolean(true), body: body.clone() }),
        }),
        alternative: Box::new(DoNothing),
    };
    assert_eq!(reduced, expected);
    assert_eq!(new_env, env);

    let seq_1 = Sequence {
        first: Box::new(DoNothing),
        second: Box::new(Assign { name: "x".to_string(), expression: Expression::Number(1) }),
    };
    let mut env = Expression::new_env();
    let (reduced, new_env) = seq_1.reduce(&mut env);
    let expected = DoNothing;
    env.insert("x".to_string(), Expression::Number(1));
    assert_eq!(reduced, expected);
    assert_eq!(new_env, env);
}

#[test]
fn statement_test_evaluate() {
    let mut env = Expression::new_env();
    let assign = Assign { name: "x".to_string(), expression: Expression::Number(11) };
    let mut expected = Expression::new_env();
    expected.insert("x".to_string(), Expression::Number(11));
    assert_eq!(DoNothing.evaluate(&mut env), env);
    assert_eq!(assign.evaluate(&mut env), expected);

    let if_s = If {
        condition: Expression::Boolean(true),
        consequence: Box::new(Assign {
            name: "x".to_string(),
            expression: Expression::Number(999),
        }),
        alternative: Box::new(DoNothing),
    };
    let mut expected = Expression::new_env();
    expected.insert("x".to_string(), Expression::Number(999));
    assert_eq!(if_s.evaluate(&mut env), expected);

    let while_s = While {
        condition: Expression::Boolean(false),
        body: Box::new(Assign { name: "x".to_string(), expression: Expression::Number(1) }),
    };
    assert_eq!(while_s.evaluate(&mut env), env);

    let seq = Sequence {
        first: Box::new(Assign { name: "x".to_string(), expression: Expression::Number(1) }),
        second: Box::new(Assign { name: "x".to_string(), expression: Expression::Number(999) }),
    };
    let mut expected = Expression::new_env();
    expected.insert("x".to_string(), Expression::Number(999));
    assert_eq!(seq.evaluate(&mut env), expected);
}

#[test]
fn test_machine() {
    let mut m = Machine {
        statement: Sequence {
            first: Box::new(Assign { name: "x".to_string(), expression: Expression::Number(1) }),
            second: Box::new(Assign { name: "y".to_string(), expression: Expression::Number(2) }),
        },
        environment: Expression::new_env(),
    };
    m.run();
    let mut new_env = Expression::new_env();
    new_env.insert("x".to_string(), Expression::Number(1));
    new_env.insert("y".to_string(), Expression::Number(2));
    let expected = Machine { statement: DoNothing, environment: new_env };
    assert_eq!(m, expected);
}

#[test]
fn sequence_leaves_behind_what_its_first_part_left() {
    let mut env = Expression::new_env();
    let seq = Sequence {
        first: Box::new(Assign { name: "x".to_string(), expression: Expression::Number(1) }),
        second: Box::new(Assign { name: "y".to_string(), expression: Expression::Number(2) }),
    };
    let result = seq.evaluate(&mut env);
    let mut first_only = Expression::new_env();
    first_only.insert("x".to_string(), Expression::Number(1));
    let mut both = Expression::new_env();
    both.insert("x".to_string(), Expression::Number(1));
    both.insert("y".to_string(), Expression::Number(2));
    assert_eq!(env, first_only);
    assert_eq!(result, both);
}

#[test]
fn loop_runs_until_its_condition_fails() {
    // x = 1; while (x < 5) { x = x * 3 }
    let program = Sequence {
        first: Box::new(Assign { name: "x".to_string(), expression: Expression::Number(1) }),
        second: Box::new(While {
            condition: Expression::LessThan {
                left: Box::new(Expression::new_var("x")),
                right: Box::new(Expression::Number(5)),
            },
            body: Box::new(Assign {
                name: "x".to_string(),
                expression: Expression::Multiply {
                    left: Box::new(Expression::new_var("x")),
                    right: Box::new(Expression::Number(3)),
                },
            }),
        }),
    };
    let mut expected = Expression::new_env();
    expected.insert("x".to_string(), Expression::Number(9));
    let mut m = Machine { statement: program.clone(), environment: Expression::new_env() };
    m.run();
    assert_eq!(m.environment, expected);
    let big = Machine { statement: program, environment: Expression::new_env() };
    assert_eq!(big.evaluate(), expected);
}
