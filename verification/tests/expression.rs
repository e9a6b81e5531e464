use regex_engine::expression::Expression::{Add, Boolean, LessThan, Multiply, Number, Variable};
use regex_engine::expression::{
    reduce_add, reduce_lessthan, reduce_multiply, reduce_variable, Environment, Expression,
};

#[test]
fn test_reduce_add() {
    let env: Environment = Environment::new();
    let a = Expression::new_add(1, 2);
    let b = Number(11);
    assert_eq!(
        reduce_add(a.clone(), b.clone(), &env),
        Add { left: Box::new(Number(3)), right: Box::new(Number(11)) }
    );
    assert_eq!(reduce_add(a.clone(), b.clone(), &env), Expression::new_add(3, 11));
    assert_eq!(reduce_add(b.clone(), a.clone(), &env), Expression::new_add(11, 3));
}

#[test]
fn test_reduce_multiply() {
    let env: Environment = Environment::new();
    let a = Expression::new_multiply(2, 3);
    let b = Number(11);
    assert_eq!(reduce_multiply(a.clone(), b.clone(), &env), Expression::new_multiply(6, 11));
    assert_eq!(reduce_multiply(b.clone(), a.clone(), &env), Expression::new_multiply(11, 6));
}

#[test]
fn test_reduce_lessthan() {
    let env: Environment = Environment::new();
    let a = Number(3);
    let b = Number(5);
    assert_eq!(reduce_lessthan(a.clone(), b.clone(), &env), Boolean(true));
    assert_eq!(reduce_lessthan(b.clone(), a.clone(), &env), Boolean(false));
}

#[test]
fn test_reduce_variable() {
    let mut env: Environment = Environment::new();
    env.insert("x".to_string(), Number(10));
    let expected = Number(10);
    assert_eq!(reduce_variable("x".to_string(), &env), expected);
}

#[test]
fn expression_test_reduce() {
    let mut env: Environment = Environment::new();
    let a = Add { left: Box::new(Number(10)), right: Box::new(Number(20)) };
    assert_eq!(a.reduce(&env), Number(30));

    let m = Multiply { left: Box::new(Number(3)), right: Box::new(Number(4)) };
    assert_eq!(m.reduce(&env), Number(12));

    let lt = LessThan { left: Box::new(Number(5)), right: Box::new(Number(3)) };
    assert_eq!(lt.reduce(&env), Boolean(false));

    let v = Variable("x".to_string());
    env.insert("x".to_string(), Number(10));
    assert_eq!(v.reduce(&env), Number(10));
}

#[test]
fn expression_test_to_string() {
    let n = Number(43);
    let b = Boolean(true);
    let a = Expression::new_add(3, 4);
    let m = Expression::new_multiply(3, 4);
    let lt = LessThan { left: Box::new(Number(3)), right: Box::new(Number(4)) };
    assert_eq!(n.to_string(), 43.to_string());
    assert_eq!(b.to_string(), true.to_string());
    assert_eq!(a.to_string(), "3 + 4".to_string());
    assert_eq!(m.to_string(), "3 * 4".to_string());
    assert_eq!(lt.to_string(), "3 < 4".to_string());
}

#[test]
fn test_reducible() {
    let n = Number(43);
    let b = Boolean(true);
    let a = Expression::new_add(3, 4);
    let m = Expression::new_multiply(3, 4);
    let lt = LessThan { left: Box::new(Number(3)), right: Box::new(Number(4)) };
    assert!(!n.reducible());
    assert!(!b.reducible());
    assert!(a.reducible());
    assert!(m.reducible());
    assert!(lt.reducible());
}

#[test]
fn expression_test_evaluate() {
    let env = Expression::new_env();
    let n = Number(43);
    let b = Boolean(true);
    // 3 + (4 * 5)
    let a = Add {
        left: Box::new(Number(3)),
        right: Box::new(Multiply { left: Box::new(Number(4)), right: Box::new(Number(5)) }),
    };
    // 3 * (4 + 5)
    let m = Multiply {
        left: Box::new(Number(3)),
        right: Box::new(Add { left: Box::new(Number(4)), right: Box::new(Number(5)) }),
    };
    let lt = LessThan { left: Box::new(Number(3)), right: Box::new(Number(4)) };
    assert_eq!(n.evaluate(&env), Number(43));
    assert_eq!(b.evaluate(&env), Boolean(true));
    assert_eq!(a.evaluate(&env), Number(23));
    assert_eq!(m.evaluate(&env), Number(27));
    assert_eq!(lt.evaluate(&env), Boolean(true));
}

#[test]
fn numbers_print_in_decimal() {
    assert_eq!(Number(0).to_string(), "0");
    assert_eq!(Number(-7).to_string(), "-7");
    assert_eq!(Number(i32::MAX).to_string(), "2147483647");
    assert_eq!(Number(i32::MIN).to_string(), "-2147483648");
    assert_eq!(Boolean(false).to_string(), "false");
    assert_eq!(Variable("count".to_string()).to_string(), "count");
}

#[test]
fn procedures_print_as_text() {
    let lt = LessThan {
        left: Box::new(Add { left: Box::new(Expression::new_var("x")), right: Box::new(Number(1)) }),
        right: Box::new(Number(3)),
    };
    assert_eq!(
        lt.to_ruby(),
        "-> e { (-> e { (-> e { e[:x] }).call(e) + (-> e { 1 }).call(e) }).call(e) < (-> e { 3 }).call(e) }"
    );
    assert_eq!(Boolean(true).to_ruby(), "-> e { true }");
    assert_eq!(
        Expression::new_multiply(2, 3).to_ruby(),
        "-> e { (-> e { 2 }).call(e) * (-> e { 3 }).call(e) }"
    );
}

#[test]
fn getters_tell_numbers_from_truth_values() {
    assert_eq!(Number(5).get_number(), Ok(5));
    assert_eq!(Boolean(true).get_number(), Err("not a number".to_string()));
    assert_eq!(Boolean(true).get_bool(), Ok(true));
    assert_eq!(Number(5).get_bool(), Err("not a boolean".to_string()));
}

#[test]
fn environment_binds_each_name_once() {
    let mut env = Expression::new_env();
    assert!(env.get(&"x".to_string()).is_none());
    env.insert("x".to_string(), Number(1));
    env.insert("y".to_string(), Number(2));
    env.insert("x".to_string(), Number(3));
    assert_eq!(env.get(&"x".to_string()), Some(&Number(3)));
    assert_eq!(env.get(&"y".to_string()), Some(&Number(2)));
    let mut other = Expression::new_env();
    other.insert("y".to_string(), Number(2));
    other.insert("x".to_string(), Number(3));
    assert_eq!(env, other);
    other.insert("z".to_string(), Number(0));
    assert_ne!(env, other);
    assert_eq!(env.clone(), env);
}

#[test]
fn left_operand_reduces_first() {
    let env = Expression::new_env();
    let e = Add {
        left: Box::new(Expression::new_add(1, 2)),
        right: Box::new(Expression::new_add(3, 4)),
    };
    let once = e.reduce(&env);
    assert_eq!(
        once,
        Add { left: Box::new(Number(3)), right: Box::new(Expression::new_add(3, 4)) }
    );
    let twice = once.reduce(&env);
    assert_eq!(twice, Expression::new_add(3, 7));
    assert_eq!(twice.reduce(&env), Number(10));
}
