//! Programs of the small imperative language.

use vstd::prelude::*;
use crate::expression::{reduced, Bindings, Expression, Term, term_of};
use crate::runs::{
    assignment_halts, conditional_goes_on, halts_with, loop_unrolls, sequence_goes_on,
    term_run_for,
};
use crate::statement::{halts, halts_in, halts_once, stmt_of, Machine, Statement, Stmt};

verus! {

/// The Fibonacci numbers: 0, 1, 1, 2, 3, 5, ...
pub open spec fn fib(k: nat) -> nat
    decreases k,
{
    if k == 0 {
        0
    } else if k == 1 {
        1
    } else {
        fib((k - 1) as nat) + fib((k - 2) as nat)
    }
}

/// The variable called `name`.
pub open spec fn variable(name: Seq<char>) -> Term {
    Term::Variable(name)
}

/// The sum of `l` and `r`.
pub open spec fn sum(l: Term, r: Term) -> Term {
    Term::Add(Box::new(l), Box::new(r))
}

/// The sequence of `first` and `second`.
pub open spec fn then(first: Stmt, second: Stmt) -> Stmt {
    Stmt::Sequence(Box::new(first), Box::new(second))
}

/// The condition of the loop: `count < n`.
pub open spec fn fib_condition(n: int) -> Term {
    Term::LessThan(Box::new(variable("count"@)), Box::new(Term::Number(n)))
}

/// The body of the loop: `tmp = b; b = a + b; a = tmp; count = count + 1`.
pub open spec fn fib_body() -> Stmt {
    then(
        then(
            Stmt::Assign("tmp"@, variable("b"@)),
            Stmt::Assign("b"@, sum(variable("a"@), variable("b"@))),
        ),
        then(
            Stmt::Assign("a"@, variable("tmp"@)),
            Stmt::Assign("count"@, sum(variable("count"@), Term::Number(1))),
        ),
    )
}

/// The loop: `while count < n { .. }`.
pub open spec fn fib_loop(n: int) -> Stmt {
    Stmt::While(fib_condition(n), Box::new(fib_body()))
}

/// The first statements: `a = 0; b = 1; count = 0`.
pub open spec fn fib_start() -> Stmt {
    then(
        then(Stmt::Assign("a"@, Term::Number(0)), Stmt::Assign("b"@, Term::Number(1))),
        Stmt::Assign("count"@, Term::Number(0)),
    )
}

/// The program that leaves a Fibonacci number in `b`.
pub open spec fn fib_program(n: int) -> Stmt {
    then(fib_start(), fib_loop(n))
}

/// Whether the bindings are those of the loop after `c` rounds.
pub open spec fn fib_state(env: Bindings, c: nat) -> bool {
    &&& env.dom().contains("a"@)
    &&& env.dom().contains("b"@)
    &&& env.dom().contains("count"@)
    &&& env["a"@] == Term::Number(fib(c) as int)
    &&& env["b"@] == Term::Number(fib(c + 1) as int)
    &&& env["count"@] == Term::Number(c as int)
}

/// The four names of the program are four names.
proof fn names_differ()
    ensures
        "a"@ != "b"@,
        "a"@ != "count"@,
        "a"@ != "tmp"@,
        "b"@ != "count"@,
        "b"@ != "tmp"@,
        "count"@ != "tmp"@,
{
    reveal_strlit("a");
    reveal_strlit("b");
    reveal_strlit("count");
    reveal_strlit("tmp");
    assert("a"@[0] != "b"@[0]);
    assert("a"@.len() != "count"@.len());
    assert("a"@.len() != "tmp"@.len());
    assert("b"@.len() != "count"@.len());
    assert("b"@.len() != "tmp"@.len());
    assert("count"@.len() != "tmp"@.len());
}

/// The Fibonacci numbers grow.
pub proof fn fib_grows(j: nat, k: nat)
    requires
        j <= k,
    ensures
        fib(j) <= fib(k),
    decreases k,
{
    if j < k {
        if k >= 2 {
            fib_grows(j, (k - 1) as nat);
        }
    }
}

/// The forty-sixth Fibonacci number is the last that fits in 32 bits.
pub proof fn fib_fits()
    ensures
        fib(46) == 1836311903,
{
    reveal_with_fuel(fib, 7);
    assert(fib(5) == 5 && fib(6) == 8);
    assert(fib(10) == 55 && fib(11) == 89);
    assert(fib(15) == 610 && fib(16) == 987);
    assert(fib(20) == 6765 && fib(21) == 10946);
    assert(fib(25) == 75025 && fib(26) == 121393);
    assert(fib(30) == 832040 && fib(31) == 1346269);
    assert(fib(35) == 9227465 && fib(36) == 14930352);
    assert(fib(40) == 102334155 && fib(41) == 165580141);
    assert(fib(45) == 1134903170 && fib(46) == 1836311903);
}

/// One round of the loop body.
proof fn body_halts(env: Bindings, c: nat) -> (after: Bindings)
    requires
        fib_state(env, c),
        c <= 44,
    ensures
        halts_with(fib_body(), env, 11, after),
        fib_state(after, c + 1),
{
    names_differ();
    fib_fits();
    fib_grows(c + 2, 46);
    reveal_with_fuel(reduced, 3);
    let a = fib(c) as int;
    let b = fib(c + 1) as int;
    // tmp = b
    let e1 = env.insert("tmp"@, Term::Number(b));
    assert(term_run_for(variable("b"@), env, 1) == Some(Term::Number(b))) by {
        reveal_with_fuel(term_run_for, 2);
    }
    assignment_halts("tmp"@, variable("b"@), env, 1);
    // b = a + b
    let e2 = e1.insert("b"@, Term::Number(a + b));
    let add0 = sum(variable("a"@), variable("b"@));
    let add1 = sum(Term::Number(a), variable("b"@));
    let add2 = sum(Term::Number(a), Term::Number(b));
    assert(reduced(add0, e1) == Some(add1));
    assert(reduced(add1, e1) == Some(add2));
    assert(reduced(add2, e1) == Some(Term::Number(a + b)));
    assert(term_run_for(add0, e1, 3) == Some(Term::Number(a + b))) by {
        reveal_with_fuel(term_run_for, 4);
    }
    assignment_halts("b"@, add0, e1, 3);
    let first = then(Stmt::Assign("tmp"@, variable("b"@)), Stmt::Assign("b"@, add0));
    sequence_goes_on(
        Stmt::Assign("tmp"@, variable("b"@)),
        Stmt::Assign("b"@, add0),
        env,
        2,
        e1,
        4,
    );
    assert(halts_with(first, env, 6, e2));
    // a = tmp
    let e3 = e2.insert("a"@, Term::Number(b));
    assert(term_run_for(variable("tmp"@), e2, 1) == Some(Term::Number(b))) by {
        reveal_with_fuel(term_run_for, 2);
    }
    assignment_halts("a"@, variable("tmp"@), e2, 1);
    // count = count + 1
    let e4 = e3.insert("count"@, Term::Number(c as int + 1));
    let inc0 = sum(variable("count"@), Term::Number(1));
    let inc1 = sum(Term::Number(c as int), Term::Number(1));
    assert(reduced(inc0, e3) == Some(inc1));
    assert(reduced(inc1, e3) == Some(Term::Number(c as int + 1)));
    assert(term_run_for(inc0, e3, 2) == Some(Term::Number(c as int + 1))) by {
        reveal_with_fuel(term_run_for, 3);
    }
    assignment_halts("count"@, inc0, e3, 2);
    let second = then(Stmt::Assign("a"@, variable("tmp"@)), Stmt::Assign("count"@, inc0));
    sequence_goes_on(
        Stmt::Assign("a"@, variable("tmp"@)),
        Stmt::Assign("count"@, inc0),
        e2,
        2,
        e3,
        3,
    );
    assert(halts_with(second, e2, 5, e4));
    sequence_goes_on(first, second, env, 6, e2, 5);
    e4
}

/// The loop halts, and leaves in `b` the Fibonacci number after the one
/// of the last round.
proof fn loop_halts(n: int, env: Bindings, c: nat) -> (run: (nat, Bindings))
    requires
        n <= 45,
        fib_state(env, c),
        c <= n || c == 0,
    ensures
        run.0 > 0,
        halts_with(fib_loop(n), env, run.0, run.1),
        fib_state(
            run.1,
            if c < n {
                n as nat
            } else {
                c
            },
        ),
    decreases n - c,
{
    let condition = fib_condition(n);
    let compared = Term::LessThan(Box::new(Term::Number(c as int)), Box::new(Term::Number(n)));
    let again = then(fib_body(), fib_loop(n));
    reveal_with_fuel(reduced, 3);
    assert(reduced(condition, env) == Some(compared));
    assert(reduced(compared, env) == Some(Term::Boolean(c < n)));
    assert(term_run_for(condition, env, 2) == Some(Term::Boolean(c < n))) by {
        reveal_with_fuel(term_run_for, 3);
    }
    if c < n {
        let after = body_halts(env, c);
        let rest = loop_halts(n, after, c + 1);
        sequence_goes_on(fib_body(), fib_loop(n), env, 11, after, rest.0);
        conditional_goes_on(condition, again, Stmt::DoNothing, env, 2, 11 + rest.0);
        loop_unrolls(condition, fib_body(), env, 3 + 11 + rest.0);
        assert(1 + (3 + 11 + rest.0) == 15 + rest.0);
        assert(2 + 1 + (11 + rest.0) == 3 + 11 + rest.0);
        (15 + rest.0, rest.1)
    } else {
        conditional_goes_on(condition, again, Stmt::DoNothing, env, 2, 0);
        loop_unrolls(condition, fib_body(), env, 3);
        assert(2 + 1 + 0 == 3);
        assert(1 + 3 == 4);
        (4, env)
    }
}

/// The program halts, and leaves in `b` the Fibonacci number after the
/// `n`th.
proof fn program_halts(n: int) -> (run: (nat, Bindings))
    requires
        n <= 45,
    ensures
        halts_with(fib_program(n), Bindings::empty(), run.0, run.1),
        fib_state(
            run.1,
            if 0 < n {
                n as nat
            } else {
                0
            },
        ),
{
    names_differ();
    let e0 = Bindings::empty();
    let e1 = e0.insert("a"@, Term::Number(0));
    let e2 = e1.insert("b"@, Term::Number(1));
    let e3 = e2.insert("count"@, Term::Number(0));
    let a1 = Stmt::Assign("a"@, Term::Number(0));
    let a2 = Stmt::Assign("b"@, Term::Number(1));
    let a3 = Stmt::Assign("count"@, Term::Number(0));
    assignment_halts("a"@, Term::Number(0), e0, 0);
    assignment_halts("b"@, Term::Number(1), e1, 0);
    assignment_halts("count"@, Term::Number(0), e2, 0);
    sequence_goes_on(a1, a2, e0, 1, e1, 1);
    assert(halts_with(then(a1, a2), e0, 2, e2));
    sequence_goes_on(then(a1, a2), a3, e0, 2, e2, 1);
    assert(halts_with(fib_start(), e0, 3, e3));
    assert(fib_state(e3, 0));
    let rest = loop_halts(n, e3, 0);
    sequence_goes_on(fib_start(), fib_loop(n), e0, 3, e3, rest.0);
    (3 + rest.0, rest.1)
}

/// The Fibonacci number after the `n`th, computed by running a program
/// of the small language: `a = 0; b = 1; count = 0; while count < n
/// { tmp = b; b = a + b; a = tmp; count = count + 1 }`, then `b`.
pub fn fibonacci_n(n: i32) -> (r: i32)
    requires
        n <= 45,
    ensures
        r == fib(
            if 0 < n {
                (n + 1) as nat
            } else {
                1
            },
        ),
{
    let a = Statement::new_assign("a", Expression::Number(0));
    let b = Statement::new_assign("b", Expression::Number(1));
    let count = Statement::new_assign("count", Expression::Number(0));
    let assigns = Statement::Sequence {
        first: Box::new(Statement::Sequence { first: Box::new(a), second: Box::new(b) }),
        second: Box::new(count),
    };
    let body = Statement::Sequence {
        first: Box::new(
            Statement::Sequence {
                first: Box::new(Statement::new_assign("tmp", Expression::new_var("b"))),
                second: Box::new(
                    Statement::new_assign(
                        "b",
                        Expression::Add {
                            left: Box::new(Expression::new_var("a")),
                            right: Box::new(Expression::new_var("b")),
                        },
                    ),
                ),
            },
        ),
        second: Box::new(
            Statement::Sequence {
                first: Box::new(Statement::new_assign("a", Expression::new_var("tmp"))),
                second: Box::new(
                    Statement::new_assign(
                        "count",
                        Expression::Add {
                            left: Box::new(Expression::new_var("count")),
                            right: Box::new(Expression::Number(1)),
                        },
                    ),
                ),
            },
        ),
    };
    let while_s = Statement::While {
        condition: Expression::LessThan {
            left: Box::new(Expression::new_var("count")),
            right: Box::new(Expression::Number(n)),
        },
        body: Box::new(body),
    };
    let s = Statement::Sequence { first: Box::new(assigns), second: Box::new(while_s) };
    let mut m = Machine { statement: s, environment: Expression::new_env() };
    proof {
        reveal_with_fuel(stmt_of, 6);
        reveal_with_fuel(term_of, 3);
        assert(m.statement@ == fib_program(n as int));
        let run = program_halts(n as int);
        assert(halts_in(m.statement@, m.environment@, run.0));
        let chosen = choose|k: nat| #[trigger] halts_in(m.statement@, m.environment@, k);
        halts_once(m.statement@, m.environment@, chosen, run.0);
    }
    m.run();
    let name = String::from_str("b");
    m.environment.get(&name).unwrap().get_number().unwrap()
}

} // verus!
