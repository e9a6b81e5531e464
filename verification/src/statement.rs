//! Statements of a small imperative language, and the machine that runs
//! them: one reduction at a time, or in one go.

use vstd::prelude::*;
use crate::expression::{
    reduced, reducible, term_text, value, Bindings, Environment, Expression, Term,
};

verus! {

/// A statement.
#[derive(Debug, PartialEq)]
pub enum Statement {
    DoNothing,
    Assign { name: String, expression: Expression },
    If { condition: Expression, consequence: Box<Statement>, alternative: Box<Statement> },
    While { condition: Expression, body: Box<Statement> },
    Sequence { first: Box<Statement>, second: Box<Statement> },
}

/// The mathematical content of a statement.
pub enum Stmt {
    DoNothing,
    Assign(Seq<char>, Term),
    If(Term, Box<Stmt>, Box<Stmt>),
    While(Term, Box<Stmt>),
    Sequence(Box<Stmt>, Box<Stmt>),
}

/// The mathematical content of `s`.
pub open spec fn stmt_of(s: Statement) -> Stmt
    decreases s,
{
    match s {
        Statement::DoNothing => Stmt::DoNothing,
        Statement::Assign { name, expression } => Stmt::Assign(name@, expression@),
        Statement::If { condition, consequence, alternative } => Stmt::If(
            condition@,
            Box::new(stmt_of(*consequence)),
            Box::new(stmt_of(*alternative)),
        ),
        Statement::While { condition, body } => Stmt::While(condition@, Box::new(stmt_of(*body))),
        Statement::Sequence { first, second } => Stmt::Sequence(
            Box::new(stmt_of(*first)),
            Box::new(stmt_of(*second)),
        ),
    }
}

impl View for Statement {
    type V = Stmt;

    open spec fn view(&self) -> Stmt {
        stmt_of(*self)
    }
}

/// The size of a statement: the number of its parts.
pub open spec fn weight(s: Stmt) -> nat
    decreases s,
{
    match s {
        Stmt::If(_, a, b) => 1 + weight(*a) + weight(*b),
        Stmt::While(_, body) => 1 + weight(*body),
        Stmt::Sequence(first, second) => 1 + weight(*first) + weight(*second),
        _ => 1,
    }
}

/// The printed form of a statement.
pub open spec fn stmt_text(s: Stmt) -> Seq<char>
    decreases s,
{
    match s {
        Stmt::DoNothing => "do-nothing"@,
        Stmt::Assign(name, e) => name + " = "@ + term_text(e),
        Stmt::If(c, a, b) => "If "@ + term_text(c) + " { "@ + stmt_text(*a) + " } else { "@
            + stmt_text(*b) + " }"@,
        Stmt::While(c, body) => "While { "@ + term_text(c) + " } { "@ + stmt_text(*body) + " }"@,
        Stmt::Sequence(first, second) => stmt_text(*first) + "; "@ + stmt_text(*second),
    }
}

/// The statement that a loop becomes: if the condition holds, the body
/// and then the loop again.
pub open spec fn unrolled(c: Term, body: Stmt) -> Stmt {
    Stmt::If(
        c,
        Box::new(Stmt::Sequence(Box::new(body), Box::new(Stmt::While(c, Box::new(body))))),
        Box::new(Stmt::DoNothing),
    )
}

/// One reduction of a statement, with the bindings after it.
///
/// - An assignment reduces its expression; once that is a value, it binds
///   the name and becomes the statement that does nothing.
/// - A conditional reduces its condition; once that is a truth value, it
///   becomes the branch chosen.
/// - A loop becomes a conditional on its condition.
/// - A sequence reduces its first part; once that does nothing, it
///   reduces its second part.
///
/// There is none for the statement that does nothing, and none where the
/// expression has no reduction or the condition is no truth value.
pub open spec fn stmt_reduced(s: Stmt, env: Bindings) -> Option<(Stmt, Bindings)>
    decreases s,
{
    match s {
        Stmt::DoNothing => None,
        Stmt::Assign(name, e) => if reducible(e) {
            match reduced(e, env) {
                Some(next) => Some((Stmt::Assign(name, next), env)),
                None => None,
            }
        } else {
            Some((Stmt::DoNothing, env.insert(name, e)))
        },
        Stmt::If(c, a, b) => if reducible(c) {
            match reduced(c, env) {
                Some(next) => Some((Stmt::If(next, a, b), env)),
                None => None,
            }
        } else {
            match c {
                Term::Boolean(true) => Some((*a, env)),
                Term::Boolean(false) => Some((*b, env)),
                _ => None,
            }
        },
        Stmt::While(c, body) => Some((unrolled(c, *body), env)),
        Stmt::Sequence(first, second) => match *first {
            Stmt::DoNothing => stmt_reduced(*second, env),
            _ => match stmt_reduced(*first, env) {
                Some((next, after)) => Some((Stmt::Sequence(Box::new(next), second), after)),
                None => None,
            },
        },
    }
}

/// What evaluating a statement yields, and the bindings that it leaves
/// behind in the place it was given.
pub struct Outcome {
    pub result: Bindings,
    pub left: Bindings,
}

/// The outcome of evaluating a statement in the bindings `env`, where no
/// loop is entered more than `fuel` times in a row; none where more fuel
/// is needed, an expression has no value, or a condition is no truth
/// value.
///
/// A sequence evaluates its second part in what its first part yields,
/// and leaves behind what its first part leaves behind. A loop whose
/// condition holds evaluates itself again in what its body yields.
pub open spec fn stmt_value(s: Stmt, env: Bindings, fuel: nat) -> Option<Outcome>
    decreases fuel, s,
{
    match s {
        Stmt::DoNothing => Some(Outcome { result: env, left: env }),
        Stmt::Assign(name, e) => match value(e, env) {
            Some(v) => Some(Outcome { result: env.insert(name, v), left: env.insert(name, v) }),
            None => None,
        },
        Stmt::If(c, a, b) => match value(c, env) {
            Some(Term::Boolean(true)) => stmt_value(*a, env, fuel),
            Some(Term::Boolean(false)) => stmt_value(*b, env, fuel),
            _ => None,
        },
        Stmt::While(c, body) => match value(c, env) {
            Some(Term::Boolean(true)) => if fuel == 0 {
                None
            } else {
                match stmt_value(*body, env, (fuel - 1) as nat) {
                    Some(once) => match stmt_value(s, once.result, (fuel - 1) as nat) {
                        Some(rest) => Some(Outcome { result: rest.result, left: once.left }),
                        None => None,
                    },
                    None => None,
                }
            },
            Some(Term::Boolean(false)) => Some(Outcome { result: env, left: env }),
            _ => None,
        },
        Stmt::Sequence(first, second) => match stmt_value(*first, env, fuel) {
            Some(before) => match stmt_value(*second, before.result, fuel) {
                Some(after) => Some(Outcome { result: after.result, left: before.left }),
                None => None,
            },
            None => None,
        },
    }
}

/// More fuel does not change an outcome.
pub proof fn fuel_is_enough(s: Stmt, env: Bindings, fuel: nat, more: nat)
    requires
        stmt_value(s, env, fuel) is Some,
        fuel <= more,
    ensures
        stmt_value(s, env, more) == stmt_value(s, env, fuel),
    decreases fuel, s,
{
    match s {
        Stmt::DoNothing => {},
        Stmt::Assign(_, _) => {},
        Stmt::If(c, a, b) => {
            match value(c, env) {
                Some(Term::Boolean(true)) => fuel_is_enough(*a, env, fuel, more),
                Some(Term::Boolean(false)) => fuel_is_enough(*b, env, fuel, more),
                _ => {},
            }
        },
        Stmt::While(c, body) => {
            match value(c, env) {
                Some(Term::Boolean(true)) => {
                    let once = stmt_value(*body, env, (fuel - 1) as nat).unwrap();
                    fuel_is_enough(*body, env, (fuel - 1) as nat, (more - 1) as nat);
                    fuel_is_enough(s, once.result, (fuel - 1) as nat, (more - 1) as nat);
                },
                _ => {},
            }
        },
        Stmt::Sequence(first, second) => {
            let before = stmt_value(*first, env, fuel).unwrap();
            fuel_is_enough(*first, env, fuel, more);
            fuel_is_enough(*second, before.result, fuel, more);
        },
    }
}

/// Whether evaluating the statement `s` in `env` comes to an end and
/// meets no expression without a value.
pub open spec fn evaluates(s: Stmt, env: Bindings) -> bool {
    exists|fuel: nat| #[trigger] stmt_value(s, env, fuel) is Some
}

/// The outcome of evaluating `s` in `env`, where there is one.
pub open spec fn outcome(s: Stmt, env: Bindings) -> Outcome {
    stmt_value(s, env, choose|fuel: nat| #[trigger] stmt_value(s, env, fuel) is Some).unwrap()
}

/// The outcome is what any sufficient fuel gives.
pub proof fn outcome_is(s: Stmt, env: Bindings, fuel: nat)
    requires
        stmt_value(s, env, fuel) is Some,
    ensures
        evaluates(s, env),
        stmt_value(s, env, fuel) == Some(outcome(s, env)),
{
    let chosen = choose|fuel: nat| #[trigger] stmt_value(s, env, fuel) is Some;
    if chosen <= fuel {
        fuel_is_enough(s, env, chosen, fuel);
    } else {
        fuel_is_enough(s, env, fuel, chosen);
    }
}

/// The statement and bindings after `n` reductions; none where a
/// reduction is missing on the way.
pub open spec fn run_for(s: Stmt, env: Bindings, n: nat) -> Option<(Stmt, Bindings)>
    decreases n,
{
    if n == 0 {
        Some((s, env))
    } else {
        match stmt_reduced(s, env) {
            Some((next, after)) => run_for(next, after, (n - 1) as nat),
            None => None,
        }
    }
}

/// Whether `n` reductions lead to the statement that does nothing.
pub open spec fn halts_in(s: Stmt, env: Bindings, n: nat) -> bool {
    run_for(s, env, n) matches Some((last, _)) && last == Stmt::DoNothing
}

/// Whether reducing the statement again and again comes to the statement
/// that does nothing.
pub open spec fn halts(s: Stmt, env: Bindings) -> bool {
    exists|n: nat| #[trigger] halts_in(s, env, n)
}

/// The bindings with which the run of `s` from `env` ends.
pub open spec fn final_bindings(s: Stmt, env: Bindings) -> Bindings {
    run_for(s, env, choose|n: nat| #[trigger] halts_in(s, env, n)).unwrap().1
}

/// The number of reductions of a run that halts is determined.
pub proof fn halts_once(s: Stmt, env: Bindings, n: nat, m: nat)
    requires
        halts_in(s, env, n),
        halts_in(s, env, m),
    ensures
        n == m,
    decreases n,
{
    if n == 0 {
        if m > 0 {
            assert(stmt_reduced(Stmt::DoNothing, env) is None);
        }
    } else {
        if m == 0 {
            assert(stmt_reduced(Stmt::DoNothing, env) is None);
        } else {
            let (next, after) = stmt_reduced(s, env).unwrap();
            halts_once(next, after, (n - 1) as nat, (m - 1) as nat);
        }
    }
}

impl Clone for Statement {
    fn clone(&self) -> (copy: Self)
        ensures
            copy@ == self@,
    {
        self.duplicate()
    }
}

impl Statement {
    /// A copy of the statement.
    pub fn duplicate(&self) -> (copy: Self)
        ensures
            copy@ == self@,
        decreases self,
    {
        match self {
            Statement::DoNothing => Statement::DoNothing,
            Statement::Assign { name, expression } => Statement::Assign {
                name: name.clone(),
                expression: expression.duplicate(),
            },
            Statement::If { condition, consequence, alternative } => Statement::If {
                condition: condition.duplicate(),
                consequence: Box::new(consequence.duplicate()),
                alternative: Box::new(alternative.duplicate()),
            },
            Statement::While { condition, body } => Statement::While {
                condition: condition.duplicate(),
                body: Box::new(body.duplicate()),
            },
            Statement::Sequence { first, second } => Statement::Sequence {
                first: Box::new(first.duplicate()),
                second: Box::new(second.duplicate()),
            },
        }
    }

    /// The assignment of `expression` to the variable called `name`.
    pub fn new_assign(name: &str, expression: Expression) -> (s: Statement)
        ensures
            s@ == Stmt::Assign(name@, expression@),
    {
        Statement::Assign { name: String::from_str(name), expression }
    }

    /// The printed form of the statement.
    pub fn to_string(&self) -> (s: String)
        ensures
            s@ == stmt_text(self@),
        decreases self,
    {
        match self {
            Statement::DoNothing => String::from_str("do-nothing"),
            Statement::Assign { name, expression } => {
                let mut s = name.clone();
                s.append(" = ");
                let e = expression.to_string();
                s.append(e.as_str());
                s
            },
            Statement::If { condition, consequence, alternative } => {
                let mut s = String::from_str("If ");
                let c = condition.to_string();
                s.append(c.as_str());
                s.append(" { ");
                let a = consequence.to_string();
                s.append(a.as_str());
                s.append(" } else { ");
                let b = alternative.to_string();
                s.append(b.as_str());
                s.append(" }");
                s
            },
            Statement::While { condition, body } => {
                let mut s = String::from_str("While { ");
                let c = condition.to_string();
                s.append(c.as_str());
                s.append(" } { ");
                let b = body.to_string();
                s.append(b.as_str());
                s.append(" }");
                s
            },
            Statement::Sequence { first, second } => {
                let mut s = first.to_string();
                s.append("; ");
                let t = second.to_string();
                s.append(t.as_str());
                s
            },
        }
    }

    /// Whether the statement can be reduced: it is not the one that does
    /// nothing.
    pub fn reducible(&self) -> (b: bool)
        ensures
            b == !(self@ is DoNothing),
    {
        match self {
            Statement::DoNothing => false,
            _ => true,
        }
    }

    /// One reduction of the statement. The bindings after it are the
    /// result, and they are in `env` too.
    pub fn reduce(self, env: &mut Environment) -> (next: (Statement, Environment))
        requires
            stmt_reduced(self@, old(env)@) is Some,
        ensures
            Some((next.0@, next.1@)) == stmt_reduced(self@, old(env)@),
            final(env)@ == next.1@,
        decreases weight(self@),
    {
        match self {
            Statement::DoNothing => (Statement::DoNothing, env.duplicate()),
            Statement::Assign { name, expression } => reduce_assign(name, expression, env),
            Statement::If { condition, consequence, alternative } => reduce_if(
                condition,
                *consequence,
                *alternative,
                env,
            ),
            Statement::While { condition, body } => reduce_while(condition, *body, env),
            Statement::Sequence { first, second } => reduce_sequence(*first, *second, env),
        }
    }

    /// Evaluates the statement in one go. The result is the bindings that
    /// it yields; `env` is left as the first part of the statement left
    /// it.
    pub fn evaluate(self, env: &mut Environment) -> (result: Environment)
        requires
            evaluates(self@, old(env)@),
        ensures
            result@ == outcome(self@, old(env)@).result,
            final(env)@ == outcome(self@, old(env)@).left,
    {
        let ghost fuel = choose|fuel: nat| #[trigger] stmt_value(self@, env@, fuel) is Some;
        self.evaluate_within(env, Ghost(fuel))
    }

    /// Evaluates the statement, which needs no more than `fuel`.
    fn evaluate_within(self, env: &mut Environment, Ghost(fuel): Ghost<nat>) -> (result:
        Environment)
        requires
            stmt_value(self@, old(env)@, fuel) is Some,
        ensures
            result@ == outcome(self@, old(env)@).result,
            final(env)@ == outcome(self@, old(env)@).left,
        decreases fuel, weight(self@),
    {
        proof {
            outcome_is(self@, env@, fuel);
        }
        match self {
            Statement::DoNothing => env.duplicate(),
            Statement::Assign { name, expression } => {
                let v = expression.evaluate(env);
                env.insert(name, v);
                env.duplicate()
            },
            Statement::If { condition, consequence, alternative } => {
                proof {
                    if value(condition@, env@) == Some(Term::Boolean(true)) {
                        outcome_is(consequence@, env@, fuel);
                    } else {
                        outcome_is(alternative@, env@, fuel);
                    }
                }
                match condition.evaluate(env) {
                    Expression::Boolean(true) => consequence.evaluate_within(env, Ghost(fuel)),
                    _ => alternative.evaluate_within(env, Ghost(fuel)),
                }
            },
            Statement::While { condition, body } => evaluate_while(
                condition,
                *body,
                env,
                Ghost(fuel),
            ),
            Statement::Sequence { first, second } => {
                let ghost before = stmt_value(first@, env@, fuel).unwrap();
                let mut between = first.evaluate_within(env, Ghost(fuel));
                proof {
                    outcome_is(first@, old(env)@, fuel);
                }
                let result = second.evaluate_within(&mut between, Ghost(fuel));
                proof {
                    outcome_is(second@, before.result, fuel);
                }
                result
            },
        }
    }
}

/// One reduction of the assignment of `exp` to `name`.
pub fn reduce_assign(name: String, exp: Expression, env: &mut Environment) -> (next: (
    Statement,
    Environment,
))
    requires
        stmt_reduced(Stmt::Assign(name@, exp@), old(env)@) is Some,
    ensures
        Some((next.0@, next.1@)) == stmt_reduced(Stmt::Assign(name@, exp@), old(env)@),
        final(env)@ == next.1@,
{
    if exp.reducible() {
        let a = Statement::Assign { name, expression: exp.reduce(env) };
        (a, env.duplicate())
    } else {
        env.insert(name, exp);
        (Statement::DoNothing, env.duplicate())
    }
}

/// One reduction of the conditional on `cond`.
pub fn reduce_if(cond: Expression, cons: Statement, alt: Statement, env: &mut Environment) -> (next:
    (Statement, Environment))
    requires
        stmt_reduced(Stmt::If(cond@, Box::new(cons@), Box::new(alt@)), old(env)@) is Some,
    ensures
        Some((next.0@, next.1@)) == stmt_reduced(
            Stmt::If(cond@, Box::new(cons@), Box::new(alt@)),
            old(env)@,
        ),
        final(env)@ == next.1@,
{
    if cond.reducible() {
        let if_s = Statement::If {
            condition: cond.reduce(env),
            consequence: Box::new(cons),
            alternative: Box::new(alt),
        };
        (if_s, env.duplicate())
    } else {
        match cond {
            Expression::Boolean(true) => (cons, env.duplicate()),
            _ => (alt, env.duplicate()),
        }
    }
}

/// One reduction of the loop on `cond`.
pub fn reduce_while(cond: Expression, body: Statement, env: &mut Environment) -> (next: (
    Statement,
    Environment,
))
    ensures
        Some((next.0@, next.1@)) == stmt_reduced(Stmt::While(cond@, Box::new(body@)), old(env)@),
        final(env)@ == next.1@,
{
    let cons = Statement::Sequence {
        first: Box::new(body.duplicate()),
        second: Box::new(
            Statement::While { condition: cond.duplicate(), body: Box::new(body) },
        ),
    };
    let if_s = Statement::If {
        condition: cond,
        consequence: Box::new(cons),
        alternative: Box::new(Statement::DoNothing),
    };
    proof {
        reveal_with_fuel(stmt_of, 3);
    }
    (if_s, env.duplicate())
}

/// One reduction of the sequence of `f` and `s`.
pub fn reduce_sequence(f: Statement, s: Statement, env: &mut Environment) -> (next: (
    Statement,
    Environment,
))
    requires
        stmt_reduced(Stmt::Sequence(Box::new(f@), Box::new(s@)), old(env)@) is Some,
    ensures
        Some((next.0@, next.1@)) == stmt_reduced(
            Stmt::Sequence(Box::new(f@), Box::new(s@)),
            old(env)@,
        ),
        final(env)@ == next.1@,
    decreases weight(f@) + weight(s@),
{
    match f {
        Statement::DoNothing => s.reduce(env),
        _ => {
            let (new_f, new_env) = f.reduce(env);
            (Statement::Sequence { first: Box::new(new_f), second: Box::new(s) }, new_env)
        },
    }
}

/// Evaluates the loop on `cond`, which needs no more than `fuel`.
fn evaluate_while(
    cond: Expression,
    body: Statement,
    env: &mut Environment,
    Ghost(fuel): Ghost<nat>,
) -> (result: Environment)
    requires
        stmt_value(Stmt::While(cond@, Box::new(body@)), old(env)@, fuel) is Some,
    ensures
        result@ == outcome(Stmt::While(cond@, Box::new(body@)), old(env)@).result,
        final(env)@ == outcome(Stmt::While(cond@, Box::new(body@)), old(env)@).left,
    decreases fuel, weight(body@),
{
    let ghost s = Stmt::While(cond@, Box::new(body@));
    proof {
        outcome_is(s, env@, fuel);
    }
    match cond.duplicate().evaluate(env) {
        Expression::Boolean(true) => {
            let ghost once = stmt_value(body@, env@, (fuel - 1) as nat).unwrap();
            let while_s = Statement::While {
                condition: cond.duplicate(),
                body: Box::new(body.duplicate()),
            };
            let mut between = body.evaluate_within(env, Ghost((fuel - 1) as nat));
            proof {
                outcome_is(body@, old(env)@, (fuel - 1) as nat);
            }
            let result = while_s.evaluate_within(&mut between, Ghost((fuel - 1) as nat));
            proof {
                outcome_is(s, once.result, (fuel - 1) as nat);
            }
            result
        },
        _ => env.duplicate(),
    }
}

/// A machine that runs a statement.
#[derive(Debug, PartialEq)]
pub struct Machine {
    pub statement: Statement,
    pub environment: Environment,
}

impl Machine {
    /// One reduction of the statement.
    pub fn step(&mut self)
        requires
            stmt_reduced(old(self).statement@, old(self).environment@) is Some,
        ensures
            Some((final(self).statement@, final(self).environment@)) == stmt_reduced(
                old(self).statement@,
                old(self).environment@,
            ),
    {
        let mut st = Statement::DoNothing;
        std::mem::swap(&mut st, &mut self.statement);
        let (statement, environment) = st.reduce(&mut self.environment);
        self.statement = statement;
        self.environment = environment;
    }

    /// Reduces the statement until it does nothing.
    pub fn run(&mut self)
        requires
            halts(old(self).statement@, old(self).environment@),
        ensures
            final(self).statement@ == Stmt::DoNothing,
            final(self).environment@ == final_bindings(
                old(self).statement@,
                old(self).environment@,
            ),
    {
        let ghost total = choose|n: nat|
            #[trigger] halts_in(old(self).statement@, old(self).environment@, n);
        let ghost mut left = total;
        while self.statement.reducible()
            invariant
                halts_in(old(self).statement@, old(self).environment@, total),
                halts_in(self.statement@, self.environment@, left),
                run_for(self.statement@, self.environment@, left) == run_for(
                    old(self).statement@,
                    old(self).environment@,
                    total,
                ),
            decreases left,
        {
            self.step();
            proof {
                left = (left - 1) as nat;
            }
        }
        proof {
            halts_once(self.statement@, self.environment@, left, 0);
        }
    }

    /// Evaluates the statement in one go.
    pub fn evaluate(self) -> (result: Environment)
        requires
            evaluates(self.statement@, self.environment@),
        ensures
            result@ == outcome(self.statement@, self.environment@).result,
    {
        let mut env = self.environment.duplicate();
        self.statement.evaluate(&mut env)
    }
}

} // verus!
