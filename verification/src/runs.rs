//! Laws of the reductions of statements: how the runs of the parts of a
//! statement make up the run of the whole.

use vstd::prelude::*;
use crate::expression::{reduced, reducible, Bindings, Term};
use crate::statement::{run_for, stmt_reduced, unrolled, Stmt};

verus! {

/// The term after `n` reductions; none where a reduction is missing on
/// the way.
pub open spec fn term_run_for(t: Term, env: Bindings, n: nat) -> Option<Term>
    decreases n,
{
    if n == 0 {
        Some(t)
    } else {
        match reduced(t, env) {
            Some(next) => term_run_for(next, env, (n - 1) as nat),
            None => None,
        }
    }
}

/// Whether `n` reductions lead from `s` to the statement that does
/// nothing, with the bindings `after`.
pub open spec fn halts_with(s: Stmt, env: Bindings, n: nat, after: Bindings) -> bool {
    run_for(s, env, n) == Some((Stmt::DoNothing, after))
}

/// A run in two legs.
pub proof fn run_in_two_legs(s: Stmt, env: Bindings, j: nat, k: nat)
    requires
        run_for(s, env, j) is Some,
    ensures
        run_for(s, env, j + k) == run_for(
            run_for(s, env, j).unwrap().0,
            run_for(s, env, j).unwrap().1,
            k,
        ),
    decreases j,
{
    if j > 0 {
        let (next, after) = stmt_reduced(s, env).unwrap();
        run_in_two_legs(next, after, (j - 1) as nat, k);
    }
}

/// The first part of a sequence runs inside the sequence as it runs
/// alone.
pub proof fn run_inside_sequence(first: Stmt, second: Stmt, env: Bindings, n: nat)
    requires
        run_for(first, env, n) is Some,
    ensures
        run_for(Stmt::Sequence(Box::new(first), Box::new(second)), env, n) == Some(
            (
                Stmt::Sequence(Box::new(run_for(first, env, n).unwrap().0), Box::new(second)),
                run_for(first, env, n).unwrap().1,
            ),
        ),
    decreases n,
{
    if n > 0 {
        let (next, after) = stmt_reduced(first, env).unwrap();
        run_inside_sequence(next, second, after, (n - 1) as nat);
    }
}

/// A sequence whose first part halts goes on with its second part.
pub proof fn sequence_goes_on(
    first: Stmt,
    second: Stmt,
    env: Bindings,
    n: nat,
    between: Bindings,
    k: nat,
)
    requires
        halts_with(first, env, n, between),
        k > 0,
    ensures
        run_for(Stmt::Sequence(Box::new(first), Box::new(second)), env, n + k) == run_for(
            second,
            between,
            k,
        ),
{
    let whole = Stmt::Sequence(Box::new(first), Box::new(second));
    run_inside_sequence(first, second, env, n);
    run_in_two_legs(whole, env, n, k);
    let idle = Stmt::Sequence(Box::new(Stmt::DoNothing), Box::new(second));
    assert(stmt_reduced(idle, between) == stmt_reduced(second, between));
}

/// An assignment reduces its expression as the expression reduces alone,
/// then binds the name.
pub proof fn assignment_halts(name: Seq<char>, e: Term, env: Bindings, n: nat)
    requires
        term_run_for(e, env, n) is Some,
        !reducible(term_run_for(e, env, n).unwrap()),
    ensures
        halts_with(
            Stmt::Assign(name, e),
            env,
            n + 1,
            env.insert(name, term_run_for(e, env, n).unwrap()),
        ),
    decreases n,
{
    if n > 0 {
        let next = reduced(e, env).unwrap();
        assignment_halts(name, next, env, (n - 1) as nat);
    } else {
        assert(run_for(Stmt::DoNothing, env.insert(name, e), 0) == Some(
            (Stmt::DoNothing, env.insert(name, e)),
        ));
    }
}

/// A conditional reduces its condition as the condition reduces alone,
/// then goes on with the branch chosen.
pub proof fn conditional_goes_on(
    c: Term,
    yes: Stmt,
    no: Stmt,
    env: Bindings,
    n: nat,
    k: nat,
)
    requires
        term_run_for(c, env, n) matches Some(Term::Boolean(_)),
    ensures
        run_for(Stmt::If(c, Box::new(yes), Box::new(no)), env, n + 1 + k) == run_for(
            if term_run_for(c, env, n) == Some(Term::Boolean(true)) {
                yes
            } else {
                no
            },
            env,
            k,
        ),
    decreases n,
{
    if n > 0 {
        let next = reduced(c, env).unwrap();
        conditional_goes_on(next, yes, no, env, (n - 1) as nat, k);
    }
}

/// A loop becomes a conditional in one reduction.
pub proof fn loop_unrolls(c: Term, body: Stmt, env: Bindings, k: nat)
    ensures
        run_for(Stmt::While(c, Box::new(body)), env, 1 + k) == run_for(
            unrolled(c, body),
            env,
            k,
        ),
{
}

} // verus!
