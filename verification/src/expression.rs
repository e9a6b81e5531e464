//! Expressions of a small imperative language, their printed forms, and
//! their evaluation: in one go, or one reduction at a time.

use vstd::prelude::*;
use crate::text::{decimal, push_decimal};

verus! {

/// An expression.
#[derive(Debug, PartialEq)]
pub enum Expression {
    Number(i32),
    Boolean(bool),
    Add { left: Box<Expression>, right: Box<Expression> },
    Multiply { left: Box<Expression>, right: Box<Expression> },
    LessThan { left: Box<Expression>, right: Box<Expression> },
    Variable(String),
}

/// The mathematical content of an expression.
pub enum Term {
    Number(int),
    Boolean(bool),
    Add(Box<Term>, Box<Term>),
    Multiply(Box<Term>, Box<Term>),
    LessThan(Box<Term>, Box<Term>),
    Variable(Seq<char>),
}

/// What the variables stand for.
pub type Bindings = Map<Seq<char>, Term>;

/// The mathematical content of `e`.
pub open spec fn term_of(e: Expression) -> Term
    decreases e,
{
    match e {
        Expression::Number(n) => Term::Number(n as int),
        Expression::Boolean(b) => Term::Boolean(b),
        Expression::Add { left, right } => Term::Add(
            Box::new(term_of(*left)),
            Box::new(term_of(*right)),
        ),
        Expression::Multiply { left, right } => Term::Multiply(
            Box::new(term_of(*left)),
            Box::new(term_of(*right)),
        ),
        Expression::LessThan { left, right } => Term::LessThan(
            Box::new(term_of(*left)),
            Box::new(term_of(*right)),
        ),
        Expression::Variable(name) => Term::Variable(name@),
    }
}

impl View for Expression {
    type V = Term;

    open spec fn view(&self) -> Term {
        term_of(*self)
    }
}

/// Whether `n` is a number of the language.
pub open spec fn fits(n: int) -> bool {
    i32::MIN <= n <= i32::MAX
}

/// Whether a term can be reduced: it is neither a number nor a truth
/// value.
pub open spec fn reducible(t: Term) -> bool {
    !(t is Number || t is Boolean)
}

/// The printed form of a term.
pub open spec fn term_text(t: Term) -> Seq<char>
    decreases t,
{
    match t {
        Term::Number(n) => decimal(n),
        Term::Boolean(b) => if b {
            "true"@
        } else {
            "false"@
        },
        Term::Add(l, r) => term_text(*l) + " + "@ + term_text(*r),
        Term::Multiply(l, r) => term_text(*l) + " * "@ + term_text(*r),
        Term::LessThan(l, r) => term_text(*l) + " < "@ + term_text(*r),
        Term::Variable(name) => name,
    }
}

/// The text of a procedure that evaluates the term when it is called with
/// the bindings.
pub open spec fn procedure_text(t: Term) -> Seq<char>
    decreases t,
{
    match t {
        Term::Number(_) => "-> e { "@ + term_text(t) + " }"@,
        Term::Boolean(_) => "-> e { "@ + term_text(t) + " }"@,
        Term::Variable(name) => "-> e { e[:"@ + name + "] }"@,
        Term::Add(l, r) => "-> e { ("@ + procedure_text(*l) + ").call(e) + ("@ + procedure_text(
            *r,
        ) + ").call(e) }"@,
        Term::Multiply(l, r) => "-> e { ("@ + procedure_text(*l) + ").call(e) * ("@
            + procedure_text(*r) + ").call(e) }"@,
        Term::LessThan(l, r) => "-> e { ("@ + procedure_text(*l) + ").call(e) < ("@
            + procedure_text(*r) + ").call(e) }"@,
    }
}

/// The result of an operation on two operands that cannot be reduced: the
/// operands have to be numbers, and so has the result.
pub open spec fn combine(t: Term, l: Term, r: Term) -> Option<Term> {
    match (l, r) {
        (Term::Number(a), Term::Number(b)) => match t {
            Term::Add(_, _) => if fits(a + b) {
                Some(Term::Number(a + b))
            } else {
                None
            },
            Term::Multiply(_, _) => if fits(a * b) {
                Some(Term::Number(a * b))
            } else {
                None
            },
            Term::LessThan(_, _) => Some(Term::Boolean(a < b)),
            _ => None,
        },
        _ => None,
    }
}

/// The term with the given operands under the operation of `t`.
pub open spec fn rebuild(t: Term, l: Term, r: Term) -> Term {
    match t {
        Term::Add(_, _) => Term::Add(Box::new(l), Box::new(r)),
        Term::Multiply(_, _) => Term::Multiply(Box::new(l), Box::new(r)),
        _ => Term::LessThan(Box::new(l), Box::new(r)),
    }
}

/// The operands of an operation.
pub open spec fn operands(t: Term) -> Option<(Term, Term)> {
    match t {
        Term::Add(l, r) => Some((*l, *r)),
        Term::Multiply(l, r) => Some((*l, *r)),
        Term::LessThan(l, r) => Some((*l, *r)),
        _ => None,
    }
}

/// One reduction of a term: the left operand first, then the right one,
/// then the operation itself; a variable becomes what it stands for.
/// There is none for a number or a truth value, for an operation on
/// anything but numbers, for a result that is no number of the language,
/// and for a variable that stands for nothing.
pub open spec fn reduced(t: Term, env: Bindings) -> Option<Term>
    decreases t,
{
    match t {
        Term::Number(_) => None,
        Term::Boolean(_) => None,
        Term::Variable(name) => if env.dom().contains(name) {
            Some(env[name])
        } else {
            None
        },
        Term::Add(l, r) => reduced_operation(t, *l, *r, reduced(*l, env), reduced(*r, env)),
        Term::Multiply(l, r) => reduced_operation(t, *l, *r, reduced(*l, env), reduced(*r, env)),
        Term::LessThan(l, r) => reduced_operation(t, *l, *r, reduced(*l, env), reduced(*r, env)),
    }
}

/// One reduction of an operation, given the reductions of its operands.
pub open spec fn reduced_operation(
    t: Term,
    l: Term,
    r: Term,
    left: Option<Term>,
    right: Option<Term>,
) -> Option<Term> {
    if reducible(l) {
        match left {
            Some(next) => Some(rebuild(t, next, r)),
            None => None,
        }
    } else if reducible(r) {
        match right {
            Some(next) => Some(rebuild(t, l, next)),
            None => None,
        }
    } else {
        combine(t, l, r)
    }
}

/// The value of a term: a number or a truth value stands for itself, a
/// variable for what it is bound to, and an operation for its result on
/// the values of its operands. There is none where an operand has no
/// value or is no number, where a result is no number of the language,
/// and for a variable that stands for nothing.
pub open spec fn value(t: Term, env: Bindings) -> Option<Term>
    decreases t,
{
    match t {
        Term::Number(_) => Some(t),
        Term::Boolean(_) => Some(t),
        Term::Variable(name) => if env.dom().contains(name) {
            Some(env[name])
        } else {
            None
        },
        Term::Add(l, r) => value_of_operation(t, value(*l, env), value(*r, env)),
        Term::Multiply(l, r) => value_of_operation(t, value(*l, env), value(*r, env)),
        Term::LessThan(l, r) => value_of_operation(t, value(*l, env), value(*r, env)),
    }
}

/// The value of an operation, given the values of its operands.
pub open spec fn value_of_operation(t: Term, left: Option<Term>, right: Option<Term>) -> Option<
    Term,
> {
    match (left, right) {
        (Some(l), Some(r)) => combine(t, l, r),
        _ => None,
    }
}

/// The bindings of the variables: a list of names, each with the
/// expression it stands for. A name occurs once.
#[derive(Debug)]
pub struct Environment {
    entries: Vec<(String, Expression)>,
}

/// The names in `entries`, in order.
pub open spec fn names(entries: Seq<(String, Expression)>) -> Seq<Seq<char>> {
    entries.map_values(|e: (String, Expression)| e.0@)
}

/// What the names in `entries` stand for; a later entry wins.
pub open spec fn bindings_of(entries: Seq<(String, Expression)>) -> Bindings
    decreases entries.len(),
{
    if entries.len() == 0 {
        Map::empty()
    } else {
        bindings_of(entries.drop_last()).insert(entries.last().0@, entries.last().1@)
    }
}

/// The names bound are the names in the list, and a name that occurs at
/// one place only stands for the expression there.
pub proof fn bindings_found(entries: Seq<(String, Expression)>)
    ensures
        forall|name: Seq<char>|
            bindings_of(entries).dom().contains(name) <==> names(entries).contains(name),
        names(entries).no_duplicates() ==> forall|i: int|
            0 <= i < entries.len() ==> bindings_of(entries)[#[trigger] entries[i].0@]
                == entries[i].1@,
    decreases entries.len(),
{
    if entries.len() > 0 {
        let init = entries.drop_last();
        let last = entries.last();
        bindings_found(init);
        assert(names(init) =~= names(entries).drop_last());
        assert forall|name: Seq<char>|
            bindings_of(entries).dom().contains(name) <==> names(entries).contains(name) by {
            if names(entries).contains(name) {
                let i = choose|i: int| 0 <= i < names(entries).len() && names(entries)[i] == name;
                if i < init.len() {
                    assert(names(init)[i] == name);
                }
            }
            if names(init).contains(name) {
                let i = choose|i: int| 0 <= i < names(init).len() && names(init)[i] == name;
                assert(names(entries)[i] == name);
            }
            assert(names(entries)[entries.len() - 1] == last.0@);
        }
        if names(entries).no_duplicates() {
            assert forall|i: int| 0 <= i < entries.len() implies bindings_of(
                entries,
            )[#[trigger] entries[i].0@] == entries[i].1@ by {
                if i < init.len() {
                    assert(init[i] == entries[i]);
                    assert(names(entries)[i] == entries[i].0@);
                    assert(names(entries)[entries.len() - 1] == last.0@);
                }
            }
        }
    }
}

impl View for Environment {
    type V = Bindings;

    closed spec fn view(&self) -> Bindings {
        bindings_of(self.entries@)
    }
}

impl Environment {
    #[verifier::type_invariant]
    spec fn distinct(&self) -> bool {
        names(self.entries@).no_duplicates()
    }

    /// The bindings that bind nothing.
    pub fn new() -> (env: Self)
        ensures
            env@ == Bindings::empty(),
    {
        let env = Environment { entries: Vec::new() };
        assert(names(env.entries@) =~= Seq::empty());
        env
    }

    /// The position of `name` in the list, if it is bound.
    fn position(&self, name: &String) -> (found: Option<usize>)
        ensures
            match found {
                Some(i) => i < self.entries.len() && self.entries@[i as int].0@ == name@,
                None => !names(self.entries@).contains(name@),
            },
    {
        let mut i: usize = 0;
        while i < self.entries.len()
            invariant
                i <= self.entries.len(),
                forall|j: int| 0 <= j < i ==> names(self.entries@)[j] != name@,
            decreases self.entries.len() - i,
        {
            if self.entries[i].0 == *name {
                return Some(i);
            }
            i += 1;
        }
        None
    }

    /// What `name` stands for, if it is bound.
    pub fn get(&self, name: &String) -> (found: Option<&Expression>)
        ensures
            match found {
                Some(e) => self@.dom().contains(name@) && e@ == self@[name@],
                None => !self@.dom().contains(name@),
            },
    {
        proof {
            use_type_invariant(self);
            bindings_found(self.entries@);
        }
        match self.position(name) {
            Some(i) => {
                proof {
                    assert(names(self.entries@)[i as int] == name@);
                    assert(names(self.entries@).contains(name@));
                    assert(bindings_of(self.entries@)[self.entries@[i as int].0@]
                        == self.entries@[i as int].1@);
                }
                Some(&self.entries[i].1)
            },
            None => None,
        }
    }

    /// Binds `name` to `value`.
    pub fn insert(&mut self, name: String, value: Expression)
        ensures
            final(self)@ == old(self)@.insert(name@, value@),
    {
        proof {
            use_type_invariant(&*self);
        }
        let mut entries: Vec<(String, Expression)> = Vec::new();
        std::mem::swap(&mut entries, &mut self.entries);
        let ghost before = entries@;
        let found = {
            let mut i: usize = 0;
            let mut found: Option<usize> = None;
            while i < entries.len() && found.is_none()
                invariant
                    i <= entries.len(),
                    entries@ == before,
                    match found {
                        Some(k) => k < entries.len() && entries@[k as int].0@ == name@,
                        None => forall|j: int| 0 <= j < i ==> names(entries@)[j] != name@,
                    },
                decreases entries.len() - i + if found.is_none() { 1nat } else { 0nat },
            {
                if entries[i].0 == name {
                    found = Some(i);
                } else {
                    i += 1;
                }
            }
            found
        };
        match found {
            Some(i) => {
                proof {
                    updated_binding(before, i as int, (name, value));
                }
                entries.set(i, (name, value));
            },
            None => {
                proof {
                    assert(names(entries@.push((name, value))) =~= names(entries@).push(name@));
                    assert(entries@.push((name, value)).drop_last() =~= entries@);
                }
                entries.push((name, value));
            },
        }
        self.entries = entries;
    }

    /// A copy of the bindings.
    pub fn duplicate(&self) -> (copy: Self)
        ensures
            copy@ == self@,
    {
        proof {
            use_type_invariant(self);
        }
        let mut entries: Vec<(String, Expression)> = Vec::new();
        let mut i: usize = 0;
        assert(self.entries@.take(0) =~= Seq::empty());
        assert(names(entries@) =~= Seq::empty());
        while i < self.entries.len()
            invariant
                i <= self.entries.len(),
                names(entries@) == names(self.entries@.take(i as int)),
                bindings_of(entries@) == bindings_of(self.entries@.take(i as int)),
            decreases self.entries.len() - i,
        {
            let name = self.entries[i].0.clone();
            let value = self.entries[i].1.duplicate();
            proof {
                let next = self.entries@.take(i as int + 1);
                assert(next.drop_last() =~= self.entries@.take(i as int));
                assert(next.last() == self.entries@[i as int]);
                assert(entries@.push((name, value)).drop_last() =~= entries@);
                assert(names(entries@.push((name, value))) =~= names(entries@).push(name@));
                assert(names(next) =~= names(self.entries@.take(i as int)).push(name@));
            }
            entries.push((name, value));
            i += 1;
        }
        proof {
            assert(self.entries@.take(self.entries.len() as int) == self.entries@);
        }
        Environment { entries }
    }

    /// Whether every binding of `self` is a binding of `other`.
    fn included_in(&self, other: &Environment) -> (b: bool)
        ensures
            b == forall|name: Seq<char>|
                #[trigger] self@.dom().contains(name) ==> other@.dom().contains(name)
                    && other@[name] == self@[name],
    {
        proof {
            use_type_invariant(self);
            bindings_found(self.entries@);
        }
        let mut i: usize = 0;
        while i < self.entries.len()
            invariant
                i <= self.entries.len(),
                names(self.entries@).no_duplicates(),
                forall|name: Seq<char>|
                    self@.dom().contains(name) <==> names(self.entries@).contains(name),
                forall|j: int|
                    0 <= j < self.entries.len() ==> self@[#[trigger] self.entries@[j].0@]
                        == self.entries@[j].1@,
                forall|j: int|
                    0 <= j < i ==> other@.dom().contains(#[trigger] self.entries@[j].0@)
                        && other@[self.entries@[j].0@] == self.entries@[j].1@,
            decreases self.entries.len() - i,
        {
            let same = match other.get(&self.entries[i].0) {
                Some(e) => e.same(&self.entries[i].1),
                None => false,
            };
            if !same {
                proof {
                    let name = self.entries@[i as int].0@;
                    assert(names(self.entries@)[i as int] == name);
                    assert(self@.dom().contains(name));
                }
                return false;
            }
            i += 1;
        }
        proof {
            assert forall|name: Seq<char>| #[trigger]
                self@.dom().contains(name) implies other@.dom().contains(name) && other@[name]
                == self@[name] by {
                let j = choose|j: int|
                    0 <= j < names(self.entries@).len() && names(self.entries@)[j] == name;
                assert(self.entries@[j].0@ == name);
            }
        }
        true
    }

    /// Whether `self` and `other` bind the same names to the same
    /// expressions.
    pub fn same(&self, other: &Environment) -> (b: bool)
        ensures
            b == (self@ == other@),
    {
        let b = self.included_in(other) && other.included_in(self);
        proof {
            if b {
                assert forall|name: Seq<char>|
                    self@.dom().contains(name) <==> other@.dom().contains(name) by {}
                assert(self@.dom() =~= other@.dom());
                assert(self@ =~= other@);
            }
        }
        b
    }
}

/// Putting a new entry in the place of one with the same name binds the
/// name anew and keeps the names distinct.
proof fn updated_binding(
    entries: Seq<(String, Expression)>,
    i: int,
    entry: (String, Expression),
)
    requires
        0 <= i < entries.len(),
        names(entries).no_duplicates(),
        entries[i].0@ == entry.0@,
    ensures
        names(entries.update(i, entry)) == names(entries),
        bindings_of(entries.update(i, entry)) == bindings_of(entries).insert(entry.0@, entry.1@),
    decreases entries.len(),
{
    let updated = entries.update(i, entry);
    assert(names(updated) =~= names(entries));
    let init = entries.drop_last();
    let last = entries.last();
    assert(names(init) =~= names(entries).drop_last());
    if i == entries.len() - 1 {
        assert(updated.drop_last() =~= init);
        assert(bindings_of(updated) =~= bindings_of(entries).insert(entry.0@, entry.1@));
    } else {
        assert(updated.drop_last() =~= init.update(i, entry));
        assert(updated.last() == last);
        updated_binding(init, i, entry);
        assert(names(entries)[i] == entry.0@);
        assert(names(entries)[entries.len() - 1] == last.0@);
        assert(bindings_of(updated) =~= bindings_of(entries).insert(entry.0@, entry.1@));
    }
}

/// The size of a term: the number of its parts.
pub open spec fn size(t: Term) -> nat
    decreases t,
{
    match t {
        Term::Add(l, r) => 1 + size(*l) + size(*r),
        Term::Multiply(l, r) => 1 + size(*l) + size(*r),
        Term::LessThan(l, r) => 1 + size(*l) + size(*r),
        _ => 1,
    }
}

impl Clone for Expression {
    fn clone(&self) -> (copy: Self)
        ensures
            copy@ == self@,
    {
        self.duplicate()
    }
}

impl Clone for Environment {
    fn clone(&self) -> (copy: Self)
        ensures
            copy@ == self@,
    {
        self.duplicate()
    }
}

impl Expression {
    /// A copy of the expression.
    pub fn duplicate(&self) -> (copy: Self)
        ensures
            copy@ == self@,
        decreases self,
    {
        match self {
            Expression::Number(n) => Expression::Number(*n),
            Expression::Boolean(b) => Expression::Boolean(*b),
            Expression::Add { left, right } => Expression::Add {
                left: Box::new(left.duplicate()),
                right: Box::new(right.duplicate()),
            },
            Expression::Multiply { left, right } => Expression::Multiply {
                left: Box::new(left.duplicate()),
                right: Box::new(right.duplicate()),
            },
            Expression::LessThan { left, right } => Expression::LessThan {
                left: Box::new(left.duplicate()),
                right: Box::new(right.duplicate()),
            },
            Expression::Variable(name) => Expression::Variable(name.clone()),
        }
    }

    /// Whether `self` and `other` are the same expression.
    pub fn same(&self, other: &Expression) -> (b: bool)
        ensures
            b == (self@ == other@),
        decreases self,
    {
        match (self, other) {
            (Expression::Number(a), Expression::Number(b)) => *a == *b,
            (Expression::Boolean(a), Expression::Boolean(b)) => *a == *b,
            (
                Expression::Add { left: l1, right: r1 },
                Expression::Add { left: l2, right: r2 },
            ) => l1.same(l2) && r1.same(r2),
            (
                Expression::Multiply { left: l1, right: r1 },
                Expression::Multiply { left: l2, right: r2 },
            ) => l1.same(l2) && r1.same(r2),
            (
                Expression::LessThan { left: l1, right: r1 },
                Expression::LessThan { left: l2, right: r2 },
            ) => l1.same(l2) && r1.same(r2),
            (Expression::Variable(a), Expression::Variable(b)) => *a == *b,
            _ => false,
        }
    }

    /// The printed form of the expression.
    pub fn to_string(&self) -> (s: String)
        ensures
            s@ == term_text(self@),
        decreases self,
    {
        match self {
            Expression::Number(value) => {
                let mut s = String::new();
                push_decimal(&mut s, *value);
                s
            },
            Expression::Boolean(value) => {
                if *value {
                    String::from_str("true")
                } else {
                    String::from_str("false")
                }
            },
            Expression::Add { left, right } => {
                let mut s = left.to_string();
                s.append(" + ");
                let r = right.to_string();
                s.append(r.as_str());
                s
            },
            Expression::Multiply { left, right } => {
                let mut s = left.to_string();
                s.append(" * ");
                let r = right.to_string();
                s.append(r.as_str());
                s
            },
            Expression::LessThan { left, right } => {
                let mut s = left.to_string();
                s.append(" < ");
                let r = right.to_string();
                s.append(r.as_str());
                s
            },
            Expression::Variable(name) => name.clone(),
        }
    }

    /// Whether the expression can be reduced: it is neither a number nor
    /// a truth value.
    pub fn reducible(&self) -> (b: bool)
        ensures
            b == reducible(self@),
    {
        match self {
            Expression::Number(_) | Expression::Boolean(_) => false,
            _ => true,
        }
    }

    /// One reduction of the expression.
    pub fn reduce(self, env: &Environment) -> (next: Expression)
        requires
            reduced(self@, env@) is Some,
        ensures
            Some(next@) == reduced(self@, env@),
        decreases size(self@), 1nat,
    {
        match self {
            Expression::Number(n) => Expression::Number(n),
            Expression::Boolean(b) => Expression::Boolean(b),
            Expression::Add { left, right } => reduce_add(*left, *right, env),
            Expression::Multiply { left, right } => reduce_multiply(*left, *right, env),
            Expression::LessThan { left, right } => reduce_lessthan(*left, *right, env),
            Expression::Variable(name) => reduce_variable(name, env),
        }
    }

    /// The value of the expression.
    pub fn evaluate(self, env: &Environment) -> (result: Expression)
        requires
            value(self@, env@) is Some,
        ensures
            Some(result@) == value(self@, env@),
        decreases self,
    {
        match self {
            Expression::Number(n) => Expression::Number(n),
            Expression::Boolean(b) => Expression::Boolean(b),
            Expression::Add { left, right } => {
                let eval_l = left.evaluate(env);
                let eval_r = right.evaluate(env);
                match (eval_l, eval_r) {
                    (Expression::Number(a), Expression::Number(b)) => Expression::Number(a + b),
                    (_, other) => other,
                }
            },
            Expression::Multiply { left, right } => {
                let eval_l = left.evaluate(env);
                let eval_r = right.evaluate(env);
                match (eval_l, eval_r) {
                    (Expression::Number(a), Expression::Number(b)) => Expression::Number(a * b),
                    (_, other) => other,
                }
            },
            Expression::LessThan { left, right } => {
                let eval_l = left.evaluate(env);
                let eval_r = right.evaluate(env);
                match (eval_l, eval_r) {
                    (Expression::Number(a), Expression::Number(b)) => Expression::Boolean(a < b),
                    (_, other) => other,
                }
            },
            Expression::Variable(name) => reduce_variable(name, env),
        }
    }

    /// The text of a procedure that evaluates the expression when it is
    /// called with the bindings.
    pub fn to_ruby(&self) -> (s: String)
        ensures
            s@ == procedure_text(self@),
        decreases self,
    {
        match self {
            Expression::Number(_) | Expression::Boolean(_) => {
                let mut s = String::from_str("-> e { ");
                let t = self.to_string();
                s.append(t.as_str());
                s.append(" }");
                s
            },
            Expression::Variable(name) => {
                let mut s = String::from_str("-> e { e[:");
                s.append(name.as_str());
                s.append("] }");
                s
            },
            Expression::Add { left, right } => {
                let mut s = String::from_str("-> e { (");
                let l = left.to_ruby();
                s.append(l.as_str());
                s.append(").call(e) + (");
                let r = right.to_ruby();
                s.append(r.as_str());
                s.append(").call(e) }");
                s
            },
            Expression::Multiply { left, right } => {
                let mut s = String::from_str("-> e { (");
                let l = left.to_ruby();
                s.append(l.as_str());
                s.append(").call(e) * (");
                let r = right.to_ruby();
                s.append(r.as_str());
                s.append(").call(e) }");
                s
            },
            Expression::LessThan { left, right } => {
                let mut s = String::from_str("-> e { (");
                let l = left.to_ruby();
                s.append(l.as_str());
                s.append(").call(e) < (");
                let r = right.to_ruby();
                s.append(r.as_str());
                s.append(").call(e) }");
                s
            },
        }
    }

    /// The number that the expression is; a message where it is none.
    pub fn get_number(&self) -> (r: Result<i32, String>)
        ensures
            match r {
                Ok(n) => self@ == Term::Number(n as int),
                Err(message) => !(self@ is Number) && message@ == "not a number"@,
            },
    {
        match self {
            Expression::Number(value) => Ok(*value),
            _ => Err(String::from_str("not a number")),
        }
    }

    /// The truth value that the expression is; a message where it is none.
    pub fn get_bool(&self) -> (r: Result<bool, String>)
        ensures
            match r {
                Ok(b) => self@ == Term::Boolean(b),
                Err(message) => !(self@ is Boolean) && message@ == "not a boolean"@,
            },
    {
        match self {
            Expression::Boolean(value) => Ok(*value),
            _ => Err(String::from_str("not a boolean")),
        }
    }

    /// The sum of two numbers, not yet reduced.
    pub fn new_add(left: i32, right: i32) -> (e: Expression)
        ensures
            e@ == Term::Add(
                Box::new(Term::Number(left as int)),
                Box::new(Term::Number(right as int)),
            ),
    {
        proof {
            reveal_with_fuel(term_of, 2);
        }
        Expression::Add {
            left: Box::new(Expression::Number(left)),
            right: Box::new(Expression::Number(right)),
        }
    }

    /// The product of two numbers, not yet reduced.
    pub fn new_multiply(left: i32, right: i32) -> (e: Expression)
        ensures
            e@ == Term::Multiply(
                Box::new(Term::Number(left as int)),
                Box::new(Term::Number(right as int)),
            ),
    {
        proof {
            reveal_with_fuel(term_of, 2);
        }
        Expression::Multiply {
            left: Box::new(Expression::Number(left)),
            right: Box::new(Expression::Number(right)),
        }
    }

    /// The bindings that bind nothing.
    pub fn new_env() -> (env: Environment)
        ensures
            env@ == Bindings::empty(),
    {
        Environment::new()
    }

    /// The variable called `name`.
    pub fn new_var(name: &str) -> (e: Expression)
        ensures
            e@ == Term::Variable(name@),
    {
        Expression::Variable(String::from_str(name))
    }
}

/// One reduction of the sum of `left` and `right`.
pub fn reduce_add(left: Expression, right: Expression, env: &Environment) -> (next: Expression)
    requires
        reduced(Term::Add(Box::new(left@), Box::new(right@)), env@) is Some,
    ensures
        Some(next@) == reduced(Term::Add(Box::new(left@), Box::new(right@)), env@),
    decreases size(left@) + size(right@), 0nat,
{
    if left.reducible() {
        Expression::Add { left: Box::new(left.reduce(env)), right: Box::new(right) }
    } else if right.reducible() {
        Expression::Add { left: Box::new(left), right: Box::new(right.reduce(env)) }
    } else {
        match (left, right) {
            (Expression::Number(a), Expression::Number(b)) => Expression::Number(a + b),
            (_, other) => other,
        }
    }
}

/// One reduction of the product of `left` and `right`.
pub fn reduce_multiply(left: Expression, right: Expression, env: &Environment) -> (next:
    Expression)
    requires
        reduced(Term::Multiply(Box::new(left@), Box::new(right@)), env@) is Some,
    ensures
        Some(next@) == reduced(Term::Multiply(Box::new(left@), Box::new(right@)), env@),
    decreases size(left@) + size(right@), 0nat,
{
    if left.reducible() {
        Expression::Multiply { left: Box::new(left.reduce(env)), right: Box::new(right) }
    } else if right.reducible() {
        Expression::Multiply { left: Box::new(left), right: Box::new(right.reduce(env)) }
    } else {
        match (left, right) {
            (Expression::Number(a), Expression::Number(b)) => Expression::Number(a * b),
            (_, other) => other,
        }
    }
}

/// One reduction of the comparison of `left` with `right`.
pub fn reduce_lessthan(left: Expression, right: Expression, env: &Environment) -> (next:
    Expression)
    requires
        reduced(Term::LessThan(Box::new(left@), Box::new(right@)), env@) is Some,
    ensures
        Some(next@) == reduced(Term::LessThan(Box::new(left@), Box::new(right@)), env@),
    decreases size(left@) + size(right@), 0nat,
{
    if left.reducible() {
        Expression::LessThan { left: Box::new(left.reduce(env)), right: Box::new(right) }
    } else if right.reducible() {
        Expression::LessThan { left: Box::new(left), right: Box::new(right.reduce(env)) }
    } else {
        match (left, right) {
            (Expression::Number(a), Expression::Number(b)) => Expression::Boolean(a < b),
            (_, other) => other,
        }
    }
}

/// What the variable `name` stands for.
pub fn reduce_variable(name: String, env: &Environment) -> (next: Expression)
    requires
        env@.dom().contains(name@),
    ensures
        next@ == env@[name@],
{
    match env.get(&name) {
        Some(e) => e.duplicate(),
        None => Expression::Variable(name),
    }
}

} // verus!
