//! Patterns: the syntax tree of a regular expression, the strings that a
//! pattern matches, and its printed form.

use vstd::prelude::*;
use crate::rule::EPSILON;
use crate::text::push_char;

verus! {

/// The syntax tree of a regular expression.
#[derive(Debug, PartialEq, Eq)]
pub enum Pattern {
    /// Matches the empty string only.
    Empty,
    /// Matches the one-symbol string of `character`.
    Literal { character: char },
    /// Matches a string matched by `first` followed by one matched by
    /// `second`.
    Concatenate { first: Box<Pattern>, second: Box<Pattern> },
    /// Matches what `first` or `second` matches.
    Choose { first: Box<Pattern>, second: Box<Pattern> },
    /// Matches any number of strings matched by the inner pattern, one
    /// after the other.
    Repeat(Box<Pattern>),
}

/// Whether the pattern `p` matches the string `s`.
///
/// A literal that holds the reserved free-move symbol reads no input: it
/// matches the empty string only.
pub open spec fn lang(p: Pattern, s: Seq<char>) -> bool
    decreases p, s.len(),
{
    match p {
        Pattern::Empty => s.len() == 0,
        Pattern::Literal { character } => if character == EPSILON {
            s.len() == 0
        } else {
            s == seq![character]
        },
        Pattern::Concatenate { first, second } => exists|k: int|
            0 <= k <= s.len() && lang(*first, #[trigger] s.take(k)) && lang(*second, s.skip(k)),
        Pattern::Choose { first, second } => lang(*first, s) || lang(*second, s),
        Pattern::Repeat(inner) => s.len() == 0 || exists|k: int|
            0 < k <= s.len() && lang(*inner, #[trigger] s.take(k)) && lang(p, s.skip(k)),
    }
}

/// How tightly a pattern binds: an empty pattern, a literal and a
/// concatenation bind tightest, then a repetition, and a choice binds
/// loosest.
pub open spec fn precedence_of(p: Pattern) -> int {
    match p {
        Pattern::Empty => 3,
        Pattern::Literal { .. } => 3,
        Pattern::Concatenate { .. } => 3,
        Pattern::Choose { .. } => 0,
        Pattern::Repeat(_) => 2,
    }
}

/// The printed form of a pattern.
///
/// Under a concatenation and under a choice, a part stands in round
/// brackets where it binds less tightly than the whole. Under a star,
/// everything but a literal stands in round brackets: a star binds to one
/// atom, whatever the precedence of what it follows.
pub open spec fn printed(p: Pattern) -> Seq<char>
    decreases p, 0nat,
{
    match p {
        Pattern::Empty => Seq::empty(),
        Pattern::Literal { character } => seq![character],
        Pattern::Concatenate { first, second } => bracketed(*first, 3) + bracketed(*second, 3),
        Pattern::Choose { first, second } => bracketed(*first, 0) + seq!['|'] + bracketed(
            *second,
            0,
        ),
        Pattern::Repeat(inner) => starred(*inner) + seq!['*'],
    }
}

/// The printed form of a pattern that stands inside a pattern of
/// precedence `outer`: in round brackets where it binds less tightly.
pub open spec fn bracketed(p: Pattern, outer: int) -> Seq<char>
    decreases p, 1nat,
{
    if precedence_of(p) < outer {
        seq!['('] + printed(p) + seq![')']
    } else {
        printed(p)
    }
}

/// What stands between round brackets for a pattern: its printed form;
/// where that is nothing, a bar, which is the choice between nothing and
/// nothing, for brackets have to hold something.
pub open spec fn enclosed(p: Pattern) -> Seq<char>
    decreases p, 1nat,
{
    if printed(p).len() == 0 {
        seq!['|']
    } else {
        printed(p)
    }
}

/// The printed form of a pattern that a star follows: a literal as it is,
/// anything else in round brackets.
pub open spec fn starred(p: Pattern) -> Seq<char>
    decreases p, 2nat,
{
    match p {
        Pattern::Literal { .. } => printed(p),
        _ => seq!['('] + enclosed(p) + seq![')'],
    }
}

impl Pattern {
    /// How tightly the pattern binds.
    pub fn precedence(&self) -> (n: i32)
        ensures
            n == precedence_of(*self),
    {
        match self {
            Pattern::Empty => 3,
            Pattern::Literal { character: _ } => 3,
            Pattern::Concatenate { first: _, second: _ } => 3,
            Pattern::Choose { first: _, second: _ } => 0,
            Pattern::Repeat(_) => 2,
        }
    }

    /// The printed form of the pattern.
    pub fn to_s(&self) -> (s: String)
        ensures
            s@ == printed(*self),
        decreases *self, 0nat,
    {
        match self {
            Pattern::Empty => String::new(),
            Pattern::Literal { character } => {
                let mut s = String::new();
                push_char(&mut s, *character);
                assert(s@ =~= seq![*character]);
                s
            },
            Pattern::Concatenate { first, second } => {
                let mut s = first.bracket(3);
                let t = second.bracket(3);
                s.append(t.as_str());
                s
            },
            Pattern::Choose { first, second } => {
                let mut s = first.bracket(0);
                push_char(&mut s, '|');
                let t = second.bracket(0);
                s.append(t.as_str());
                s
            },
            Pattern::Repeat(inner) => {
                let mut s = inner.star_form();
                push_char(&mut s, '*');
                s
            },
        }
    }

    /// The printed form of the pattern where a star follows it.
    pub fn star_form(&self) -> (s: String)
        ensures
            s@ == starred(*self),
        decreases *self, 2nat,
    {
        match self {
            Pattern::Literal { character: _ } => self.to_s(),
            _ => {
                let mut s = String::new();
                push_char(&mut s, '(');
                let t = self.to_s();
                if t.as_str().is_empty() {
                    push_char(&mut s, '|');
                } else {
                    s.append(t.as_str());
                }
                push_char(&mut s, ')');
                assert(s@ =~= seq!['('] + enclosed(*self) + seq![')']);
                s
            },
        }
    }

    /// The printed form of the pattern inside a pattern of precedence
    /// `outer_precedence`.
    pub fn bracket(&self, outer_precedence: i32) -> (s: String)
        ensures
            s@ == bracketed(*self, outer_precedence as int),
        decreases *self, 1nat,
    {
        if self.precedence() < outer_precedence {
            let mut s = String::new();
            push_char(&mut s, '(');
            let t = self.to_s();
            s.append(t.as_str());
            push_char(&mut s, ')');
            assert(s@ =~= seq!['('] + printed(*self) + seq![')']);
            s
        } else {
            self.to_s()
        }
    }
}

} // verus!
