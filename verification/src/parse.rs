//! The parser: from the source text of a regular expression to a pattern.
//!
//! ```text
//! alternation   := concatenation? ( '|' alternation? )?
//! concatenation := repeat concatenation?
//! repeat        := atom '*'?
//! atom          := '(' alternation ')' | literal
//! literal       := any character but '*', '|', '(' and ')'
//! ```
//!
//! A side of `|` may be missing only next to the `|` itself: before it, or
//! after it where the input or the bracket ends. The missing side is the
//! empty pattern, so `|a` is a choice between the empty pattern and `a`.
//! An alternation leans to the right, and so does a concatenation, whose
//! last part is followed by the empty pattern.

use vstd::prelude::*;
use crate::pattern::Pattern;
use crate::text::chars_of;

verus! {

/// What the parser needed where it failed.
#[derive(Debug, Clone, Copy, PartialEq, Eq, Structural)]
pub enum Expected {
    /// A literal or an opening bracket.
    Atom,
    /// The bracket that closes an open one.
    ClosingBracket,
    /// The end of the input.
    End,
}

/// Why a source text is no pattern: at `position` the parser needed
/// `expected` and found `found`, or the end of the input where `found` is
/// none.
#[derive(Debug, Clone, Copy, PartialEq, Eq, Structural)]
pub struct ParseError {
    pub position: usize,
    pub found: Option<char>,
    pub expected: Expected,
}

/// Whether `c` is one of the reserved characters `*`, `|`, `(` and `)`.
pub open spec fn reserved(c: char) -> bool {
    c == '*' || c == '|' || c == '(' || c == ')'
}

/// Whether a literal stands at `pos`.
pub open spec fn literal_at(s: Seq<char>, pos: int) -> bool {
    0 <= pos < s.len() && !reserved(s[pos])
}

/// Whether an atom can start at `pos`.
pub open spec fn atom_at(s: Seq<char>, pos: int) -> bool {
    0 <= pos < s.len() && (s[pos] == '(' || !reserved(s[pos]))
}

/// Whether the character `c` stands at `pos`.
pub open spec fn char_at(s: Seq<char>, pos: int, c: char) -> bool {
    0 <= pos < s.len() && s[pos] == c
}

/// The failure at `pos`, where `expected` was needed.
pub open spec fn failure(s: Seq<char>, pos: int, expected: Expected) -> ParseError {
    ParseError {
        position: pos as usize,
        found: if 0 <= pos < s.len() {
            Some(s[pos])
        } else {
            None
        },
        expected,
    }
}

/// The result of parsing part of a text: the pattern and the position
/// after it, or the failure.
pub type Parsed = Result<(Pattern, int), ParseError>;

/// The alternation that starts at `pos`.
pub open spec fn alternation(s: Seq<char>, pos: int) -> Parsed
    decreases s.len() - pos, 3nat,
{
    if 0 <= pos <= s.len() {
        let left: Parsed = if char_at(s, pos, '|') {
            Ok((Pattern::Empty, pos))
        } else {
            concatenation(s, pos)
        };
        match left {
            Ok((first, q)) => if char_at(s, q, '|') && q >= pos {
                if q + 1 == s.len() || char_at(s, q + 1, ')') {
                    Ok(
                        (
                            Pattern::Choose {
                                first: Box::new(first),
                                second: Box::new(Pattern::Empty),
                            },
                            q + 1,
                        ),
                    )
                } else {
                    match alternation(s, q + 1) {
                        Ok((second, end)) => Ok(
                            (
                                Pattern::Choose {
                                    first: Box::new(first),
                                    second: Box::new(second),
                                },
                                end,
                            ),
                        ),
                        Err(e) => Err(e),
                    }
                }
            } else {
                Ok((first, q))
            },
            Err(e) => Err(e),
        }
    } else {
        Err(failure(s, pos, Expected::Atom))
    }
}

/// The concatenation that starts at `pos`.
pub open spec fn concatenation(s: Seq<char>, pos: int) -> Parsed
    decreases s.len() - pos, 2nat,
{
    if 0 <= pos <= s.len() {
        match repetition(s, pos) {
            Ok((first, q)) => if atom_at(s, q) && q > pos {
                match concatenation(s, q) {
                    Ok((second, end)) => Ok(
                        (
                            Pattern::Concatenate {
                                first: Box::new(first),
                                second: Box::new(second),
                            },
                            end,
                        ),
                    ),
                    Err(e) => Err(e),
                }
            } else {
                Ok(
                    (
                        Pattern::Concatenate {
                            first: Box::new(first),
                            second: Box::new(Pattern::Empty),
                        },
                        q,
                    ),
                )
            },
            Err(e) => Err(e),
        }
    } else {
        Err(failure(s, pos, Expected::Atom))
    }
}

/// The atom at `pos`, with the star that may follow it.
pub open spec fn repetition(s: Seq<char>, pos: int) -> Parsed
    decreases s.len() - pos, 1nat,
{
    if 0 <= pos <= s.len() {
        match atom(s, pos) {
            Ok((inner, q)) => if char_at(s, q, '*') {
                Ok((Pattern::Repeat(Box::new(inner)), q + 1))
            } else {
                Ok((inner, q))
            },
            Err(e) => Err(e),
        }
    } else {
        Err(failure(s, pos, Expected::Atom))
    }
}

/// The atom at `pos`: an alternation in round brackets, or a literal.
pub open spec fn atom(s: Seq<char>, pos: int) -> Parsed
    decreases s.len() - pos, 0nat,
{
    if char_at(s, pos, '(') {
        match alternation(s, pos + 1) {
            Ok((inner, q)) => if char_at(s, q, ')') {
                Ok((inner, q + 1))
            } else {
                Err(failure(s, q, Expected::ClosingBracket))
            },
            Err(e) => Err(e),
        }
    } else if literal_at(s, pos) {
        Ok((Pattern::Literal { character: s[pos] }, pos + 1))
    } else {
        Err(failure(s, pos, Expected::Atom))
    }
}

/// The pattern that the whole text `s` is, or why it is none.
pub open spec fn parsed(s: Seq<char>) -> Result<Pattern, ParseError> {
    match alternation(s, 0) {
        Ok((p, end)) => if end == s.len() {
            Ok(p)
        } else {
            Err(failure(s, end, Expected::End))
        },
        Err(e) => Err(e),
    }
}

/// A parse ends inside the text, and after where it began.
pub proof fn parse_advances(s: Seq<char>, pos: int)
    requires
        0 <= pos <= s.len(),
    ensures
        alternation(s, pos) matches Ok((_, q)) ==> pos <= q <= s.len(),
        concatenation(s, pos) matches Ok((_, q)) ==> pos < q <= s.len(),
        repetition(s, pos) matches Ok((_, q)) ==> pos < q <= s.len(),
        atom(s, pos) matches Ok((_, q)) ==> pos < q <= s.len(),
    decreases s.len() - pos,
{
    // The atom.
    if char_at(s, pos, '(') {
        parse_advances(s, pos + 1);
    }
    // The repetition and the concatenation.
    if let Ok((_, q)) = repetition(s, pos) {
        if atom_at(s, q) && q > pos {
            parse_advances(s, q);
        }
    }
    // The alternation.
    let left: Parsed = if char_at(s, pos, '|') {
        Ok((Pattern::Empty, pos))
    } else {
        concatenation(s, pos)
    };
    if let Ok((_, q)) = left {
        if char_at(s, q, '|') && q >= pos {
            if !(q + 1 == s.len() || char_at(s, q + 1, ')')) {
                parse_advances(s, q + 1);
            }
        }
    }
}

/// The text that is being parsed, and how far the parser has come.
pub struct Reader {
    pub regex: Vec<char>,
    pub index: usize,
}

impl Reader {
    /// The position is inside the text or at its end.
    pub open spec fn wf(&self) -> bool {
        self.index <= self.regex.len()
    }

    pub fn new(regex: &str) -> (r: Self)
        ensures
            r.wf(),
            r.regex@ == regex@,
            r.index == 0,
    {
        Reader { regex: chars_of(regex), index: 0 }
    }

    /// The character at the position.
    pub fn current(&self) -> (c: char)
        requires
            self.index < self.regex.len(),
        ensures
            c == self.regex@[self.index as int],
    {
        self.regex[self.index]
    }

    /// Whether the whole text has been read.
    pub fn at_end(&self) -> (b: bool)
        ensures
            b == (self.index == self.regex.len()),
    {
        self.index == self.regex.len()
    }

    /// Whether a literal stands at the position.
    pub fn is_literal(&self) -> (b: bool)
        requires
            self.wf(),
        ensures
            b == literal_at(self.regex@, self.index as int),
    {
        if self.at_end() {
            return false;
        }
        let c = self.current();
        !(c == '*' || c == '|' || c == '(' || c == ')')
    }

    /// Whether the character `c` stands at the position.
    pub fn looking_at(&self, c: char) -> (b: bool)
        requires
            self.wf(),
        ensures
            b == char_at(self.regex@, self.index as int, c),
    {
        !self.at_end() && self.current() == c
    }

    /// Steps over the character `c` if it stands at the position; the
    /// result says whether it did.
    pub fn consume(&mut self, c: char) -> (b: bool)
        requires
            old(self).wf(),
        ensures
            final(self).wf(),
            final(self).regex == old(self).regex,
            b == char_at(old(self).regex@, old(self).index as int, c),
            final(self).index == if b {
                old(self).index + 1
            } else {
                old(self).index as int
            },
    {
        if self.at_end() {
            return false;
        }
        let b = self.current() == c;
        if b {
            self.step();
        }
        b
    }

    /// Steps over the character `c`, which has to stand at the position.
    pub fn expect(&mut self, c: char, expected: Expected) -> (r: Result<(), ParseError>)
        requires
            old(self).wf(),
        ensures
            final(self).wf(),
            final(self).regex == old(self).regex,
            match r {
                Ok(_) => char_at(old(self).regex@, old(self).index as int, c) && final(self).index
                    == old(self).index + 1,
                Err(e) => !char_at(old(self).regex@, old(self).index as int, c)
                    && final(self).index == old(self).index
                    && e == failure(old(self).regex@, old(self).index as int, expected),
            },
    {
        if self.consume(c) {
            Ok(())
        } else {
            Err(self.fail(expected))
        }
    }

    /// The failure at the position.
    pub fn fail(&self, expected: Expected) -> (e: ParseError)
        requires
            self.wf(),
        ensures
            e == failure(self.regex@, self.index as int, expected),
    {
        let found = if self.at_end() {
            None
        } else {
            Some(self.current())
        };
        ParseError { position: self.index, found, expected }
    }

    /// Steps over one character.
    pub fn step(&mut self)
        requires
            old(self).index < old(self).regex.len(),
        ensures
            final(self).regex == old(self).regex,
            final(self).index == old(self).index + 1,
    {
        self.index += 1;
    }
}

/// Whether the reader came from `before` to `after` as `outcome` says.
pub open spec fn follows(before: Reader, after: Reader, outcome: Parsed, r: Result<
    Pattern,
    ParseError,
>) -> bool {
    &&& after.regex == before.regex
    &&& after.wf()
    &&& match outcome {
        Ok((p, q)) => r == Ok::<Pattern, ParseError>(p) && after.index == q,
        Err(e) => r == Err::<Pattern, ParseError>(e),
    }
}

/// The pattern that the source text `reg` is; a failure with its position
/// where the text is no pattern.
pub fn parse(reg: String) -> (r: Result<Pattern, ParseError>)
    ensures
        r == parsed(reg@),
{
    let mut reader = Reader::new(reg.as_str());
    match alternate(&mut reader) {
        Ok(p) => {
            if reader.at_end() {
                Ok(p)
            } else {
                Err(reader.fail(Expected::End))
            }
        },
        Err(e) => Err(e),
    }
}

/// Parses an alternation.
pub fn alternate(r: &mut Reader) -> (res: Result<Pattern, ParseError>)
    requires
        old(r).wf(),
    ensures
        follows(*old(r), *final(r), alternation(old(r).regex@, old(r).index as int), res),
    decreases old(r).regex.len() - old(r).index, 3nat,
{
    let ghost s = r.regex@;
    let ghost pos = r.index as int;
    proof {
        parse_advances(s, pos);
    }
    let first = if r.looking_at('|') {
        Pattern::Empty
    } else {
        match concatenate(r) {
            Ok(p) => p,
            Err(e) => {
                return Err(e);
            },
        }
    };
    if r.consume('|') {
        if r.at_end() || r.looking_at(')') {
            Ok(Pattern::Choose { first: Box::new(first), second: Box::new(Pattern::Empty) })
        } else {
            match alternate(r) {
                Ok(second) => Ok(
                    Pattern::Choose { first: Box::new(first), second: Box::new(second) },
                ),
                Err(e) => Err(e),
            }
        }
    } else {
        Ok(first)
    }
}

/// Parses a concatenation.
pub fn concatenate(r: &mut Reader) -> (res: Result<Pattern, ParseError>)
    requires
        old(r).wf(),
    ensures
        follows(*old(r), *final(r), concatenation(old(r).regex@, old(r).index as int), res),
    decreases old(r).regex.len() - old(r).index, 2nat,
{
    let ghost s = r.regex@;
    let ghost pos = r.index as int;
    proof {
        parse_advances(s, pos);
    }
    let first = match repeat(r) {
        Ok(p) => p,
        Err(e) => {
            return Err(e);
        },
    };
    let second = if r.is_literal() || r.looking_at('(') {
        match concatenate(r) {
            Ok(p) => p,
            Err(e) => {
                return Err(e);
            },
        }
    } else {
        Pattern::Empty
    };
    Ok(Pattern::Concatenate { first: Box::new(first), second: Box::new(second) })
}

/// Parses an atom and the star that may follow it.
pub fn repeat(r: &mut Reader) -> (res: Result<Pattern, ParseError>)
    requires
        old(r).wf(),
    ensures
        follows(*old(r), *final(r), repetition(old(r).regex@, old(r).index as int), res),
    decreases old(r).regex.len() - old(r).index, 1nat,
{
    let inner = match brackets(r) {
        Ok(p) => p,
        Err(e) => {
            return Err(e);
        },
    };
    if r.consume('*') {
        Ok(Pattern::Repeat(Box::new(inner)))
    } else {
        Ok(inner)
    }
}

/// Parses an atom: an alternation in round brackets, or a literal.
pub fn brackets(r: &mut Reader) -> (res: Result<Pattern, ParseError>)
    requires
        old(r).wf(),
    ensures
        follows(*old(r), *final(r), atom(old(r).regex@, old(r).index as int), res),
    decreases old(r).regex.len() - old(r).index, 0nat,
{
    if r.consume('(') {
        let inner = match alternate(r) {
            Ok(p) => p,
            Err(e) => {
                return Err(e);
            },
        };
        match r.expect(')', Expected::ClosingBracket) {
            Ok(_) => Ok(inner),
            Err(e) => Err(e),
        }
    } else {
        literal(r)
    }
}

/// Parses a literal.
pub fn literal(r: &mut Reader) -> (res: Result<Pattern, ParseError>)
    requires
        old(r).wf(),
    ensures
        final(r).wf(),
        final(r).regex == old(r).regex,
        match res {
            Ok(p) => literal_at(old(r).regex@, old(r).index as int) && p == (Pattern::Literal {
                character: old(r).regex@[old(r).index as int],
            }) && final(r).index == old(r).index + 1,
            Err(e) => !literal_at(old(r).regex@, old(r).index as int) && e == failure(
                old(r).regex@,
                old(r).index as int,
                Expected::Atom,
            ),
        },
{
    if r.is_literal() {
        let c = r.current();
        r.step();
        Ok(Pattern::Literal { character: c })
    } else {
        Err(r.fail(Expected::Atom))
    }
}

} // verus!
