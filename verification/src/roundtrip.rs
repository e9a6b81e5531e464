//! Printing a pattern and parsing the text again: for which patterns the
//! parser finds a pattern with the same language.

use vstd::prelude::*;
use crate::language::{
    concat, concat_drops_left, concat_drops_right, concat_keeps, concat_regroups, either,
    either_keeps, either_regroups, many, many_keeps, matches_nothing_else, nothing_else_is_same,
    same_language, same_language_chain, same_language_flip, same_language_self,
};
use crate::parse::{
    alternation, atom, atom_at, char_at, concatenation, parsed, repetition, reserved, ParseError,
    Parsed,
};
use crate::pattern::{bracketed, enclosed, lang, printed, starred, Pattern};

verus! {

/// The number of atoms in the printed form of a pattern that stands in a
/// concatenation: a literal prints as one atom there, a choice and a
/// repetition as one atom in round brackets, the empty pattern as none.
pub open spec fn units(p: Pattern) -> nat
    decreases p,
{
    match p {
        Pattern::Empty => 0,
        Pattern::Literal { .. } => 1,
        Pattern::Concatenate { first, second } => units(*first) + units(*second),
        Pattern::Choose { .. } => 1,
        Pattern::Repeat(_) => 1,
    }
}

/// Whether no literal of the pattern is a reserved character. The printed
/// form of such a pattern can be read back; a reserved character would
/// be read as a sign, not as a literal.
pub open spec fn printable(p: Pattern) -> bool
    decreases p,
{
    match p {
        Pattern::Empty => true,
        Pattern::Literal { character } => !reserved(character),
        Pattern::Concatenate { first, second } => printable(*first) && printable(*second),
        Pattern::Choose { first, second } => printable(*first) && printable(*second),
        Pattern::Repeat(inner) => printable(*inner),
    }
}

/// The number of parts of a pattern.
pub open spec fn size(p: Pattern) -> nat
    decreases p,
{
    match p {
        Pattern::Empty => 1,
        Pattern::Literal { .. } => 1,
        Pattern::Concatenate { first, second } => 1 + size(*first) + size(*second),
        Pattern::Choose { first, second } => 1 + size(*first) + size(*second),
        Pattern::Repeat(inner) => 1 + size(*inner),
    }
}

/// Whether the text `t` stands in `s` at `pos`.
pub open spec fn text_at(s: Seq<char>, pos: int, t: Seq<char>) -> bool {
    0 <= pos && pos + t.len() <= s.len() && s.subrange(pos, pos + t.len()) == t
}

/// Where two texts stand one after the other, each stands at its place.
pub proof fn text_at_both(s: Seq<char>, pos: int, a: Seq<char>, b: Seq<char>)
    requires
        text_at(s, pos, a + b),
    ensures
        text_at(s, pos, a),
        text_at(s, pos + a.len(), b),
{
    let whole = s.subrange(pos, pos + (a + b).len());
    assert(s.subrange(pos, pos + a.len()) =~= whole.subrange(0, a.len() as int));
    assert((a + b).subrange(0, a.len() as int) =~= a);
    assert(s.subrange(pos + a.len(), pos + a.len() + b.len()) =~= whole.subrange(
        a.len() as int,
        (a + b).len() as int,
    ));
    assert((a + b).subrange(a.len() as int, (a + b).len() as int) =~= b);
}

/// The characters of a text that stands in `s` are characters of `s`.
pub proof fn text_at_index(s: Seq<char>, pos: int, t: Seq<char>, i: int)
    requires
        text_at(s, pos, t),
        0 <= i < t.len(),
    ensures
        s[pos + i] == t[i],
{
    assert(s.subrange(pos, pos + t.len())[i] == s[pos + i]);
}

/// What the rest of a concatenation is: the concatenation that starts at
/// `pos` where an atom starts there, else the empty pattern.
pub open spec fn rest_of_concatenation(s: Seq<char>, pos: int) -> Parsed {
    if atom_at(s, pos) {
        concatenation(s, pos)
    } else {
        Ok((Pattern::Empty, pos))
    }
}

/// What stands behind the bar at `bar`: the empty pattern where the input
/// or the bracket ends there, else an alternation.
pub open spec fn after_bar(s: Seq<char>, bar: int) -> Parsed {
    if bar + 1 == s.len() || char_at(s, bar + 1, ')') {
        Ok((Pattern::Empty, bar + 1))
    } else {
        alternation(s, bar + 1)
    }
}

/// Whether an alternation can end at `pos`: the input or a bracket ends
/// there.
pub open spec fn alternation_ends(s: Seq<char>, pos: int) -> bool {
    pos == s.len() || char_at(s, pos, ')')
}

/// Whether a concatenation ends at `pos`: neither an atom nor a star
/// stands there.
pub open spec fn concatenation_ends(s: Seq<char>, pos: int) -> bool {
    !atom_at(s, pos) && !char_at(s, pos, '*')
}

/// A pattern that prints as no atom prints as nothing and matches only the
/// empty string; one that prints as atoms prints as something.
pub proof fn no_units_no_text(p: Pattern)
    requires
        printable(p),
    ensures
        units(p) == 0 ==> printed(p).len() == 0 && bracketed(p, 3).len() == 0
            && matches_nothing_else(p),
        units(p) > 0 ==> printed(p).len() > 0 && bracketed(p, 3).len() > 0,
    decreases p,
{
    match p {
        Pattern::Concatenate { first, second } => {
            no_units_no_text(*first);
            no_units_no_text(*second);
            if units(p) == 0 {
                concat_drops_left(*first, *second);
                assert forall|w: Seq<char>| #[trigger] lang(p, w) == (w.len() == 0) by {
                    assert(lang(concat(*first, *second), w) == lang(*second, w));
                    assert(lang(*second, w) == (w.len() == 0));
                }
            }
        },
        _ => {},
    }
}

/// A pattern that prints as nothing matches the empty string and nothing
/// else.
pub proof fn no_text_nothing_else(p: Pattern)
    requires
        printable(p),
        printed(p).len() == 0,
    ensures
        units(p) == 0,
        matches_nothing_else(p),
        same_language(either(Pattern::Empty, Pattern::Empty), p),
{
    no_units_no_text(p);
    assert forall|w: Seq<char>| #[trigger]
        lang(either(Pattern::Empty, Pattern::Empty), w) == lang(p, w) by {
        assert(lang(p, w) == (w.len() == 0));
        assert(lang(Pattern::Empty, w) == (w.len() == 0));
    }
}

/// The printed form of a pattern in a concatenation starts with a literal
/// or an opening bracket.
pub proof fn unit_starts_atom(p: Pattern)
    requires
        printable(p),
        bracketed(p, 3).len() > 0,
    ensures
        bracketed(p, 3)[0] == '(' || !reserved(bracketed(p, 3)[0]),
    decreases p,
{
    match p {
        Pattern::Concatenate { first, second } => {
            if bracketed(*first, 3).len() > 0 {
                unit_starts_atom(*first);
            } else {
                unit_starts_atom(*second);
            }
        },
        _ => {},
    }
}

/// The printed form of a pattern starts with a literal, an opening
/// bracket, or, for a choice, a bar.
pub proof fn print_starts_well(p: Pattern)
    requires
        printable(p),
        printed(p).len() > 0,
    ensures
        printed(p)[0] != ')',
        printed(p)[0] != '*',
        !(p is Choose) ==> printed(p)[0] != '|',
    decreases p,
{
    match p {
        Pattern::Concatenate { first, second } => {
            unit_starts_atom(p);
        },
        Pattern::Choose { first, second } => {
            if printed(*first).len() > 0 {
                print_starts_well(*first);
            }
        },
        Pattern::Repeat(inner) => {
            let t = starred(*inner);
            assert(printable(*inner));
            match *inner {
                Pattern::Literal { character } => {
                    assert(t =~= seq![character]);
                },
                _ => {
                    assert(t =~= seq!['('] + enclosed(*inner) + seq![')']);
                },
            }
            assert(printed(p)[0] == t[0]);
        },
        _ => {},
    }
}

/// A literal that stands at `pos`, behind which no star stands, is the
/// first part of the concatenation that starts there.
proof fn literal_unit(s: Seq<char>, pos: int, c: char, q2: Pattern, end: int)
    requires
        text_at(s, pos, seq![c]),
        !reserved(c),
        !char_at(s, pos + 1, '*'),
        rest_of_concatenation(s, pos + 1) == Ok::<(Pattern, int), ParseError>((q2, end)),
    ensures
        rest_of_concatenation(s, pos) == Ok::<(Pattern, int), ParseError>(
            (concat(Pattern::Literal { character: c }, q2), end),
        ),
{
    text_at_index(s, pos, seq![c], 0);
    assert(atom(s, pos) == Ok::<(Pattern, int), ParseError>((Pattern::Literal { character: c }, pos + 1)));
    assert(repetition(s, pos) == Ok::<(Pattern, int), ParseError>(
        (Pattern::Literal { character: c }, pos + 1),
    ));
    assert(atom_at(s, pos));
}

/// An atom that ends at `e`, behind which no star stands, is the first
/// part of the concatenation that starts with it.
proof fn atom_unit(s: Seq<char>, pos: int, y: Pattern, e: int, q2: Pattern, end: int)
    requires
        atom_at(s, pos),
        atom(s, pos) == Ok::<(Pattern, int), ParseError>((y, e)),
        pos < e <= s.len(),
        !char_at(s, e, '*'),
        rest_of_concatenation(s, e) == Ok::<(Pattern, int), ParseError>((q2, end)),
    ensures
        rest_of_concatenation(s, pos) == Ok::<(Pattern, int), ParseError>((concat(y, q2), end)),
{
    assert(repetition(s, pos) == Ok::<(Pattern, int), ParseError>((y, e)));
}

/// The printed forms of the two parts of a concatenation, one after the
/// other, are read back as the first parts of the concatenation that
/// starts there.
proof fn pair_parse(
    first: Pattern,
    second: Pattern,
    s: Seq<char>,
    pos: int,
    q2: Pattern,
    end: int,
) -> (q: Pattern)
    requires
        printable(first),
        printable(second),
        text_at(s, pos, bracketed(first, 3) + bracketed(second, 3)),
        !char_at(s, pos + bracketed(first, 3).len() + bracketed(second, 3).len(), '*'),
        rest_of_concatenation(s, pos + bracketed(first, 3).len() + bracketed(second, 3).len())
            == Ok::<(Pattern, int), ParseError>((q2, end)),
    ensures
        rest_of_concatenation(s, pos) == Ok::<(Pattern, int), ParseError>((q, end)),
        same_language(q, concat(concat(first, second), q2)),
    decreases size(first) + size(second), 5nat,
{
    let a = bracketed(first, 3);
    let b = bracketed(second, 3);
    let mid = pos + a.len();
    text_at_both(s, pos, a, b);
    let q_mid = units_parse(second, s, mid, q2, end);
    if b.len() > 0 {
        unit_starts_atom(second);
        text_at_index(s, mid, b, 0);
    }
    let q = units_parse(first, s, pos, q_mid, end);
    same_language_self(first);
    concat_keeps(first, q_mid, first, concat(second, q2));
    same_language_chain(q, concat(first, q_mid), concat(first, concat(second, q2)));
    concat_regroups(first, second, q2);
    same_language_flip(concat(concat(first, second), q2), concat(first, concat(second, q2)));
    same_language_chain(
        q,
        concat(first, concat(second, q2)),
        concat(concat(first, second), q2),
    );
    q
}

/// The printed form of a pattern in a concatenation is read back as the
/// first part of the concatenation that starts there.
proof fn units_parse(p: Pattern, s: Seq<char>, pos: int, q2: Pattern, end: int) -> (q: Pattern)
    requires
        printable(p),
        text_at(s, pos, bracketed(p, 3)),
        !char_at(s, pos + bracketed(p, 3).len(), '*'),
        rest_of_concatenation(s, pos + bracketed(p, 3).len()) == Ok::<(Pattern, int), ParseError>(
            (q2, end),
        ),
    ensures
        rest_of_concatenation(s, pos) == Ok::<(Pattern, int), ParseError>((q, end)),
        same_language(q, concat(p, q2)),
    decreases size(p), 4nat,
{
    match p {
        Pattern::Empty => {
            concat_drops_left(p, q2);
            same_language_flip(concat(p, q2), q2);
            q2
        },
        Pattern::Literal { character } => {
            literal_unit(s, pos, character, q2, end);
            same_language_self(concat(p, q2));
            concat(p, q2)
        },
        Pattern::Concatenate { first, second } => pair_parse(*first, *second, s, pos, q2, end),
        _ => {
            no_units_no_text(p);
            let y = enclosed_parse(p, s, pos);
            text_at_index(s, pos, bracketed(p, 3), 0);
            atom_unit(s, pos, y, pos + bracketed(p, 3).len(), q2, end);
            same_language_self(q2);
            concat_keeps(y, q2, p, q2);
            concat(y, q2)
        },
    }
}

/// A pattern in round brackets is read back as an atom.
proof fn enclosed_parse(p: Pattern, s: Seq<char>, pos: int) -> (y: Pattern)
    requires
        printable(p),
        text_at(s, pos, seq!['('] + enclosed(p) + seq![')']),
    ensures
        atom(s, pos) == Ok::<(Pattern, int), ParseError>((y, pos + enclosed(p).len() + 2)),
        same_language(y, p),
    decreases size(p), 3nat,
{
    let inner = enclosed(p);
    text_at_both(s, pos, seq!['('] + inner, seq![')']);
    text_at_both(s, pos, seq!['('], inner);
    text_at_index(s, pos, seq!['('], 0);
    text_at_index(s, pos + 1 + inner.len(), seq![')'], 0);
    if printed(p).len() == 0 {
        // Between the brackets stands a bar alone.
        text_at_index(s, pos + 1, inner, 0);
        no_text_nothing_else(p);
        let y = either(Pattern::Empty, Pattern::Empty);
        assert(alternation(s, pos + 1) == Ok::<(Pattern, int), ParseError>((y, pos + 2)));
        y
    } else {
        alt_parse_last(p, s, pos + 1)
    }
}

/// The printed form of a pattern in front of a bar is read back as the
/// first side of the alternation that starts there.
proof fn alt_parse_mid(p: Pattern, s: Seq<char>, pos: int, q2: Pattern, end: int) -> (q: Pattern)
    requires
        printable(p),
        text_at(s, pos, printed(p)),
        char_at(s, pos + printed(p).len(), '|'),
        after_bar(s, pos + printed(p).len()) == Ok::<(Pattern, int), ParseError>((q2, end)),
    ensures
        alternation(s, pos) == Ok::<(Pattern, int), ParseError>((q, end)),
        same_language(q, either(p, q2)),
    decreases size(p), 2nat,
{
    let e = pos + printed(p).len();
    match p {
        Pattern::Choose { first, second } => {
            let a = printed(*first);
            let b = printed(*second);
            let bar = pos + a.len();
            text_at_both(s, pos, a + seq!['|'], b);
            text_at_both(s, pos, a, seq!['|']);
            text_at_index(s, bar, seq!['|'], 0);
            let q_right = if b.len() == 0 {
                // The second side is missing; behind its bar stands the bar that follows.
                assert(alternation(s, bar + 1) == Ok::<(Pattern, int), ParseError>(
                    (either(Pattern::Empty, q2), end),
                ));
                no_units_no_text(*second);
                assert(!(*second is Choose) && !(*second is Repeat));
                nothing_else_is_same(Pattern::Empty, *second);
                same_language_self(q2);
                either_keeps(Pattern::Empty, q2, *second, q2);
                either(Pattern::Empty, q2)
            } else {
                print_starts_well(*second);
                text_at_index(s, bar + 1, b, 0);
                alt_parse_mid(*second, s, bar + 1, q2, end)
            };
            assert(after_bar(s, bar) == Ok::<(Pattern, int), ParseError>((q_right, end)));
            let q = alt_parse_mid(*first, s, pos, q_right, end);
            same_language_self(*first);
            either_keeps(*first, q_right, *first, either(*second, q2));
            same_language_chain(q, either(*first, q_right), either(*first, either(*second, q2)));
            either_regroups(*first, *second, q2);
            same_language_flip(
                either(either(*first, *second), q2),
                either(*first, either(*second, q2)),
            );
            same_language_chain(
                q,
                either(*first, either(*second, q2)),
                either(either(*first, *second), q2),
            );
            q
        },
        _ => {
            if printed(p).len() == 0 {
                no_units_no_text(p);
                assert(units(p) == 0);
                nothing_else_is_same(Pattern::Empty, p);
                same_language_self(q2);
                either_keeps(Pattern::Empty, q2, p, q2);
                assert(alternation(s, pos) == Ok::<(Pattern, int), ParseError>(
                    (either(Pattern::Empty, q2), end),
                ));
                either(Pattern::Empty, q2)
            } else {
                let x = seg_parse(p, s, pos);
                print_starts_well(p);
                text_at_index(s, pos, printed(p), 0);
                assert(alternation(s, pos) == Ok::<(Pattern, int), ParseError>((either(x, q2), end)));
                same_language_self(q2);
                either_keeps(x, q2, p, q2);
                either(x, q2)
            }
        },
    }
}

/// The printed form of a pattern at the end of the input or in front of a
/// closing bracket is read back as the alternation that starts there.
proof fn alt_parse_last(p: Pattern, s: Seq<char>, pos: int) -> (q: Pattern)
    requires
        printable(p),
        printed(p).len() > 0,
        text_at(s, pos, printed(p)),
        alternation_ends(s, pos + printed(p).len()),
    ensures
        alternation(s, pos) == Ok::<(Pattern, int), ParseError>((q, pos + printed(p).len())),
        same_language(q, p),
    decreases size(p), 2nat,
{
    let e = pos + printed(p).len();
    match p {
        Pattern::Choose { first, second } => {
            let a = printed(*first);
            let b = printed(*second);
            let bar = pos + a.len();
            text_at_both(s, pos, a + seq!['|'], b);
            text_at_both(s, pos, a, seq!['|']);
            text_at_index(s, bar, seq!['|'], 0);
            let q_right = if b.len() == 0 {
                no_units_no_text(*second);
                assert(!(*second is Choose) && !(*second is Repeat));
                nothing_else_is_same(Pattern::Empty, *second);
                Pattern::Empty
            } else {
                print_starts_well(*second);
                text_at_index(s, bar + 1, b, 0);
                alt_parse_last(*second, s, bar + 1)
            };
            assert(after_bar(s, bar) == Ok::<(Pattern, int), ParseError>((q_right, e)));
            let q = alt_parse_mid(*first, s, pos, q_right, e);
            same_language_self(*first);
            either_keeps(*first, q_right, *first, *second);
            same_language_chain(q, either(*first, q_right), p);
            q
        },
        _ => {
            let x = seg_parse(p, s, pos);
            print_starts_well(p);
            text_at_index(s, pos, printed(p), 0);
            assert(alternation(s, pos) == Ok::<(Pattern, int), ParseError>((x, e)));
            x
        },
    }
}

/// The printed form of a pattern that is no choice, where the
/// concatenation ends behind it, is read back as that concatenation.
proof fn seg_parse(p: Pattern, s: Seq<char>, pos: int) -> (x: Pattern)
    requires
        printable(p),
        !(p is Choose),
        printed(p).len() > 0,
        text_at(s, pos, printed(p)),
        concatenation_ends(s, pos + printed(p).len()) || char_at(s, pos + printed(p).len(), '|')
            || alternation_ends(s, pos + printed(p).len()),
    ensures
        concatenation(s, pos) == Ok::<(Pattern, int), ParseError>((x, pos + printed(p).len())),
        same_language(x, p),
    decreases size(p), 1nat,
{
    let e = pos + printed(p).len();
    assert(!atom_at(s, e) && !char_at(s, e, '*'));
    assert(rest_of_concatenation(s, e) == Ok::<(Pattern, int), ParseError>((Pattern::Empty, e)));
    match p {
        Pattern::Repeat(inner) => {
            let t = starred(*inner);
            text_at_both(s, pos, t, seq!['*']);
            text_at_index(s, pos + t.len(), seq!['*'], 0);
            assert(printable(*inner));
            let y = match *inner {
                Pattern::Literal { character } => {
                    assert(t =~= seq![character]);
                    text_at_index(s, pos, t, 0);
                    same_language_self(*inner);
                    assert(atom(s, pos) == Ok::<(Pattern, int), ParseError>((*inner, pos + 1)));
                    *inner
                },
                _ => {
                    assert(t =~= seq!['('] + enclosed(*inner) + seq![')']);
                    enclosed_parse(*inner, s, pos)
                },
            };
            assert(e - 1 == pos + t.len());
            assert(atom(s, pos) == Ok::<(Pattern, int), ParseError>((y, e - 1)));
            assert(repetition(s, pos) == Ok::<(Pattern, int), ParseError>((many(y), e)));
            text_at_index(s, pos, t, 0);
            assert(concatenation(s, pos) == Ok::<(Pattern, int), ParseError>(
                (concat(many(y), Pattern::Empty), e),
            ));
            many_keeps(y, *inner);
            concat_drops_right(many(y), Pattern::Empty);
            same_language_chain(concat(many(y), Pattern::Empty), many(y), p);
            concat(many(y), Pattern::Empty)
        },
        _ => {
            let q = units_parse_raw(p, s, pos);
            q
        },
    }
}

/// The printed form of a literal or a concatenation, where the
/// concatenation ends behind it, is read back as that concatenation.
proof fn units_parse_raw(p: Pattern, s: Seq<char>, pos: int) -> (x: Pattern)
    requires
        printable(p),
        p is Literal || p is Concatenate,
        printed(p).len() > 0,
        text_at(s, pos, printed(p)),
        !atom_at(s, pos + printed(p).len()),
        !char_at(s, pos + printed(p).len(), '*'),
    ensures
        concatenation(s, pos) == Ok::<(Pattern, int), ParseError>((x, pos + printed(p).len())),
        same_language(x, p),
    decreases size(p), 0nat,
{
    let e = pos + printed(p).len();
    assert(rest_of_concatenation(s, e) == Ok::<(Pattern, int), ParseError>((Pattern::Empty, e)));
    unit_starts_atom(p);
    text_at_index(s, pos, printed(p), 0);
    assert(atom_at(s, pos));
    concat_drops_right(p, Pattern::Empty);
    match p {
        Pattern::Literal { character } => {
            literal_unit(s, pos, character, Pattern::Empty, e);
            concat(p, Pattern::Empty)
        },
        Pattern::Concatenate { first, second } => {
            let q = pair_parse(*first, *second, s, pos, Pattern::Empty, e);
            same_language_chain(q, concat(p, Pattern::Empty), p);
            q
        },
        _ => p,
    }
}

/// Printing a pattern and parsing the text again gives a pattern that
/// matches the same strings.
///
/// No literal may be a reserved character, and the text has to be there:
/// a pattern that prints as nothing is left out, for the empty text is no
/// pattern.
pub proof fn print_then_parse(p: Pattern) -> (q: Pattern)
    requires
        printable(p),
        printed(p).len() > 0,
    ensures
        parsed(printed(p)) == Ok::<Pattern, ParseError>(q),
        same_language(q, p),
{
    let s = printed(p);
    assert(s.subrange(0, s.len() as int) =~= s);
    alt_parse_last(p, s, 0)
}

impl Pattern {
    /// Whether no literal of the pattern is a reserved character.
    pub fn is_printable(&self) -> (b: bool)
        ensures
            b == printable(*self),
        decreases *self,
    {
        match self {
            Pattern::Empty => true,
            Pattern::Literal { character } => !(*character == '*' || *character == '|'
                || *character == '(' || *character == ')'),
            Pattern::Concatenate { first, second } => first.is_printable()
                && second.is_printable(),
            Pattern::Choose { first, second } => first.is_printable() && second.is_printable(),
            Pattern::Repeat(inner) => inner.is_printable(),
        }
    }
}

} // verus!
