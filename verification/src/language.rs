//! Laws of the languages of patterns: which patterns match the same
//! strings.

use vstd::prelude::*;
use crate::pattern::{lang, Pattern};

verus! {

/// Whether `a` and `b` match the same strings.
pub open spec fn same_language(a: Pattern, b: Pattern) -> bool {
    forall|w: Seq<char>| #[trigger] lang(a, w) == lang(b, w)
}

/// Whether `p` matches the empty string and nothing else.
pub open spec fn matches_nothing_else(p: Pattern) -> bool {
    forall|w: Seq<char>| #[trigger] lang(p, w) == (w.len() == 0)
}

/// The concatenation of `a` and `b`.
pub open spec fn concat(a: Pattern, b: Pattern) -> Pattern {
    Pattern::Concatenate { first: Box::new(a), second: Box::new(b) }
}

/// The choice between `a` and `b`.
pub open spec fn either(a: Pattern, b: Pattern) -> Pattern {
    Pattern::Choose { first: Box::new(a), second: Box::new(b) }
}

/// The repetition of `a`.
pub open spec fn many(a: Pattern) -> Pattern {
    Pattern::Repeat(Box::new(a))
}

/// Matching the same strings is transitive.
pub proof fn same_language_chain(a: Pattern, b: Pattern, c: Pattern)
    requires
        same_language(a, b),
        same_language(b, c),
    ensures
        same_language(a, c),
{
    assert forall|w: Seq<char>| #[trigger] lang(a, w) == lang(c, w) by {
        assert(lang(a, w) == lang(b, w));
        assert(lang(b, w) == lang(c, w));
    }
}

/// Matching the same strings is symmetric.
pub proof fn same_language_flip(a: Pattern, b: Pattern)
    requires
        same_language(a, b),
    ensures
        same_language(b, a),
{
    assert forall|w: Seq<char>| #[trigger] lang(b, w) == lang(a, w) by {
        assert(lang(a, w) == lang(b, w));
    }
}

/// Concatenations of parts with the same languages have the same
/// language, one way round.
proof fn concat_keeps_half(a: Pattern, b: Pattern, c: Pattern, d: Pattern, w: Seq<char>)
    requires
        same_language(a, c),
        same_language(b, d),
        lang(concat(a, b), w),
    ensures
        lang(concat(c, d), w),
{
    let k = choose|k: int| 0 <= k <= w.len() && lang(a, #[trigger] w.take(k)) && lang(b, w.skip(k));
    assert(lang(a, w.take(k)) == lang(c, w.take(k)));
    assert(lang(b, w.skip(k)) == lang(d, w.skip(k)));
}

/// Concatenations of parts with the same languages have the same
/// language.
pub proof fn concat_keeps(a: Pattern, b: Pattern, c: Pattern, d: Pattern)
    requires
        same_language(a, c),
        same_language(b, d),
    ensures
        same_language(concat(a, b), concat(c, d)),
{
    same_language_flip(a, c);
    same_language_flip(b, d);
    assert forall|w: Seq<char>| #[trigger] lang(concat(a, b), w) == lang(concat(c, d), w) by {
        if lang(concat(a, b), w) {
            concat_keeps_half(a, b, c, d, w);
        }
        if lang(concat(c, d), w) {
            concat_keeps_half(c, d, a, b, w);
        }
    }
}

/// Choices between parts with the same languages have the same language.
pub proof fn either_keeps(a: Pattern, b: Pattern, c: Pattern, d: Pattern)
    requires
        same_language(a, c),
        same_language(b, d),
    ensures
        same_language(either(a, b), either(c, d)),
{
    assert forall|w: Seq<char>| #[trigger] lang(either(a, b), w) == lang(either(c, d), w) by {
        assert(lang(a, w) == lang(c, w));
        assert(lang(b, w) == lang(d, w));
    }
}

proof fn many_keeps_half(a: Pattern, c: Pattern, w: Seq<char>)
    requires
        same_language(a, c),
        lang(many(a), w),
    ensures
        lang(many(c), w),
    decreases w.len(),
{
    if w.len() > 0 {
        let k = choose|k: int|
            0 < k <= w.len() && lang(a, #[trigger] w.take(k)) && lang(many(a), w.skip(k));
        assert(lang(a, w.take(k)) == lang(c, w.take(k)));
        many_keeps_half(a, c, w.skip(k));
    }
}

/// Repetitions of patterns with the same language have the same language.
pub proof fn many_keeps(a: Pattern, c: Pattern)
    requires
        same_language(a, c),
    ensures
        same_language(many(a), many(c)),
{
    same_language_flip(a, c);
    assert forall|w: Seq<char>| #[trigger] lang(many(a), w) == lang(many(c), w) by {
        if lang(many(a), w) {
            many_keeps_half(a, c, w);
        }
        if lang(many(c), w) {
            many_keeps_half(c, a, w);
        }
    }
}

/// Concatenation is associative.
pub proof fn concat_regroups(a: Pattern, b: Pattern, c: Pattern)
    ensures
        same_language(concat(concat(a, b), c), concat(a, concat(b, c))),
{
    assert forall|w: Seq<char>| #[trigger]
        lang(concat(concat(a, b), c), w) == lang(concat(a, concat(b, c)), w) by {
        if lang(concat(concat(a, b), c), w) {
            let k = choose|k: int|
                0 <= k <= w.len() && lang(concat(a, b), #[trigger] w.take(k)) && lang(
                    c,
                    w.skip(k),
                );
            let u = w.take(k);
            let j = choose|j: int|
                0 <= j <= u.len() && lang(a, #[trigger] u.take(j)) && lang(b, u.skip(j));
            let rest = w.skip(j);
            assert(w.take(j) =~= u.take(j));
            assert(rest.take(k - j) =~= u.skip(j));
            assert(rest.skip(k - j) =~= w.skip(k));
            assert(0 <= k - j <= rest.len() && lang(b, rest.take(k - j)) && lang(
                c,
                rest.skip(k - j),
            ));
            assert(lang(concat(b, c), rest));
            assert(0 <= j <= w.len() && lang(a, w.take(j)) && lang(concat(b, c), w.skip(j)));
        }
        if lang(concat(a, concat(b, c)), w) {
            let j = choose|j: int|
                0 <= j <= w.len() && lang(a, #[trigger] w.take(j)) && lang(
                    concat(b, c),
                    w.skip(j),
                );
            let rest = w.skip(j);
            let i = choose|i: int|
                0 <= i <= rest.len() && lang(b, #[trigger] rest.take(i)) && lang(c, rest.skip(i));
            let k = j + i;
            let u = w.take(k);
            assert(u.take(j) =~= w.take(j));
            assert(u.skip(j) =~= rest.take(i));
            assert(w.skip(k) =~= rest.skip(i));
            assert(0 <= j <= u.len() && lang(a, u.take(j)) && lang(b, u.skip(j)));
            assert(lang(concat(a, b), u));
            assert(0 <= k <= w.len() && lang(concat(a, b), w.take(k)) && lang(c, w.skip(k)));
        }
    }
}

/// A pattern that matches only the empty string changes nothing in front
/// of another.
pub proof fn concat_drops_left(e: Pattern, b: Pattern)
    requires
        matches_nothing_else(e),
    ensures
        same_language(concat(e, b), b),
{
    assert forall|w: Seq<char>| #[trigger] lang(concat(e, b), w) == lang(b, w) by {
        if lang(concat(e, b), w) {
            let k = choose|k: int|
                0 <= k <= w.len() && lang(e, #[trigger] w.take(k)) && lang(b, w.skip(k));
            assert(lang(e, w.take(k)) == (w.take(k).len() == 0));
            assert(w.skip(k) =~= w);
        }
        if lang(b, w) {
            assert(lang(e, w.take(0)) == (w.take(0).len() == 0));
            assert(w.skip(0) =~= w);
            assert(0 <= 0 <= w.len() && lang(e, w.take(0)) && lang(b, w.skip(0)));
        }
    }
}

/// A pattern that matches only the empty string changes nothing behind
/// another.
pub proof fn concat_drops_right(a: Pattern, e: Pattern)
    requires
        matches_nothing_else(e),
    ensures
        same_language(concat(a, e), a),
{
    assert forall|w: Seq<char>| #[trigger] lang(concat(a, e), w) == lang(a, w) by {
        if lang(concat(a, e), w) {
            let k = choose|k: int|
                0 <= k <= w.len() && lang(a, #[trigger] w.take(k)) && lang(e, w.skip(k));
            assert(lang(e, w.skip(k)) == (w.skip(k).len() == 0));
            assert(w.take(k) =~= w);
        }
        if lang(a, w) {
            let k = w.len() as int;
            assert(lang(e, w.skip(k)) == (w.skip(k).len() == 0));
            assert(w.take(k) =~= w);
            assert(0 <= k <= w.len() && lang(a, w.take(k)) && lang(e, w.skip(k)));
        }
    }
}

/// Choice is associative.
pub proof fn either_regroups(a: Pattern, b: Pattern, c: Pattern)
    ensures
        same_language(either(either(a, b), c), either(a, either(b, c))),
{
    assert forall|w: Seq<char>| #[trigger]
        lang(either(either(a, b), c), w) == lang(either(a, either(b, c)), w) by {
        assert(lang(either(a, b), w) == (lang(a, w) || lang(b, w)));
        assert(lang(either(b, c), w) == (lang(b, w) || lang(c, w)));
    }
}

/// Two patterns that match only the empty string have the same language.
pub proof fn nothing_else_is_same(a: Pattern, b: Pattern)
    requires
        matches_nothing_else(a),
        matches_nothing_else(b),
    ensures
        same_language(a, b),
{
    assert forall|w: Seq<char>| #[trigger] lang(a, w) == lang(b, w) by {
        assert(lang(a, w) == (w.len() == 0));
        assert(lang(b, w) == (w.len() == 0));
    }
}

/// A pattern has the same language as itself.
pub proof fn same_language_self(a: Pattern)
    ensures
        same_language(a, a),
{
}

} // verus!
