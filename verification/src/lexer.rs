//! A lexical analyzer for the small imperative language: it cuts source
//! text into tokens, each found by an anchored regular expression.

use vstd::prelude::*;
use vstd::utf8::encode_utf8;
use crate::text::{chars_of, push_char};

verus! {

#[verifier::external_type_specification]
#[verifier::external_body]
pub struct ExRegex(regex::Regex);

#[verifier::external_type_specification]
#[verifier::external_body]
pub struct ExRegexError(regex::Error);

/// The text of the leftmost match of the regular expression with the
/// source text `pattern` in `text`, as the `regex` crate finds it; none
/// where nothing matches.
pub uninterp spec fn leading_match(pattern: Seq<char>, text: Seq<char>) -> Option<Seq<char>>;

/// Whether the regular expression with the source text `pattern`
/// compiles, as the `regex` crate decides: the text is a pattern, and the
/// compiled expression is not too large.
pub uninterp spec fn compiles(pattern: Seq<char>) -> bool;

/// Whether `c` has the Unicode property White_Space: the controls from
/// tab to carriage return, the space, the next-line control, the
/// no-break space, and the spaces and separators of the general
/// punctuation and beyond.
pub open spec fn white_space(c: char) -> bool {
    ||| '\u{9}' <= c <= '\u{d}'
    ||| c == ' '
    ||| c == '\u{85}'
    ||| c == '\u{a0}'
    ||| c == '\u{1680}'
    ||| '\u{2000}' <= c <= '\u{200a}'
    ||| c == '\u{2028}'
    ||| c == '\u{2029}'
    ||| c == '\u{202f}'
    ||| c == '\u{205f}'
    ||| c == '\u{3000}'
}

/// A compiled regular expression, with the source text it was compiled
/// from. The view is the source text.
#[derive(Debug)]
pub struct Compiled {
    source: String,
    regex: regex::Regex,
}

impl View for Compiled {
    type V = Seq<char>;

    closed spec fn view(&self) -> Seq<char> {
        self.source@
    }
}

/// Compiles a regular expression.
///
/// Trusted: this is `Regex::new` of the `regex` crate, which compiles the
/// source text or returns an error for a text that is no pattern or is
/// too large; which of the two depends on the source text alone. The
/// result holds the source text beside the compiled expression; nothing
/// else makes a `Compiled`.
#[verifier::external_body]
fn compile(source: &str) -> (r: Result<Compiled, regex::Error>)
    ensures
        r is Ok <==> compiles(source@),
        r matches Ok(c) ==> c@ == source@,
{
    match regex::Regex::new(source) {
        Ok(regex) => Ok(Compiled { source: source.to_string(), regex }),
        Err(e) => Err(e),
    }
}

/// The text of the leftmost match of `pattern` in `text`.
///
/// Trusted: this is `Regex::captures` of the `regex` crate, then group 0
/// of the captures, which is the whole match and is always there, and its
/// text (`Captures::get`, `Match::as_str`). What is found depends on the
/// compiled expression and on `text` alone; the expression was compiled
/// from the source text that is the view of `pattern`.
#[verifier::external_body]
fn find_first(pattern: &Compiled, text: &str) -> (found: Option<String>)
    ensures
        match found {
            Some(t) => leading_match(pattern@, text@) == Some(t@),
            None => leading_match(pattern@, text@) is None,
        },
{
    match pattern.regex.captures(text) {
        Some(captures) => Some(captures.get(0).unwrap().as_str().to_string()),
        None => None,
    }
}

/// Whether `c` is white space.
///
/// Trusted: this is `char::is_whitespace` of the standard library, which
/// tells whether the character has the Unicode property White_Space; the
/// characters with that property are those that `white_space` lists.
#[verifier::external_body]
fn is_space(c: char) -> (b: bool)
    ensures
        b == white_space(c),
{
    c.is_whitespace()
}

/// Why a text could not be cut into tokens.
#[derive(Debug, Clone, Copy, PartialEq, Eq, Structural)]
pub enum LexicalError {
    /// The source text of a rule is no regular expression.
    InvalidPattern,
    /// No rule matches the text that is left.
    NoMatch,
    /// The longest match does not stand at the start of the text that is
    /// left.
    MatchNotAtStart,
}

/// A rule of the analyzer: the token for the text that the pattern
/// matches.
#[derive(Debug)]
pub struct GrammarRule {
    pub token: char,
    pub pattern: Compiled,
}

impl View for GrammarRule {
    type V = (char, Seq<char>);

    open spec fn view(&self) -> (char, Seq<char>) {
        (self.token, self.pattern@)
    }
}

impl GrammarRule {
    /// The rule that gives `token` to what `pattern` matches; an error
    /// where `pattern` does not compile.
    pub fn new(token: char, pattern: &str) -> (r: Result<Self, LexicalError>)
        ensures
            match r {
                Ok(rule) => compiles(pattern@) && rule@ == (token, pattern@),
                Err(e) => !compiles(pattern@) && e == LexicalError::InvalidPattern,
            },
    {
        match compile(pattern) {
            Ok(compiled) => Ok(GrammarRule { token, pattern: compiled }),
            Err(_) => Err(LexicalError::InvalidPattern),
        }
    }
}

/// The rules in `rules` as tokens with the source texts of their
/// patterns.
pub open spec fn rule_views(rules: Seq<GrammarRule>) -> Seq<(char, Seq<char>)> {
    rules.map_values(|r: GrammarRule| r@)
}

/// The candidates with their texts, in order.
pub open spec fn candidate_views(candidates: Seq<(char, String)>) -> Seq<(char, Seq<char>)> {
    candidates.map_values(|c: (char, String)| (c.0, c.1@))
}

/// The rules of the small language: its keywords and signs, each
/// anchored at the start of the text, then numbers and names.
pub open spec fn grammar_table() -> Seq<(char, Seq<char>)> {
    seq![
        ('i', "\\Aif"@),
        ('e', "\\Aelse"@),
        ('w', "\\Awhile"@),
        ('d', "\\Ado-nothing"@),
        ('b', "\\Atrue"@),
        ('(', "\\A\\("@),
        (')', "\\A\\)"@),
        ('{', "\\A\\{"@),
        ('}', "\\A\\}"@),
        (';', "\\A;"@),
        ('=', "\\A="@),
        ('+', "\\A\\+"@),
        ('*', "\\A\\*"@),
        ('<', "\\A<"@),
        ('n', "\\A[0-9]+"@),
        ('v', "\\A[a-z]+"@),
    ]
}

/// Whether every pattern of the rules of the small language compiles.
pub open spec fn table_compiles() -> bool {
    forall|i: int|
        0 <= i < grammar_table().len() ==> compiles((#[trigger] grammar_table()[i]).1)
}

/// The tokens and source texts in `table`, in order.
pub open spec fn table_views(table: Seq<(char, &'static str)>) -> Seq<(char, Seq<char>)> {
    table.map_values(|e: (char, &'static str)| (e.0, e.1@))
}

/// The length of a text in bytes, as the machine counts it.
pub open spec fn weight(text: Seq<char>) -> usize {
    encode_utf8(text).len() as usize
}

/// The position of the heaviest candidate; of several that are equally
/// heavy, the last.
pub open spec fn heaviest(candidates: Seq<(char, Seq<char>)>) -> int
    decreases candidates.len(),
{
    if candidates.len() <= 1 {
        0
    } else {
        let best = heaviest(candidates.drop_last());
        if weight(candidates.last().1) >= weight(candidates[best].1) {
            candidates.len() - 1
        } else {
            best
        }
    }
}

/// The token for a matched text: the token of its keyword where the text
/// is a keyword, else the token of the rule that matched.
pub open spec fn token_for(token: char, text: Seq<char>) -> char {
    if text == "if"@ {
        'i'
    } else if text == "else"@ {
        'e'
    } else if text == "while"@ {
        'w'
    } else if text == "do-nothing"@ {
        'd'
    } else if text == "true"@ {
        'b'
    } else if text == "false"@ {
        'b'
    } else {
        token
    }
}

/// The candidates that the rules give for `code`: for each rule whose
/// pattern matches something that is not empty, its token and the text
/// matched.
pub open spec fn candidates_of(grammar: Seq<(char, Seq<char>)>, code: Seq<char>) -> Seq<
    (char, Seq<char>),
>
    decreases grammar.len(),
{
    if grammar.len() == 0 {
        Seq::empty()
    } else {
        let init = candidates_of(grammar.drop_last(), code);
        match leading_match(grammar.last().1, code) {
            Some(text) => if text.len() > 0 {
                init.push((grammar.last().0, text))
            } else {
                init
            },
            None => init,
        }
    }
}

/// The text `s` without the white space at its start.
pub open spec fn trimmed(s: Seq<char>) -> Seq<char>
    decreases s.len(),
{
    if s.len() > 0 && white_space(s[0]) {
        trimmed(s.drop_first())
    } else {
        s
    }
}

/// Trimming does not make a text longer.
pub proof fn trimmed_is_shorter(s: Seq<char>)
    ensures
        trimmed(s).len() <= s.len(),
    decreases s.len(),
{
    if s.len() > 0 && white_space(s[0]) {
        trimmed_is_shorter(s.drop_first());
    }
}

/// The next token of `code` and the text left behind it: the heaviest
/// candidate decides, its text is taken from the start of `code`, and
/// the white space behind it is skipped.
pub open spec fn token_step(grammar: Seq<(char, Seq<char>)>, code: Seq<char>) -> Result<
    (char, Seq<char>),
    LexicalError,
> {
    let candidates = candidates_of(grammar, code);
    if candidates.len() == 0 {
        Err(LexicalError::NoMatch)
    } else {
        let (token, text) = candidates[heaviest(candidates)];
        if text.is_prefix_of(code) {
            Ok((token_for(token, text), trimmed(code.skip(text.len() as int))))
        } else {
            Err(LexicalError::MatchNotAtStart)
        }
    }
}

/// The tokens of `code`, in order; the first error where a token cannot
/// be found.
pub open spec fn tokens_of(grammar: Seq<(char, Seq<char>)>, code: Seq<char>) -> Result<
    Seq<char>,
    LexicalError,
>
    decreases code.len(),
{
    if code.len() == 0 {
        Ok(Seq::empty())
    } else {
        match token_step(grammar, code) {
            Err(e) => Err(e),
            Ok((token, rest)) => if rest.len() < code.len() {
                match tokens_of(grammar, rest) {
                    Ok(more) => Ok(seq![token] + more),
                    Err(e) => Err(e),
                }
            } else {
                Err(LexicalError::NoMatch)
            },
        }
    }
}

/// Every candidate has a text that is not empty.
pub proof fn candidates_have_text(grammar: Seq<(char, Seq<char>)>, code: Seq<char>)
    ensures
        forall|i: int|
            0 <= i < candidates_of(grammar, code).len() ==> (#[trigger] candidates_of(
                grammar,
                code,
            )[i]).1.len() > 0,
    decreases grammar.len(),
{
    if grammar.len() > 0 {
        candidates_have_text(grammar.drop_last(), code);
        let init = candidates_of(grammar.drop_last(), code);
        let all = candidates_of(grammar, code);
        assert forall|i: int| 0 <= i < all.len() implies (#[trigger] all[i]).1.len() > 0 by {
            if i < init.len() {
                assert(all[i] == init[i]);
            }
        }
    }
}

/// The heaviest candidate is one of the candidates.
pub proof fn heaviest_is_there(candidates: Seq<(char, Seq<char>)>)
    requires
        candidates.len() > 0,
    ensures
        0 <= heaviest(candidates) < candidates.len(),
    decreases candidates.len(),
{
    if candidates.len() > 1 {
        heaviest_is_there(candidates.drop_last());
    }
}

/// A step leaves less text than it found.
pub proof fn step_makes_progress(grammar: Seq<(char, Seq<char>)>, code: Seq<char>)
    ensures
        token_step(grammar, code) matches Ok((_, rest)) ==> rest.len() < code.len(),
{
    let candidates = candidates_of(grammar, code);
    if candidates.len() > 0 {
        heaviest_is_there(candidates);
        candidates_have_text(grammar, code);
        let (token, text) = candidates[heaviest(candidates)];
        if text.is_prefix_of(code) {
            trimmed_is_shorter(code.skip(text.len() as int));
        }
    }
}

/// Text that is being cut into tokens, and the rules that find them.
#[derive(Debug)]
pub struct LexicalAnalyzer {
    pub code: String,
    pub grammar: Vec<GrammarRule>,
}

impl LexicalAnalyzer {
    /// The tokens of the small language, each with the source text of its
    /// pattern.
    fn table() -> (t: Vec<(char, &'static str)>)
        ensures
            table_views(t@) == grammar_table(),
    {
        let mut t: Vec<(char, &'static str)> = Vec::new();
        t.push(('i', "\\Aif"));
        t.push(('e', "\\Aelse"));
        t.push(('w', "\\Awhile"));
        t.push(('d', "\\Ado-nothing"));
        t.push(('b', "\\Atrue"));
        t.push(('(', "\\A\\("));
        t.push((')', "\\A\\)"));
        t.push(('{', "\\A\\{"));
        t.push(('}', "\\A\\}"));
        t.push((';', "\\A;"));
        t.push(('=', "\\A="));
        t.push(('+', "\\A\\+"));
        t.push(('*', "\\A\\*"));
        t.push(('<', "\\A<"));
        t.push(('n', "\\A[0-9]+"));
        t.push(('v', "\\A[a-z]+"));
        assert(table_views(t@) =~= grammar_table());
        t
    }

    /// The rules of the small language; an error where one of their
    /// patterns does not compile.
    pub fn grammars() -> (r: Result<Vec<GrammarRule>, LexicalError>)
        ensures
            match r {
                Ok(rules) => table_compiles() && rule_views(rules@) == grammar_table(),
                Err(e) => !table_compiles() && e == LexicalError::InvalidPattern,
            },
    {
        let table = Self::table();
        let mut rules: Vec<GrammarRule> = Vec::new();
        let mut i: usize = 0;
        assert(rule_views(rules@) =~= grammar_table().take(0));
        while i < table.len()
            invariant
                i <= table.len(),
                table_views(table@) == grammar_table(),
                rule_views(rules@) == grammar_table().take(i as int),
                forall|j: int| 0 <= j < i ==> compiles((#[trigger] grammar_table()[j]).1),
            decreases table.len() - i,
        {
            assert(table_views(table@)[i as int] == (table@[i as int].0, table@[i as int].1@));
            match GrammarRule::new(table[i].0, table[i].1) {
                Ok(rule) => {
                    proof {
                        assert(table_views(table@).len() == table@.len());
                        assert(rule@ == grammar_table()[i as int]);
                        assert(rule_views(rules@.push(rule)) =~= rule_views(rules@).push(rule@));
                        assert(grammar_table().take(i as int + 1) =~= grammar_table().take(
                            i as int,
                        ).push(grammar_table()[i as int]));
                    }
                    rules.push(rule);
                },
                Err(e) => {
                    assert(!compiles(grammar_table()[i as int].1));
                    return Err(e);
                },
            }
            i += 1;
        }
        assert(grammar_table().take(table.len() as int) =~= grammar_table());
        Ok(rules)
    }

    /// The analyzer of `code` with the rules of the small language; an
    /// error where one of their patterns does not compile.
    pub fn new(code: String) -> (r: Result<Self, LexicalError>)
        ensures
            match r {
                Ok(analyzer) => table_compiles() && analyzer.code@ == code@ && rule_views(
                    analyzer.grammar@,
                ) == grammar_table(),
                Err(e) => !table_compiles() && e == LexicalError::InvalidPattern,
            },
    {
        match Self::grammars() {
            Ok(grammar) => Ok(LexicalAnalyzer { code, grammar }),
            Err(e) => Err(e),
        }
    }

    /// Cuts the text that is left into tokens.
    pub fn analyze(&mut self) -> (r: Result<Vec<char>, LexicalError>)
        ensures
            match r {
                Ok(tokens) => tokens_of(rule_views(old(self).grammar@), old(self).code@) == Ok::<
                    Seq<char>,
                    LexicalError,
                >(tokens@) && final(self).code@.len() == 0,
                Err(e) => tokens_of(rule_views(old(self).grammar@), old(self).code@) == Err::<
                    Seq<char>,
                    LexicalError,
                >(e),
            },
            final(self).grammar == old(self).grammar,
    {
        let ghost grammar = rule_views(self.grammar@);
        let ghost whole = tokens_of(grammar, self.code@);
        let mut tokens: Vec<char> = Vec::new();
        while self.more_tokens()
            invariant
                self.grammar == old(self).grammar,
                grammar == rule_views(self.grammar@),
                whole == tokens_of(grammar, old(self).code@),
                match tokens_of(grammar, self.code@) {
                    Ok(more) => whole == Ok::<Seq<char>, LexicalError>(tokens@ + more),
                    Err(e) => whole == Err::<Seq<char>, LexicalError>(e),
                },
            decreases self.code@.len(),
        {
            proof {
                step_makes_progress(grammar, self.code@);
            }
            let ghost before = tokens@;
            match self.next_token() {
                Ok(token) => {
                    tokens.push(token);
                    proof {
                        if let Ok(more) = tokens_of(grammar, self.code@) {
                            assert(before + (seq![token] + more) =~= tokens@ + more);
                        }
                    }
                },
                Err(e) => {
                    return Err(e);
                },
            }
        }
        assert(tokens@ + Seq::<char>::empty() =~= tokens@);
        Ok(tokens)
    }

    /// Whether text is left.
    pub fn more_tokens(&self) -> (b: bool)
        ensures
            b == (self.code@.len() > 0),
    {
        !self.code.as_str().is_empty()
    }

    /// The next token; the text that is left afterwards starts behind it
    /// and the white space that follows it.
    pub fn next_token(&mut self) -> (r: Result<char, LexicalError>)
        ensures
            match r {
                Ok(token) => token_step(rule_views(old(self).grammar@), old(self).code@) == Ok::<
                    (char, Seq<char>),
                    LexicalError,
                >((token, final(self).code@)),
                Err(e) => token_step(rule_views(old(self).grammar@), old(self).code@) == Err::<
                    (char, Seq<char>),
                    LexicalError,
                >(e) && final(self).code == old(self).code,
            },
            final(self).grammar == old(self).grammar,
    {
        let (token, ma) = match self.rule_matching(self.code.clone()) {
            Ok(found) => found,
            Err(e) => {
                return Err(e);
            },
        };
        if !starts_with(&self.code, &ma) {
            return Err(LexicalError::MatchNotAtStart);
        }
        self.code = self.string_after(ma);
        Ok(token)
    }

    /// The token and the text of the heaviest match of a rule in `code`.
    pub fn rule_matching(&self, code: String) -> (r: Result<(char, String), LexicalError>)
        ensures
            match r {
                Ok(found) => {
                    let candidates = candidates_of(rule_views(self.grammar@), code@);
                    &&& candidates.len() > 0
                    &&& found.0 == token_for(
                        candidates[heaviest(candidates)].0,
                        candidates[heaviest(candidates)].1,
                    )
                    &&& found.1@ == candidates[heaviest(candidates)].1
                },
                Err(e) => candidates_of(rule_views(self.grammar@), code@).len() == 0 && e
                    == LexicalError::NoMatch,
            },
    {
        let ghost grammar = rule_views(self.grammar@);
        let mut candidates: Vec<(char, String)> = Vec::new();
        let mut i: usize = 0;
        assert(grammar.take(0) =~= Seq::empty());
        assert(candidate_views(candidates@) =~= Seq::empty());
        while i < self.grammar.len()
            invariant
                i <= self.grammar.len(),
                grammar == rule_views(self.grammar@),
                candidate_views(candidates@) == candidates_of(grammar.take(i as int), code@),
            decreases self.grammar.len() - i,
        {
            proof {
                let next = grammar.take(i as int + 1);
                assert(next.drop_last() == grammar.take(i as int));
                assert(next.last() == self.grammar@[i as int]@);
            }
            match find_first(&self.grammar[i].pattern, code.as_str()) {
                Some(text) => {
                    if !text.as_str().is_empty() {
                        let candidate = (self.grammar[i].token, text);
                        assert(candidate_views(candidates@.push(candidate)) =~= candidate_views(
                            candidates@,
                        ).push((candidate.0, candidate.1@)));
                        candidates.push(candidate);
                    }
                },
                None => {},
            }
            i += 1;
        }
        assert(grammar.take(self.grammar.len() as int) == grammar);
        if candidates.len() == 0 {
            Err(LexicalError::NoMatch)
        } else {
            proof {
                heaviest_is_there(candidate_views(candidates@));
            }
            Ok(self.rule_with_longest_match(candidates))
        }
    }

    /// The token and the text of the heaviest of `candidates`; of several
    /// that are equally heavy, the last. A keyword gets its own token.
    pub fn rule_with_longest_match(&self, candidates: Vec<(char, String)>) -> (found: (
        char,
        String,
    ))
        requires
            candidates.len() > 0,
        ensures
            found.0 == token_for(
                candidates@[heaviest(candidate_views(candidates@))].0,
                candidates@[heaviest(candidate_views(candidates@))].1@,
            ),
            found.1@ == candidates@[heaviest(candidate_views(candidates@))].1@,
    {
        let mut best: usize = 0;
        let mut i: usize = 1;
        let ghost views = candidate_views(candidates@);
        assert(views.take(1).len() == 1);
        while i < candidates.len()
            invariant
                1 <= i <= candidates.len(),
                views == candidate_views(candidates@),
                best < i,
                best == heaviest(views.take(i as int)),
            decreases candidates.len() - i,
        {
            proof {
                let next = views.take(i as int + 1);
                assert(next.drop_last() == views.take(i as int));
                assert(next.last() == views[i as int]);
                assert(next[best as int] == views[best as int]);
                assert(views.take(i as int)[best as int] == views[best as int]);
            }
            if candidates[i].1.as_str().len() >= candidates[best].1.as_str().len() {
                best = i;
            }
            i += 1;
        }
        assert(views.take(candidates.len() as int) == views);
        let token = candidates[best].0;
        let text = candidates[best].1.clone();
        let token = if same_text(&text, "if") {
            'i'
        } else if same_text(&text, "else") {
            'e'
        } else if same_text(&text, "while") {
            'w'
        } else if same_text(&text, "do-nothing") {
            'd'
        } else if same_text(&text, "true") {
            'b'
        } else if same_text(&text, "false") {
            'b'
        } else {
            token
        };
        (token, text)
    }

    /// The text that is left behind `ma`, which stands at the start of
    /// the text, without the white space at its start.
    pub fn string_after(&self, ma: String) -> (rest: String)
        requires
            ma@.is_prefix_of(self.code@),
        ensures
            rest@ == trimmed(self.code@.skip(ma@.len() as int)),
    {
        let code = chars_of(self.code.as_str());
        let skip = chars_of(ma.as_str()).len();
        let mut i: usize = skip;
        while i < code.len() && is_space(code[i])
            invariant
                skip <= i <= code.len(),
                code@ == self.code@,
                trimmed(code@.skip(i as int)) == trimmed(code@.skip(skip as int)),
            decreases code.len() - i,
        {
            assert(code@.skip(i as int).drop_first() =~= code@.skip(i as int + 1));
            i += 1;
        }
        let mut rest = String::new();
        let ghost start = i;
        assert(code@.subrange(start as int, start as int) =~= Seq::empty());
        while i < code.len()
            invariant
                start <= i <= code.len(),
                rest@ == code@.subrange(start as int, i as int),
            decreases code.len() - i,
        {
            push_char(&mut rest, code[i]);
            assert(code@.subrange(start as int, i as int + 1) =~= code@.subrange(
                start as int,
                i as int,
            ).push(code@[i as int]));
            i += 1;
        }
        assert(code@.subrange(start as int, code.len() as int) =~= code@.skip(start as int));
        rest
    }
}

/// Whether `text` is exactly `word`.
fn same_text(text: &String, word: &str) -> (b: bool)
    ensures
        b == (text@ == word@),
{
    let a = chars_of(text.as_str());
    let b = chars_of(word);
    if a.len() != b.len() {
        return false;
    }
    let mut i: usize = 0;
    while i < a.len()
        invariant
            i <= a.len(),
            a.len() == b.len(),
            a@ == text@,
            b@ == word@,
            forall|j: int| 0 <= j < i ==> a@[j] == b@[j],
        decreases a.len() - i,
    {
        if a[i] != b[i] {
            assert(text@[i as int] != word@[i as int]);
            return false;
        }
        i += 1;
    }
    assert(a@ =~= b@);
    true
}

/// Whether `start` stands at the start of `text`.
fn starts_with(text: &String, start: &String) -> (b: bool)
    ensures
        b == start@.is_prefix_of(text@),
{
    let a = chars_of(text.as_str());
    let b = chars_of(start.as_str());
    if b.len() > a.len() {
        return false;
    }
    let mut i: usize = 0;
    while i < b.len()
        invariant
            i <= b.len(),
            b.len() <= a.len(),
            a@ == text@,
            b@ == start@,
            forall|j: int| 0 <= j < i ==> a@[j] == b@[j],
        decreases b.len() - i,
    {
        if a[i] != b[i] {
            assert(a@.subrange(0, b@.len() as int)[i as int] == a@[i as int]);
            return false;
        }
        i += 1;
    }
    assert(b@ =~= a@.subrange(0, b@.len() as int));
    true
}

} // verus!
