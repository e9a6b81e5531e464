//! Deterministic pushdown automata: a stack, rules that pop and push, and
//! the automaton that reads input. The automaton follows its free moves
//! before it reads a symbol, and is stuck once no rule applies.

use vstd::prelude::*;
use crate::rule::EPSILON;
use crate::search::{
    among, first_where, first_where_found, first_where_is, first_where_none, is_among,
};
use crate::state::Member;
use crate::text::{chars_of, copy_chars, push_char};

verus! {

/// The symbol of a free move.
pub const NIL: char = EPSILON;

/// The state of an automaton that is stuck.
pub const STUCK_STATE: i32 = -1;

/// A stack of characters; its view lists them from the bottom up.
#[derive(Clone, Eq, PartialEq, Debug)]
pub struct Stack {
    pub contents: Vec<char>,
}

impl View for Stack {
    type V = Seq<char>;

    open spec fn view(&self) -> Seq<char> {
        self.contents@
    }
}

/// The text that `Stack::inspect` yields: the top in round brackets, then
/// the rest from the top down.
pub open spec fn stack_text(s: Seq<char>) -> Seq<char> {
    "#<Stack ("@ + seq![s.last()] + seq![')'] + s.drop_last().reverse() + seq!['>']
}

/// The characters of `v` in reverse order.
fn reversed(v: &Vec<char>) -> (r: Vec<char>)
    ensures
        r@ == v@.reverse(),
{
    let mut r: Vec<char> = Vec::new();
    let mut i: usize = v.len();
    while i > 0
        invariant
            i <= v.len(),
            r.len() == v.len() - i,
            forall|j: int| 0 <= j < r.len() ==> r@[j] == v@[v.len() - 1 - j],
        decreases i,
    {
        i -= 1;
        r.push(v[i]);
    }
    assert(r@ =~= v@.reverse());
    r
}

impl Stack {
    /// The stack that holds `contents`, given from the top down.
    pub fn new(contents: Vec<char>) -> (s: Self)
        ensures
            s@ == contents@.reverse(),
    {
        Stack { contents: reversed(&contents) }
    }

    /// The stack with `character` on top.
    pub fn push(&self, character: char) -> (s: Self)
        ensures
            s@ == self@.push(character),
    {
        let mut contents = copy_chars(&self.contents);
        contents.push(character);
        Stack { contents }
    }

    /// The stack without its top; the empty stack stays empty.
    pub fn pop(&self) -> (s: Self)
        ensures
            s@ == popped(self@),
    {
        let mut contents = copy_chars(&self.contents);
        contents.pop();
        Stack { contents }
    }

    /// The character on top.
    pub fn top(&self) -> (c: char)
        requires
            self@.len() > 0,
        ensures
            c == self@.last(),
    {
        self.contents[self.contents.len() - 1]
    }

    /// A readable form of the stack.
    pub fn inspect(&self) -> (s: String)
        requires
            self@.len() > 0,
        ensures
            s@ == stack_text(self@),
    {
        let contents = reversed(&self.contents);
        let mut s = String::from_str("#<Stack (");
        push_char(&mut s, contents[0]);
        push_char(&mut s, ')');
        let ghost head = s@;
        let mut i: usize = 1;
        assert(contents@.subrange(1, 1) =~= Seq::empty());
        assert(head + Seq::<char>::empty() =~= head);
        while i < contents.len()
            invariant
                1 <= i <= contents.len(),
                s@ == head + contents@.subrange(1, i as int),
            decreases contents.len() - i,
        {
            push_char(&mut s, contents[i]);
            assert(contents@.subrange(1, i as int + 1) =~= contents@.subrange(1, i as int).push(
                contents@[i as int],
            ));
            assert(s@ =~= head + contents@.subrange(1, i as int + 1));
            i += 1;
        }
        push_char(&mut s, '>');
        proof {
            assert(contents@.subrange(1, contents.len() as int) =~= self@.drop_last().reverse());
            assert(s@ =~= stack_text(self@));
        }
        s
    }

    /// A copy of the stack.
    pub fn duplicate(&self) -> (s: Self)
        ensures
            s@ == self@,
    {
        Stack { contents: copy_chars(&self.contents) }
    }
}

/// The stack `s` without its top; the empty stack stays empty.
pub open spec fn popped(s: Seq<char>) -> Seq<char> {
    if s.len() > 0 {
        s.drop_last()
    } else {
        s
    }
}

/// The mathematical content of a configuration: a state and a stack.
pub struct Pushdown {
    pub state: int,
    pub stack: Seq<char>,
}

/// What an automaton is in: a state and a stack.
#[derive(Clone, Eq, PartialEq, Debug)]
pub struct PDAConfiguration {
    pub state: i32,
    pub stack: Stack,
}

impl View for PDAConfiguration {
    type V = Pushdown;

    open spec fn view(&self) -> Pushdown {
        Pushdown { state: self.state as int, stack: self.stack@ }
    }
}

/// The moment `m` with the state of a stuck automaton.
pub open spec fn stuck_of(m: Pushdown) -> Pushdown {
    Pushdown { state: STUCK_STATE as int, stack: m.stack }
}

impl PDAConfiguration {
    /// The state of an automaton that is stuck.
    pub const STUCK_STATE: i32 = STUCK_STATE;

    /// The configuration with the same stack in which the automaton is
    /// stuck.
    pub fn stuck(&self) -> (c: Self)
        ensures
            c@ == stuck_of(self@),
    {
        PDAConfiguration { state: STUCK_STATE, stack: self.stack.duplicate() }
    }

    /// Whether this is a configuration of a stuck automaton.
    pub fn is_stuck(&self) -> (b: bool)
        ensures
            b == (self@.state == STUCK_STATE),
    {
        self.state == STUCK_STATE
    }

}

impl Member for PDAConfiguration {
    fn same(&self, other: &Self) -> (b: bool) {
        if self.state != other.state || self.stack.contents.len() != other.stack.contents.len() {
            return false;
        }
        let mut i: usize = 0;
        while i < self.stack.contents.len()
            invariant
                i <= self.stack.contents.len(),
                self.stack.contents.len() == other.stack.contents.len(),
                forall|j: int| 0 <= j < i ==> self.stack@[j] == other.stack@[j],
            decreases self.stack.contents.len() - i,
        {
            if self.stack.contents[i] != other.stack.contents[i] {
                return false;
            }
            i += 1;
        }
        assert(self.stack@ =~= other.stack@);
        true
    }

    fn duplicate(&self) -> (c: Self) {
        PDAConfiguration { state: self.state, stack: self.stack.duplicate() }
    }
}

/// The mathematical content of a rule: in `state`, on `character`, with
/// `pop` on top of the stack, go to `next_state`, and put `push` in the
/// place of the top, its first character uppermost.
pub struct Move {
    pub state: int,
    pub character: char,
    pub next_state: int,
    pub pop: char,
    pub push: Seq<char>,
}

/// Whether the move `r` applies in `m` on `c`.
pub open spec fn applies(r: Move, m: Pushdown, c: char) -> bool {
    r.state == m.state && m.stack.len() > 0 && r.pop == m.stack.last() && r.character == c
}

/// The stack after the move `r` in `m`.
pub open spec fn next_stack_of(r: Move, m: Pushdown) -> Seq<char> {
    popped(m.stack) + r.push.reverse()
}

/// The moment after the move `r` in `m`.
pub open spec fn followed(r: Move, m: Pushdown) -> Pushdown {
    Pushdown { state: r.next_state, stack: next_stack_of(r, m) }
}

/// The test for the moves that apply in `m` on `c`.
pub open spec fn applying(m: Pushdown, c: char) -> spec_fn(Move) -> bool {
    |r: Move| applies(r, m, c)
}

/// Whether the rules can be asked what applies in `m`: the stack holds
/// something, or there is no rule to ask.
pub open spec fn askable(rules: Seq<Move>, m: Pushdown) -> bool {
    m.stack.len() > 0 || rules.len() == 0
}

/// A rule of a pushdown automaton.
#[derive(Clone, Eq, PartialEq, Debug)]
pub struct PDARule {
    pub state: i32,
    pub character: char,
    pub next_state: i32,
    pub pop_character: char,
    pub push_characters: Vec<char>,
}

impl View for PDARule {
    type V = Move;

    open spec fn view(&self) -> Move {
        Move {
            state: self.state as int,
            character: self.character,
            next_state: self.next_state as int,
            pop: self.pop_character,
            push: self.push_characters@,
        }
    }
}

impl PDARule {
    pub fn new(
        state: i32,
        character: char,
        next_state: i32,
        pop_character: char,
        push_characters: Vec<char>,
    ) -> (r: Self)
        ensures
            r@ == (Move {
                state: state as int,
                character,
                next_state: next_state as int,
                pop: pop_character,
                push: push_characters@,
            }),
    {
        PDARule { state, character, next_state, pop_character, push_characters }
    }

    /// Whether the rule applies in `configuration` on `character`.
    pub fn applies_to(&self, configuration: PDAConfiguration, character: char) -> (b: bool)
        requires
            configuration@.stack.len() > 0,
        ensures
            b == applies(self@, configuration@, character),
    {
        self.fits(&configuration, character)
    }

    /// Whether the rule applies in `configuration` on `character`.
    pub fn fits(&self, configuration: &PDAConfiguration, character: char) -> (b: bool)
        requires
            configuration@.stack.len() > 0,
        ensures
            b == applies(self@, configuration@, character),
    {
        self.state == configuration.state && self.pop_character == configuration.stack.top()
            && self.character == character
    }

    /// A copy of the rule.
    pub fn duplicate(&self) -> (r: Self)
        ensures
            r@ == self@,
    {
        PDARule {
            state: self.state,
            character: self.character,
            next_state: self.next_state,
            pop_character: self.pop_character,
            push_characters: copy_chars(&self.push_characters),
        }
    }

    /// The configuration after following the rule in `configuration`.
    pub fn follow(&self, configuration: &PDAConfiguration) -> (next: PDAConfiguration)
        ensures
            next@ == followed(self@, configuration@),
    {
        PDAConfiguration { state: self.next_state, stack: self.next_stack(configuration) }
    }

    /// The stack after following the rule in `configuration`.
    pub fn next_stack(&self, configuration: &PDAConfiguration) -> (stack: Stack)
        ensures
            stack@ == next_stack_of(self@, configuration@),
    {
        let mut popped_stack = configuration.stack.pop();
        let push_characters = reversed(&self.push_characters);
        let mut i: usize = 0;
        assert(push_characters@.take(0) =~= Seq::empty());
        assert(popped_stack@ + Seq::<char>::empty() =~= popped_stack@);
        while i < push_characters.len()
            invariant
                i <= push_characters.len(),
                popped_stack@ == popped(configuration@.stack) + push_characters@.take(i as int),
            decreases push_characters.len() - i,
        {
            popped_stack = popped_stack.push(push_characters[i]);
            assert(push_characters@.take(i as int + 1) =~= push_characters@.take(i as int).push(
                push_characters@[i as int],
            ));
            assert(popped_stack@ =~= popped(configuration@.stack) + push_characters@.take(
                i as int + 1,
            ));
            i += 1;
        }
        assert(push_characters@.take(push_characters.len() as int) == push_characters@);
        popped_stack
    }
}

/// The contents of the rules in `rules`, in order.
pub open spec fn moves(rules: Seq<PDARule>) -> Seq<Move> {
    rules.map_values(|r: PDARule| r@)
}

/// The moment after the first rule that applies in `m` on `c`; none where
/// no rule applies.
pub open spec fn moved(rules: Seq<Move>, m: Pushdown, c: char) -> Option<Pushdown> {
    match first_where(rules, applying(m, c)) {
        Some(i) => Some(followed(rules[i], m)),
        None => None,
    }
}

/// The moment in which the free moves from `m` end, if there are no more
/// than `fuel` of them and the rules can be asked all the way.
pub open spec fn settle_within(rules: Seq<Move>, m: Pushdown, fuel: nat) -> Option<Pushdown>
    decreases fuel,
{
    if !askable(rules, m) {
        None
    } else {
        match moved(rules, m, NIL) {
            None => Some(m),
            Some(next) => if fuel == 0 {
                None
            } else {
                settle_within(rules, next, (fuel - 1) as nat)
            },
        }
    }
}

/// Whether the free moves from `m` end.
pub open spec fn settles(rules: Seq<Move>, m: Pushdown) -> bool {
    exists|fuel: nat| #[trigger] settle_within(rules, m, fuel) is Some
}

/// The moment in which the free moves from `m` end, where they do.
pub open spec fn settled(rules: Seq<Move>, m: Pushdown) -> Pushdown {
    settle_within(rules, m, choose|fuel: nat| #[trigger] settle_within(rules, m, fuel) is Some)
        .unwrap()
}

/// More fuel does not change where the free moves end.
pub proof fn fuel_is_enough(rules: Seq<Move>, m: Pushdown, fuel: nat, more: nat)
    requires
        settle_within(rules, m, fuel) is Some,
        fuel <= more,
    ensures
        settle_within(rules, m, more) == settle_within(rules, m, fuel),
    decreases fuel,
{
    if let Some(next) = moved(rules, m, NIL) {
        fuel_is_enough(rules, next, (fuel - 1) as nat, (more - 1) as nat);
    }
}

/// Where the free moves end is what any sufficient fuel gives; the rules
/// can be asked there, and no free move applies.
pub proof fn settled_is(rules: Seq<Move>, m: Pushdown, fuel: nat)
    requires
        settle_within(rules, m, fuel) is Some,
    ensures
        settles(rules, m),
        settle_within(rules, m, fuel) == Some(settled(rules, m)),
        askable(rules, settled(rules, m)),
        moved(rules, settled(rules, m), NIL) is None,
    decreases fuel,
{
    let chosen = choose|fuel: nat| #[trigger] settle_within(rules, m, fuel) is Some;
    if chosen <= fuel {
        fuel_is_enough(rules, m, chosen, fuel);
    } else {
        fuel_is_enough(rules, m, fuel, chosen);
    }
    if let Some(next) = moved(rules, m, NIL) {
        settled_is(rules, next, (fuel - 1) as nat);
    }
}

/// The moment after the automaton in `m` reads `c`: it follows its free
/// moves, then the rule that applies, or is stuck where none does. None
/// where the free moves do not end.
pub open spec fn read_one(rules: Seq<Move>, m: Pushdown, c: char) -> Option<Pushdown> {
    if settles(rules, m) {
        match moved(rules, settled(rules, m), c) {
            Some(next) => Some(next),
            None => Some(stuck_of(settled(rules, m))),
        }
    } else {
        None
    }
}

/// The moment after the automaton in `m` reads `input`; it stops reading
/// once it is stuck. None where free moves do not end on the way.
pub open spec fn read_all(rules: Seq<Move>, m: Pushdown, input: Seq<char>) -> Option<Pushdown>
    decreases input.len(),
{
    if input.len() == 0 {
        Some(m)
    } else {
        match read_one(rules, m, input[0]) {
            None => None,
            Some(next) => if !settles(rules, next) {
                None
            } else if settled(rules, next).state == STUCK_STATE {
                Some(next)
            } else {
                read_all(rules, next, input.drop_first())
            },
        }
    }
}

/// The rules of a deterministic pushdown automaton.
#[derive(Clone, Debug)]
pub struct DPDARuleBook {
    pub rules: Vec<PDARule>,
}

impl View for DPDARuleBook {
    type V = Seq<Move>;

    open spec fn view(&self) -> Seq<Move> {
        moves(self.rules@)
    }
}

impl DPDARuleBook {
    /// The configuration after the rule that applies in `configuration`
    /// on `character`.
    pub fn next_configuration(&self, configuration: &PDAConfiguration, character: char) -> (next:
        PDAConfiguration)
        requires
            moved(self@, configuration@, character) is Some,
        ensures
            Some(next@) == moved(self@, configuration@, character),
    {
        proof {
            first_where_found(self@, applying(configuration@, character));
        }
        self.rule_for(configuration, character).unwrap().follow(configuration)
    }

    /// Whether a rule applies in `configuration` on `character`.
    pub fn applies_to(&self, configuration: &PDAConfiguration, character: char) -> (b: bool)
        requires
            askable(self@, configuration@),
        ensures
            b == moved(self@, configuration@, character) is Some,
    {
        self.rule_for(configuration, character).is_some()
    }

    /// The first rule that applies in `configuration` on `character`, if
    /// any.
    pub fn rule_for(&self, configuration: &PDAConfiguration, character: char) -> (found: Option<
        &PDARule,
    >)
        requires
            askable(self@, configuration@),
        ensures
            match first_where(self@, applying(configuration@, character)) {
                Some(i) => found matches Some(r) && r@ == self@[i],
                None => found is None,
            },
    {
        let mut i: usize = 0;
        while i < self.rules.len()
            invariant
                i <= self.rules.len(),
                askable(self@, configuration@),
                forall|j: int|
                    0 <= j < i ==> !applying(configuration@, character)(#[trigger] self@[j]),
            decreases self.rules.len() - i,
        {
            if self.rules[i].fits(configuration, character) {
                proof {
                    first_where_is(self@, applying(configuration@, character), i as int);
                }
                return Some(&self.rules[i]);
            }
            i += 1;
        }
        proof {
            first_where_none(self@, applying(configuration@, character));
        }
        None
    }

    /// The configuration in which the free moves from `configuration`
    /// end.
    pub fn follow_free_moves(&self, configuration: &PDAConfiguration) -> (end: PDAConfiguration)
        requires
            settles(self@, configuration@),
        ensures
            end@ == settled(self@, configuration@),
    {
        let ghost fuel = choose|fuel: nat| #[trigger]
            settle_within(self@, configuration@, fuel) is Some;
        self.settle(configuration, Ghost(fuel))
    }

    /// Follows the free moves, of which there are no more than `fuel`.
    fn settle(&self, configuration: &PDAConfiguration, Ghost(fuel): Ghost<nat>) -> (end:
        PDAConfiguration)
        requires
            settle_within(self@, configuration@, fuel) is Some,
        ensures
            end@ == settled(self@, configuration@),
        decreases fuel,
    {
        proof {
            settled_is(self@, configuration@, fuel);
        }
        if self.applies_to(configuration, NIL) {
            let next = self.next_configuration(configuration, NIL);
            proof {
                settled_is(self@, next@, (fuel - 1) as nat);
            }
            self.settle(&next, Ghost((fuel - 1) as nat))
        } else {
            configuration.duplicate()
        }
    }
}

/// A deterministic pushdown automaton that reads input.
#[derive(Clone, Debug)]
pub struct DPDA {
    pub current_configuration: PDAConfiguration,
    pub accept_states: Vec<i32>,
    pub rulebook: DPDARuleBook,
}

impl DPDA {
    /// The configuration after the automaton reads `character`.
    pub fn next_configuration(&self, character: char) -> (next: PDAConfiguration)
        requires
            settles(self.rulebook@, self.current_configuration@),
        ensures
            Some(next@) == read_one(self.rulebook@, self.current_configuration@, character),
    {
        let current_configuration = self.get_current_configuration();
        if self.rulebook.applies_to(&current_configuration, character) {
            self.rulebook.next_configuration(&current_configuration, character)
        } else {
            current_configuration.stuck()
        }
    }

    /// Whether the free moves lead the automaton to an accept state.
    pub fn accepting(&self) -> (b: bool)
        requires
            settles(self.rulebook@, self.current_configuration@),
        ensures
            b == among(
                self.accept_states@,
                settled(self.rulebook@, self.current_configuration@).state,
            ),
    {
        let state = self.get_current_configuration().state;
        is_among(&self.accept_states, state)
    }

    /// Whether the free moves lead the automaton to where it is stuck.
    pub fn is_stuck(&self) -> (b: bool)
        requires
            settles(self.rulebook@, self.current_configuration@),
        ensures
            b == (settled(self.rulebook@, self.current_configuration@).state == STUCK_STATE),
    {
        self.get_current_configuration().is_stuck()
    }

    /// Reads `character`.
    pub fn read_character(&mut self, character: char)
        requires
            settles(old(self).rulebook@, old(self).current_configuration@),
        ensures
            Some(final(self).current_configuration@) == read_one(
                old(self).rulebook@,
                old(self).current_configuration@,
                character,
            ),
            final(self).accept_states == old(self).accept_states,
            final(self).rulebook == old(self).rulebook,
    {
        self.current_configuration = self.next_configuration(character);
    }

    /// Reads `string` symbol by symbol, until the end or until the
    /// automaton is stuck.
    pub fn read_string(&mut self, string: String)
        requires
            settles(old(self).rulebook@, old(self).current_configuration@),
            read_all(old(self).rulebook@, old(self).current_configuration@, string@) is Some,
        ensures
            Some(final(self).current_configuration@) == read_all(
                old(self).rulebook@,
                old(self).current_configuration@,
                string@,
            ),
            final(self).accept_states == old(self).accept_states,
            final(self).rulebook == old(self).rulebook,
    {
        let chars = chars_of(string.as_str());
        let ghost rules = self.rulebook@;
        let ghost wanted = read_all(rules, self.current_configuration@, string@);
        let mut i: usize = 0;
        assert(string@.skip(0) =~= string@);
        while i < chars.len()
            invariant_except_break
                settles(rules, self.current_configuration@),
                read_all(rules, self.current_configuration@, string@.skip(i as int)) == wanted,
            invariant
                i <= chars.len(),
                chars@ == string@,
                rules == self.rulebook@,
                self.accept_states == old(self).accept_states,
                self.rulebook == old(self).rulebook,
                wanted is Some,
            ensures
                i < chars.len() ==> Some(self.current_configuration@) == wanted,
                i == chars.len() ==> read_all(
                    rules,
                    self.current_configuration@,
                    string@.skip(i as int),
                ) == wanted,
            decreases chars.len() - i,
        {
            let ghost rest = string@.skip(i as int);
            proof {
                assert(rest[0] == string@[i as int]);
                assert(rest.drop_first() =~= string@.skip(i as int + 1));
            }
            self.read_character(chars[i]);
            if self.get_current_configuration().is_stuck() {
                break;
            }
            i += 1;
        }
        proof {
            if i == chars.len() {
                assert(string@.skip(i as int).len() == 0);
            }
        }
    }

    /// The configuration in which the free moves of the automaton end.
    pub fn get_current_configuration(&self) -> (end: PDAConfiguration)
        requires
            settles(self.rulebook@, self.current_configuration@),
        ensures
            end@ == settled(self.rulebook@, self.current_configuration@),
            askable(self.rulebook@, end@),
    {
        proof {
            let fuel = choose|fuel: nat| #[trigger]
                settle_within(self.rulebook@, self.current_configuration@, fuel) is Some;
            settled_is(self.rulebook@, self.current_configuration@, fuel);
        }
        self.rulebook.follow_free_moves(&self.current_configuration)
    }
}

/// The moment in which an automaton of the given design starts.
pub open spec fn starting(start_state: i32, bottom_character: char) -> Pushdown {
    Pushdown { state: start_state as int, stack: seq![bottom_character] }
}

/// Whether reading `input` from `m` goes through: every run of free moves
/// on the way ends, those at the start and at the end too.
pub open spec fn reads_through(rules: Seq<Move>, m: Pushdown, input: Seq<char>) -> bool {
    &&& settles(rules, m)
    &&& read_all(rules, m, input) is Some
    &&& settles(rules, read_all(rules, m, input).unwrap())
}

/// The design of a deterministic pushdown automaton.
#[derive(Debug)]
pub struct DPDADesign {
    pub start_state: i32,
    pub bottom_character: char,
    pub accept_states: Vec<i32>,
    pub rulebook: DPDARuleBook,
}

impl DPDADesign {
    /// Whether the automaton accepts `string`: after reading it, its free
    /// moves lead to an accept state.
    pub fn accepts(&self, string: String) -> (b: bool)
        requires
            reads_through(
                self.rulebook@,
                starting(self.start_state, self.bottom_character),
                string@,
            ),
        ensures
            b == among(
                self.accept_states@,
                settled(
                    self.rulebook@,
                    read_all(
                        self.rulebook@,
                        starting(self.start_state, self.bottom_character),
                        string@,
                    ).unwrap(),
                ).state,
            ),
    {
        let mut dpda = self.to_dpda();
        dpda.read_string(string);
        dpda.accepting()
    }

    /// An automaton of this design in its start state, with the bottom
    /// character on its stack.
    pub fn to_dpda(&self) -> (dpda: DPDA)
        ensures
            dpda.current_configuration@ == starting(self.start_state, self.bottom_character),
            dpda.accept_states@ == self.accept_states@,
            dpda.rulebook@ == self.rulebook@,
    {
        let mut bottom: Vec<char> = Vec::new();
        bottom.push(self.bottom_character);
        let start_configuration = PDAConfiguration {
            state: self.start_state,
            stack: Stack::new(bottom),
        };
        assert(start_configuration.stack@ =~= seq![self.bottom_character]);
        DPDA {
            current_configuration: start_configuration,
            accept_states: copy_states(&self.accept_states),
            rulebook: DPDARuleBook { rules: copy_rules(&self.rulebook.rules) },
        }
    }
}

/// A copy of a list of states.
fn copy_states(v: &Vec<i32>) -> (r: Vec<i32>)
    ensures
        r@ == v@,
{
    let mut r: Vec<i32> = Vec::new();
    let mut i: usize = 0;
    while i < v.len()
        invariant
            i <= v.len(),
            r@ == v@.take(i as int),
        decreases v.len() - i,
    {
        r.push(v[i]);
        i += 1;
    }
    assert(v@.take(v.len() as int) == v@);
    r
}

/// A copy of a list of rules.
pub fn copy_rules(v: &Vec<PDARule>) -> (r: Vec<PDARule>)
    ensures
        moves(r@) == moves(v@),
{
    let mut r: Vec<PDARule> = Vec::new();
    let mut i: usize = 0;
    assert(moves(r@) =~= moves(v@.take(0)));
    while i < v.len()
        invariant
            i <= v.len(),
            moves(r@) == moves(v@.take(i as int)),
        decreases v.len() - i,
    {
        let rule = PDARule {
            state: v[i].state,
            character: v[i].character,
            next_state: v[i].next_state,
            pop_character: v[i].pop_character,
            push_characters: copy_chars(&v[i].push_characters),
        };
        proof {
            assert(v@.take(i as int + 1) == v@.take(i as int).push(v@[i as int]));
            assert(moves(r@.push(rule)) =~= moves(r@).push(rule@));
            assert(moves(v@.take(i as int).push(v@[i as int])) =~= moves(v@.take(i as int)).push(
                v@[i as int]@,
            ));
        }
        r.push(rule);
        i += 1;
    }
    assert(v@.take(v.len() as int) == v@);
    r
}

} // verus!
