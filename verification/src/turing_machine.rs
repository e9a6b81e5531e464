//! Deterministic Turing machines: a tape with a head, rules that write
//! and move, and the machine that follows them until it accepts or is
//! stuck.

use vstd::prelude::*;
use crate::search::{among, first_where, first_where_is, first_where_none, is_among};
use crate::text::copy_chars;

verus! {

/// The mathematical content of a tape: the cell under the head, the cells
/// to its left and to its right, nearest last on the left and nearest
/// first on the right, and the character of an unwritten cell.
pub struct TapeModel {
    pub left: Seq<char>,
    pub middle: char,
    pub right: Seq<char>,
    pub blank: char,
}

/// The tape `t` with `c` under the head.
pub open spec fn written(t: TapeModel, c: char) -> TapeModel {
    TapeModel { left: t.left, middle: c, right: t.right, blank: t.blank }
}

/// The tape `t` with the head one cell to the left; beyond the written
/// cells lies a blank.
pub open spec fn moved_left(t: TapeModel) -> TapeModel {
    TapeModel {
        left: if t.left.len() > 0 {
            t.left.drop_last()
        } else {
            t.left
        },
        middle: if t.left.len() > 0 {
            t.left.last()
        } else {
            t.blank
        },
        right: seq![t.middle] + t.right,
        blank: t.blank,
    }
}

/// The tape `t` with the head one cell to the right; beyond the written
/// cells lies a blank.
pub open spec fn moved_right(t: TapeModel) -> TapeModel {
    TapeModel {
        left: t.left.push(t.middle),
        middle: if t.right.len() > 0 {
            t.right[0]
        } else {
            t.blank
        },
        right: if t.right.len() > 0 {
            t.right.drop_first()
        } else {
            t.right
        },
        blank: t.blank,
    }
}

/// A tape with a head.
#[derive(Clone, PartialEq, Debug)]
pub struct Tape {
    pub left: Vec<char>,
    pub middle: char,
    pub right: Vec<char>,
    pub blank: char,
}

impl View for Tape {
    type V = TapeModel;

    open spec fn view(&self) -> TapeModel {
        TapeModel { left: self.left@, middle: self.middle, right: self.right@, blank: self.blank }
    }
}

impl Tape {
    pub fn new(left: Vec<char>, middle: char, right: Vec<char>, blank: char) -> (t: Self)
        ensures
            t@ == (TapeModel { left: left@, middle, right: right@, blank }),
    {
        Tape { left, middle, right, blank }
    }

    /// The tape with `character` under the head.
    pub fn write(&self, character: char) -> (t: Self)
        ensures
            t@ == written(self@, character),
    {
        Tape::new(copy_chars(&self.left), character, copy_chars(&self.right), self.blank)
    }

    /// The tape with the head one cell to the left.
    pub fn move_head_left(&self) -> (t: Self)
        ensures
            t@ == moved_left(self@),
    {
        let mut left = copy_chars(&self.left);
        let mut right = copy_chars(&self.right);
        let middle = if let Some(m) = left.pop() {
            m
        } else {
            self.blank
        };
        right.insert(0, self.middle);
        assert(right@ =~= seq![self.middle] + self.right@);
        Tape::new(left, middle, right, self.blank)
    }

    /// The tape with the head one cell to the right.
    pub fn move_head_right(&self) -> (t: Self)
        ensures
            t@ == moved_right(self@),
    {
        let mut left = copy_chars(&self.left);
        let mut right = copy_chars(&self.right);
        let middle = if right.len() > 0 {
            right[0]
        } else {
            self.blank
        };
        if right.len() > 0 {
            right.remove(0);
            assert(right@ =~= self.right@.drop_first());
        }
        left.push(self.middle);
        Tape::new(left, middle, right, self.blank)
    }
}

/// The mathematical content of a configuration: a state and a tape.
pub struct Moment {
    pub state: int,
    pub tape: TapeModel,
}

/// What a machine is in: a state, and a tape with its head.
#[derive(Clone, PartialEq, Debug)]
pub struct TMConfiguration {
    pub state: i32,
    pub tape: Tape,
}

impl View for TMConfiguration {
    type V = Moment;

    open spec fn view(&self) -> Moment {
        Moment { state: self.state as int, tape: self.tape@ }
    }
}

impl TMConfiguration {
    pub fn new(state: i32, tape: Tape) -> (c: Self)
        ensures
            c@ == (Moment { state: state as int, tape: tape@ }),
    {
        TMConfiguration { state, tape }
    }
}

/// Where the head moves.
#[derive(Clone, Copy, PartialEq, Eq, Debug)]
pub enum Direction {
    Right,
    Left,
}

/// The mathematical content of a rule: in `state`, reading `character`,
/// write `write_character`, move, and go to `next_state`.
pub struct Instruction {
    pub state: int,
    pub character: char,
    pub next_state: int,
    pub write_character: char,
    pub direction: Direction,
}

/// Whether the instruction `r` applies in the moment `m`.
pub open spec fn applies(r: Instruction, m: Moment) -> bool {
    r.state == m.state && r.character == m.tape.middle
}

/// The tape after following `r` in the moment `m`.
pub open spec fn next_tape_of(r: Instruction, m: Moment) -> TapeModel {
    match r.direction {
        Direction::Right => moved_right(written(m.tape, r.write_character)),
        Direction::Left => moved_left(written(m.tape, r.write_character)),
    }
}

/// The moment after following `r` in the moment `m`.
pub open spec fn followed(r: Instruction, m: Moment) -> Moment {
    Moment { state: r.next_state, tape: next_tape_of(r, m) }
}

/// The test for the instructions that apply in `m`.
pub open spec fn applying(m: Moment) -> spec_fn(Instruction) -> bool {
    |r: Instruction| applies(r, m)
}

/// The moment after one step: the first instruction that applies is
/// followed; none where none applies.
pub open spec fn stepped(rules: Seq<Instruction>, m: Moment) -> Option<Moment> {
    match first_where(rules, applying(m)) {
        Some(i) => Some(followed(rules[i], m)),
        None => None,
    }
}

/// The moment in which a machine stops, if it steps no more than `fuel`
/// times: it stops once it is in an accept state or no instruction
/// applies.
pub open spec fn run_within(
    rules: Seq<Instruction>,
    accept: Seq<i32>,
    m: Moment,
    fuel: nat,
) -> Option<Moment>
    decreases fuel,
{
    if among(accept, m.state) || stepped(rules, m) is None {
        Some(m)
    } else if fuel == 0 {
        None
    } else {
        run_within(rules, accept, stepped(rules, m).unwrap(), (fuel - 1) as nat)
    }
}

/// Whether the machine stops.
pub open spec fn stops(rules: Seq<Instruction>, accept: Seq<i32>, m: Moment) -> bool {
    exists|fuel: nat| #[trigger] run_within(rules, accept, m, fuel) is Some
}

/// The moment in which the machine stops, where it does.
pub open spec fn stopped(rules: Seq<Instruction>, accept: Seq<i32>, m: Moment) -> Moment {
    run_within(
        rules,
        accept,
        m,
        choose|fuel: nat| #[trigger] run_within(rules, accept, m, fuel) is Some,
    ).unwrap()
}

/// More fuel does not change where a machine stops.
pub proof fn fuel_is_enough(
    rules: Seq<Instruction>,
    accept: Seq<i32>,
    m: Moment,
    fuel: nat,
    more: nat,
)
    requires
        run_within(rules, accept, m, fuel) is Some,
        fuel <= more,
    ensures
        run_within(rules, accept, m, more) == run_within(rules, accept, m, fuel),
    decreases fuel,
{
    if !(among(accept, m.state) || stepped(rules, m) is None) {
        fuel_is_enough(
            rules,
            accept,
            stepped(rules, m).unwrap(),
            (fuel - 1) as nat,
            (more - 1) as nat,
        );
    }
}

/// Where the machine stops is what any sufficient fuel gives.
pub proof fn stopped_is(rules: Seq<Instruction>, accept: Seq<i32>, m: Moment, fuel: nat)
    requires
        run_within(rules, accept, m, fuel) is Some,
    ensures
        stops(rules, accept, m),
        run_within(rules, accept, m, fuel) == Some(stopped(rules, accept, m)),
{
    let chosen = choose|fuel: nat| #[trigger] run_within(rules, accept, m, fuel) is Some;
    if chosen <= fuel {
        fuel_is_enough(rules, accept, m, chosen, fuel);
    } else {
        fuel_is_enough(rules, accept, m, fuel, chosen);
    }
}

/// A rule of a Turing machine.
#[derive(Clone, PartialEq, Debug)]
pub struct TMRule {
    pub state: i32,
    pub character: char,
    pub next_state: i32,
    pub write_character: char,
    pub direction: Direction,
}

impl View for TMRule {
    type V = Instruction;

    open spec fn view(&self) -> Instruction {
        Instruction {
            state: self.state as int,
            character: self.character,
            next_state: self.next_state as int,
            write_character: self.write_character,
            direction: self.direction,
        }
    }
}

impl TMRule {
    pub fn new(
        state: i32,
        character: char,
        next_state: i32,
        write_character: char,
        direction: Direction,
    ) -> (r: Self)
        ensures
            r@ == (Instruction {
                state: state as int,
                character,
                next_state: next_state as int,
                write_character,
                direction,
            }),
    {
        TMRule { state, character, next_state, write_character, direction }
    }

    /// Whether the rule applies in `configuration`.
    pub fn applies_to(&self, configuration: &TMConfiguration) -> (b: bool)
        ensures
            b == applies(self@, configuration@),
    {
        self.state == configuration.state && self.character == configuration.tape.middle
    }

    /// The configuration after following the rule in `configuration`.
    pub fn follow(&self, configuration: &TMConfiguration) -> (next: TMConfiguration)
        ensures
            next@ == followed(self@, configuration@),
    {
        TMConfiguration::new(self.next_state, self.next_tape(configuration))
    }

    /// The tape after following the rule in `configuration`.
    pub fn next_tape(&self, configuration: &TMConfiguration) -> (tape: Tape)
        ensures
            tape@ == next_tape_of(self@, configuration@),
    {
        let written_tape = configuration.tape.write(self.write_character);
        match self.direction {
            Direction::Right => written_tape.move_head_right(),
            Direction::Left => written_tape.move_head_left(),
        }
    }

    /// A copy of the rule.
    pub fn duplicate(&self) -> (r: Self)
        ensures
            r@ == self@,
    {
        TMRule {
            state: self.state,
            character: self.character,
            next_state: self.next_state,
            write_character: self.write_character,
            direction: self.direction,
        }
    }
}

/// The contents of the rules in `rules`, in order.
pub open spec fn instructions(rules: Seq<TMRule>) -> Seq<Instruction> {
    rules.map_values(|r: TMRule| r@)
}

/// The rules of a deterministic Turing machine.
#[derive(Clone, PartialEq, Debug)]
pub struct DTMRulebook {
    pub rules: Vec<TMRule>,
}

impl View for DTMRulebook {
    type V = Seq<Instruction>;

    open spec fn view(&self) -> Seq<Instruction> {
        instructions(self.rules@)
    }
}

impl DTMRulebook {
    /// The configuration after one step from `configuration`.
    pub fn next_configuration(&self, configuration: &TMConfiguration) -> (next: TMConfiguration)
        requires
            stepped(self@, configuration@) is Some,
        ensures
            Some(next@) == stepped(self@, configuration@),
    {
        self.rule_for(configuration).unwrap().follow(configuration)
    }

    /// The first rule that applies in `configuration`, if any.
    pub fn rule_for(&self, configuration: &TMConfiguration) -> (found: Option<TMRule>)
        ensures
            match first_where(self@, applying(configuration@)) {
                Some(i) => found matches Some(r) && r@ == self@[i],
                None => found is None,
            },
    {
        let mut i: usize = 0;
        while i < self.rules.len()
            invariant
                i <= self.rules.len(),
                forall|j: int| 0 <= j < i ==> !applying(configuration@)(#[trigger] self@[j]),
            decreases self.rules.len() - i,
        {
            if self.rules[i].applies_to(configuration) {
                proof {
                    first_where_is(self@, applying(configuration@), i as int);
                }
                return Some(self.rules[i].duplicate());
            }
            i += 1;
        }
        proof {
            first_where_none(self@, applying(configuration@));
        }
        None
    }

    /// Whether a rule applies in `configuration`.
    pub fn applies_to(&self, configuration: &TMConfiguration) -> (b: bool)
        ensures
            b == stepped(self@, configuration@) is Some,
    {
        self.rule_for(configuration).is_some()
    }
}

/// A deterministic Turing machine.
#[derive(Debug)]
pub struct DTM {
    pub current_configuration: TMConfiguration,
    pub accept_states: Vec<i32>,
    pub rulebook: DTMRulebook,
}

impl DTM {
    /// Whether the machine is in an accept state.
    pub fn accepting(&self) -> (b: bool)
        ensures
            b == among(self.accept_states@, self.current_configuration@.state),
    {
        is_among(&self.accept_states, self.current_configuration.state)
    }

    /// One step of the machine.
    pub fn step(&mut self)
        requires
            stepped(old(self).rulebook@, old(self).current_configuration@) is Some,
        ensures
            Some(final(self).current_configuration@) == stepped(
                old(self).rulebook@,
                old(self).current_configuration@,
            ),
            final(self).accept_states == old(self).accept_states,
            final(self).rulebook == old(self).rulebook,
    {
        self.current_configuration = self.rulebook.next_configuration(&self.current_configuration);
    }

    /// Steps until the machine is in an accept state or is stuck.
    pub fn run(&mut self)
        requires
            stops(
                old(self).rulebook@,
                old(self).accept_states@,
                old(self).current_configuration@,
            ),
        ensures
            final(self).current_configuration@ == stopped(
                old(self).rulebook@,
                old(self).accept_states@,
                old(self).current_configuration@,
            ),
            final(self).accept_states == old(self).accept_states,
            final(self).rulebook == old(self).rulebook,
    {
        let ghost rules = self.rulebook@;
        let ghost accept = self.accept_states@;
        let ghost mut fuel = choose|fuel: nat| #[trigger]
            run_within(rules, accept, self.current_configuration@, fuel) is Some;
        proof {
            stopped_is(rules, accept, self.current_configuration@, fuel);
        }
        loop
            invariant
                rules == self.rulebook@,
                accept == self.accept_states@,
                self.accept_states == old(self).accept_states,
                self.rulebook == old(self).rulebook,
                run_within(rules, accept, self.current_configuration@, fuel) == Some(
                    stopped(rules, accept, old(self).current_configuration@),
                ),
            ensures
                self.current_configuration@ == stopped(
                    rules,
                    accept,
                    old(self).current_configuration@,
                ),
            decreases fuel,
        {
            if self.accepting() || self.is_stuck() {
                break;
            }
            self.step();
            proof {
                fuel = (fuel - 1) as nat;
            }
        }
    }

    /// Whether the machine is stuck: it is in no accept state and no rule
    /// applies.
    pub fn is_stuck(&self) -> (b: bool)
        ensures
            b == (!among(self.accept_states@, self.current_configuration@.state) && stepped(
                self.rulebook@,
                self.current_configuration@,
            ) is None),
    {
        !self.accepting() && !self.rulebook.applies_to(&self.current_configuration)
    }
}

} // verus!
