//! Nondeterministic pushdown automata: the automaton is in a set of
//! configurations at once, follows every rule that applies, and accepts
//! when one of its configurations is in an accept state.

use std::collections::HashSet;
use vstd::prelude::*;
use crate::pda::{
    applies, askable, copy_rules, followed, moves, starting, Move, PDAConfiguration,
    PDARule, Pushdown, Stack, NIL,
};
use crate::state::Member;
use crate::states::{id_set, id_set_empty, id_set_push, id_set_take_next, ids, States};
use crate::text::chars_of;

verus! {

broadcast use vstd::std_specs::hash::group_hash_axioms;

/// The configurations reached from a configuration of `configs` by a rule
/// that applies on `c`.
pub open spec fn reached(rules: Seq<Move>, configs: Set<Pushdown>, c: char) -> Set<Pushdown> {
    Set::new(
        |t: Pushdown|
            exists|i: int, m: Pushdown|
                0 <= i < rules.len() && configs.contains(m) && #[trigger] applies(rules[i], m, c)
                    && t == followed(rules[i], m),
    )
}

/// Whether the rules can be asked what applies in each configuration of
/// `configs`.
pub open spec fn all_askable(rules: Seq<Move>, configs: Set<Pushdown>) -> bool {
    forall|m: Pushdown| configs.contains(m) ==> #[trigger] askable(rules, m)
}

/// The configurations reached from `configs` by at most `n` free moves.
pub open spec fn free_upto(rules: Seq<Move>, configs: Set<Pushdown>, n: nat) -> Set<Pushdown>
    decreases n,
{
    if n == 0 {
        configs
    } else {
        let prev = free_upto(rules, configs, (n - 1) as nat);
        prev.union(reached(rules, prev, NIL))
    }
}

/// The configurations reached from `configs` by any number of free moves.
pub open spec fn free_closure(rules: Seq<Move>, configs: Set<Pushdown>) -> Set<Pushdown> {
    Set::new(|t: Pushdown| exists|n: nat| #[trigger] free_upto(rules, configs, n).contains(t))
}

/// Whether `n` rounds of free moves reach everything that free moves
/// reach from `configs`, and the rules can be asked all the way.
pub open spec fn closes_within(rules: Seq<Move>, configs: Set<Pushdown>, n: nat) -> bool {
    &&& all_askable(rules, free_upto(rules, configs, n))
    &&& reached(rules, free_upto(rules, configs, n), NIL).subset_of(
        free_upto(rules, configs, n),
    )
}

/// Whether the free moves from `configs` reach finitely far, and the
/// rules can be asked all the way.
pub open spec fn closes(rules: Seq<Move>, configs: Set<Pushdown>) -> bool {
    exists|n: nat| #[trigger] closes_within(rules, configs, n)
}

/// More rounds reach more.
pub proof fn free_upto_grows(rules: Seq<Move>, configs: Set<Pushdown>, n: nat, m: nat)
    requires
        n <= m,
    ensures
        free_upto(rules, configs, n).subset_of(free_upto(rules, configs, m)),
    decreases m,
{
    if n < m {
        free_upto_grows(rules, configs, n, (m - 1) as nat);
    }
}

/// Once a round adds nothing, no later round adds anything.
pub proof fn free_upto_stays(rules: Seq<Move>, configs: Set<Pushdown>, n: nat, m: nat)
    requires
        reached(rules, free_upto(rules, configs, n), NIL).subset_of(
            free_upto(rules, configs, n),
        ),
        n <= m,
    ensures
        free_upto(rules, configs, m) == free_upto(rules, configs, n),
    decreases m,
{
    if n < m {
        free_upto_stays(rules, configs, n, (m - 1) as nat);
        assert(free_upto(rules, configs, m) =~= free_upto(rules, configs, n));
    }
}

/// Once a round adds nothing, everything is reached.
pub proof fn free_closure_reached(rules: Seq<Move>, configs: Set<Pushdown>, n: nat)
    requires
        reached(rules, free_upto(rules, configs, n), NIL).subset_of(
            free_upto(rules, configs, n),
        ),
    ensures
        free_closure(rules, configs) == free_upto(rules, configs, n),
{
    let cur = free_upto(rules, configs, n);
    assert forall|t: Pushdown| free_closure(rules, configs).contains(t) implies cur.contains(
        t,
    ) by {
        let m = choose|m: nat| #[trigger] free_upto(rules, configs, m).contains(t);
        if m <= n {
            free_upto_grows(rules, configs, m, n);
        } else {
            free_upto_stays(rules, configs, n, m);
        }
    }
    assert(free_closure(rules, configs) =~= cur);
}

/// What is reached from a set with one more configuration.
pub proof fn reached_insert(rules: Seq<Move>, configs: Set<Pushdown>, q: Pushdown, c: char)
    ensures
        reached(rules, configs.insert(q), c) == reached(rules, configs, c).union(
            reached(rules, set![q], c),
        ),
{
    let lhs = reached(rules, configs.insert(q), c);
    let rhs = reached(rules, configs, c).union(reached(rules, set![q], c));
    assert forall|t: Pushdown| lhs.contains(t) implies rhs.contains(t) by {
        let (i, m) = choose|i: int, m: Pushdown|
            0 <= i < rules.len() && configs.insert(q).contains(m) && #[trigger] applies(
                rules[i],
                m,
                c,
            ) && t == followed(rules[i], m);
        if m == q {
            assert(set![q].contains(m));
            assert(reached(rules, set![q], c).contains(t));
        } else {
            assert(reached(rules, configs, c).contains(t));
        }
    }
    assert forall|t: Pushdown| rhs.contains(t) implies lhs.contains(t) by {
        if reached(rules, configs, c).contains(t) {
            let (i, m) = choose|i: int, m: Pushdown|
                0 <= i < rules.len() && configs.contains(m) && #[trigger] applies(rules[i], m, c)
                    && t == followed(rules[i], m);
            assert(configs.insert(q).contains(m));
        } else {
            let (i, m) = choose|i: int, m: Pushdown|
                0 <= i < rules.len() && set![q].contains(m) && #[trigger] applies(rules[i], m, c)
                    && t == followed(rules[i], m);
            assert(configs.insert(q).contains(m));
        }
    }
    assert(lhs =~= rhs);
}

/// Nothing is reached from no configuration.
pub proof fn reached_from_nothing(rules: Seq<Move>, c: char)
    ensures
        reached(rules, Set::<Pushdown>::empty(), c) == Set::<Pushdown>::empty(),
{
    assert(reached(rules, Set::<Pushdown>::empty(), c) =~= Set::<Pushdown>::empty());
}

/// The rules of `rules` that apply in `m` on `c`, in order.
pub open spec fn fitting(rules: Seq<Move>, m: Pushdown, c: char) -> Seq<Move>
    decreases rules.len(),
{
    if rules.len() == 0 {
        Seq::empty()
    } else {
        let init = fitting(rules.drop_last(), m, c);
        if applies(rules.last(), m, c) {
            init.push(rules.last())
        } else {
            init
        }
    }
}

/// The configurations after following each of `rules` in `m`, in order.
pub open spec fn follow_all(rules: Seq<Move>, m: Pushdown) -> Seq<Pushdown> {
    rules.map_values(|r: Move| followed(r, m))
}

/// Following the rules that apply in one configuration reaches what is
/// reached from it.
pub proof fn fitting_reaches(rules: Seq<Move>, m: Pushdown, c: char)
    ensures
        follow_all(fitting(rules, m, c), m).to_set() == reached(rules, set![m], c),
    decreases rules.len(),
{
    let lhs = follow_all(fitting(rules, m, c), m).to_set();
    let rhs = reached(rules, set![m], c);
    if rules.len() == 0 {
        assert(lhs =~= rhs);
    } else {
        let init = rules.drop_last();
        fitting_reaches(init, m, c);
        let f0 = fitting(init, m, c);
        let f = fitting(rules, m, c);
        assert forall|t: Pushdown| lhs.contains(t) implies rhs.contains(t) by {
            let j = choose|j: int| 0 <= j < follow_all(f, m).len() && follow_all(f, m)[j] == t;
            if j < f0.len() {
                assert(follow_all(f0, m)[j] == t);
                assert(follow_all(f0, m).to_set().contains(t));
                let (i, q) = choose|i: int, q: Pushdown|
                    0 <= i < init.len() && set![m].contains(q) && #[trigger] applies(
                        init[i],
                        q,
                        c,
                    ) && t == followed(init[i], q);
                assert(rules[i] == init[i]);
                assert(applies(rules[i], q, c));
            } else {
                assert(set![m].contains(m));
                assert(applies(rules[rules.len() - 1], m, c));
            }
        }
        assert forall|t: Pushdown| rhs.contains(t) implies lhs.contains(t) by {
            let (i, q) = choose|i: int, q: Pushdown|
                0 <= i < rules.len() && set![m].contains(q) && #[trigger] applies(rules[i], q, c)
                    && t == followed(rules[i], q);
            if i < rules.len() - 1 {
                assert(init[i] == rules[i]);
                assert(applies(init[i], q, c));
                assert(reached(init, set![m], c).contains(t));
                let j = choose|j: int|
                    0 <= j < follow_all(f0, m).len() && follow_all(f0, m)[j] == t;
                assert(follow_all(f, m)[j] == t);
            } else {
                assert(follow_all(f, m)[f.len() - 1] == t);
            }
        }
        assert(lhs =~= rhs);
    }
}

/// The rules of a nondeterministic pushdown automaton.
#[derive(Clone, Debug)]
pub struct NPDARulebook {
    pub rules: Vec<PDARule>,
}

impl View for NPDARulebook {
    type V = Seq<Move>;

    open spec fn view(&self) -> Seq<Move> {
        moves(self.rules@)
    }
}

impl NPDARulebook {
    /// The configurations reached from a configuration of
    /// `configurations` by a rule that applies on `character`.
    pub fn next_configurations(
        &self,
        configurations: &States<PDAConfiguration>,
        character: char,
    ) -> (next: States<PDAConfiguration>)
        requires
            all_askable(self@, configurations@),
        ensures
            next.wf(),
            next@ == reached(self@, configurations@, character),
    {
        let mut next: States<PDAConfiguration> = States::new();
        let mut i: usize = 0;
        proof {
            id_set_empty::<PDAConfiguration>();
            assert(configurations.elems().take(0) =~= Seq::empty());
            reached_from_nothing(self@, character);
        }
        while i < configurations.len()
            invariant
                i <= configurations.elems().len(),
                all_askable(self@, configurations@),
                next.wf(),
                next@ == reached(
                    self@,
                    id_set(configurations.elems().take(i as int)),
                    character,
                ),
            decreases configurations.elems().len() - i,
        {
            let c = configurations.get(i);
            proof {
                assert(ids(configurations.elems())[i as int] == c@);
                assert(configurations@.contains(c@));
            }
            let followed = self.follow_rules_for(c, character);
            let ghost before = next@;
            let mut j: usize = 0;
            proof {
                id_set_empty::<PDAConfiguration>();
                assert(followed@.take(0) =~= Seq::empty());
                assert(before.union(Set::<Pushdown>::empty()) =~= before);
            }
            while j < followed.len()
                invariant
                    j <= followed.len(),
                    next.wf(),
                    next@ == before.union(id_set(followed@.take(j as int))),
                decreases followed.len() - j,
            {
                proof {
                    id_set_take_next(followed@, j as int);
                }
                next.insert(followed[j].duplicate());
                assert(next@ =~= before.union(id_set(followed@.take(j as int + 1))));
                j += 1;
            }
            proof {
                assert(followed@.take(followed.len() as int) == followed@);
                id_set_take_next(configurations.elems(), i as int);
                reached_insert(
                    self@,
                    id_set(configurations.elems().take(i as int)),
                    c@,
                    character,
                );
            }
            i += 1;
        }
        proof {
            assert(configurations.elems().take(configurations.elems().len() as int)
                == configurations.elems());
        }
        next
    }

    /// The configurations after following each rule that applies in
    /// `configuration` on `character`.
    pub fn follow_rules_for(&self, configuration: &PDAConfiguration, character: char) -> (next:
        Vec<PDAConfiguration>)
        requires
            askable(self@, configuration@),
        ensures
            ids(next@) == follow_all(fitting(self@, configuration@, character), configuration@),
            id_set(next@) == reached(self@, set![configuration@], character),
    {
        let found = self.rules_for(configuration, character);
        let mut next: Vec<PDAConfiguration> = Vec::new();
        let mut i: usize = 0;
        assert(ids(next@) =~= follow_all(moves(found@).take(0), configuration@));
        while i < found.len()
            invariant
                i <= found.len(),
                ids(next@) == follow_all(moves(found@).take(i as int), configuration@),
            decreases found.len() - i,
        {
            let c = found[i].follow(configuration);
            proof {
                id_set_push(next@, c);
                assert(moves(found@).take(i as int + 1) == moves(found@).take(i as int).push(
                    found@[i as int]@,
                ));
                assert(follow_all(moves(found@).take(i as int + 1), configuration@)
                    =~= follow_all(moves(found@).take(i as int), configuration@).push(c@));
            }
            next.push(c);
            i += 1;
        }
        proof {
            assert(moves(found@).take(found.len() as int) == moves(found@));
            fitting_reaches(self@, configuration@, character);
        }
        next
    }

    /// The rules that apply in `configuration` on `character`, in the
    /// order of the rulebook.
    pub fn rules_for(&self, configuration: &PDAConfiguration, character: char) -> (found: Vec<
        PDARule,
    >)
        requires
            askable(self@, configuration@),
        ensures
            moves(found@) == fitting(self@, configuration@, character),
    {
        let mut found: Vec<PDARule> = Vec::new();
        let mut i: usize = 0;
        assert(self@.take(0) =~= Seq::empty());
        assert(moves(found@) =~= Seq::empty());
        while i < self.rules.len()
            invariant
                i <= self.rules.len(),
                askable(self@, configuration@),
                moves(found@) == fitting(self@.take(i as int), configuration@, character),
            decreases self.rules.len() - i,
        {
            proof {
                let next = self@.take(i as int + 1);
                assert(next.drop_last() == self@.take(i as int));
                assert(next.last() == self.rules@[i as int]@);
            }
            if self.rules[i].fits(configuration, character) {
                let rule = self.rules[i].duplicate();
                assert(moves(found@.push(rule)) =~= moves(found@).push(rule@));
                found.push(rule);
            }
            i += 1;
        }
        assert(self@.take(self.rules.len() as int) == self@);
        found
    }

    /// The configurations reached from `configurations` by any number of
    /// free moves.
    pub fn follow_free_moves(&self, configurations: &States<PDAConfiguration>) -> (closed: States<
        PDAConfiguration,
    >)
        requires
            configurations.wf(),
            closes(self@, configurations@),
        ensures
            closed.wf(),
            closed@ == free_closure(self@, configurations@),
            all_askable(self@, closed@),
    {
        let ghost rules = self@;
        let ghost seeds = configurations@;
        let ghost enough = choose|n: nat| #[trigger] closes_within(rules, seeds, n);
        let ghost mut rounds: nat = 0;
        let mut cur = configurations.duplicate();
        loop
            invariant
                rules == self@,
                seeds == configurations@,
                closes_within(rules, seeds, enough),
                rounds <= enough,
                cur.wf(),
                cur@ == free_upto(rules, seeds, rounds),
            decreases enough - rounds,
        {
            proof {
                free_upto_grows(rules, seeds, rounds, enough);
            }
            let more = self.next_configurations(&cur, NIL);
            if more.is_subset(&cur) {
                proof {
                    free_closure_reached(rules, seeds, rounds);
                }
                return cur;
            }
            assert(rounds < enough);
            cur.extend(&more);
            proof {
                rounds = rounds + 1;
            }
        }
    }
}

/// The configurations that the automaton holds after it has read `input`
/// from the held configurations `held`: before each symbol it follows the
/// free moves, then it reads the symbol.
pub open spec fn npda_read(rules: Seq<Move>, held: Set<Pushdown>, input: Seq<char>) -> Set<
    Pushdown,
>
    decreases input.len(),
{
    if input.len() == 0 {
        held
    } else {
        reached(
            rules,
            free_closure(rules, npda_read(rules, held, input.drop_last())),
            input.last(),
        )
    }
}

/// Whether reading `input` from `held` goes through: the free moves
/// before each symbol reach finitely far.
pub open spec fn readable(rules: Seq<Move>, held: Set<Pushdown>, input: Seq<char>) -> bool
    decreases input.len(),
{
    if input.len() == 0 {
        true
    } else {
        readable(rules, held, input.drop_last()) && closes(
            rules,
            npda_read(rules, held, input.drop_last()),
        )
    }
}

/// Whether a configuration reached from `held` by free moves is in an
/// accept state.
pub open spec fn npda_accepting(rules: Seq<Move>, accept: Set<i32>, held: Set<Pushdown>) -> bool {
    exists|m: Pushdown| #[trigger] free_closure(rules, held).contains(m) && marked(accept, m.state)
}

/// Whether `state` is one of the states in `accept`.
pub open spec fn marked(accept: Set<i32>, state: int) -> bool {
    exists|k: i32| #[trigger] accept.contains(k) && k as int == state
}

/// Whether `state` is one of the states in `accept`.
fn is_marked(accept: &HashSet<i32>, state: i32) -> (b: bool)
    ensures
        b == marked(accept@, state as int),
{
    let b = accept.contains(&state);
    proof {
        if b {
            assert(accept@.contains(state));
        }
    }
    b
}

/// A copy of a set of states.
fn copy_marks(accept: &HashSet<i32>) -> (copy: HashSet<i32>)
    ensures
        copy@ == accept@,
{
    let mut copy: HashSet<i32> = HashSet::new();
    for k in it: accept.iter()
        invariant
            it.seq().unref().to_set() == accept@,
            copy@ == it.seq().unref().take(it.index()).to_set(),
            it.seq().unref().take(it.seq().len() as int) =~= it.seq().unref(),
    {
        proof {
            let all = it.seq().unref();
            let i = it.index();
            assert(all.take(i + 1) =~= all.take(i).push(all[i]));
            all.take(i).lemma_push_to_set_commute(all[i]);
        }
        copy.insert(*k);
    }
    copy
}

/// A nondeterministic pushdown automaton that reads input.
#[derive(Debug)]
pub struct NPDA {
    pub current_configurations: States<PDAConfiguration>,
    pub accept_states: HashSet<i32>,
    pub rulebook: NPDARulebook,
}

impl NPDA {
    /// The held configurations are a set without repetition.
    pub open spec fn wf(&self) -> bool {
        self.current_configurations.wf()
    }

    /// Whether a configuration reached from the held ones by free moves
    /// is in an accept state.
    pub fn accepting(&self) -> (b: bool)
        requires
            self.wf(),
            closes(self.rulebook@, self.current_configurations@),
        ensures
            b == npda_accepting(
                self.rulebook@,
                self.accept_states@,
                self.current_configurations@,
            ),
    {
        let closed = self.get_current_configurations();
        let mut i: usize = 0;
        while i < closed.len()
            invariant
                i <= closed.elems().len(),
                closed@ == free_closure(self.rulebook@, self.current_configurations@),
                forall|j: int|
                    0 <= j < i ==> !marked(
                        self.accept_states@,
                        (#[trigger] ids(closed.elems())[j]).state,
                    ),
            decreases closed.elems().len() - i,
        {
            let c = closed.get(i);
            if is_marked(&self.accept_states, c.state) {
                proof {
                    assert(ids(closed.elems())[i as int] == c@);
                    assert(free_closure(
                        self.rulebook@,
                        self.current_configurations@,
                    ).contains(c@));
                }
                return true;
            }
            assert(ids(closed.elems())[i as int] == c@);
            i += 1;
        }
        proof {
            if npda_accepting(
                self.rulebook@,
                self.accept_states@,
                self.current_configurations@,
            ) {
                let m = choose|m: Pushdown| #[trigger]
                    free_closure(self.rulebook@, self.current_configurations@).contains(m)
                        && marked(self.accept_states@, m.state);
                let j = choose|j: int|
                    0 <= j < ids(closed.elems()).len() && ids(closed.elems())[j] == m;
                assert(!marked(self.accept_states@, ids(closed.elems())[j].state));
            }
        }
        false
    }

    /// Follows the free moves, then reads `character`.
    pub fn read_character(&mut self, character: char)
        requires
            old(self).wf(),
            closes(old(self).rulebook@, old(self).current_configurations@),
        ensures
            final(self).wf(),
            final(self).current_configurations@ == reached(
                old(self).rulebook@,
                free_closure(old(self).rulebook@, old(self).current_configurations@),
                character,
            ),
            final(self).accept_states == old(self).accept_states,
            final(self).rulebook == old(self).rulebook,
    {
        let closed = self.get_current_configurations();
        self.current_configurations = self.rulebook.next_configurations(&closed, character);
    }

    /// Reads `string` symbol by symbol; the result is a copy of the
    /// automaton as it then stands.
    pub fn read_string(&mut self, string: String) -> (copy: Self)
        requires
            old(self).wf(),
            readable(old(self).rulebook@, old(self).current_configurations@, string@),
        ensures
            final(self).wf(),
            final(self).current_configurations@ == npda_read(
                old(self).rulebook@,
                old(self).current_configurations@,
                string@,
            ),
            final(self).accept_states == old(self).accept_states,
            final(self).rulebook == old(self).rulebook,
            copy.wf(),
            copy.current_configurations@ == final(self).current_configurations@,
            copy.accept_states@ == final(self).accept_states@,
            copy.rulebook@ == final(self).rulebook@,
    {
        let chars = chars_of(string.as_str());
        let ghost rules = self.rulebook@;
        let ghost held = self.current_configurations@;
        let mut i: usize = 0;
        assert(string@.take(0) =~= Seq::empty());
        while i < chars.len()
            invariant
                i <= chars.len(),
                chars@ == string@,
                rules == self.rulebook@,
                self.wf(),
                readable(rules, held, string@),
                self.current_configurations@ == npda_read(rules, held, string@.take(i as int)),
                self.accept_states == old(self).accept_states,
                self.rulebook == old(self).rulebook,
            decreases chars.len() - i,
        {
            proof {
                let next = string@.take(i as int + 1);
                assert(next.drop_last() == string@.take(i as int));
                assert(next.last() == string@[i as int]);
                readable_so_far(rules, held, string@, i as int + 1);
            }
            self.read_character(chars[i]);
            i += 1;
        }
        assert(string@.take(chars.len() as int) == string@);
        NPDA {
            current_configurations: self.current_configurations.duplicate(),
            accept_states: copy_marks(&self.accept_states),
            rulebook: NPDARulebook { rules: copy_rules(&self.rulebook.rules) },
        }
    }

    /// The configurations reached from the held ones by free moves.
    pub fn get_current_configurations(&self) -> (closed: States<PDAConfiguration>)
        requires
            self.wf(),
            closes(self.rulebook@, self.current_configurations@),
        ensures
            closed.wf(),
            closed@ == free_closure(self.rulebook@, self.current_configurations@),
            all_askable(self.rulebook@, closed@),
    {
        self.rulebook.follow_free_moves(&self.current_configurations)
    }
}

/// Where reading the whole input goes through, reading its beginning
/// does.
pub proof fn readable_so_far(rules: Seq<Move>, held: Set<Pushdown>, input: Seq<char>, k: int)
    requires
        readable(rules, held, input),
        0 <= k <= input.len(),
    ensures
        readable(rules, held, input.take(k)),
    decreases input.len(),
{
    if k < input.len() {
        readable_so_far(rules, held, input.drop_last(), k);
        assert(input.drop_last().take(k) =~= input.take(k));
    } else {
        assert(input.take(k) =~= input);
    }
}

/// The design of a nondeterministic pushdown automaton.
#[derive(Debug)]
pub struct NPDADesign {
    pub start_state: i32,
    pub bottom_character: char,
    pub accept_states: HashSet<i32>,
    pub rulebook: NPDARulebook,
}

impl NPDADesign {
    /// Whether the automaton accepts `string`: after reading it, a
    /// configuration reached by free moves is in an accept state.
    pub fn accepts(&self, string: String) -> (b: bool)
        requires
            readable(
                self.rulebook@,
                set![starting(self.start_state, self.bottom_character)],
                string@,
            ),
            closes(
                self.rulebook@,
                npda_read(
                    self.rulebook@,
                    set![starting(self.start_state, self.bottom_character)],
                    string@,
                ),
            ),
        ensures
            b == npda_accepting(
                self.rulebook@,
                self.accept_states@,
                npda_read(
                    self.rulebook@,
                    set![starting(self.start_state, self.bottom_character)],
                    string@,
                ),
            ),
    {
        let mut npda = self.to_npda();
        npda.read_string(string);
        npda.accepting()
    }

    /// An automaton of this design in its start state, with the bottom
    /// character on its stack.
    pub fn to_npda(&self) -> (npda: NPDA)
        ensures
            npda.wf(),
            npda.current_configurations@ == set![
                starting(self.start_state, self.bottom_character),
            ],
            npda.accept_states@ == self.accept_states@,
            npda.rulebook@ == self.rulebook@,
    {
        let mut bottom: Vec<char> = Vec::new();
        bottom.push(self.bottom_character);
        let start_stack = Stack::new(bottom);
        assert(start_stack@ =~= seq![self.bottom_character]);
        let start_configuration = PDAConfiguration { state: self.start_state, stack: start_stack };
        let mut current_configurations: States<PDAConfiguration> = States::new();
        current_configurations.insert(start_configuration);
        assert(current_configurations@ =~= set![
            starting(self.start_state, self.bottom_character),
        ]);
        NPDA {
            current_configurations,
            accept_states: copy_marks(&self.accept_states),
            rulebook: NPDARulebook { rules: copy_rules(&self.rulebook.rules) },
        }
    }
}

} // verus!
