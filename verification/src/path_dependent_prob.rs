use vstd::prelude::*;
use crate::card::Card;
use crate::path_dependent_collective_constraint::{ActionInfo, PathDependentCollectiveConstraint, keeps_three,
    redraws_learned, lemma_redraws_learned_trans, lemma_redraws_learned_take, dead_from_history,
    lemma_start_dead_from_history, lemma_dead_from_history_learned, impossible_consistent, impossible_entry,
    lemma_start_impossible_consistent, copy_of};
use crate::path_dependent_collective_constraint::replay::move_added;

verus! {

/// The kinds of observed actions the card-count manager tells apart.
#[derive(Clone, Copy, Debug, PartialEq, Eq, Structural)]
pub enum AOName {
    Discard,
    RevealRedraw,
    ExchangeChoice,
    Other,
}

/// What the manager reads of an observed public action: its kind, its player, and the cards
/// it shows (the discarded cards, or the revealed card first).
#[derive(Clone, Debug)]
pub struct ActionObservation {
    pub name: AOName,
    pub player_id: usize,
    pub cards: Vec<Card>,
}

impl ActionObservation {
    pub fn new(name: AOName, player_id: usize, cards: Vec<Card>) -> (r: Self)
        ensures
            r.name == name,
            r.player_id == player_id,
            r.cards@ == cards@,
    {
        ActionObservation { name, player_id, cards }
    }

    pub fn name(&self) -> (r: AOName)
        ensures r == self.name,
    {
        self.name
    }

    pub fn player_id(&self) -> (r: usize)
        ensures r == self.player_id,
    {
        self.player_id
    }

    /// How many cards the action shows.
    pub fn no_cards(&self) -> (r: usize)
        ensures r == self.cards@.len(),
    {
        self.cards.len()
    }

    pub fn cards(&self) -> (r: &Vec<Card>)
        ensures r@ == self.cards@,
    {
        &self.cards
    }

    /// The first card shown.
    pub fn card(&self) -> (r: Card)
        requires
            self.cards@.len() >= 1,
        ensures
            r == self.cards@[0],
    {
        self.cards[0]
    }
}

/// Whether recording `ao` adds a state: a discard of one or two cards, a reveal, or an
/// exchange.
pub open spec fn adds_state(ao: ActionObservation) -> bool {
    ||| ao.name == AOName::Discard && (ao.cards@.len() == 1 || ao.cards@.len() == 2)
    ||| ao.name == AOName::RevealRedraw
    ||| ao.name == AOName::ExchangeChoice
}

/// How many moves recording `ao` adds to the history of the latest state.
pub open spec fn moves_added(ao: ActionObservation) -> int {
    if ao.name == AOName::Discard { ao.cards@.len() as int } else { 1 }
}

/// The last move in a history after recording `ao`: by the player of `ao`, the last
/// discarded card, the revealed card with nothing known of the redraw, or an exchange with
/// nothing known of the cards.
pub open spec fn last_move_recorded(s: PathDependentCollectiveConstraint, ao: ActionObservation) -> bool {
    let m = s.history_view().last();
    &&& m.player_spec() == ao.player_id
    &&& ao.name == AOName::Discard ==> m.info_spec() == (ActionInfo::Discard { discard: ao.cards@.last() })
    &&& ao.name == AOName::RevealRedraw ==> m.info_spec() == (ActionInfo::RevealRedraw {
        reveal: ao.cards@[0], redraw: None, relinquish: None })
    &&& ao.name == AOName::ExchangeChoice ==> (m.info_spec() matches ActionInfo::ExchangeDrawChoice { draw, relinquish }
        && draw@.len() == 0 && relinquish@.len() == 0)
}

/// `after` is a copy of `before` with the move(s) of `ao` added by `add_move`: one discard per
/// discarded card, the reveal with nothing known of the redraw, or the exchange with nothing
/// known of the cards.
pub open spec fn recorded_from(after: PathDependentCollectiveConstraint, before: PathDependentCollectiveConstraint,
    ao: ActionObservation) -> bool
{
    let p = ao.player_id as u8;
    if ao.name == AOName::Discard && ao.cards@.len() == 1 {
        exists|m: PathDependentCollectiveConstraint| #[trigger] copy_of(m, before)
            && move_added(after, m, p, ActionInfo::Discard { discard: ao.cards@[0] })
    } else if ao.name == AOName::Discard && ao.cards@.len() == 2 {
        exists|m1: PathDependentCollectiveConstraint, m2: PathDependentCollectiveConstraint| #[trigger] copy_of(m1, before)
            && #[trigger] move_added(m2, m1, p, ActionInfo::Discard { discard: ao.cards@[0] })
            && move_added(after, m2, p, ActionInfo::Discard { discard: ao.cards@[1] })
    } else if ao.name == AOName::RevealRedraw {
        exists|m: PathDependentCollectiveConstraint| #[trigger] copy_of(m, before)
            && move_added(after, m, p, ActionInfo::RevealRedraw { reveal: ao.cards@[0], redraw: None, relinquish: None })
    } else if ao.name == AOName::ExchangeChoice {
        exists|m: PathDependentCollectiveConstraint, info: ActionInfo| #[trigger] copy_of(m, before)
            && #[trigger] move_added(after, m, p, info)
            && (info matches ActionInfo::ExchangeDrawChoice { draw, relinquish } && draw@.len() == 0 && relinquish@.len() == 0)
    } else {
        false
    }
}

/// The manager after recording an action from `(h0, m0, n0)`: the counter goes up by one and,
/// when a state is added, it comes after the others, numbered with the old counter.
pub open spec fn push_outcome(h1: Seq<PathDependentCollectiveConstraint>, m1: Seq<usize>, n1: int,
    h0: Seq<PathDependentCollectiveConstraint>, m0: Seq<usize>, n0: int, added: bool) -> bool
{
    &&& n1 == n0 + 1
    &&& added ==> h1.len() == h0.len() + 1 && h1.subrange(0, h0.len() as int) == h0 && m1 == m0.push(n0 as usize)
    &&& !added ==> h1 == h0 && m1 == m0
}

/// The manager after taking back the last action: the counter goes down by one (never below
/// one), and the last state is dropped when it was numbered with the new counter.
pub open spec fn pop_result(h: Seq<PathDependentCollectiveConstraint>, m: Seq<usize>, n: int)
    -> (Seq<PathDependentCollectiveConstraint>, Seq<usize>, int)
{
    if n > 1 {
        if m.len() > 0 && m.last() == n - 1 {
            (h.drop_last(), m.drop_last(), n - 1)
        } else {
            (h, m, n - 1)
        }
    } else {
        (h, m, n)
    }
}

/// Move numbers stored in increasing order, all below the counter.
pub open spec fn numbered_below(m: Seq<usize>, n: int) -> bool {
    &&& forall|i: int, j: int| 0 <= i < j < m.len() ==> m[i] < m[j]
    &&& forall|i: int| 0 <= i < m.len() ==> #[trigger] m[i] < n
}

/// Taking back an action just recorded restores the manager: the counter, the stored states
/// and their move numbers are as before.
pub proof fn lemma_pop_undoes_push(h1: Seq<PathDependentCollectiveConstraint>, m1: Seq<usize>, n1: int,
    h0: Seq<PathDependentCollectiveConstraint>, m0: Seq<usize>, n0: int, added: bool)
    requires
        1 <= n0 < usize::MAX,
        numbered_below(m0, n0),
        push_outcome(h1, m1, n1, h0, m0, n0, added),
    ensures
        pop_result(h1, m1, n1) == (h0, m0, n0),
{
    if added {
        assert(m1.drop_last() =~= m0);
        assert(h1.drop_last() =~= h0) by {
            assert(h1.drop_last() =~= h1.subrange(0, h0.len() as int));
        }
    } else if m1.len() > 0 {
        assert(m1.last() < n0);
    }
}

/// The states of the game after each recorded public action, with the move number of each,
/// and a counter of moves.
pub struct PathDependentCardCountManager {
    constraint_history: Vec<PathDependentCollectiveConstraint>,
    constraint_history_move_no: Vec<usize>,
    move_no: usize,
}

impl PathDependentCardCountManager {
    pub closed spec fn states(&self) -> Seq<PathDependentCollectiveConstraint> {
        self.constraint_history@
    }

    pub closed spec fn move_numbers(&self) -> Seq<usize> {
        self.constraint_history_move_no@
    }

    pub closed spec fn counter(&self) -> int {
        self.move_no as int
    }

    /// Every stored state is well formed, its dead cards are those its history records, and
    /// its impossibility table is the one its facts give; the counter is at least one and the
    /// stored move numbers increase and stay below it.
    pub closed spec fn wf(&self) -> bool {
        &&& forall|i: int| 0 <= i < self.constraint_history@.len() ==> (#[trigger] self.constraint_history@[i]).wf()
            && dead_from_history(self.constraint_history@[i])
            && impossible_consistent(self.constraint_history@[i])
        &&& self.move_no >= 1
        &&& numbered_below(self.constraint_history_move_no@, self.move_no as int)
    }

    /// The counter is at least one, and the stored move numbers increase and stay below it.
    pub proof fn lemma_numbers_below_counter(&self)
        requires
            self.wf(),
        ensures
            self.counter() >= 1,
            numbered_below(self.move_numbers(), self.counter()),
    {
    }

    /// Recording an action and then taking it back restores the manager: its states, their
    /// move numbers and its counter.
    pub proof fn lemma_push_then_pop(before: &PathDependentCardCountManager, pushed: &PathDependentCardCountManager,
        added: bool)
        requires
            before.wf(),
            before.counter() < usize::MAX,
            push_outcome(pushed.states(), pushed.move_numbers(), pushed.counter(), before.states(), before.move_numbers(),
                before.counter(), added),
        ensures
            pop_result(pushed.states(), pushed.move_numbers(), pushed.counter())
                == (before.states(), before.move_numbers(), before.counter()),
    {
        lemma_pop_undoes_push(pushed.states(), pushed.move_numbers(), pushed.counter(), before.states(),
            before.move_numbers(), before.counter(), added);
    }

    /// Every stored state's impossibility table is the one its facts give.
    pub proof fn lemma_impossibilities_follow_facts(&self, i: int)
        requires
            self.wf(),
            0 <= i < self.states().len(),
        ensures
            impossible_consistent(self.states()[i]),
    {
    }

    /// Every stored state's dead cards are those its history records.
    pub proof fn lemma_dead_cards_recorded(&self, i: int)
        requires
            self.wf(),
            0 <= i < self.states().len(),
        ensures
            dead_from_history(self.states()[i]),
    {
    }

    /// A manager with no state stored yet and the counter at one.
    pub fn new() -> (r: Self)
        ensures
            r.wf(),
            r.states().len() == 0,
            r.move_numbers().len() == 0,
            r.counter() == 1,
    {
        PathDependentCardCountManager {
            constraint_history: Vec::new(),
            constraint_history_move_no: Vec::new(),
            move_no: 1,
        }
    }

    /// Starts a new game: the only stored state is the state before any move, no move number
    /// is stored and the counter is back at one.
    pub fn reset(&mut self)
        ensures
            final(self).wf(),
            final(self).states().len() == 1,
            final(self).states()[0].at_game_start(),
            final(self).move_numbers().len() == 0,
            final(self).counter() == 1,
    {
        self.constraint_history.clear();
        self.constraint_history_move_no.clear();
        let start = PathDependentCollectiveConstraint::game_start();
        proof {
            lemma_start_dead_from_history(start);
            lemma_start_impossible_consistent(start);
        }
        self.constraint_history.push(start);
        self.move_no = 1;
    }

    /// How many states are stored.
    pub fn state_count(&self) -> (r: usize)
        ensures r == self.states().len(),
    {
        self.constraint_history.len()
    }

    /// The state after the last recorded action.
    pub fn latest_constraint(&self) -> (r: &PathDependentCollectiveConstraint)
        requires
            self.states().len() > 0,
        ensures
            *r == self.states().last(),
    {
        &self.constraint_history[self.constraint_history.len() - 1]
    }

    /// A copy of a state keeps its impossibility table in agreement with its facts.
    proof fn lemma_copy_consistent(copy: PathDependentCollectiveConstraint, orig: PathDependentCollectiveConstraint)
        requires
            impossible_consistent(orig),
            copy.public_view() == orig.public_view(),
            copy.inferred_view() == orig.inferred_view(),
            copy.groups_view() == orig.groups_view(),
            copy.impossible_view() == orig.impossible_view(),
        ensures
            impossible_consistent(copy),
    {
        assert forall|p: int, c: int| 0 <= p < 7 && 0 <= c < 5 implies #[trigger] copy.impossible_view()@[p]@[c]
            == impossible_entry(copy.public_view(), copy.inferred_view(), copy.groups_view(), p, c) by {
            assert(orig.impossible_view()@[p]@[c]
                == impossible_entry(orig.public_view(), orig.inferred_view(), orig.groups_view(), p, c));
        }
    }

    /// A copy of a state has learned nothing new of its history.
    proof fn lemma_copy_learned(copy: PathDependentCollectiveConstraint, orig: PathDependentCollectiveConstraint)
        requires
            copy.history_view().len() == orig.history_view().len(),
            forall|i: int| 0 <= i < orig.history_view().len() ==> {
                &&& (#[trigger] copy.history_view()[i]).player_spec() == orig.history_view()[i].player_spec()
                &&& copy.history_view()[i].info_spec().same_info(orig.history_view()[i].info_spec())
            },
        ensures
            redraws_learned(copy.history_view(), orig.history_view()),
    {
    }

    /// Records a public action: a discard (of one or two cards, each a move), a reveal with
    /// unknown redraw, or an exchange adds a copy of the latest state with the move(s) added,
    /// numbered with the current counter; other actions add nothing. The counter goes up.
    pub fn push_ao_public(&mut self, ao: &ActionObservation)
        requires
            old(self).wf(),
            old(self).states().len() > 0,
            old(self).counter() < usize::MAX,
            old(self).states().last().move_no_spec() < usize::MAX - 1,
            ao.player_id < 6,
            ao.name == AOName::RevealRedraw ==> ao.cards@.len() >= 1,
        ensures
            final(self).wf(),
            push_outcome(final(self).states(), final(self).move_numbers(), final(self).counter(),
                old(self).states(), old(self).move_numbers(), old(self).counter(), adds_state(*ao)),
            adds_state(*ao) ==> recorded_from(final(self).states().last(), old(self).states().last(), *ao),
            adds_state(*ao) ==> {
                &&& final(self).states().last().history_view().len()
                    == old(self).states().last().history_view().len() + moves_added(*ao)
                &&& final(self).states().last().move_no_spec() == old(self).states().last().move_no_spec() + moves_added(*ao)
                &&& last_move_recorded(final(self).states().last(), *ao)
                &&& redraws_learned(final(self).states().last().history_view().take(
                    old(self).states().last().history_view().len() as int), old(self).states().last().history_view())
            },
    {
        let ghost h0 = self.constraint_history@;
        let player = ao.player_id() as u8;
        let name = ao.name();
        let mut added = false;
        let last = self.constraint_history.len() - 1;
        if name == AOName::Discard {
            let n = ao.no_cards();
            if n == 1 || n == 2 {
                let mut state = self.constraint_history[last].duplicate();
                proof {
                    Self::lemma_copy_learned(state, self.constraint_history@[last as int]);
                    lemma_dead_from_history_learned(state, self.constraint_history@[last as int]);
                    Self::lemma_copy_consistent(state, self.constraint_history@[last as int]);
                }
                let cards = ao.cards();
                let ghost s1 = state;
                state.add_move(player, ActionInfo::Discard { discard: cards[0] });
                let ghost m2 = state;
                proof {
                    lemma_redraws_learned_trans(state.history_view().take(s1.history_view().len() as int),
                        s1.history_view(), self.constraint_history@[last as int].history_view());
                }
                if n == 2 {
                    let ghost s2 = state;
                    state.add_move(player, ActionInfo::Discard { discard: cards[1] });
                    proof {
                        let len0 = s1.history_view().len() as int;
                        lemma_redraws_learned_take(state.history_view().take(s2.history_view().len() as int),
                            s2.history_view(), len0);
                        assert(state.history_view().take(s2.history_view().len() as int).take(len0)
                            =~= state.history_view().take(len0));
                        lemma_redraws_learned_trans(state.history_view().take(len0), s2.history_view().take(len0),
                            self.constraint_history@[last as int].history_view());
                    }
                }
                proof {
                    if n == 1 {
                        assert(copy_of(s1, h0[last as int]) && move_added(state, s1, player, ActionInfo::Discard { discard: cards@[0] }));
                    } else {
                        assert(copy_of(s1, h0[last as int]) && move_added(m2, s1, player, ActionInfo::Discard { discard: cards@[0] })
                            && move_added(state, m2, player, ActionInfo::Discard { discard: cards@[1] }));
                    }
                }
                self.constraint_history.push(state);
                added = true;
            }
        } else if name == AOName::RevealRedraw {
            let mut state = self.constraint_history[last].duplicate();
            proof {
                    Self::lemma_copy_learned(state, self.constraint_history@[last as int]);
                    lemma_dead_from_history_learned(state, self.constraint_history@[last as int]);
                    Self::lemma_copy_consistent(state, self.constraint_history@[last as int]);
                }
            let ghost s1 = state;
            state.add_move(player, ActionInfo::RevealRedraw { reveal: ao.card(), redraw: None, relinquish: None });
            proof {
                assert(copy_of(s1, h0[last as int]) && move_added(state, s1, player,
                    ActionInfo::RevealRedraw { reveal: ao.cards@[0], redraw: None, relinquish: None }));
                lemma_redraws_learned_trans(state.history_view().take(s1.history_view().len() as int),
                    s1.history_view(), self.constraint_history@[last as int].history_view());
            }
            self.constraint_history.push(state);
            added = true;
        } else if name == AOName::ExchangeChoice {
            let mut state = self.constraint_history[last].duplicate();
            proof {
                    Self::lemma_copy_learned(state, self.constraint_history@[last as int]);
                    lemma_dead_from_history_learned(state, self.constraint_history@[last as int]);
                    Self::lemma_copy_consistent(state, self.constraint_history@[last as int]);
                }
            let ghost s1 = state;
            let info = ActionInfo::ExchangeDrawChoice { draw: Vec::new(), relinquish: Vec::new() };
            let ghost gi = info;
            state.add_move(player, info);
            proof {
                assert(copy_of(s1, h0[last as int]) && move_added(state, s1, player, gi));
                lemma_redraws_learned_trans(state.history_view().take(s1.history_view().len() as int),
                    s1.history_view(), self.constraint_history@[last as int].history_view());
            }
            self.constraint_history.push(state);
            added = true;
        }
        if added {
            self.constraint_history_move_no.push(self.move_no);
        }
        self.move_no = self.move_no + 1;
        proof {
            if added {
                assert(self.constraint_history@.subrange(0, h0.len() as int) =~= h0);
            }
            assert forall|i: int| 0 <= i < self.constraint_history@.len() implies (#[trigger] self.constraint_history@[i]).wf()
                && dead_from_history(self.constraint_history@[i]) && impossible_consistent(self.constraint_history@[i]) by {
                if i < h0.len() { assert(self.constraint_history@[i] == h0[i]); }
            }
        }
    }

    /// Takes back the last action: the counter goes down (never below one), and the last state
    /// goes when it was numbered with the new counter.
    pub fn pop(&mut self)
        requires
            old(self).wf(),
            old(self).move_numbers().len() > 0 && old(self).move_numbers().last() == old(self).counter() - 1
                && old(self).counter() > 1 ==> old(self).states().len() > 0,
        ensures
            final(self).wf(),
            (final(self).states(), final(self).move_numbers(), final(self).counter())
                == pop_result(old(self).states(), old(self).move_numbers(), old(self).counter()),
    {
        if self.move_no > 1 {
            self.move_no = self.move_no - 1;
            let n = self.constraint_history_move_no.len();
            if n > 0 && self.constraint_history_move_no[n - 1] == self.move_no {
                self.constraint_history_move_no.pop();
                self.constraint_history.pop();
            }
        }
    }

    /// Checks the bounds of the latest state (see its `debug_panicker`).
    pub fn debug_panicker(&self)
        requires
            self.wf(),
            self.states().len() > 0,
            ({
                let s = self.states().last();
                &&& forall|p: int| 0 <= p < 6 ==> #[trigger] s.public_view()[p].len() + s.inferred_view()[p].len() <= 2
                &&& s.public_view()[6].len() == 0
                &&& s.inferred_view()[6].len() <= 3
                &&& forall|c: Card| #[trigger] crate::path_dependent_collective_constraint::table_count(s.public_view(), c)
                    + crate::path_dependent_collective_constraint::table_count(s.inferred_view(), c) <= 3
            }),
    {
        let s = self.latest_constraint();
        proof { assert(self.constraint_history@[self.constraint_history@.len() - 1].wf()); }
        s.debug_panicker();
    }

    /// Checks that every card of the latest state keeps a group of three copies (see its
    /// `check_three`).
    pub fn check_three(&self)
        requires
            self.wf(),
            self.states().len() > 0,
            forall|c: int| 0 <= c < 5 ==> keeps_three(#[trigger] self.states().last().groups_view()[c]),
    {
        let s = self.latest_constraint();
        proof { assert(self.constraint_history@[self.constraint_history@.len() - 1].wf()); }
        s.check_three();
    }
}

} // verus!
