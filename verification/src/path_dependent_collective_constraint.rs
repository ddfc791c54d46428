use vstd::prelude::*;
use crate::card::{Card, card_index, card_at, count_card, count_in, contains_card, position_of,
    lemma_count_card_le_len, lemma_count_card_push};
use crate::group::CompressedGroupConstraint;

pub mod queries;
pub mod mutation;
pub mod group_ops;
pub mod impossibility;
pub mod lookback;
pub mod prune;
pub mod hand;
pub mod bulk;
pub mod death;
pub mod mixing;
pub mod inference;
pub mod negation;
pub mod moves;
pub mod backward;
pub mod redraw_update;
pub mod replay;
pub mod variants;
pub mod possibility;

pub use impossibility::{keeps_three, impossible_consistent, impossible_entry, lemma_start_impossible_consistent};
pub use replay::{redraws_learned, lemma_redraws_learned_trans, lemma_redraws_learned_take, dead_from_history,
    lemma_start_dead_from_history, lemma_dead_from_history_learned};

verus! {

/// The contents of a table of card vectors.
pub open spec fn rows(t: Seq<Vec<Card>>) -> Seq<Seq<Card>> {
    t.map_values(|v: Vec<Card>| v@)
}

pub proof fn lemma_rows(t: Seq<Vec<Card>>, i: int)
    requires
        0 <= i < t.len(),
    ensures
        rows(t).len() == t.len(),
        rows(t)[i] == t[i]@,
{
}

/// A table with one row per player and one for the pile, each row at most `cap` long.
pub open spec fn table_ok(t: Seq<Seq<Card>>, cap: int) -> bool {
    &&& t.len() == 7
    &&& forall|i: int| 0 <= i < 7 ==> #[trigger] t[i].len() <= cap
}

/// Copies of `c` in all rows of a table.
pub open spec fn table_count(t: Seq<Seq<Card>>, c: Card) -> nat
    decreases t.len(),
{
    if t.len() == 0 {
        0
    } else {
        table_count(t.drop_last(), c) + count_card(t.last(), c)
    }
}

pub proof fn lemma_table_count_bound(t: Seq<Seq<Card>>, c: Card, cap: int)
    requires
        forall|i: int| 0 <= i < t.len() ==> #[trigger] t[i].len() <= cap,
        cap >= 0,
    ensures
        table_count(t, c) <= t.len() * cap,
    decreases t.len(),
{
    if t.len() > 0 {
        lemma_table_count_bound(t.drop_last(), c, cap);
        lemma_count_card_le_len(t.last(), c);
        assert(t.last().len() <= cap);
        assert(t.len() * cap == (t.len() - 1) * cap + cap) by (nonlinear_arith);
    }
}

/// A copy of a vector of cards.
pub fn clone_cards(v: &Vec<Card>) -> (r: Vec<Card>)
    ensures
        r@ == v@,
{
    let mut r: Vec<Card> = Vec::new();
    let mut i: usize = 0;
    while i < v.len()
        invariant
            i <= v@.len(),
            r@ == v@.subrange(0, i as int),
        decreases v@.len() - i,
    {
        r.push(v[i]);
        i += 1;
        assert(r@ =~= v@.subrange(0, i as int));
    }
    assert(v@.subrange(0, i as int) =~= v@);
    r
}

/// A copy of a table of card vectors.
pub fn clone_table(t: &Vec<Vec<Card>>) -> (r: Vec<Vec<Card>>)
    ensures
        rows(r@) == rows(t@),
        r@.len() == t@.len(),
        forall|k: int| 0 <= k < t@.len() ==> #[trigger] r@[k]@ == t@[k]@,
{
    let mut r: Vec<Vec<Card>> = Vec::new();
    let mut i: usize = 0;
    while i < t.len()
        invariant
            i <= t@.len(),
            r@.len() == i,
            forall|k: int| 0 <= k < i ==> #[trigger] r@[k]@ == t@[k]@,
        decreases t@.len() - i,
    {
        let row = clone_cards(&t[i]);
        r.push(row);
        i += 1;
    }
    assert(rows(r@) =~= rows(t@));
    r
}

/// Seven empty rows, one per player and one for the pile.
pub fn empty_table() -> (r: Vec<Vec<Card>>)
    ensures
        rows(r@) == Seq::new(7, |i: int| Seq::<Card>::empty()),
{
    let r: Vec<Vec<Card>> = vec![Vec::new(), Vec::new(), Vec::new(), Vec::new(), Vec::new(), Vec::new(), Vec::new()];
    assert(rows(r@) =~= Seq::new(7, |i: int| Seq::<Card>::empty()));
    r
}

/// What a move revealed: a discard, a reveal followed by a redraw, or an exchange.
#[derive(Clone, Debug)]
#[allow(inconsistent_fields)]
pub enum ActionInfo {
    Start,
    StartInferred,
    Discard { discard: Card },
    RevealRedraw { reveal: Card, redraw: Option<Card>, relinquish: Option<Card> },
    ExchangeDrawChoice { draw: Vec<Card>, relinquish: Vec<Card> },
}

/// The kind of an `ActionInfo`.
#[derive(Clone, Copy, Debug, PartialEq, Eq, Structural)]
pub enum ActionInfoName {
    Start,
    StartInferred,
    Discard,
    RevealRedraw,
    ExchangeDrawChoice,
}

impl ActionInfo {
    pub open spec fn name_spec(&self) -> ActionInfoName {
        match self {
            ActionInfo::Start => ActionInfoName::Start,
            ActionInfo::StartInferred => ActionInfoName::StartInferred,
            ActionInfo::Discard { .. } => ActionInfoName::Discard,
            ActionInfo::RevealRedraw { .. } => ActionInfoName::RevealRedraw,
            ActionInfo::ExchangeDrawChoice { .. } => ActionInfoName::ExchangeDrawChoice,
        }
    }

    /// `r` is the part of the information that every player sees: the redraw and
    /// relinquish of a reveal and the cards of an exchange are hidden.
    pub open spec fn is_public_of(r: ActionInfo, s: ActionInfo) -> bool {
        match s {
            ActionInfo::RevealRedraw { reveal, .. } =>
                r == ActionInfo::RevealRedraw { reveal: reveal, redraw: None, relinquish: None },
            ActionInfo::ExchangeDrawChoice { .. } => match r {
                ActionInfo::ExchangeDrawChoice { draw, relinquish } => draw@.len() == 0 && relinquish@.len() == 0,
                _ => false,
            },
            _ => r == s,
        }
    }

    /// Same information, compared by the contents of the card vectors.
    pub open spec fn same_info(&self, other: ActionInfo) -> bool {
        match (self, other) {
            (ActionInfo::ExchangeDrawChoice { draw: d1, relinquish: r1 },
             ActionInfo::ExchangeDrawChoice { draw: d2, relinquish: r2 }) => d1@ == d2@ && r1@ == r2@,
            (ActionInfo::ExchangeDrawChoice { .. }, _) => false,
            (_, ActionInfo::ExchangeDrawChoice { .. }) => false,
            _ => *self == other,
        }
    }

    /// A copy of the information.
    pub fn duplicate(&self) -> (r: ActionInfo)
        ensures
            r.same_info(*self),
            r.name_spec() == self.name_spec(),
    {
        match self {
            ActionInfo::Start => ActionInfo::Start,
            ActionInfo::StartInferred => ActionInfo::StartInferred,
            ActionInfo::Discard { discard } => ActionInfo::Discard { discard: *discard },
            ActionInfo::RevealRedraw { reveal, redraw, relinquish } =>
                ActionInfo::RevealRedraw { reveal: *reveal, redraw: *redraw, relinquish: *relinquish },
            ActionInfo::ExchangeDrawChoice { draw, relinquish } =>
                ActionInfo::ExchangeDrawChoice { draw: clone_cards(draw), relinquish: clone_cards(relinquish) },
        }
    }

    /// The publicly visible part of the information.
    pub fn public(&self) -> (r: Self)
        ensures
            Self::is_public_of(r, *self),
    {
        match self {
            ActionInfo::Start => ActionInfo::Start,
            ActionInfo::StartInferred => ActionInfo::StartInferred,
            ActionInfo::Discard { discard } => ActionInfo::Discard { discard: *discard },
            ActionInfo::RevealRedraw { reveal, .. } =>
                ActionInfo::RevealRedraw { reveal: *reveal, redraw: None, relinquish: None },
            ActionInfo::ExchangeDrawChoice { .. } =>
                ActionInfo::ExchangeDrawChoice { draw: Vec::new(), relinquish: Vec::new() },
        }
    }

    /// All private information is known.
    pub fn fully_known(&self) -> (r: bool)
        ensures
            r == match self {
                ActionInfo::RevealRedraw { redraw, .. } => redraw is Some,
                ActionInfo::ExchangeDrawChoice { draw, relinquish } => draw@.len() == 2 && relinquish@.len() == 2,
                _ => true,
            },
    {
        match self {
            ActionInfo::Start => true,
            ActionInfo::StartInferred => true,
            ActionInfo::Discard { .. } => true,
            ActionInfo::RevealRedraw { redraw, .. } => redraw.is_some(),
            ActionInfo::ExchangeDrawChoice { draw, relinquish } => draw.len() == 2 && relinquish.len() == 2,
        }
    }

    /// Some private information is known, or there is none to know.
    pub fn partially_known(&self) -> (r: bool)
        ensures
            r == match self {
                ActionInfo::RevealRedraw { redraw, .. } => redraw is Some,
                ActionInfo::ExchangeDrawChoice { draw, relinquish } => draw@.len() > 0 || relinquish@.len() > 0,
                _ => true,
            },
    {
        match self {
            ActionInfo::Start => true,
            ActionInfo::StartInferred => true,
            ActionInfo::Discard { .. } => true,
            ActionInfo::RevealRedraw { redraw, .. } => redraw.is_some(),
            ActionInfo::ExchangeDrawChoice { draw, relinquish } => draw.len() > 0 || relinquish.len() > 0,
        }
    }

    /// No private information is known.
    pub fn fully_unknown(&self) -> (r: bool)
        ensures
            r == match self {
                ActionInfo::RevealRedraw { redraw, .. } => redraw is None,
                ActionInfo::ExchangeDrawChoice { draw, relinquish } => draw@.len() == 0 && relinquish@.len() == 0,
                _ => false,
            },
    {
        match self {
            ActionInfo::Start => false,
            ActionInfo::StartInferred => false,
            ActionInfo::Discard { .. } => false,
            ActionInfo::RevealRedraw { redraw, .. } => redraw.is_none(),
            ActionInfo::ExchangeDrawChoice { draw, relinquish } => draw.len() == 0 && relinquish.len() == 0,
        }
    }

    /// The kind of information.
    pub fn name(&self) -> (r: ActionInfoName)
        ensures
            r == self.name_spec(),
    {
        match self {
            ActionInfo::Start => ActionInfoName::Start,
            ActionInfo::StartInferred => ActionInfoName::StartInferred,
            ActionInfo::Discard { .. } => ActionInfoName::Discard,
            ActionInfo::RevealRedraw { .. } => ActionInfoName::RevealRedraw,
            ActionInfo::ExchangeDrawChoice { .. } => ActionInfoName::ExchangeDrawChoice,
        }
    }
}


/// Every card of `v` equals `card`.
pub fn all_equal(v: &Vec<Card>, card: Card) -> (r: bool)
    ensures
        r == forall|k: int| 0 <= k < v@.len() ==> #[trigger] v@[k] == card,
{
    let mut i: usize = 0;
    while i < v.len()
        invariant
            i <= v@.len(),
            forall|k: int| 0 <= k < i ==> #[trigger] v@[k] == card,
        decreases v@.len() - i,
    {
        if v[i] != card {
            return false;
        }
        i += 1;
    }
    true
}

/// Per-player facts at one point of the game: the dead cards (public), the cards known
/// to be held (inferred), and for each player and card whether holding it is impossible.
#[derive(Clone, Debug)]
pub struct PathDependentMetaData {
    public_constraints: Vec<Vec<Card>>,
    inferred_constraints: Vec<Vec<Card>>,
    impossible_constraints: [[bool; 5]; 7],
}

/// No entry of the seven-by-five table is set.
pub open spec fn no_impossibilities(t: [[bool; 5]; 7]) -> bool {
    forall|i: int, j: int| 0 <= i < 7 && 0 <= j < 5 ==> !#[trigger] t@[i]@[j]
}

impl PathDependentMetaData {
    pub closed spec fn public_view(&self) -> Seq<Seq<Card>> {
        rows(self.public_constraints@)
    }

    pub closed spec fn inferred_view(&self) -> Seq<Seq<Card>> {
        rows(self.inferred_constraints@)
    }

    pub closed spec fn impossible_view(&self) -> [[bool; 5]; 7] {
        self.impossible_constraints
    }

    /// Seven rows each, at most two dead and three known cards per row.
    pub open spec fn wf(&self) -> bool {
        &&& table_ok(self.public_view(), 2)
        &&& table_ok(self.inferred_view(), 3)
    }

    /// The facts at the start of a game: nothing is known.
    pub fn initial() -> (r: Self)
        ensures
            r.public_view() == Seq::new(7, |i: int| Seq::<Card>::empty()),
            r.inferred_view() == Seq::new(7, |i: int| Seq::<Card>::empty()),
            no_impossibilities(r.impossible_view()),
            r.wf(),
    {
        Self::start()
    }

    /// The facts at the start of a game: nothing is known.
    pub fn start() -> (r: Self)
        ensures
            r.public_view() == Seq::new(7, |i: int| Seq::<Card>::empty()),
            r.inferred_view() == Seq::new(7, |i: int| Seq::<Card>::empty()),
            no_impossibilities(r.impossible_view()),
            r.wf(),
    {
        Self {
            public_constraints: empty_table(),
            inferred_constraints: empty_table(),
            impossible_constraints: [[false; 5]; 7],
        }
    }

    /// A copy of the facts.
    pub fn duplicate(&self) -> (r: Self)
        ensures
            r.public_view() == self.public_view(),
            r.inferred_view() == self.inferred_view(),
            r.impossible_view() == self.impossible_view(),
    {
        PathDependentMetaData {
            public_constraints: clone_table(&self.public_constraints),
            inferred_constraints: clone_table(&self.inferred_constraints),
            impossible_constraints: self.impossible_constraints,
        }
    }

    pub fn public_constraints(&self) -> (r: &Vec<Vec<Card>>)
        ensures
            rows(r@) == self.public_view(),
    {
        &self.public_constraints
    }

    pub fn inferred_constraints(&self) -> (r: &Vec<Vec<Card>>)
        ensures
            rows(r@) == self.inferred_view(),
    {
        &self.inferred_constraints
    }

    /// Replaces the known cards by a copy of `inferred_constraints`.
    pub fn set_inferred_constraints(&mut self, inferred_constraints: &Vec<Vec<Card>>)
        ensures
            final(self).inferred_view() == rows(inferred_constraints@),
            final(self).public_view() == old(self).public_view(),
            final(self).impossible_view() == old(self).impossible_view(),
    {
        self.inferred_constraints = clone_table(inferred_constraints);
    }

    pub fn impossible_constraints(&self) -> (r: &[[bool; 5]; 7])
        ensures
            *r == self.impossible_view(),
    {
        &self.impossible_constraints
    }

    /// Replaces the stored impossibilities.
    pub fn set_impossible_constraints(&mut self, impossible_constraints: &[[bool; 5]; 7])
        ensures
            final(self).impossible_view() == *impossible_constraints,
            final(self).public_view() == old(self).public_view(),
            final(self).inferred_view() == old(self).inferred_view(),
    {
        self.impossible_constraints = *impossible_constraints;
    }

    /// Number of cards of the player that are known, dead or alive.
    pub fn player_cards_known(&self, player_id: usize) -> (r: usize)
        requires
            self.wf(),
            player_id < 7,
        ensures
            r == self.public_view()[player_id as int].len() + self.inferred_view()[player_id as int].len(),
    {
        proof {
            lemma_rows(self.public_constraints@, player_id as int);
            lemma_rows(self.inferred_constraints@, player_id as int);
        }
        self.public_constraints[player_id].len() + self.inferred_constraints[player_id].len()
    }

    pub fn player_has_public_constraint(&self, player_id: usize, card: Card) -> (r: bool)
        requires
            self.wf(),
            player_id < 7,
        ensures
            r == self.public_view()[player_id as int].contains(card),
    {
        contains_card(&self.public_constraints[player_id], card)
    }

    pub fn player_has_inferred_constraint(&self, player_id: usize, card: Card) -> (r: bool)
        requires
            self.wf(),
            player_id < 7,
        ensures
            r == self.inferred_view()[player_id as int].contains(card),
    {
        contains_card(&self.inferred_constraints[player_id], card)
    }

    /// Both cards of the player are known and every known card is `card`.
    pub fn player_constraints_all_full(&self, player_id: usize, card: Card) -> (r: bool)
        requires
            self.wf(),
            player_id < 7,
        ensures
            r == all_full_spec(self.public_view()[player_id as int], self.inferred_view()[player_id as int], card),
    {
        self.player_cards_known(player_id) == 2
            && all_equal(&self.inferred_constraints[player_id], card)
            && all_equal(&self.public_constraints[player_id], card)
    }
}

/// Two cards are known in all and each of them is `card`.
pub open spec fn all_full_spec(public: Seq<Card>, inferred: Seq<Card>, card: Card) -> bool {
    &&& public.len() + inferred.len() == 2
    &&& forall|k: int| 0 <= k < inferred.len() ==> #[trigger] inferred[k] == card
    &&& forall|k: int| 0 <= k < public.len() ==> #[trigger] public[k] == card
}


/// Number of copies of `card` among the dead and the known cards of a table pair.
pub open spec fn known_count_spec(public: Seq<Seq<Card>>, inferred: Seq<Seq<Card>>, card: Card) -> nat {
    table_count(inferred, card) + table_count(public, card)
}

/// Counts copies of `card` over all rows of a table of at most seven rows of at most three cards.
pub fn table_count_exec(t: &Vec<Vec<Card>>, card: Card) -> (r: u8)
    requires
        t@.len() <= 7,
        forall|i: int| 0 <= i < t@.len() ==> #[trigger] t@[i]@.len() <= 3,
    ensures
        r == table_count(rows(t@), card),
        r <= 21,
{
    let mut n: u8 = 0;
    let mut i: usize = 0;
    while i < t.len()
        invariant
            i <= t@.len(),
            t@.len() <= 7,
            forall|k: int| 0 <= k < t@.len() ==> #[trigger] t@[k]@.len() <= 3,
            n == table_count(rows(t@.subrange(0, i as int)), card),
            n <= 3 * i,
        decreases t@.len() - i,
    {
        proof {
            let a = rows(t@.subrange(0, i as int));
            let b = rows(t@.subrange(0, i as int + 1));
            assert(b.drop_last() =~= a);
            assert(b.last() == t@[i as int]@);
            lemma_count_card_le_len(t@[i as int]@, card);
        }
        let c = count_in(&t[i], card);
        n = n + c;
        i += 1;
    }
    assert(t@.subrange(0, i as int) =~= t@);
    n
}

/// A move of the history: who moved, what was revealed, and the facts after the move.
#[derive(Clone, Debug)]
pub struct SignificantAction {
    move_no: usize,
    player: u8,
    action_info: ActionInfo,
    meta_data: PathDependentMetaData,
}

impl SignificantAction {
    pub closed spec fn move_no_spec(&self) -> usize { self.move_no }
    pub closed spec fn player_spec(&self) -> u8 { self.player }
    pub closed spec fn info_spec(&self) -> ActionInfo { self.action_info }
    pub closed spec fn meta_spec(&self) -> PathDependentMetaData { self.meta_data }

    /// The same entry with its move's information replaced by `info`.
    pub closed spec fn with_info_spec(&self, info: ActionInfo) -> SignificantAction {
        SignificantAction { move_no: self.move_no, player: self.player, action_info: info, meta_data: self.meta_data }
    }

    /// A move with no facts known yet.
    pub fn initial(move_no: usize, player: u8, action_info: ActionInfo) -> (r: Self)
        ensures
            r.move_no_spec() == move_no,
            r.player_spec() == player,
            r.info_spec() == action_info,
            r.meta_spec().public_view() == Seq::new(7, |i: int| Seq::<Card>::empty()),
            r.meta_spec().inferred_view() == Seq::new(7, |i: int| Seq::<Card>::empty()),
            no_impossibilities(r.meta_spec().impossible_view()),
            r.meta_spec().wf(),
    {
        let pd_metadata = PathDependentMetaData::initial();
        Self { move_no, player, action_info, meta_data: pd_metadata }
    }

    /// The first entry of a history: move 0 of player 77 with `Start`.
    pub fn start() -> (r: Self)
        ensures
            r.move_no_spec() == 0,
            r.player_spec() == 77,
            r.info_spec() == ActionInfo::Start,
            r.meta_spec().public_view() == Seq::new(7, |i: int| Seq::<Card>::empty()),
            r.meta_spec().inferred_view() == Seq::new(7, |i: int| Seq::<Card>::empty()),
            no_impossibilities(r.meta_spec().impossible_view()),
            r.meta_spec().wf(),
    {
        let meta_data: PathDependentMetaData = PathDependentMetaData::start();
        Self { move_no: 0, player: 77, action_info: ActionInfo::Start, meta_data }
    }

    /// The second entry of a history: move 0 of player 77 with `StartInferred`.
    pub fn start_inferred() -> (r: Self)
        ensures
            r.move_no_spec() == 0,
            r.player_spec() == 77,
            r.info_spec() == ActionInfo::StartInferred,
            r.meta_spec().public_view() == Seq::new(7, |i: int| Seq::<Card>::empty()),
            r.meta_spec().inferred_view() == Seq::new(7, |i: int| Seq::<Card>::empty()),
            no_impossibilities(r.meta_spec().impossible_view()),
            r.meta_spec().wf(),
    {
        let meta_data: PathDependentMetaData = PathDependentMetaData::start();
        Self { move_no: 0, player: 77, action_info: ActionInfo::StartInferred, meta_data }
    }

    pub fn name(&self) -> (r: ActionInfoName)
        ensures r == self.info_spec().name_spec(),
    {
        self.action_info.name()
    }

    pub fn move_no(&self) -> (r: usize)
        ensures r == self.move_no_spec(),
    {
        self.move_no
    }

    pub fn player(&self) -> (r: u8)
        ensures r == self.player_spec(),
    {
        self.player
    }

    pub fn action_info(&self) -> (r: &ActionInfo)
        ensures *r == self.info_spec(),
    {
        &self.action_info
    }

    pub fn action_info_mut(&mut self) -> (r: &mut ActionInfo)
        ensures
            *r == old(self).info_spec(),
            final(self).info_spec() == *final(r),
            final(self).move_no_spec() == old(self).move_no_spec(),
            final(self).player_spec() == old(self).player_spec(),
            final(self).meta_spec() == old(self).meta_spec(),
    {
        &mut self.action_info
    }

    /// A copy of the entry.
    pub fn duplicate(&self) -> (r: Self)
        ensures
            r.move_no_spec() == self.move_no_spec(),
            r.player_spec() == self.player_spec(),
            r.info_spec().same_info(self.info_spec()),
            r.meta_spec().public_view() == self.meta_spec().public_view(),
            r.meta_spec().inferred_view() == self.meta_spec().inferred_view(),
            r.meta_spec().impossible_view() == self.meta_spec().impossible_view(),
    {
        SignificantAction {
            move_no: self.move_no,
            player: self.player,
            action_info: self.action_info.duplicate(),
            meta_data: self.meta_data.duplicate(),
        }
    }

    /// Replaces the stored facts.
    pub(crate) fn set_meta(&mut self, meta: PathDependentMetaData)
        ensures
            final(self).meta_spec() == meta,
            final(self).move_no_spec() == old(self).move_no_spec(),
            final(self).player_spec() == old(self).player_spec(),
            final(self).info_spec() == old(self).info_spec(),
    {
        self.meta_data = meta;
    }

    /// Replaces the move's information.
    pub(crate) fn set_info(&mut self, info: ActionInfo)
        ensures
            final(self).info_spec() == info,
            final(self).move_no_spec() == old(self).move_no_spec(),
            final(self).player_spec() == old(self).player_spec(),
            final(self).meta_spec() == old(self).meta_spec(),
            *final(self) == old(self).with_info_spec(info),
    {
        self.action_info = info;
    }

    pub fn meta_data(&self) -> (r: &PathDependentMetaData)
        ensures *r == self.meta_spec(),
    {
        &self.meta_data
    }

    pub fn public_constraints(&self) -> (r: &Vec<Vec<Card>>)
        ensures rows(r@) == self.meta_spec().public_view(),
    {
        self.meta_data.public_constraints()
    }

    pub fn inferred_constraints(&self) -> (r: &Vec<Vec<Card>>)
        ensures rows(r@) == self.meta_spec().inferred_view(),
    {
        self.meta_data.inferred_constraints()
    }

    pub fn set_inferred_constraints(&mut self, inferred_constraints: &Vec<Vec<Card>>)
        ensures
            final(self).meta_spec().inferred_view() == rows(inferred_constraints@),
            final(self).meta_spec().public_view() == old(self).meta_spec().public_view(),
            final(self).meta_spec().impossible_view() == old(self).meta_spec().impossible_view(),
            final(self).move_no_spec() == old(self).move_no_spec(),
            final(self).player_spec() == old(self).player_spec(),
            final(self).info_spec() == old(self).info_spec(),
    {
        self.meta_data.set_inferred_constraints(inferred_constraints)
    }

    pub fn impossible_constraints(&self) -> (r: &[[bool; 5]; 7])
        ensures *r == self.meta_spec().impossible_view(),
    {
        self.meta_data.impossible_constraints()
    }

    pub fn set_impossible_constraints(&mut self, impossible_constraints: &[[bool; 5]; 7])
        ensures
            final(self).meta_spec().impossible_view() == *impossible_constraints,
            final(self).meta_spec().public_view() == old(self).meta_spec().public_view(),
            final(self).meta_spec().inferred_view() == old(self).meta_spec().inferred_view(),
            final(self).move_no_spec() == old(self).move_no_spec(),
            final(self).player_spec() == old(self).player_spec(),
            final(self).info_spec() == old(self).info_spec(),
    {
        self.meta_data.set_impossible_constraints(impossible_constraints);
    }

    /// Records that `player_id` holds `card`; a player knows at most two cards, the pile three.
    pub fn add_inferred_constraints(&mut self, player_id: usize, card: Card)
        requires
            old(self).meta_spec().wf(),
            player_id < 7,
            old(self).meta_spec().inferred_view()[player_id as int].len() < if player_id < 6 { 2int } else { 3int },
        ensures
            final(self).meta_spec().inferred_view() == old(self).meta_spec().inferred_view().update(
                player_id as int, old(self).meta_spec().inferred_view()[player_id as int].push(card)),
            final(self).meta_spec().public_view() == old(self).meta_spec().public_view(),
            final(self).meta_spec().impossible_view() == old(self).meta_spec().impossible_view(),
            final(self).meta_spec().wf(),
            final(self).move_no_spec() == old(self).move_no_spec(),
            final(self).player_spec() == old(self).player_spec(),
            final(self).info_spec() == old(self).info_spec(),
    {
        proof { lemma_rows(self.meta_data.inferred_constraints@, player_id as int); }
        self.meta_data.inferred_constraints[player_id].push(card);
        proof {
            assert(self.meta_data.inferred_view() =~= old(self).meta_spec().inferred_view().update(
                player_id as int, old(self).meta_spec().inferred_view()[player_id as int].push(card)));
        }
    }

    /// Records that `player_id` holds `card` unless that is already known; says whether it changed.
    pub fn check_add_inferred_constraints(&mut self, player_id: usize, card: Card) -> (r: bool)
        requires
            old(self).meta_spec().wf(),
            player_id < 7,
            !old(self).meta_spec().inferred_view()[player_id as int].contains(card)
                ==> old(self).meta_spec().inferred_view()[player_id as int].len() < if player_id < 6 { 2int } else { 3int },
        ensures
            r == !old(self).meta_spec().inferred_view()[player_id as int].contains(card),
            final(self).meta_spec().inferred_view() == if r {
                old(self).meta_spec().inferred_view().update(
                    player_id as int, old(self).meta_spec().inferred_view()[player_id as int].push(card))
            } else {
                old(self).meta_spec().inferred_view()
            },
            final(self).meta_spec().public_view() == old(self).meta_spec().public_view(),
            final(self).meta_spec().impossible_view() == old(self).meta_spec().impossible_view(),
            final(self).meta_spec().wf(),
            final(self).move_no_spec() == old(self).move_no_spec(),
            final(self).player_spec() == old(self).player_spec(),
            final(self).info_spec() == old(self).info_spec(),
    {
        proof { lemma_rows(self.meta_data.inferred_constraints@, player_id as int); }
        if !contains_card(&self.meta_data.inferred_constraints[player_id], card) {
            self.add_inferred_constraints(player_id, card);
            return true;
        }
        false
    }

    pub fn player_cards_known(&self, player_id: usize) -> (r: usize)
        requires self.meta_spec().wf(), player_id < 7,
        ensures r == self.meta_spec().public_view()[player_id as int].len() + self.meta_spec().inferred_view()[player_id as int].len(),
    {
        self.meta_data.player_cards_known(player_id)
    }

    pub fn player_has_public_constraint(&self, player_id: usize, card: Card) -> (r: bool)
        requires self.meta_spec().wf(), player_id < 7,
        ensures r == self.meta_spec().public_view()[player_id as int].contains(card),
    {
        self.meta_data.player_has_public_constraint(player_id, card)
    }

    pub fn player_has_inferred_constraint(&self, player_id: usize, card: Card) -> (r: bool)
        requires self.meta_spec().wf(), player_id < 7,
        ensures r == self.meta_spec().inferred_view()[player_id as int].contains(card),
    {
        self.meta_data.player_has_inferred_constraint(player_id, card)
    }

    pub fn player_constraints_all_full(&self, player_id: usize, card: Card) -> (r: bool)
        requires self.meta_spec().wf(), player_id < 7,
        ensures r == all_full_spec(self.meta_spec().public_view()[player_id as int],
            self.meta_spec().inferred_view()[player_id as int], card),
    {
        self.meta_data.player_constraints_all_full(player_id, card)
    }

    /// Copies of `card` known to be held or dead, over all players and the pile.
    pub fn known_card_count(&self, card: Card) -> (r: u8)
        requires self.meta_spec().wf(),
        ensures r == known_count_spec(self.meta_spec().public_view(), self.meta_spec().inferred_view(), card),
    {
        proof {
            assert forall|i: int| 0 <= i < self.meta_data.inferred_constraints@.len()
                implies #[trigger] self.meta_data.inferred_constraints@[i]@.len() <= 3 by {
                lemma_rows(self.meta_data.inferred_constraints@, i);
            }
            assert forall|i: int| 0 <= i < self.meta_data.public_constraints@.len()
                implies #[trigger] self.meta_data.public_constraints@[i]@.len() <= 3 by {
                lemma_rows(self.meta_data.public_constraints@, i);
            }
        }
        let a = table_count_exec(&self.meta_data.inferred_constraints, card);
        let b = table_count_exec(&self.meta_data.public_constraints, card);
        a + b
    }
}


/// The contents of the five per-card lists of group constraints.
pub open spec fn group_rows(t: Seq<Vec<CompressedGroupConstraint>>) -> Seq<Seq<CompressedGroupConstraint>> {
    t.map_values(|v: Vec<CompressedGroupConstraint>| v@)
}

pub proof fn lemma_group_rows(t: Seq<Vec<CompressedGroupConstraint>>, i: int)
    requires
        0 <= i < t.len(),
    ensures
        group_rows(t).len() == t.len(),
        group_rows(t)[i] == t[i]@,
{
}

pub proof fn lemma_only_list_changed(before: Seq<Vec<CompressedGroupConstraint>>,
    after: Seq<Vec<CompressedGroupConstraint>>, c: int)
    requires
        before.len() == after.len(),
        0 <= c < before.len(),
        forall|k: int| 0 <= k < before.len() && k != c ==> #[trigger] after[k] == before[k],
    ensures
        forall|k: int| 0 <= k < before.len() && k != c ==> #[trigger] group_rows(after)[k] == group_rows(before)[k],
        group_rows(after)[c] == after[c]@,
        group_rows(after).len() == after.len(),
{
    assert forall|k: int| 0 <= k < before.len() && k != c implies #[trigger] group_rows(after)[k] == group_rows(before)[k] by {
        lemma_group_rows(after, k);
        lemma_group_rows(before, k);
    }
}

/// Everything known about the cards of every player, derived from the history of
/// significant moves: dead cards, known held cards, group constraints per card (in the
/// order Ambassador, Assassin, Captain, Duke, Contessa) and impossibilities.
#[derive(Clone, Debug)]
pub struct PathDependentCollectiveConstraint {
    public_constraints: Vec<Vec<Card>>,
    inferred_constraints: Vec<Vec<Card>>,
    group_constraints: Vec<Vec<CompressedGroupConstraint>>,
    impossible_constraints: [[bool; 5]; 7],
    move_no: usize,
    history: Vec<SignificantAction>,
}

impl PathDependentCollectiveConstraint {
    pub closed spec fn public_view(&self) -> Seq<Seq<Card>> {
        rows(self.public_constraints@)
    }

    pub closed spec fn inferred_view(&self) -> Seq<Seq<Card>> {
        rows(self.inferred_constraints@)
    }

    pub closed spec fn groups_view(&self) -> Seq<Seq<CompressedGroupConstraint>> {
        group_rows(self.group_constraints@)
    }

    pub closed spec fn impossible_view(&self) -> [[bool; 5]; 7] {
        self.impossible_constraints
    }

    pub closed spec fn history_view(&self) -> Seq<SignificantAction> {
        self.history@
    }

    pub closed spec fn move_no_spec(&self) -> usize {
        self.move_no
    }

    /// Seven rows of at most two dead and three known cards, five group lists, a history
    /// starting with `Start` and `StartInferred`, well-formed facts in every entry, and a
    /// player (0..6) for every move after the first two entries.
    pub closed spec fn wf(&self) -> bool {
        &&& table_ok(self.public_view(), 2)
        &&& table_ok(self.inferred_view(), 3)
        &&& self.group_constraints@.len() == 5
        &&& self.history@.len() >= 2
        &&& self.history@[0].info_spec() is Start
        &&& self.history@[1].info_spec() is StartInferred
        &&& forall|i: int| 0 <= i < self.history@.len() ==> (#[trigger] self.history@[i]).meta_spec().wf()
        &&& forall|i: int| 2 <= i < self.history@.len() ==> (#[trigger] self.history@[i]).player_spec() < 6
        &&& forall|i: int| 2 <= i < self.history@.len() ==> !((#[trigger] self.history@[i]).info_spec() is Start)
            && !(self.history@[i].info_spec() is StartInferred)
    }

    /// The shape of well-formed facts: seven rows of dead cards (at most two each) and of known
    /// cards (at most three each), five group lists, and a history that starts with the two
    /// start entries, whose later entries are moves of players.
    pub proof fn lemma_wf_shape(&self)
        requires
            self.wf(),
        ensures
            table_ok(self.public_view(), 2),
            table_ok(self.inferred_view(), 3),
            self.public_view().len() == 7,
            self.inferred_view().len() == 7,
            self.groups_view().len() == 5,
            self.history_view().len() >= 2,
            self.history_view()[0].info_spec() is Start,
            self.history_view()[1].info_spec() is StartInferred,
            forall|i: int| 2 <= i < self.history_view().len() ==> (#[trigger] self.history_view()[i]).player_spec() < 6,
            forall|i: int| 0 <= i < self.history_view().len() ==> (#[trigger] self.history_view()[i]).meta_spec().wf(),
    {
        assert(group_rows(self.group_constraints@).len() == 5);
    }

    proof fn lemma_wf_rows(&self)
        requires self.wf(),
        ensures
            self.public_constraints@.len() == 7,
            self.inferred_constraints@.len() == 7,
            forall|i: int| 0 <= i < 7 ==> #[trigger] self.public_constraints@[i]@.len() <= 2,
            forall|i: int| 0 <= i < 7 ==> #[trigger] self.inferred_constraints@[i]@.len() <= 3,
            forall|i: int| 0 <= i < 7 ==> #[trigger] self.public_view()[i] == self.public_constraints@[i]@,
            forall|i: int| 0 <= i < 7 ==> #[trigger] self.inferred_view()[i] == self.inferred_constraints@[i]@,
    {
        assert forall|i: int| 0 <= i < 7 implies #[trigger] self.public_constraints@[i]@.len() <= 2 by {
            lemma_rows(self.public_constraints@, i);
        }
        assert forall|i: int| 0 <= i < 7 implies #[trigger] self.inferred_constraints@[i]@.len() <= 3 by {
            lemma_rows(self.inferred_constraints@, i);
        }
    }

    /// The dead cards of each player and the pile.
    pub fn public_constraints(&self) -> (r: &Vec<Vec<Card>>)
        ensures rows(r@) == self.public_view(),
    {
        &self.public_constraints
    }

    /// The cards each player and the pile are known to hold.
    pub fn inferred_constraints(&self) -> (r: &Vec<Vec<Card>>)
        ensures rows(r@) == self.inferred_view(),
    {
        &self.inferred_constraints
    }

    /// The group constraints, one list per card.
    pub fn group_constraints(&self) -> (r: &Vec<Vec<CompressedGroupConstraint>>)
        ensures group_rows(r@) == self.groups_view(),
    {
        &self.group_constraints
    }

    /// Which cards each player and the pile cannot hold.
    pub fn impossible_constraints(&self) -> (r: &[[bool; 5]; 7])
        ensures *r == self.impossible_view(),
    {
        &self.impossible_constraints
    }

    /// The significant moves so far, after the two start entries.
    pub fn history(&self) -> (r: &Vec<SignificantAction>)
        ensures r@ == self.history_view(),
    {
        &self.history
    }

    /// A copy of the state: the same facts, groups and counter, and a history whose entries
    /// copy those of `self`.
    pub fn duplicate(&self) -> (r: Self)
        requires
            self.wf(),
        ensures
            r.wf(),
            copy_of(r, *self),
            r.public_view() == self.public_view(),
            r.inferred_view() == self.inferred_view(),
            r.groups_view() == self.groups_view(),
            r.impossible_view() == self.impossible_view(),
            r.move_no_spec() == self.move_no_spec(),
            r.history_view().len() == self.history_view().len(),
            forall|i: int| 0 <= i < self.history_view().len() ==> {
                &&& (#[trigger] r.history_view()[i]).move_no_spec() == self.history_view()[i].move_no_spec()
                &&& r.history_view()[i].player_spec() == self.history_view()[i].player_spec()
                &&& r.history_view()[i].info_spec().same_info(self.history_view()[i].info_spec())
                &&& r.history_view()[i].meta_spec().public_view() == self.history_view()[i].meta_spec().public_view()
                &&& r.history_view()[i].meta_spec().inferred_view() == self.history_view()[i].meta_spec().inferred_view()
            },
    {
        let mut groups: Vec<Vec<CompressedGroupConstraint>> = Vec::new();
        let mut c: usize = 0;
        while c < self.group_constraints.len()
            invariant
                c <= self.group_constraints@.len(),
                groups@.len() == c,
                forall|k: int| 0 <= k < c ==> #[trigger] groups@[k]@ == self.group_constraints@[k]@,
            decreases self.group_constraints@.len() - c,
        {
            groups.push(inference::copy_groups(&self.group_constraints[c]));
            c += 1;
        }
        let mut history: Vec<SignificantAction> = Vec::new();
        let mut i: usize = 0;
        while i < self.history.len()
            invariant
                self.wf(),
                i <= self.history@.len(),
                history@.len() == i,
                forall|k: int| 0 <= k < i ==> {
                    &&& (#[trigger] history@[k]).move_no_spec() == self.history@[k].move_no_spec()
                    &&& history@[k].player_spec() == self.history@[k].player_spec()
                    &&& history@[k].info_spec().same_info(self.history@[k].info_spec())
                    &&& history@[k].meta_spec().public_view() == self.history@[k].meta_spec().public_view()
                    &&& history@[k].meta_spec().inferred_view() == self.history@[k].meta_spec().inferred_view()
                    &&& history@[k].meta_spec().wf()
                },
            decreases self.history@.len() - i,
        {
            proof { assert(self.history@[i as int].meta_spec().wf()); }
            history.push(self.history[i].duplicate());
            i += 1;
        }
        let r = PathDependentCollectiveConstraint {
            public_constraints: clone_table(&self.public_constraints),
            inferred_constraints: clone_table(&self.inferred_constraints),
            group_constraints: groups,
            impossible_constraints: self.impossible_constraints,
            move_no: self.move_no,
            history,
        };
        proof {
            assert(r.groups_view() =~= self.groups_view()) by {
                assert forall|k: int| 0 <= k < 5 implies #[trigger] r.groups_view()[k] == self.groups_view()[k] by {
                    lemma_group_rows(r.group_constraints@, k);
                    lemma_group_rows(self.group_constraints@, k);
                }
            }
            assert forall|k: int| 2 <= k < r.history@.len() implies !((#[trigger] r.history@[k]).info_spec() is Start)
                && !(r.history@[k].info_spec() is StartInferred) by {
                assert(!(self.history@[k].info_spec() is Start) && !(self.history@[k].info_spec() is StartInferred));
            }
        }
        r
    }

    /// The state before any move: nothing known or impossible, the counter at one, a history
    /// of the two start entries, and for every card one group of all players and the pile
    /// holding its three living copies.
    pub open spec fn at_game_start(&self) -> bool {
        &&& self.public_view() == Seq::new(7, |i: int| Seq::<Card>::empty())
        &&& self.inferred_view() == Seq::new(7, |i: int| Seq::<Card>::empty())
        &&& no_impossibilities(self.impossible_view())
        &&& self.move_no_spec() == 1
        &&& self.history_view().len() == 2
        &&& self.history_view()[0].info_spec() == ActionInfo::Start
        &&& self.history_view()[1].info_spec() == ActionInfo::StartInferred
        &&& forall|c: int| 0 <= c < 5 ==> #[trigger] self.groups_view()[c].len() == 1
            && full_start_group(self.groups_view()[c][0], card_at(c))
    }

    /// The state before any move: nothing known, and for every card one group of all
    /// players and the pile holding its three living copies.
    pub fn game_start() -> (r: Self)
        ensures
            r.wf(),
            r.at_game_start(),
    {
        let group_constraints = start_groups();
        let mut history: Vec<SignificantAction> = Vec::new();
        history.push(SignificantAction::start());
        history.push(SignificantAction::start_inferred());
        let r = Self {
            public_constraints: empty_table(),
            inferred_constraints: empty_table(),
            group_constraints,
            impossible_constraints: [[false; 5]; 7],
            move_no: 1,
            history,
        };
        proof {
            assert forall|c: int| 0 <= c < 5 implies #[trigger] r.groups_view()[c].len() == 1
                && full_start_group(r.groups_view()[c][0], card_at(c)) by {
                lemma_group_rows(r.group_constraints@, c);
                assert(r.group_constraints@[c]@.len() == 1);
            }
        }
        r
    }
}

/// The group of every player and the pile holding all three living copies of `card`.
pub open spec fn full_start_group(g: CompressedGroupConstraint, card: Card) -> bool {
    &&& forall|j: int| 0 <= j < 7 ==> #[trigger] g.pflag(j)
    &&& forall|j: int| !#[trigger] g.sflag(j)
    &&& g.card_spec() == card
    &&& g.alive_spec() == 3
    &&& g.dead_spec() == 0
    &&& g.total_spec() == 3
}

/// The group of every player and the pile holding all three living copies of `card`.
pub fn start_group(card: Card) -> (r: CompressedGroupConstraint)
    ensures
        full_start_group(r, card),
{
    let mut g = CompressedGroupConstraint::zero();
    let mut i: usize = 0;
    while i < 7
        invariant
            i <= 7,
            forall|j: int| 0 <= j < i ==> #[trigger] g.pflag(j),
            forall|j: int| !#[trigger] g.sflag(j),
            g.card_spec() == Card::Ambassador,
            g.alive_spec() == 0 && g.dead_spec() == 0 && g.total_spec() == 0,
        decreases 7 - i,
    {
        g.set_player_flag(i, true);
        i += 1;
    }
    g.set_alive_count(3);
    g.set_total_count(3);
    g.set_card(card);
    g
}

/// One full group per card.
pub(crate) fn start_groups() -> (r: Vec<Vec<CompressedGroupConstraint>>)
    ensures
        r@.len() == 5,
        forall|c: int| 0 <= c < 5 ==> #[trigger] r@[c]@.len() == 1 && full_start_group(r@[c]@[0], card_at(c)),
{
    let mut r: Vec<Vec<CompressedGroupConstraint>> = Vec::new();
    r.push(vec![start_group(Card::Ambassador)]);
    r.push(vec![start_group(Card::Assassin)]);
    r.push(vec![start_group(Card::Captain)]);
    r.push(vec![start_group(Card::Duke)]);
    r.push(vec![start_group(Card::Contessa)]);
    assert forall|c: int| 0 <= c < 5 implies #[trigger] r@[c]@.len() == 1 && full_start_group(r@[c]@[0], card_at(c)) by {
        if c == 0 {} else if c == 1 {} else if c == 2 {} else if c == 3 {} else {}
    }
    r
}

/// `r` copies `s`: the same facts, groups and counter, and a history whose entries have the
/// same numbers, players, moves and facts.
pub open spec fn copy_of(r: PathDependentCollectiveConstraint, s: PathDependentCollectiveConstraint) -> bool {
    &&& r.public_view() == s.public_view()
    &&& r.inferred_view() == s.inferred_view()
    &&& r.groups_view() == s.groups_view()
    &&& r.impossible_view() == s.impossible_view()
    &&& r.move_no_spec() == s.move_no_spec()
    &&& r.history_view().len() == s.history_view().len()
    &&& forall|i: int| 0 <= i < s.history_view().len() ==> {
        &&& (#[trigger] r.history_view()[i]).move_no_spec() == s.history_view()[i].move_no_spec()
        &&& r.history_view()[i].player_spec() == s.history_view()[i].player_spec()
        &&& r.history_view()[i].info_spec().same_info(s.history_view()[i].info_spec())
        &&& r.history_view()[i].meta_spec().public_view() == s.history_view()[i].meta_spec().public_view()
        &&& r.history_view()[i].meta_spec().inferred_view() == s.history_view()[i].meta_spec().inferred_view()
    }
}

} // verus!
