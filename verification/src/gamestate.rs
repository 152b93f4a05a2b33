use vstd::prelude::*;
use crate::board::{Board, StationId, TicketType};
use std::sync::Arc;
use crate::rules_spec::{
    can_detect_terminal, initial_model, legal_actions_of, lemma_settled_live, settled,
};

verus! {

/// A player's identity: Mr X, or the detective with the given number.
#[derive(Copy, Clone, PartialEq, Eq, Debug, Structural)]
pub enum PlayerId {
    MrX,
    Detective(u8),
}

/// The outcome of a finished game; detectives win as a team.
#[derive(Copy, Clone, PartialEq, Eq, Debug, Structural)]
pub enum Winner {
    MrX,
    Detectives,
}

/// The tickets a player holds.
#[derive(Copy, Clone, PartialEq, Eq, Debug, Structural)]
pub struct TicketInventory {
    taxi: u8,
    bus: u8,
    underground: u8,
    black: u8,
    pub double: u8,
}

/// The mathematical content of a `TicketInventory`.
pub struct TicketCounts {
    pub taxi: u8,
    pub bus: u8,
    pub underground: u8,
    pub black: u8,
    pub double: u8,
}

impl TicketCounts {
    /// How many tickets of transport `tt` are held.
    pub open spec fn count(self, tt: TicketType) -> u8 {
        match tt {
            TicketType::Taxi => self.taxi,
            TicketType::Bus => self.bus,
            TicketType::Underground => self.underground,
            TicketType::Black => self.black,
        }
    }

    /// The same counts, with the count of `tt` replaced by `v`.
    pub open spec fn with_count(self, tt: TicketType, v: u8) -> TicketCounts {
        match tt {
            TicketType::Taxi => TicketCounts { taxi: v, ..self },
            TicketType::Bus => TicketCounts { bus: v, ..self },
            TicketType::Underground => TicketCounts { underground: v, ..self },
            TicketType::Black => TicketCounts { black: v, ..self },
        }
    }

    /// One ticket of `tt` fewer.
    pub open spec fn spend(self, tt: TicketType) -> TicketCounts {
        self.with_count(tt, (self.count(tt) - 1) as u8)
    }

    /// One ticket of `tt` more.
    pub open spec fn add(self, tt: TicketType) -> TicketCounts {
        self.with_count(tt, (self.count(tt) + 1) as u8)
    }

    /// One double-move ticket fewer.
    pub open spec fn spend_double(self) -> TicketCounts {
        TicketCounts { double: (self.double - 1) as u8, ..self }
    }
}

impl View for TicketInventory {
    type V = TicketCounts;

    closed spec fn view(&self) -> TicketCounts {
        TicketCounts {
            taxi: self.taxi,
            bus: self.bus,
            underground: self.underground,
            black: self.black,
            double: self.double,
        }
    }
}

/// `add_ticket` is the inverse of `spend_ticket`: receiving a ticket and
/// then spending one of the same kind leaves the counts as they were, and so
/// does spending one and then receiving one. Other kinds are untouched.
pub proof fn lemma_add_spend_inverse(c: TicketCounts, tt: TicketType)
    ensures
        c.count(tt) < 255 ==> c.add(tt).spend(tt) == c,
        c.count(tt) > 0 ==> c.spend(tt).add(tt) == c,
        forall|other: TicketType|
            other != tt ==> #[trigger] c.add(tt).count(other) == c.count(other) && c.spend(tt).count(
                other,
            ) == c.count(other),
        c.add(tt).double == c.double && c.spend(tt).double == c.double,
{
}

/// An inventory is determined by its counts.
pub broadcast proof fn lemma_inventory_view(a: TicketInventory, b: TicketInventory)
    ensures
        #[trigger] a@ == #[trigger] b@ ==> a == b,
{
}

impl TicketInventory {
    pub fn new(taxi: u8, bus: u8, underground: u8, black: u8, double: u8) -> (r: Self)
        ensures
            r@ == (TicketCounts { taxi, bus, underground, black, double }),
    {
        Self { taxi, bus, underground, black, double }
    }

    /// The number of tickets of transport `tt`.
    pub fn get(&self, tt: TicketType) -> (r: &u8)
        ensures
            *r == self@.count(tt),
    {
        match tt {
            TicketType::Taxi => &self.taxi,
            TicketType::Bus => &self.bus,
            TicketType::Underground => &self.underground,
            TicketType::Black => &self.black,
        }
    }

    /// Mutable access to the number of tickets of transport `tt`.
    pub fn get_mut(&mut self, tt: TicketType) -> (r: &mut u8)
        ensures
            *r == old(self)@.count(tt),
            final(self)@ == old(self)@.with_count(tt, *final(r)),
    {
        match tt {
            TicketType::Taxi => &mut self.taxi,
            TicketType::Bus => &mut self.bus,
            TicketType::Underground => &mut self.underground,
            TicketType::Black => &mut self.black,
        }
    }

    /// Spends one ticket of transport `tt`; the player must hold one.
    pub fn spend_ticket(&mut self, tt: TicketType)
        requires
            old(self)@.count(tt) > 0,
        ensures
            final(self)@ == old(self)@.spend(tt),
    {
        let slot = self.get_mut(tt);
        *slot = *slot - 1;
    }

    /// Receives one ticket of transport `tt`.
    pub fn add_ticket(&mut self, tt: TicketType)
        requires
            old(self)@.count(tt) < 255,
        ensures
            final(self)@ == old(self)@.add(tt),
    {
        let slot = self.get_mut(tt);
        *slot = *slot + 1;
    }

    /// The number of double-move tickets.
    pub fn doubles(&self) -> (r: u8)
        ensures
            r == self@.double,
    {
        self.double
    }

    /// Spends one double-move ticket; the player must hold one.
    pub fn spend_double(&mut self)
        requires
            old(self)@.double > 0,
        ensures
            final(self)@ == old(self)@.spend_double(),
    {
        self.double = self.double - 1;
    }
}


/// A player: who they are, where they stand and what tickets they hold.
#[derive(Copy, Clone, PartialEq, Eq, Debug)]
pub struct PlayerState {
    pub id: PlayerId,
    pub station: StationId,
    pub tickets: TicketInventory,
}

/// The mathematical content of a `PlayerState`.
pub struct PlayerModel {
    pub id: PlayerId,
    pub station: StationId,
    pub tickets: TicketCounts,
}

impl View for PlayerState {
    type V = PlayerModel;

    open spec fn view(&self) -> PlayerModel {
        PlayerModel { id: self.id, station: self.station, tickets: self.tickets@ }
    }
}

/// A player is determined by its model.
pub broadcast proof fn lemma_player_view(a: PlayerState, b: PlayerState)
    ensures
        #[trigger] a@ == #[trigger] b@ ==> a == b,
{
    broadcast use lemma_inventory_view;

    if a@ == b@ {
        assert(a.tickets@ == b.tickets@);
    }
}

impl PlayerState {
    pub fn new(id: PlayerId, station: StationId, tickets: TicketInventory) -> (r: Self)
        ensures
            r == (PlayerState { id, station, tickets }),
    {
        Self { id, station, tickets }
    }
}

/// One leg of a move: the destination and the ticket spent to get there.
#[derive(Copy, Clone, PartialEq, Eq, Debug, Structural)]
pub struct Step {
    pub to: StationId,
    pub ticket: TicketType,
}

/// A move: one leg, two legs (Mr X's double move), or a detective's forced pass.
#[derive(Copy, Clone, PartialEq, Eq, Debug, Structural)]
pub enum Action {
    Single(Step),
    Double(Step, Step),
    Pass,
}

/// The fully observable state of a game.
#[derive(Clone)]
pub struct GameState {
    pub board: Arc<Board>,
    pub players: Vec<PlayerState>,
    /// Index in `players` of the player to move.
    pub current_player: usize,
    pub turn_number: usize,
    pub is_terminal: bool,
    pub winner: Option<Winner>,
    pub max_turns: usize,
}

/// The mathematical content of a `GameState`.
pub struct GameModel {
    pub board: Seq<Seq<(StationId, TicketType)>>,
    pub players: Seq<PlayerModel>,
    pub current_player: int,
    pub turn_number: int,
    pub is_terminal: bool,
    pub winner: Option<Winner>,
    pub max_turns: int,
}

/// The models of a sequence of players.
pub open spec fn player_models(ps: Seq<PlayerState>) -> Seq<PlayerModel> {
    ps.map_values(|p: PlayerState| p@)
}

impl View for GameState {
    type V = GameModel;

    open spec fn view(&self) -> GameModel {
        GameModel {
            board: self.board@,
            players: player_models(self.players@),
            current_player: self.current_player as int,
            turn_number: self.turn_number as int,
            is_terminal: self.is_terminal,
            winner: self.winner,
            max_turns: self.max_turns as int,
        }
    }
}

/// The identities of a sequence of players, in order.
pub open spec fn player_ids(ps: Seq<PlayerModel>) -> Seq<PlayerId> {
    ps.map_values(|p: PlayerModel| p.id)
}

pub open spec fn is_mrx(id: PlayerId) -> bool {
    id is MrX
}

/// Some player is Mr X.
pub open spec fn has_mrx(ids: Seq<PlayerId>) -> bool {
    exists|i: int| 0 <= i < ids.len() && is_mrx(#[trigger] ids[i])
}

/// `i` is the index of the first Mr X.
pub open spec fn is_first_mrx(ids: Seq<PlayerId>, i: int) -> bool {
    &&& 0 <= i < ids.len()
    &&& is_mrx(ids[i])
    &&& forall|j: int| 0 <= j < i ==> !is_mrx(#[trigger] ids[j])
}

/// The index of the first Mr X (meaningful when there is one).
pub open spec fn first_mrx(ids: Seq<PlayerId>) -> int {
    choose|i: int| is_first_mrx(ids, i)
}

/// There is only one first Mr X.
pub proof fn lemma_first_mrx_unique(ids: Seq<PlayerId>, i: int)
    requires
        is_first_mrx(ids, i),
    ensures
        first_mrx(ids) == i,
{
    let k = first_mrx(ids);
    assert(is_first_mrx(ids, k));
    if k < i {
        assert(!is_mrx(ids[k]));
    } else if i < k {
        assert(!is_mrx(ids[i]));
    }
}

/// A roster with a Mr X has a first one.
pub proof fn lemma_first_mrx_exists(ids: Seq<PlayerId>)
    requires
        has_mrx(ids),
    ensures
        is_first_mrx(ids, first_mrx(ids)),
    decreases ids.len(),
{
    let i = choose|i: int| 0 <= i < ids.len() && is_mrx(#[trigger] ids[i]);
    if is_mrx(ids[0]) {
        assert(is_first_mrx(ids, 0));
    } else {
        let rest = ids.drop_first();
        assert(is_mrx(rest[i - 1]));
        lemma_first_mrx_exists(rest);
        let k = first_mrx(rest);
        assert forall|j: int| 0 <= j < k + 1 implies !is_mrx(#[trigger] ids[j]) by {
            if j > 0 {
                assert(ids[j] == rest[j - 1]);
            }
        }
        assert(is_first_mrx(ids, k + 1));
    }
}

/// A roster the game accepts: Mr X first, then one or more detectives.
pub open spec fn valid_roster(ids: Seq<PlayerId>) -> bool {
    &&& ids.len() >= 2
    &&& is_mrx(ids[0])
    &&& forall|i: int| 1 <= i < ids.len() ==> !is_mrx(#[trigger] ids[i])
}


impl GameState {
    /// A new game on `board` with `players`, which must be Mr X followed by
    /// one or more detectives. Play starts with Mr X in round zero of 22, and
    /// a position that is already decided (Mr X caught or cornered) is marked
    /// finished at once.
    pub fn new(board: Arc<Board>, players: Vec<PlayerState>) -> (r: Self)
        requires
            valid_roster(player_ids(player_models(players@))),
            can_detect_terminal(initial_model(board@, player_models(players@))),
        ensures
            r.board == board,
            r@ == settled(initial_model(board@, player_models(players@))),
            !r@.is_terminal ==> legal_actions_of(r@).len() > 0,
    {
        let ghost g = initial_model(board@, player_models(players@));
        let mut state = Self {
            board,
            players,
            current_player: 0,
            turn_number: 0,
            is_terminal: false,
            winner: None,
            max_turns: 22,
        };
        assert(state@ == g);
        match crate::rules::detect_terminal(&state) {
            Some(winner) => {
                state.is_terminal = true;
                state.winner = Some(winner);
            },
            None => {},
        }
        proof {
            lemma_settled_live(g);
        }
        state
    }
}


/// The public summary of a game state: whose turn, the players, the round.
pub struct StateResponse {
    pub current_player: usize,
    pub players: Vec<PlayerState>,
    pub round: usize,
}

impl<'a> From<&'a GameState> for StateResponse {
    fn from(gs: &'a GameState) -> (r: Self)
        ensures
            r.current_player == gs.current_player,
            r.players@ == gs.players@,
            r.round == gs.turn_number,
    {
        let players = gs.players.clone();
        Self { current_player: gs.current_player, players, round: gs.turn_number }
    }
}

impl<'a> vstd::std_specs::convert::FromSpecImpl<&'a GameState> for StateResponse {
    /// A copied roster matches the one it was copied from only in content, so the
    /// conversion's contract is stated on its `from` rather than here.
    open spec fn obeys_from_spec() -> bool {
        false
    }

    open spec fn from_spec(gs: &'a GameState) -> StateResponse {
        StateResponse { current_player: gs.current_player, players: gs.players, round: gs.turn_number }
    }
}

} // verus!
