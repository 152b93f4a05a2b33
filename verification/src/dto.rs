use vstd::prelude::*;
use vstd::std_specs::convert::FromSpecImpl;
use crate::board::{StationId, TicketType};
use crate::decimal::{decimal_chars, decimal_string};
use crate::gamestate::{Action, PlayerId, PlayerState, Step, TicketCounts, TicketInventory, Winner};
use crate::history::{Game, MrXMove};
use crate::rules::legal_actions;
use crate::rules_spec::{can_list_actions, legal_actions_of};

verus! {

/// A ticket kind as the API names it.
#[derive(Clone, Copy, PartialEq, Eq, Debug, Structural)]
pub enum TicketDto {
    Taxi,
    Bus,
    Underground,
    Black,
}

pub open spec fn ticket_dto_of(t: TicketType) -> TicketDto {
    match t {
        TicketType::Taxi => TicketDto::Taxi,
        TicketType::Bus => TicketDto::Bus,
        TicketType::Underground => TicketDto::Underground,
        TicketType::Black => TicketDto::Black,
    }
}

pub open spec fn ticket_type_of(t: TicketDto) -> TicketType {
    match t {
        TicketDto::Taxi => TicketType::Taxi,
        TicketDto::Bus => TicketType::Bus,
        TicketDto::Underground => TicketType::Underground,
        TicketDto::Black => TicketType::Black,
    }
}

impl From<TicketType> for TicketDto {
    fn from(t: TicketType) -> (r: Self) {
        match t {
            TicketType::Taxi => TicketDto::Taxi,
            TicketType::Bus => TicketDto::Bus,
            TicketType::Underground => TicketDto::Underground,
            TicketType::Black => TicketDto::Black,
        }
    }
}

impl FromSpecImpl<TicketType> for TicketDto {
    open spec fn obeys_from_spec() -> bool {
        true
    }

    open spec fn from_spec(t: TicketType) -> TicketDto {
        ticket_dto_of(t)
    }
}

impl From<TicketDto> for TicketType {
    fn from(t: TicketDto) -> (r: Self) {
        match t {
            TicketDto::Taxi => TicketType::Taxi,
            TicketDto::Bus => TicketType::Bus,
            TicketDto::Underground => TicketType::Underground,
            TicketDto::Black => TicketType::Black,
        }
    }
}

impl FromSpecImpl<TicketDto> for TicketType {
    open spec fn obeys_from_spec() -> bool {
        true
    }

    open spec fn from_spec(t: TicketDto) -> TicketType {
        ticket_type_of(t)
    }
}

/// The two conversions between ticket kinds are inverse to each other.
pub proof fn lemma_ticket_dto_roundtrip(t: TicketType, d: TicketDto)
    ensures
        ticket_type_of(ticket_dto_of(t)) == t,
        ticket_dto_of(ticket_type_of(d)) == d,
{
}

/// A player identity as the API names it.
#[derive(Clone, Copy, PartialEq, Eq, Debug, Structural)]
pub enum PlayerIdDto {
    Mrx,
    Detective { n: u8 },
}

pub open spec fn player_id_dto_of(id: PlayerId) -> PlayerIdDto {
    match id {
        PlayerId::MrX => PlayerIdDto::Mrx,
        PlayerId::Detective(n) => PlayerIdDto::Detective { n },
    }
}

impl From<PlayerId> for PlayerIdDto {
    fn from(id: PlayerId) -> (r: Self) {
        match id {
            PlayerId::MrX => PlayerIdDto::Mrx,
            PlayerId::Detective(n) => PlayerIdDto::Detective { n },
        }
    }
}

impl FromSpecImpl<PlayerId> for PlayerIdDto {
    open spec fn obeys_from_spec() -> bool {
        true
    }

    open spec fn from_spec(id: PlayerId) -> PlayerIdDto {
        player_id_dto_of(id)
    }
}

/// A game outcome as the API names it.
#[derive(Clone, Copy, PartialEq, Eq, Debug, Structural)]
pub enum WinnerDto {
    MrX,
    Detectives,
}

pub open spec fn winner_dto_of(w: Winner) -> WinnerDto {
    match w {
        Winner::MrX => WinnerDto::MrX,
        Winner::Detectives => WinnerDto::Detectives,
    }
}

impl From<Winner> for WinnerDto {
    fn from(w: Winner) -> (r: Self) {
        match w {
            Winner::MrX => WinnerDto::MrX,
            Winner::Detectives => WinnerDto::Detectives,
        }
    }
}

impl FromSpecImpl<Winner> for WinnerDto {
    open spec fn obeys_from_spec() -> bool {
        true
    }

    open spec fn from_spec(w: Winner) -> WinnerDto {
        winner_dto_of(w)
    }
}

/// A player's ticket counts.
#[derive(Clone, Copy, PartialEq, Eq, Debug, Structural)]
pub struct TicketsDto {
    pub taxi: u8,
    pub bus: u8,
    pub underground: u8,
    pub black: u8,
    pub double: u8,
}

pub open spec fn tickets_dto_of(c: TicketCounts) -> TicketsDto {
    TicketsDto {
        taxi: c.taxi,
        bus: c.bus,
        underground: c.underground,
        black: c.black,
        double: c.double,
    }
}

impl<'a> From<&'a TicketInventory> for TicketsDto {
    fn from(inv: &'a TicketInventory) -> (r: Self)
        ensures
            r.taxi == inv@.count(TicketType::Taxi),
            r.bus == inv@.count(TicketType::Bus),
            r.underground == inv@.count(TicketType::Underground),
            r.black == inv@.count(TicketType::Black),
            r.double == inv@.double,
    {
        Self {
            taxi: *inv.get(TicketType::Taxi),
            bus: *inv.get(TicketType::Bus),
            underground: *inv.get(TicketType::Underground),
            black: *inv.get(TicketType::Black),
            double: inv.doubles(),
        }
    }
}

impl<'a> FromSpecImpl<&'a TicketInventory> for TicketsDto {
    open spec fn obeys_from_spec() -> bool {
        true
    }

    open spec fn from_spec(inv: &'a TicketInventory) -> TicketsDto {
        tickets_dto_of(inv@)
    }
}

/// A single leg as the API carries it: a 1-based station number and a ticket.
#[derive(Clone, Copy, PartialEq, Eq, Debug, Structural)]
pub struct StepDto {
    pub to: u16,
    pub ticket: TicketDto,
}

pub open spec fn step_dto_of(s: Step) -> StepDto {
    StepDto { to: s.to.id as u16, ticket: ticket_dto_of(s.ticket) }
}

/// The message for a station number that no station can have.
pub open spec fn out_of_range_message(to: u16) -> Seq<char> {
    "station id "@ + decimal_chars(to as nat) + " out of range"@
}

/// The step a `StepDto` names, when its station number fits a station.
pub open spec fn step_of(d: StepDto) -> Result<Step, Seq<char>> {
    if 1 <= d.to && d.to <= 255 {
        Ok(Step { to: StationId { id: d.to as u8 }, ticket: ticket_type_of(d.ticket) })
    } else {
        Err(out_of_range_message(d.to))
    }
}

/// The model of a result carrying a `String` error.
pub open spec fn result_view<T>(r: Result<T, String>) -> Result<T, Seq<char>> {
    match r {
        Ok(v) => Ok(v),
        Err(e) => Err(e@),
    }
}

impl StepDto {
    /// The engine step this names; an error when the station number is not
    /// between 1 and 255.
    pub fn to_step(self) -> (r: Result<Step, String>)
        ensures
            result_view(r) == step_of(self),
    {
        if self.to < 1 || self.to > 255 {
            let mut msg = "station id ".to_owned();
            let digits = decimal_string(self.to as u64);
            msg.append(digits.as_str());
            msg.append(" out of range");
            return Err(msg);
        }
        Ok(Step { to: StationId { id: self.to as u8 }, ticket: self.ticket.into() })
    }
}

impl<'a> From<&'a Step> for StepDto {
    fn from(s: &'a Step) -> (r: Self) {
        Self { to: s.to.id as u16, ticket: s.ticket.into() }
    }
}

impl<'a> FromSpecImpl<&'a Step> for StepDto {
    open spec fn obeys_from_spec() -> bool {
        true
    }

    open spec fn from_spec(s: &'a Step) -> StepDto {
        step_dto_of(*s)
    }
}


/// A player as the API shows it.
#[derive(Clone, Copy, PartialEq, Eq, Debug, Structural)]
pub struct PlayerDto {
    pub id: PlayerIdDto,
    pub station: u16,
    pub tickets: TicketsDto,
}

pub open spec fn player_dto_of(p: PlayerState) -> PlayerDto {
    PlayerDto {
        id: player_id_dto_of(p.id),
        station: p.station.id as u16,
        tickets: tickets_dto_of(p.tickets@),
    }
}

impl<'a> From<&'a PlayerState> for PlayerDto {
    fn from(p: &'a PlayerState) -> (r: Self) {
        Self { id: p.id.into(), station: p.station.id as u16, tickets: (&p.tickets).into() }
    }
}

impl<'a> FromSpecImpl<&'a PlayerState> for PlayerDto {
    open spec fn obeys_from_spec() -> bool {
        true
    }

    open spec fn from_spec(p: &'a PlayerState) -> PlayerDto {
        player_dto_of(*p)
    }
}

/// One entry of Mr X's public log; the station only on reveal legs.
#[derive(Clone, Copy, PartialEq, Eq, Debug, Structural)]
pub struct MrXLogEntryDto {
    pub ticket: TicketDto,
    pub revealed: Option<u16>,
}

pub open spec fn log_entry_dto_of(m: MrXMove) -> MrXLogEntryDto {
    MrXLogEntryDto {
        ticket: ticket_dto_of(m.ticket),
        revealed: match m.revealed {
            Some(st) => Some(st.id as u16),
            None => None,
        },
    }
}

pub open spec fn winner_option_dto_of(w: Option<Winner>) -> Option<WinnerDto> {
    match w {
        Some(w) => Some(winner_dto_of(w)),
        None => None,
    }
}

/// The full game as the API shows it, with every player's position.
/// `d` is the full view of `game`, named `game_id`: its turn bookkeeping,
/// every player, and Mr X's public log.
pub open spec fn describes_game(d: GameStateDto, game_id: Seq<char>, game: Game) -> bool {
    &&& d.game_id@ == game_id
    &&& d.current_player == game.state.current_player
    &&& d.turn_number == game.state.turn_number
    &&& d.max_turns == game.state.max_turns
    &&& d.is_terminal == game.state.is_terminal
    &&& d.winner == winner_option_dto_of(game.state.winner)
    &&& d.players@ == game.state.players@.map_values(|p: PlayerState| player_dto_of(p))
    &&& d.mr_x_log@ == game.history.mr_x_log@.map_values(|m: MrXMove| log_entry_dto_of(m))
}

pub struct GameStateDto {
    pub game_id: String,
    pub current_player: usize,
    pub turn_number: usize,
    pub max_turns: usize,
    pub is_terminal: bool,
    pub winner: Option<WinnerDto>,
    pub players: Vec<PlayerDto>,
    pub mr_x_log: Vec<MrXLogEntryDto>,
}

impl GameStateDto {
    /// Projects `game` (named `game_id`) field by field.
    pub fn from_game(game_id: &str, game: &Game) -> (r: Self)
        ensures
            describes_game(r, game_id@, *game),
    {
        let s = &game.state;
        let mut players: Vec<PlayerDto> = Vec::new();
        let mut i: usize = 0;
        while i < s.players.len()
            invariant
                i <= s.players.len(),
                players@ == s.players@.take(i as int).map_values(|p: PlayerState| player_dto_of(p)),
            decreases s.players.len() - i,
        {
            players.push(PlayerDto::from(&s.players[i]));
            i = i + 1;
            assert(players@ =~= s.players@.take(i as int).map_values(
                |p: PlayerState| player_dto_of(p),
            ));
        }
        assert(s.players@.take(i as int) =~= s.players@);
        let log = &game.history.mr_x_log;
        let mut entries: Vec<MrXLogEntryDto> = Vec::new();
        let mut j: usize = 0;
        while j < log.len()
            invariant
                j <= log.len(),
                entries@ == log@.take(j as int).map_values(|m: MrXMove| log_entry_dto_of(m)),
            decreases log.len() - j,
        {
            let m = log[j];
            let revealed = match m.revealed {
                Some(st) => Some(st.id as u16),
                None => None,
            };
            entries.push(MrXLogEntryDto { ticket: m.ticket.into(), revealed });
            j = j + 1;
            assert(entries@ =~= log@.take(j as int).map_values(|m: MrXMove| log_entry_dto_of(m)));
        }
        assert(log@.take(j as int) =~= log@);
        let winner = match s.winner {
            Some(w) => Some(WinnerDto::from(w)),
            None => None,
        };
        Self {
            game_id: game_id.to_owned(),
            current_player: s.current_player,
            turn_number: s.turn_number,
            max_turns: s.max_turns,
            is_terminal: s.is_terminal,
            winner,
            players,
            mr_x_log: entries,
        }
    }
}

/// One destination reachable by the player to move, with the tickets (in
/// first-seen order, each once) that get there.
pub struct MoveOptionDto {
    pub to: u16,
    pub tickets: Vec<TicketDto>,
}

pub open spec fn move_option_view(m: MoveOptionDto) -> (u16, Seq<TicketDto>) {
    (m.to, m.tickets@)
}

/// A double move, both legs listed.
#[derive(Clone, Copy, PartialEq, Eq, Debug, Structural)]
pub struct DoubleOptionDto {
    pub first: StepDto,
    pub second: StepDto,
}

/// The player to move's legal actions, shaped for a user interface.
pub struct LegalMovesDto {
    pub player: PlayerIdDto,
    pub can_pass: bool,
    pub singles: Vec<MoveOptionDto>,
    pub doubles: Vec<DoubleOptionDto>,
}

/// The grouping `LegalMovesDto::from_game` builds from `actions[0..n]`:
/// single legs grouped by destination in first-seen order (each ticket once
/// per destination), the double moves in order, and whether a pass occurs.
pub open spec fn group_moves(actions: Seq<Action>, n: nat) -> (
    Seq<(u16, Seq<TicketDto>)>,
    Seq<DoubleOptionDto>,
    bool,
)
    decreases n,
{
    if n == 0 {
        (Seq::empty(), Seq::empty(), false)
    } else {
        let prev = group_moves(actions, (n - 1) as nat);
        match actions[n - 1] {
            Action::Single(step) => {
                let to = step.to.id as u16;
                let t = ticket_dto_of(step.ticket);
                if exists|j: int| 0 <= j < prev.0.len() && (#[trigger] prev.0[j]).0 == to {
                    (
                        prev.0.map_values(
                            |m: (u16, Seq<TicketDto>)|
                                if m.0 == to && !m.1.contains(t) {
                                    (m.0, m.1.push(t))
                                } else {
                                    m
                                },
                        ),
                        prev.1,
                        prev.2,
                    )
                } else {
                    (prev.0.push((to, seq![t])), prev.1, prev.2)
                }
            },
            Action::Double(first, second) => (
                prev.0,
                prev.1.push(DoubleOptionDto { first: step_dto_of(first), second: step_dto_of(second) }),
                prev.2,
            ),
            Action::Pass => (prev.0, prev.1, true),
        }
    }
}

/// No two groups share a destination.
pub open spec fn distinct_destinations(groups: Seq<(u16, Seq<TicketDto>)>) -> bool {
    forall|i: int, j: int|
        0 <= i < j < groups.len() ==> (#[trigger] groups[i]).0 != (#[trigger] groups[j]).0
}

/// Grouping lists each destination once.
pub proof fn lemma_group_moves_distinct(actions: Seq<Action>, n: nat)
    ensures
        distinct_destinations(group_moves(actions, n).0),
    decreases n,
{
    if n > 0 {
        lemma_group_moves_distinct(actions, (n - 1) as nat);
    }
}

/// Some single action among `actions[0..n]` goes to station `to` with
/// ticket `t`.
pub open spec fn single_to(actions: Seq<Action>, n: nat, to: u16, t: TicketDto) -> bool {
    exists|i: int|
        0 <= i < n && (#[trigger] actions[i] matches Action::Single(s) && s.to.id as u16 == to
            && ticket_dto_of(s.ticket) == t)
}

/// The destination of some single action among `actions[0..n]` is `to`.
pub open spec fn single_dest(actions: Seq<Action>, n: nat, to: u16) -> bool {
    exists|i: int| 0 <= i < n && (#[trigger] actions[i] matches Action::Single(s) && s.to.id as u16 == to)
}

/// The grouped single moves are exactly the single actions: each
/// destination of a single action is listed, and a listed destination
/// carries a ticket exactly when a single action goes there with it.
pub proof fn lemma_group_moves_singles(actions: Seq<Action>, n: nat)
    requires
        n <= actions.len(),
    ensures
        forall|to: u16|
            single_dest(actions, n, to) <==> exists|j: int|
                0 <= j < group_moves(actions, n).0.len() && (#[trigger] group_moves(
                    actions,
                    n,
                ).0[j]).0 == to,
        forall|j: int, t: TicketDto|
            0 <= j < group_moves(actions, n).0.len() ==> (#[trigger] group_moves(
                actions,
                n,
            ).0[j].1.contains(t) <==> single_to(actions, n, group_moves(actions, n).0[j].0, t)),
    decreases n,
{
    if n > 0 {
        let m = (n - 1) as nat;
        lemma_group_moves_singles(actions, m);
        let prev = group_moves(actions, m).0;
        let cur = group_moves(actions, n).0;
        let a = actions[m as int];
        assert forall|to: u16, t: TicketDto| single_to(actions, n, to, t) <==> (single_to(
            actions,
            m,
            to,
            t,
        ) || (a matches Action::Single(s) && s.to.id as u16 == to && ticket_dto_of(s.ticket) == t)) by {
            if single_to(actions, n, to, t) {
                let i = choose|i: int|
                    0 <= i < n && (#[trigger] actions[i] matches Action::Single(s) && s.to.id as u16
                        == to && ticket_dto_of(s.ticket) == t);
                if i < m {
                    assert(single_to(actions, m, to, t));
                }
            }
            if single_to(actions, m, to, t) {
                let i = choose|i: int|
                    0 <= i < m && (#[trigger] actions[i] matches Action::Single(s) && s.to.id as u16
                        == to && ticket_dto_of(s.ticket) == t);
                assert(single_to(actions, n, to, t));
            }
            if a matches Action::Single(s) && s.to.id as u16 == to && ticket_dto_of(s.ticket) == t {
                assert(actions[m as int] == a);
                assert(single_to(actions, n, to, t));
            }
        }
        assert forall|to: u16| single_dest(actions, n, to) <==> (single_dest(actions, m, to) || (
        a matches Action::Single(s) && s.to.id as u16 == to)) by {
            if single_dest(actions, n, to) {
                let i = choose|i: int|
                    0 <= i < n && (#[trigger] actions[i] matches Action::Single(s) && s.to.id as u16
                        == to);
                if i < m {
                    assert(single_dest(actions, m, to));
                }
            }
            if single_dest(actions, m, to) {
                let i = choose|i: int|
                    0 <= i < m && (#[trigger] actions[i] matches Action::Single(s) && s.to.id as u16
                        == to);
                assert(single_dest(actions, n, to));
            }
            if a matches Action::Single(s) && s.to.id as u16 == to {
                assert(actions[m as int] == a);
                assert(single_dest(actions, n, to));
            }
        }
        match a {
            Action::Single(step) => {
                let to = step.to.id as u16;
                let t = ticket_dto_of(step.ticket);
                if exists|j: int| 0 <= j < prev.len() && (#[trigger] prev[j]).0 == to {
                    assert forall|j: int| 0 <= j < cur.len() implies (#[trigger] cur[j]).0
                        == prev[j].0 by {}
                    assert forall|x: u16| single_dest(actions, n, x) <==> exists|j: int|
                        0 <= j < cur.len() && (#[trigger] cur[j]).0 == x by {
                        if exists|j: int| 0 <= j < prev.len() && (#[trigger] prev[j]).0 == x {
                            let j = choose|j: int| 0 <= j < prev.len() && (#[trigger] prev[j]).0 == x;
                            assert(cur[j].0 == x);
                        }
                        if exists|j: int| 0 <= j < cur.len() && (#[trigger] cur[j]).0 == x {
                            let j = choose|j: int| 0 <= j < cur.len() && (#[trigger] cur[j]).0 == x;
                            assert(prev[j].0 == x);
                        }
                    }
                    assert forall|j: int, u: TicketDto| 0 <= j < cur.len() implies (
                    #[trigger] cur[j].1.contains(u) <==> single_to(actions, n, cur[j].0, u)) by {
                        let p = prev[j];
                        if p.0 == to && !p.1.contains(t) {
                            assert(cur[j].1 == p.1.push(t));
                            if p.1.push(t).contains(u) && u != t {
                                let k = choose|k: int| 0 <= k < p.1.push(t).len() && p.1.push(t)[k] == u;
                                assert(p.1[k] == u);
                            }
                            if p.1.contains(u) {
                                let k = choose|k: int| 0 <= k < p.1.len() && p.1[k] == u;
                                assert(p.1.push(t)[k] == u);
                            }
                            assert(p.1.push(t)[p.1.len() as int] == t);
                        } else {
                            assert(cur[j] == p);
                        }
                    }
                } else {
                    assert(!single_dest(actions, m, to));
                    assert forall|x: u16| single_dest(actions, n, x) <==> exists|j: int|
                        0 <= j < cur.len() && (#[trigger] cur[j]).0 == x by {
                        if exists|j: int| 0 <= j < prev.len() && (#[trigger] prev[j]).0 == x {
                            let j = choose|j: int| 0 <= j < prev.len() && (#[trigger] prev[j]).0 == x;
                            assert(cur[j] == prev[j]);
                        }
                        if x == to {
                            assert(cur[prev.len() as int].0 == x);
                        }
                        if exists|j: int| 0 <= j < cur.len() && (#[trigger] cur[j]).0 == x {
                            let j = choose|j: int| 0 <= j < cur.len() && (#[trigger] cur[j]).0 == x;
                            if j < prev.len() {
                                assert(prev[j] == cur[j]);
                            }
                        }
                    }
                    assert forall|j: int, u: TicketDto| 0 <= j < cur.len() implies (
                    #[trigger] cur[j].1.contains(u) <==> single_to(actions, n, cur[j].0, u)) by {
                        if j < prev.len() {
                            assert(cur[j] == prev[j]);
                        } else {
                            assert(cur[j] == (to, seq![t]));
                            if seq![t].contains(u) {
                                let k = choose|k: int| 0 <= k < seq![t].len() && seq![t][k] == u;
                            }
                            if u == t {
                                assert(seq![t][0] == t);
                            }
                            if single_to(actions, m, to, u) {
                                let i = choose|i: int|
                                    0 <= i < m && (#[trigger] actions[i] matches Action::Single(s)
                                        && s.to.id as u16 == to && ticket_dto_of(s.ticket) == u);
                                assert(single_dest(actions, m, to));
                            }
                        }
                    }
                }
            },
            _ => {
                assert(cur == prev);
            },
        }
    }
}

/// The option the UI shows for a double move: each leg as its station
/// number and ticket; nothing for any other action.
pub open spec fn double_option(a: Action) -> Option<DoubleOptionDto> {
    match a {
        Action::Double(first, second) => Some(
            DoubleOptionDto {
                first: StepDto { to: first.to.id as u16, ticket: ticket_dto_of(first.ticket) },
                second: StepDto { to: second.to.id as u16, ticket: ticket_dto_of(second.ticket) },
            },
        ),
        _ => None,
    }
}

/// The double options are exactly the double moves among the actions, in
/// their order, none left out and none added.
pub proof fn lemma_group_moves_doubles(actions: Seq<Action>, n: nat)
    requires
        n <= actions.len(),
    ensures
        group_moves(actions, n).1 == actions.take(n as int).filter_map(
            |a: Action| double_option(a),
        ),
    decreases n,
{
    let f = |a: Action| double_option(a);
    if n == 0 {
        assert(actions.take(0) =~= Seq::<Action>::empty());
    } else {
        let m = (n - 1) as nat;
        lemma_group_moves_doubles(actions, m);
        actions.lemma_filter_map_take_succ(f, m as int);
        let prev = group_moves(actions, m).1;
        match actions[m as int] {
            Action::Double(first, second) => {
                assert(group_moves(actions, n).1 == prev.push(
                    DoubleOptionDto { first: step_dto_of(first), second: step_dto_of(second) },
                ));
                assert(group_moves(actions, n).1 =~= prev + seq![f(actions[m as int]).unwrap()]);
            },
            _ => {
                assert(group_moves(actions, n).1 == prev);
                assert(prev + Seq::<DoubleOptionDto>::empty() =~= prev);
            },
        }
    }
}

/// The UI's double options are exactly the double moves the engine lists
/// for the player to move, in order.
pub proof fn lemma_legal_moves_doubles(d: LegalMovesDto, game: Game)
    requires
        lists_moves(d, game),
    ensures
        d.doubles@ == legal_actions_of(game.state@).filter_map(|a: Action| double_option(a)),
{
    let acts = legal_actions_of(game.state@);
    lemma_group_moves_doubles(acts, acts.len());
    assert(acts.take(acts.len() as int) =~= acts);
}

/// Each count the UI shows for an inventory is the inventory's count of
/// that same ticket kind.
pub proof fn lemma_tickets_dto_counts(inv: TicketInventory)
    ensures
        tickets_dto_of(inv@).taxi == inv@.count(TicketType::Taxi),
        tickets_dto_of(inv@).bus == inv@.count(TicketType::Bus),
        tickets_dto_of(inv@).underground == inv@.count(TicketType::Underground),
        tickets_dto_of(inv@).black == inv@.count(TicketType::Black),
        tickets_dto_of(inv@).double == inv@.double,
{
}

/// A pass occurs among `actions[0..n]` exactly when the grouping says so.
pub proof fn lemma_group_moves_pass(actions: Seq<Action>, n: nat)
    requires
        n <= actions.len(),
    ensures
        group_moves(actions, n).2 <==> actions.take(n as int).contains(Action::Pass),
    decreases n,
{
    if n > 0 {
        let m = (n - 1) as nat;
        lemma_group_moves_pass(actions, m);
        assert(actions.take(n as int).drop_last() =~= actions.take(m as int));
        assert(actions.take(n as int)[m as int] == actions[m as int]);
        if actions[m as int] == Action::Pass {
            assert(group_moves(actions, n).2);
            assert(actions.take(n as int).contains(Action::Pass));
        } else {
            assert(group_moves(actions, n).2 == group_moves(actions, m).2);
        }
        if actions.take(m as int).contains(Action::Pass) {
            let i = choose|i: int| 0 <= i < m && actions.take(m as int)[i] == Action::Pass;
            assert(actions.take(n as int)[i] == Action::Pass);
        }
        if actions.take(n as int).contains(Action::Pass) {
            let i = choose|i: int| 0 <= i < n && actions.take(n as int)[i] == Action::Pass;
            if i < m {
                assert(actions.take(m as int)[i] == Action::Pass);
            }
        }
    }
}

fn find_destination(singles: &Vec<MoveOptionDto>, to: u16) -> (r: Option<usize>)
    ensures
        match r {
            Some(j) => j < singles@.len() && singles@[j as int].to == to,
            None => forall|i: int| 0 <= i < singles@.len() ==> (#[trigger] singles@[i]).to != to,
        },
{
    let mut i: usize = 0;
    while i < singles.len()
        invariant
            i <= singles.len(),
            forall|k: int| 0 <= k < i ==> (#[trigger] singles@[k]).to != to,
        decreases singles.len() - i,
    {
        if singles[i].to == to {
            return Some(i);
        }
        i = i + 1;
    }
    None
}

fn contains_ticket(v: &Vec<TicketDto>, t: TicketDto) -> (r: bool)
    ensures
        r == v@.contains(t),
{
    let mut i: usize = 0;
    while i < v.len()
        invariant
            i <= v.len(),
            forall|k: int| 0 <= k < i ==> v@[k] != t,
        decreases v.len() - i,
    {
        if v[i] == t {
            assert(v@[i as int] == t);
            return true;
        }
        i = i + 1;
    }
    false
}

/// `d` lists the legal actions of the player to move in `game`: single legs
/// grouped by destination in first-seen order (each ticket once per
/// destination), every double move, and whether passing is legal.
pub open spec fn lists_moves(d: LegalMovesDto, game: Game) -> bool {
    let acts = legal_actions_of(game.state@);
    &&& d.player == player_id_dto_of(game.state@.cur().id)
    &&& d.singles@.map_values(|m: MoveOptionDto| move_option_view(m)) == group_moves(
        acts,
        acts.len(),
    ).0
    &&& d.doubles@ == group_moves(acts, acts.len()).1
    &&& d.can_pass == acts.contains(Action::Pass)
}

impl LegalMovesDto {
    /// The legal actions of the player to move in `game`: single legs grouped
    /// by destination in first-seen order (each ticket once per destination),
    /// every double move, and whether passing is legal.
    pub fn from_game(game: &Game) -> (r: Self)
        requires
            game.state@.well_indexed(),
            can_list_actions(game.state@),
        ensures
            lists_moves(r, *game),
            r.doubles@ == legal_actions_of(game.state@).filter_map(|a: Action| double_option(a)),
    {
        let s = &game.state;
        let actions = legal_actions(s);
        let ghost acts = actions@;
        let mut singles: Vec<MoveOptionDto> = Vec::new();
        let mut doubles: Vec<DoubleOptionDto> = Vec::new();
        let mut can_pass = false;
        let mut k: usize = 0;
        while k < actions.len()
            invariant
                k <= actions.len(),
                acts == actions@,
                singles@.map_values(|m: MoveOptionDto| move_option_view(m)) == group_moves(
                    acts,
                    k as nat,
                ).0,
                doubles@ == group_moves(acts, k as nat).1,
                can_pass == group_moves(acts, k as nat).2,
            decreases actions.len() - k,
        {
            let ghost prev = group_moves(acts, k as nat);
            proof {
                lemma_group_moves_distinct(acts, k as nat);
            }
            assert(singles@.len() == prev.0.len());
            match actions[k] {
                Action::Single(step) => {
                    let to = step.to.id as u16;
                    let ticket: TicketDto = step.ticket.into();
                    match find_destination(&singles, to) {
                        Some(j) => {
                            assert(move_option_view(singles@[j as int]) == prev.0[j as int]);
                            assert(exists|j: int|
                                0 <= j < prev.0.len() && (#[trigger] prev.0[j]).0 == to);
                            if !contains_ticket(&singles[j].tickets, ticket) {
                                let mut tickets = singles[j].tickets.clone();
                                tickets.push(ticket);
                                singles.set(j, MoveOptionDto { to, tickets });
                            }
                            let ghost next = group_moves(acts, (k + 1) as nat).0;
                            assert forall|i: int| 0 <= i < singles@.len() implies move_option_view(
                                #[trigger] singles@[i],
                            ) == next[i] by {
                                if i != j {
                                    assert(prev.0[i].0 != to);
                                }
                            }
                            assert(singles@.map_values(|m: MoveOptionDto| move_option_view(m))
                                =~= next);
                        },
                        None => {
                            let mut tickets: Vec<TicketDto> = Vec::new();
                            tickets.push(ticket);
                            assert(tickets@ =~= seq![ticket]);
                            singles.push(MoveOptionDto { to, tickets });
                            assert forall|j: int| 0 <= j < prev.0.len() implies (#[trigger] prev.0[j]).0
                                != to by {
                                assert(move_option_view(singles@[j]) == prev.0[j]);
                            }
                            assert(singles@.map_values(|m: MoveOptionDto| move_option_view(m))
                                =~= group_moves(acts, (k + 1) as nat).0);
                        },
                    }
                },
                Action::Double(first, second) => {
                    doubles.push(DoubleOptionDto { first: (&first).into(), second: (&second).into() });
                },
                Action::Pass => {
                    can_pass = true;
                },
            }
            k = k + 1;
        }
        proof {
            lemma_group_moves_pass(acts, acts.len());
            lemma_group_moves_doubles(acts, acts.len());
            assert(acts.take(acts.len() as int) =~= acts);
        }
        let curr = &s.players[s.current_player];
        Self { player: curr.id.into(), can_pass, singles, doubles }
    }
}


/// A request to start a game: the number of detectives, and either both
/// start positions or neither (then dealt at random, reproducibly with a seed).
pub struct NewGameRequest {
    pub detectives: usize,
    pub mr_x_start: Option<u8>,
    pub detective_starts: Option<Vec<u8>>,
    pub seed: Option<u64>,
}

/// An incoming move.
#[derive(Clone, Copy, PartialEq, Eq, Debug, Structural)]
pub enum MoveRequest {
    Single { to: u16, ticket: TicketDto },
    Double { first: StepDto, second: StepDto },
    Pass,
}

/// The action a move request names, or the error of its first bad leg.
pub open spec fn action_of(req: MoveRequest) -> Result<Action, Seq<char>> {
    match req {
        MoveRequest::Single { to, ticket } => match step_of(StepDto { to, ticket }) {
            Ok(s) => Ok(Action::Single(s)),
            Err(e) => Err(e),
        },
        MoveRequest::Double { first, second } => match step_of(first) {
            Err(e) => Err(e),
            Ok(s1) => match step_of(second) {
                Err(e) => Err(e),
                Ok(s2) => Ok(Action::Double(s1, s2)),
            },
        },
        MoveRequest::Pass => Ok(Action::Pass),
    }
}

impl MoveRequest {
    /// The engine action this request names; an error when a leg's station
    /// number is out of range.
    pub fn to_action(&self) -> (r: Result<Action, String>)
        ensures
            result_view(r) == action_of(*self),
    {
        match self {
            MoveRequest::Single { to, ticket } => match (StepDto { to: *to, ticket: *ticket }).to_step() {
                Ok(s) => Ok(Action::Single(s)),
                Err(e) => Err(e),
            },
            MoveRequest::Double { first, second } => match first.to_step() {
                Err(e) => Err(e),
                Ok(s1) => match second.to_step() {
                    Err(e) => Err(e),
                    Ok(s2) => Ok(Action::Double(s1, s2)),
                },
            },
            MoveRequest::Pass => Ok(Action::Pass),
        }
    }
}

} // verus!
