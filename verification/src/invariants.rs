use vstd::prelude::*;
use crate::board::{board_closed, station_in_range, TicketType};
use crate::rules::is_detective_id;
use crate::history::{recorded_legs, Game};
use crate::gamestate::{
    is_first_mrx, is_mrx, lemma_first_mrx_unique, player_ids, player_models, valid_roster, Action,
    GameModel, PlayerModel, PlayerState, Step,
};
use crate::rules_spec::{
    action_legal, apply_action_of, apply_step_of, apply_step_ok, can_apply_action, can_detect_terminal,
    can_judge_action, can_list_actions, edge_admits, is_detective, lemma_apply_step_frame,
    lemma_closed_board_lists, moved_of, rotated, settled, step_legal, terminal_of,
};

verus! {

/// The number of tickets of kind `t` held by all of `ps` together.
pub open spec fn ticket_total(ps: Seq<PlayerModel>, t: TicketType) -> int
    decreases ps.len(),
{
    if ps.len() == 0 {
        0
    } else {
        ticket_total(ps.drop_last(), t) + ps.last().tickets.count(t)
    }
}

/// Replacing one player changes the total by the difference in that
/// player's count.
pub proof fn lemma_ticket_total_update(ps: Seq<PlayerModel>, i: int, p: PlayerModel, t: TicketType)
    requires
        0 <= i < ps.len(),
    ensures
        ticket_total(ps.update(i, p), t) == ticket_total(ps, t) - ps[i].tickets.count(t)
            + p.tickets.count(t),
    decreases ps.len(),
{
    let q = ps.update(i, p);
    if i == ps.len() - 1 {
        assert(q.drop_last() =~= ps.drop_last());
    } else {
        lemma_ticket_total_update(ps.drop_last(), i, p, t);
        assert(q.drop_last() =~= ps.drop_last().update(i, p));
    }
}

/// One player's count is part of the total.
pub proof fn lemma_ticket_total_bounds(ps: Seq<PlayerModel>, i: int, t: TicketType)
    requires
        0 <= i < ps.len(),
    ensures
        ps[i].tickets.count(t) <= ticket_total(ps, t),
        ticket_total(ps, t) >= 0,
    decreases ps.len(),
{
    lemma_ticket_total_nonneg(ps.drop_last(), t);
    if i < ps.len() - 1 {
        lemma_ticket_total_bounds(ps.drop_last(), i, t);
    }
}

/// Totals are never negative.
pub proof fn lemma_ticket_total_nonneg(ps: Seq<PlayerModel>, t: TicketType)
    ensures
        ticket_total(ps, t) >= 0,
    decreases ps.len(),
{
    if ps.len() > 0 {
        lemma_ticket_total_nonneg(ps.drop_last(), t);
    }
}

/// A well-formed game position: the board's edges lead to stations, Mr X
/// comes first and is followed by detectives, everyone stands on a station,
/// the turn counter has not passed the limit (nor reached it in a live game),
/// and fewer than 255 tickets of each kind are in play.
pub open spec fn sound(g: GameModel) -> bool {
    &&& board_closed(g.board)
    &&& valid_roster(player_ids(g.players))
    &&& forall|i: int| 0 <= i < g.players.len() ==> g.in_range(#[trigger] g.players[i].station)
    &&& g.well_indexed()
    &&& 0 <= g.turn_number <= g.max_turns <= usize::MAX
    &&& !g.is_terminal ==> g.turn_number < g.max_turns
    &&& forall|t: TicketType| #[trigger] ticket_total(g.players, t) < 255
}

/// In a sound position Mr X is the first player.
pub proof fn lemma_sound_mrx_first(g: GameModel)
    requires
        sound(g),
    ensures
        g.mrx_index() == 0,
        g.has_mrx(),
{
    let ids = player_ids(g.players);
    assert(is_mrx(ids[0]));
    assert(is_first_mrx(ids, 0));
    lemma_first_mrx_unique(ids, 0);
}

/// In a sound position the legal moves can be listed and any action judged.
pub proof fn lemma_sound_can_list(g: GameModel, a: Action)
    requires
        sound(g),
    ensures
        can_list_actions(g),
        can_judge_action(g, a),
{
    assert(g.in_range(g.players[g.current_player].station));
    lemma_closed_board_lists(g);
    match a {
        Action::Double(s1, _) => {
            if step_legal(g, s1) {
                let k = choose|k: int|
                    0 <= k < g.cur_edges().len() && #[trigger] edge_admits(g.cur_edges()[k], s1);
                let st = g.cur().station.id - 1;
                assert(g.board[st][k].0 == s1.to);
            }
        },
        _ => {},
    }
}

/// A legal leg in a sound position leads to a station, and taking it keeps
/// the position sound apart from the terminal and turn bookkeeping.
proof fn lemma_sound_step(g: GameModel, s: Step)
    requires
        sound(g),
        step_legal(g, s),
    ensures
        crate::rules_spec::apply_step_ok(g, s),
        ({
            let r = apply_step_of(g, s);
            &&& board_closed(r.board)
            &&& valid_roster(player_ids(r.players))
            &&& forall|i: int| 0 <= i < r.players.len() ==> r.in_range(#[trigger] r.players[i].station)
            &&& r.well_indexed()
            &&& r.turn_number == g.turn_number && r.max_turns == g.max_turns
            &&& r.is_terminal == g.is_terminal
            &&& r.board == g.board
            &&& r.current_player == g.current_player
            &&& forall|t: TicketType| #[trigger] ticket_total(r.players, t) <= ticket_total(g.players, t)
            &&& r.cur().tickets.double == g.cur().tickets.double
            &&& sound(r)
        }),
{
    lemma_sound_mrx_first(g);
    let k = choose|k: int| 0 <= k < g.cur_edges().len() && #[trigger] edge_admits(g.cur_edges()[k], s);
    let st = g.cur().station.id - 1;
    assert(g.board[st][k].0 == s.to);
    assert(g.in_range(s.to));
    if is_detective(g.cur().id) {
        lemma_ticket_total_bounds(g.players, 0, s.ticket);
        assert(g.players[0].tickets.count(s.ticket) < 255);
    }
    lemma_apply_step_frame(g, s);
    let r = apply_step_of(g, s);
    assert forall|i: int| 0 <= i < r.players.len() implies r.in_range(#[trigger] r.players[i].station) by {
        if i != g.current_player {
            if is_detective(g.cur().id) && i == g.mrx_index() {
            } else {
                assert(r.players[i] == g.players[i]);
            }
        }
    }
    let cp = g.cur();
    let moved = PlayerModel { id: cp.id, station: s.to, tickets: cp.tickets.spend(s.ticket) };
    let ps1 = g.players.update(g.current_player, moved);
    assert forall|t: TicketType| #[trigger] ticket_total(r.players, t) <= ticket_total(g.players, t) by {
        lemma_ticket_total_update(g.players, g.current_player, moved, t);
        if is_detective(cp.id) {
            let m = g.mrx_index();
            lemma_ticket_total_update(
                ps1,
                m,
                PlayerModel { tickets: ps1[m].tickets.add(s.ticket), ..ps1[m] },
                t,
            );
        }
    }
}


/// A legal action in a sound position can be applied, and the position it
/// leads to is sound again: soundness holds of every position play reaches.
pub proof fn lemma_legal_action_keeps_sound(g: GameModel, a: Action)
    requires
        sound(g),
        action_legal(g, a),
    ensures
        can_apply_action(g, a),
        sound(apply_action_of(g, a)),
        forall|t: TicketType|
            #[trigger] ticket_total(apply_action_of(g, a).players, t) <= ticket_total(g.players, t),
{
    lemma_sound_mrx_first(g);
    let moved = moved_of(g, a);
    match a {
        Action::Single(s) => {
            lemma_sound_step(g, s);
        },
        Action::Double(s1, s2) => {
            lemma_sound_step(g, s1);
            let g1 = apply_step_of(g, s1);
            lemma_sound_step(g1, s2);
            let g2 = apply_step_of(g1, s2);
            let p = g2.players[g.current_player];
            let p2 = PlayerModel { tickets: p.tickets.spend_double(), ..p };
            assert(moved.players == g2.players.update(g.current_player, p2));
            assert forall|t: TicketType| #[trigger] ticket_total(moved.players, t) <= ticket_total(
                g.players,
                t,
            ) by {
                lemma_ticket_total_update(g2.players, g.current_player, p2, t);
            }
            assert(player_ids(moved.players) =~= player_ids(g2.players));
            assert forall|i: int| 0 <= i < moved.players.len() implies moved.in_range(
                #[trigger] moved.players[i].station,
            ) by {
                assert(g2.in_range(g2.players[i].station));
            }
            assert(sound(moved));
        },
        Action::Pass => {},
    }
    assert(sound(moved));
    let r = rotated(moved);
    lemma_sound_mrx_first(moved);
    assert(player_ids(r.players) == player_ids(moved.players));
    assert(r.well_indexed());
    assert(r.in_range(r.players[r.current_player].station));
    lemma_closed_board_lists(r);
    assert(can_detect_terminal(r));
    let out = settled(r);
    if terminal_of(r) is None {
        assert(r.turn_number < r.max_turns);
    }
    assert(sound(out));
}


/// The exact ticket balance of one leg: a detective's spent ticket passes to
/// Mr X, so the totals stay as they were; Mr X's spent ticket leaves the
/// game, so its kind's total drops by one. Double-move tickets are untouched.
pub proof fn lemma_step_ticket_balance(g: GameModel, s: Step, t: TicketType)
    requires
        apply_step_ok(g, s),
    ensures
        ticket_total(apply_step_of(g, s).players, t) == ticket_total(g.players, t) - if is_mrx(
            g.cur().id,
        ) && t == s.ticket {
            1int
        } else {
            0int
        },
        forall|i: int|
            0 <= i < g.players.len() ==> (#[trigger] apply_step_of(g, s).players[i]).tickets.double
                == g.players[i].tickets.double,
{
    lemma_apply_step_frame(g, s);
    let cp = g.cur();
    let moved = PlayerModel { id: cp.id, station: s.to, tickets: cp.tickets.spend(s.ticket) };
    let ps1 = g.players.update(g.current_player, moved);
    lemma_ticket_total_update(g.players, g.current_player, moved, t);
    if is_detective(cp.id) {
        let m = g.mrx_index();
        lemma_ticket_total_update(
            ps1,
            m,
            PlayerModel { tickets: ps1[m].tickets.add(s.ticket), ..ps1[m] },
            t,
        );
    }
}

/// Play never creates tickets: after a legal action there are at most as
/// many tickets of each kind in play as before (a detective's spent ticket
/// passes to Mr X, Mr X's spent tickets leave the game).
pub proof fn lemma_play_creates_no_tickets(g: GameModel, a: Action, t: TicketType)
    requires
        sound(g),
        action_legal(g, a),
    ensures
        ticket_total(apply_action_of(g, a).players, t) <= ticket_total(g.players, t),
{
    lemma_legal_action_keeps_sound(g, a);
}

/// A legal action keeps the turn order: Mr X's move passes play to the first
/// detective within the round, a detective's move passes it on, and a new
/// round starts when play wraps back to Mr X. Mr X's log therefore keeps
/// holding at most two legs per round begun.
pub proof fn lemma_log_bound_kept(g: GameModel, a: Action, reveal: Seq<usize>, logged: nat)
    requires
        sound(g),
        !g.is_terminal,
        action_legal(g, a),
        logged <= 2 * g.turn_number + if g.current_player == 0 {
            0int
        } else {
            2int
        },
    ensures
        ({
            let r = apply_action_of(g, a);
            &&& r.max_turns == g.max_turns
            &&& r.turn_number <= g.turn_number + 1
            &&& logged + recorded_legs(g, a, reveal, logged).len() <= 2 * r.turn_number
                + if r.current_player == 0 {
                0int
            } else {
                2int
            }
        }),
{
    lemma_sound_mrx_first(g);
    let moved = moved_of(g, a);
    match a {
        Action::Single(s) => {
            lemma_sound_step(g, s);
            lemma_apply_step_frame(g, s);
        },
        Action::Double(s1, s2) => {
            lemma_sound_step(g, s1);
            lemma_apply_step_frame(g, s1);
            let g1 = apply_step_of(g, s1);
            lemma_sound_step(g1, s2);
            lemma_apply_step_frame(g1, s2);
        },
        Action::Pass => {},
    }
    assert(moved.current_player == g.current_player);
    assert(moved.turn_number == g.turn_number);
    assert(moved.players.len() == g.players.len());
    let n = g.players.len() as int;
    assert(player_ids(g.players).len() == n);
    assert(n >= 2);
    let ids = player_ids(g.players);
    if g.current_player == 0 {
        assert((g.current_player + 1) % n == 1) by {
            vstd::arithmetic::div_mod::lemma_small_mod(1, n as nat);
        }
    } else {
        assert(!is_mrx(ids[g.current_player]));
        assert(ids[g.current_player] == g.cur().id);
    }
}

/// A stored game: its position is sound, its turn limit leaves room to
/// count, and Mr X's log holds at most two legs per round begun.
pub open spec fn game_sound(game: Game) -> bool {
    &&& sound(game.state@)
    &&& 2 * game.state.max_turns + 4 <= usize::MAX
    &&& game.history.mr_x_log@.len() <= 2 * game.state.turn_number + if game.state.current_player
        == 0 {
        0int
    } else {
        2int
    }
}

/// Whether `players` holds Mr X first and detectives after him, at least
/// one of them.
fn roster_ok(players: &Vec<PlayerState>) -> (r: bool)
    ensures
        r == valid_roster(player_ids(player_models(players@))),
{
    let ghost ids = player_ids(player_models(players@));
    if players.len() < 2 {
        return false;
    }
    if is_detective_id(players[0].id) {
        assert(ids[0] == players@[0].id);
        return false;
    }
    let mut i: usize = 1;
    while i < players.len()
        invariant
            1 <= i <= players.len(),
            ids == player_ids(player_models(players@)),
            forall|j: int| 1 <= j < i ==> !is_mrx(#[trigger] ids[j]),
        decreases players.len() - i,
    {
        assert(ids[i as int] == players@[i as int].id);
        if !is_detective_id(players[i].id) {
            return false;
        }
        i = i + 1;
    }
    assert(ids[0] == players@[0].id);
    true
}

/// Whether every player stands on a station of a board with `n` stations.
fn stations_ok(players: &Vec<PlayerState>, n: usize) -> (r: bool)
    ensures
        r == forall|i: int|
            0 <= i < players@.len() ==> station_in_range(n as nat, #[trigger] players@[i].station),
{
    let mut i: usize = 0;
    while i < players.len()
        invariant
            i <= players.len(),
            forall|j: int| 0 <= j < i ==> station_in_range(n as nat, #[trigger] players@[j].station),
        decreases players.len() - i,
    {
        let s = players[i].station;
        if s.id < 1 || s.id as usize > n {
            assert(!station_in_range(n as nat, players@[i as int].station));
            return false;
        }
        i = i + 1;
    }
    true
}

/// Whether all players together hold fewer than 255 tickets of kind `t`.
fn tickets_below_limit(players: &Vec<PlayerState>, t: TicketType) -> (r: bool)
    ensures
        r == (ticket_total(player_models(players@), t) < 255),
{
    let ghost ps = player_models(players@);
    let mut sum: u64 = 0;
    let mut i: usize = 0;
    while i < players.len()
        invariant
            i <= players.len(),
            ps == player_models(players@),
            sum == ticket_total(ps.take(i as int), t),
            sum < 255,
        decreases players.len() - i,
    {
        assert(ps.take(i + 1).drop_last() =~= ps.take(i as int));
        assert(ps.take(i + 1).last() == players@[i as int]@);
        sum = sum + *players[i].tickets.get(t) as u64;
        i = i + 1;
        if sum >= 255 {
            proof {
                lemma_ticket_total_prefix(ps, i as nat, t);
            }
            return false;
        }
    }
    assert(ps.take(i as int) =~= ps);
    true
}

/// A prefix of the players holds no more tickets than all of them.
proof fn lemma_ticket_total_prefix(ps: Seq<PlayerModel>, n: nat, t: TicketType)
    requires
        n <= ps.len(),
    ensures
        ticket_total(ps.take(n as int), t) <= ticket_total(ps, t),
    decreases ps.len(),
{
    if n < ps.len() {
        assert(ps.drop_last().take(n as int) =~= ps.take(n as int));
        lemma_ticket_total_prefix(ps.drop_last(), n, t);
    } else {
        assert(ps.take(n as int) =~= ps);
    }
}

/// Whether `game` is well-formed in the sense of `game_sound`.
pub fn game_is_sound(game: &Game) -> (r: bool)
    ensures
        r == game_sound(*game),
{
    let s = &game.state;
    let ghost g = s@;
    let closed = s.board.is_closed();
    let roster = roster_ok(&s.players);
    let stations = stations_ok(&s.players, s.board.adjacency_map.len());
    proof {
        assert(g.board.len() == s.board.adjacency_map@.len());
        assert(g.players.len() == s.players@.len());
        if stations {
            assert forall|i: int| 0 <= i < g.players.len() implies g.in_range(
                #[trigger] g.players[i].station,
            ) by {
                assert(g.players[i] == s.players@[i]@);
                assert(station_in_range(s.board.adjacency_map@.len() as nat, s.players@[i].station));
            }
        } else {
            let i = choose|i: int|
                0 <= i < s.players@.len() && !station_in_range(
                    s.board.adjacency_map@.len() as nat,
                    #[trigger] s.players@[i].station,
                );
            assert(g.players[i] == s.players@[i]@);
            assert(!g.in_range(g.players[i].station));
        }
    }
    let indexed = s.current_player < s.players.len();
    let turns = s.turn_number <= s.max_turns && (s.is_terminal || s.turn_number < s.max_turns);
    let taxi = tickets_below_limit(&s.players, TicketType::Taxi);
    let bus = tickets_below_limit(&s.players, TicketType::Bus);
    let underground = tickets_below_limit(&s.players, TicketType::Underground);
    let black = tickets_below_limit(&s.players, TicketType::Black);
    let tickets = taxi && bus && underground && black;
    assert(tickets == forall|t: TicketType| #[trigger] ticket_total(g.players, t) < 255) by {
        if tickets {
            assert forall|t: TicketType| #[trigger] ticket_total(g.players, t) < 255 by {
                match t {
                    TicketType::Taxi => {},
                    TicketType::Bus => {},
                    TicketType::Underground => {},
                    TicketType::Black => {},
                }
            }
        }
    }
    let counters = s.max_turns <= (usize::MAX - 4) / 2;
    let bound: u128 = 2 * (s.turn_number as u128) + if s.current_player == 0 {
        0
    } else {
        2
    };
    let log = (game.history.mr_x_log.len() as u128) <= bound;
    closed && roster && stations && indexed && turns && tickets && counters && log
}

} // verus!
