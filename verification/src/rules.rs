use vstd::prelude::*;
use crate::board::{share_board, StationId, TicketType};
use crate::gamestate::{
    first_mrx, is_first_mrx, is_mrx, lemma_first_mrx_unique, player_ids, player_models, Action,
    GameState, PlayerId, PlayerState, Step, Winner,
};
use crate::rules_spec::{
    action_legal, apply_action_of, apply_step_of, apply_step_ok, can_apply_action,
    can_detect_terminal, can_judge_action, can_list_actions, doubles_fold, edge_admits,
    edges_distinct, is_detective, legal_actions_of, lemma_legal_actions_distinct,
    lemma_legal_steps_distinct, legal_steps_of, lemma_apply_step_frame,
    lemma_black_steps_unique_fold, lemma_generated_iff_legal, lemma_legal_steps_complete,
    lemma_legal_steps_sound, lemma_settled_live, may_double, moved_of, mrx_station, rotated,
    settled, step_legal, steps_fold, terminal_of,
};

verus! {

pub(crate) fn is_detective_id(id: PlayerId) -> (r: bool)
    ensures
        r == is_detective(id),
        r == !is_mrx(id),
{
    match id {
        PlayerId::Detective(_) => true,
        PlayerId::MrX => false,
    }
}

fn contains_station(v: &Vec<StationId>, s: StationId) -> (r: bool)
    ensures
        r == v@.contains(s),
{
    let mut i: usize = 0;
    while i < v.len()
        invariant
            i <= v.len(),
            forall|j: int| 0 <= j < i ==> v@[j] != s,
        decreases v.len() - i,
    {
        if v[i] == s {
            assert(v@[i as int] == s);
            return true;
        }
        i = i + 1;
    }
    false
}

/// Whether some detective stands on station `s`.
fn detective_on(gamestate: &GameState, s: StationId) -> (r: bool)
    ensures
        r == gamestate@.detective_at(s),
{
    let ghost g = gamestate@;
    let mut i: usize = 0;
    while i < gamestate.players.len()
        invariant
            i <= gamestate.players.len(),
            g == gamestate@,
            forall|j: int|
                0 <= j < i ==> !(is_detective(#[trigger] g.players[j].id) && g.players[j].station
                    == s),
        decreases gamestate.players.len() - i,
    {
        let p = &gamestate.players[i];
        if is_detective_id(p.id) && p.station == s {
            assert(is_detective(g.players[i as int].id) && g.players[i as int].station == s);
            return true;
        }
        i = i + 1;
    }
    false
}

/// The index of the first Mr X in `players`.
pub(crate) fn mrx_position(players: &Vec<PlayerState>) -> (r: usize)
    requires
        crate::gamestate::has_mrx(player_ids(player_models(players@))),
    ensures
        r as int == first_mrx(player_ids(player_models(players@))),
        is_first_mrx(player_ids(player_models(players@)), r as int),
{
    let ghost ids = player_ids(player_models(players@));
    let mut i: usize = 0;
    while i < players.len()
        invariant
            i <= players.len(),
            ids == player_ids(player_models(players@)),
            ids.len() == players.len(),
            crate::gamestate::has_mrx(ids),
            forall|j: int| 0 <= j < i ==> !is_mrx(#[trigger] ids[j]),
        decreases players.len() - i,
    {
        if !is_detective_id(players[i].id) {
            assert(is_first_mrx(ids, i as int));
            proof {
                lemma_first_mrx_unique(ids, i as int);
            }
            return i;
        }
        i = i + 1;
    }
    assert(false);
    0
}

/// Whether some edge of `edges` can carry `step`.
fn any_edge_admits(edges: &Vec<(StationId, TicketType)>, step: Step) -> (r: bool)
    ensures
        r == exists|k: int| 0 <= k < edges@.len() && #[trigger] edge_admits(edges@[k], step),
{
    let mut k: usize = 0;
    while k < edges.len()
        invariant
            k <= edges.len(),
            forall|j: int| 0 <= j < k ==> !edge_admits(#[trigger] edges@[j], step),
        decreases edges.len() - k,
    {
        let (dest, edge_ticket) = edges[k];
        if dest == step.to && (step.ticket == TicketType::Black || edge_ticket == step.ticket) {
            assert(edge_admits(edges@[k as int], step));
            return true;
        }
        k = k + 1;
    }
    false
}

/// Whether `step` is a legal single leg for the player to move.
pub fn is_step_legal(gamestate: &GameState, step: Step) -> (r: bool)
    requires
        gamestate@.well_indexed(),
        gamestate@.in_range(gamestate@.cur().station),
    ensures
        r == step_legal(gamestate@, step),
{
    let ghost g = gamestate@;
    let curr_player = &gamestate.players[gamestate.current_player];
    if *curr_player.tickets.get(step.ticket) == 0 {
        return false;
    }
    let edges = gamestate.board.neighbors(curr_player.station);
    assert(curr_player@ == g.cur());
    assert(edges@ == g.cur_edges());
    if !any_edge_admits(edges, step) {
        return false;
    }
    !detective_on(gamestate, step.to)
}


/// The single legs the player to move may take. Each edge from the current
/// station yields the step paid with its own transport; a player holding a
/// black ticket also gets one black step per reachable destination, which
/// conceals the transport. A step is kept only if it is legal.
pub fn legal_steps(gamestate: &GameState) -> (r: Vec<Step>)
    requires
        gamestate@.well_indexed(),
        gamestate@.in_range(gamestate@.cur().station),
    ensures
        r@ == legal_steps_of(gamestate@),
        forall|i: int| 0 <= i < r@.len() ==> step_legal(gamestate@, #[trigger] r@[i]),
        forall|s: Step| step_legal(gamestate@, s) ==> r@.contains(s),
        forall|i: int, j: int|
            0 <= i < j < r@.len() && #[trigger] r@[i] == #[trigger] r@[j] ==> r@[i].ticket
                != TicketType::Black,
        gamestate@.cur_edges().no_duplicates() ==> r@.no_duplicates(),
{
    let ghost g = gamestate@;
    proof {
        lemma_black_steps_unique_fold(g, g.cur_edges().len());
        if g.cur_edges().no_duplicates() {
            lemma_legal_steps_distinct(g);
        }
    }
    let curr_player = &gamestate.players[gamestate.current_player];
    assert(curr_player@ == g.cur());
    let mut steps: Vec<Step> = Vec::new();
    let has_black = *curr_player.tickets.get(TicketType::Black) > 0;
    let mut black_dests: Vec<StationId> = Vec::new();
    let edges = gamestate.board.neighbors(curr_player.station);
    assert(edges@ == g.cur_edges());
    let mut k: usize = 0;
    while k < edges.len()
        invariant
            k <= edges.len(),
            g == gamestate@,
            g.well_indexed(),
            g.in_range(g.cur().station),
            edges@ == g.cur_edges(),
            has_black == (g.cur().tickets.count(TicketType::Black) > 0),
            (steps@, black_dests@) == steps_fold(g, k as nat),
        decreases edges.len() - k,
    {
        let (dest, tt) = edges[k];
        let is_black_edge = tt == TicketType::Black;
        let native = Step { to: dest, ticket: tt };
        if !(is_black_edge && contains_station(&black_dests, dest)) && is_step_legal(
            gamestate,
            native,
        ) {
            steps.push(native);
            if is_black_edge {
                black_dests.push(dest);
            }
        }
        if has_black && !is_black_edge && !contains_station(&black_dests, dest) {
            let concealed = Step { to: dest, ticket: TicketType::Black };
            if is_step_legal(gamestate, concealed) {
                steps.push(concealed);
                black_dests.push(dest);
            }
        }
        k = k + 1;
    }
    proof {
        lemma_legal_steps_sound(g);
        assert forall|s: Step| step_legal(g, s) implies steps@.contains(s) by {
            lemma_legal_steps_complete(g, s);
        }
    }
    steps
}


/// A copy of `gamestate`, sharing its board.
pub(crate) fn copy_state(gamestate: &GameState) -> (r: GameState)
    ensures
        r@ == gamestate@,
{
    GameState {
        board: share_board(&gamestate.board),
        players: gamestate.players.clone(),
        current_player: gamestate.current_player,
        turn_number: gamestate.turn_number,
        is_terminal: gamestate.is_terminal,
        winner: gamestate.winner,
        max_turns: gamestate.max_turns,
    }
}

/// The state after the player to move takes the single leg `step`: they
/// stand on its destination with one ticket of its kind fewer, and when a
/// detective moves, the spent ticket goes to Mr X. Nothing else changes.
pub fn apply_step(gamestate: &GameState, step: Step) -> (r: GameState)
    requires
        apply_step_ok(gamestate@, step),
    ensures
        r@ == apply_step_of(gamestate@, step),
{
    let ghost g = gamestate@;
    let cur = gamestate.current_player;
    let curr_player = &gamestate.players[cur];
    assert(curr_player@ == g.cur());
    let mut new_inventory = curr_player.tickets;
    new_inventory.spend_ticket(step.ticket);
    let new_pose = PlayerState { id: curr_player.id, station: step.to, tickets: new_inventory };
    let mut new_players = gamestate.players.clone();
    new_players.set(cur, new_pose);
    let ghost ps1 = g.players.update(g.current_player, new_pose@);
    assert(player_models(new_players@) =~= ps1);
    if is_detective_id(curr_player.id) {
        assert(player_ids(ps1) =~= player_ids(g.players));
        let mrx_idx = mrx_position(&new_players);
        let mut mrx = new_players[mrx_idx];
        mrx.tickets.add_ticket(step.ticket);
        new_players.set(mrx_idx, mrx);
    }
    let r = GameState {
        board: share_board(&gamestate.board),
        players: new_players,
        current_player: gamestate.current_player,
        turn_number: gamestate.turn_number,
        is_terminal: gamestate.is_terminal,
        winner: gamestate.winner,
        max_turns: gamestate.max_turns,
    };
    assert(r@.players =~= apply_step_of(g, step).players);
    r
}


/// Every action the player to move may take: each legal single leg; for
/// Mr X holding a double-move ticket, every legal leg followed by a legal leg
/// from where it ends; and, for a detective with nothing else, a pass. A
/// finished game has no actions. An action is listed exactly when
/// `is_action_legal` accepts it.
pub fn legal_actions(gamestate: &GameState) -> (r: Vec<Action>)
    requires
        can_list_actions(gamestate@),
    ensures
        r@ == legal_actions_of(gamestate@),
        forall|a: Action| r@.contains(a) <==> action_legal(gamestate@, a),
        edges_distinct(gamestate@.board) ==> r@.no_duplicates(),
{
    let ghost g = gamestate@;
    proof {
        if edges_distinct(g.board) {
            lemma_legal_actions_distinct(g);
        }
    }
    if gamestate.is_terminal {
        let r: Vec<Action> = Vec::new();
        assert(r@ =~= legal_actions_of(g));
        return r;
    }
    proof {
        assert forall|a: Action| legal_actions_of(g).contains(a) <==> action_legal(g, a) by {
            lemma_generated_iff_legal(g, a);
        }
    }
    let single_steps = legal_steps(gamestate);
    let curr_player = &gamestate.players[gamestate.current_player];
    assert(curr_player@ == g.cur());
    let mut actions: Vec<Action> = Vec::new();
    let mut i: usize = 0;
    while i < single_steps.len()
        invariant
            i <= single_steps.len(),
            actions@ == single_steps@.take(i as int).map_values(|s: Step| Action::Single(s)),
        decreases single_steps.len() - i,
    {
        actions.push(Action::Single(single_steps[i]));
        i = i + 1;
        assert(actions@ =~= single_steps@.take(i as int).map_values(|s: Step| Action::Single(s)));
    }
    assert(single_steps@.take(i as int) =~= single_steps@);
    let ghost base = actions@;
    if !is_detective_id(curr_player.id) && curr_player.tickets.doubles() > 0 {
        let mut i: usize = 0;
        while i < single_steps.len()
            invariant
                i <= single_steps.len(),
                g == gamestate@,
                can_list_actions(g),
                !g.is_terminal,
                may_double(g),
                single_steps@ == legal_steps_of(g),
                forall|k: int| 0 <= k < single_steps@.len() ==> step_legal(g, #[trigger] single_steps@[k]),
                actions@ == base + doubles_fold(g, single_steps@, i as nat),
            decreases single_steps.len() - i,
        {
            let first_step = single_steps[i];
            assert(step_legal(g, single_steps@[i as int]));
            assert(g.in_range(legal_steps_of(g)[i as int].to));
            let intermediate = apply_step(gamestate, first_step);
            let seconds = legal_steps(&intermediate);
            let ghost before = actions@;
            let mut j: usize = 0;
            while j < seconds.len()
                invariant
                    j <= seconds.len(),
                    actions@ == before + seconds@.take(j as int).map_values(
                        |second: Step| Action::Double(first_step, second),
                    ),
                decreases seconds.len() - j,
            {
                actions.push(Action::Double(first_step, seconds[j]));
                j = j + 1;
                assert(actions@ =~= before + seconds@.take(j as int).map_values(
                    |second: Step| Action::Double(first_step, second),
                ));
            }
            assert(seconds@.take(j as int) =~= seconds@);
            i = i + 1;
            assert(actions@ =~= base + doubles_fold(g, single_steps@, i as nat));
        }
    }
    if actions.len() == 0 && is_detective_id(curr_player.id) {
        actions.push(Action::Pass);
        assert(actions@ =~= seq![Action::Pass]);
    }
    actions
}


/// Whether `action` is legal for the player to move. Nothing is legal in a
/// finished game. A detective may take a legal single leg, or pass when no
/// leg is legal; Mr X may take a legal single leg, or, holding a
/// double-move ticket, a legal leg followed by a leg legal from where it ends.
pub fn is_action_legal(gamestate: &GameState, action: Action) -> (r: bool)
    requires
        can_judge_action(gamestate@, action),
    ensures
        r == action_legal(gamestate@, action),
{
    let ghost g = gamestate@;
    if gamestate.is_terminal {
        return false;
    }
    let curr_player = &gamestate.players[gamestate.current_player];
    assert(curr_player@ == g.cur());
    match curr_player.id {
        PlayerId::Detective(_) => match action {
            Action::Single(s) => is_step_legal(gamestate, s),
            Action::Double(_, _) => false,
            Action::Pass => legal_steps(gamestate).len() == 0,
        },
        PlayerId::MrX => match action {
            Action::Single(s) => is_step_legal(gamestate, s),
            Action::Double(s1, s2) => {
                if curr_player.tickets.doubles() > 0 && is_step_legal(gamestate, s1) {
                    let intermediate = apply_step(gamestate, s1);
                    is_step_legal(&intermediate, s2)
                } else {
                    false
                }
            },
            Action::Pass => false,
        },
    }
}

/// The terminal status of a position, whatever led to it: a detective on
/// Mr X's station wins for the detectives; else, at the turn limit, Mr X wins;
/// else, with Mr X to move and no legal move, the detectives win.
pub fn detect_terminal(gamestate: &GameState) -> (r: Option<Winner>)
    requires
        can_detect_terminal(gamestate@),
    ensures
        r == terminal_of(gamestate@),
        (exists|i: int|
            0 <= i < gamestate@.players.len() && is_detective(#[trigger] gamestate@.players[i].id)
                && gamestate@.players[i].station == gamestate@.players[gamestate@.mrx_index()].station)
            ==> r == Some(Winner::Detectives),
{
    let ghost g = gamestate@;
    proof {
        if exists|i: int|
            0 <= i < g.players.len() && is_detective(#[trigger] g.players[i].id)
                && g.players[i].station == g.players[g.mrx_index()].station {
            crate::rules_spec::lemma_capture_wins(g);
        }
    }
    let m = mrx_position(&gamestate.players);
    let mrx_station = gamestate.players[m].station;
    assert(mrx_station == crate::rules_spec::mrx_station(g));
    if detective_on(gamestate, mrx_station) {
        return Some(Winner::Detectives);
    }
    if gamestate.turn_number >= gamestate.max_turns {
        return Some(Winner::MrX);
    }
    let curr_player = &gamestate.players[gamestate.current_player];
    assert(curr_player@ == g.cur());
    if !is_detective_id(curr_player.id) {
        let cornered = if gamestate.is_terminal {
            let mut live = copy_state(gamestate);
            live.is_terminal = false;
            assert(live@ == crate::rules_spec::as_live(g));
            legal_actions(&live).len() == 0
        } else {
            assert(g == crate::rules_spec::as_live(g));
            legal_actions(gamestate).len() == 0
        };
        if cornered {
            return Some(Winner::Detectives);
        }
    }
    None
}

/// The state after the player to move takes `action`, then turn order
/// advances (a new round starts when play wraps to the first player) and the
/// terminal status is settled. In a finished game nothing changes.
pub fn apply_action(gamestate: &GameState, action: Action) -> (r: GameState)
    requires
        can_apply_action(gamestate@, action),
    ensures
        r@ == apply_action_of(gamestate@, action),
        gamestate@.is_terminal ==> r@ == gamestate@,
        !r@.is_terminal ==> legal_actions_of(r@).len() > 0,
        !gamestate@.is_terminal ==> {
            &&& r@.current_player == (gamestate@.current_player + 1) % (
            gamestate@.players.len() as int)
            &&& r@.turn_number == gamestate@.turn_number + if r@.current_player == 0 {
                1int
            } else {
                0int
            }
        },
        r@.players.len() == gamestate@.players.len(),
        forall|i: int|
            0 <= i < gamestate@.players.len() && i != gamestate@.current_player && (is_mrx(
                gamestate@.cur().id,
            ) || i != gamestate@.mrx_index()) ==> #[trigger] r@.players[i]
                == gamestate@.players[i],
{
    let ghost g = gamestate@;
    if gamestate.is_terminal {
        return copy_state(gamestate);
    }
    let cur = gamestate.current_player;
    let mut new_state = match action {
        Action::Single(s) => apply_step(gamestate, s),
        Action::Double(s1, s2) => {
            let intermediate = apply_step(gamestate, s1);
            proof {
                lemma_apply_step_frame(g, s1);
                lemma_apply_step_frame(intermediate@, s2);
            }
            let mut after = apply_step(&intermediate, s2);
            assert(after@.players.len() == g.players.len());
            assert(after@.current_player == g.current_player);
            let mut p = after.players[cur];
            assert(p@ == after@.cur());
            p.tickets.spend_double();
            after.players.set(cur, p);
            assert(after@.players =~= moved_of(g, action).players);
            after
        },
        Action::Pass => copy_state(gamestate),
    };
    assert(new_state@ == moved_of(g, action));
    proof {
        match action {
            Action::Single(s) => lemma_apply_step_frame(g, s),
            _ => {},
        }
    }
    assert(new_state@.players.len() == g.players.len());
    assert(new_state.current_player < new_state.players.len());
    let next_player = (new_state.current_player + 1) % new_state.players.len();
    new_state.current_player = next_player;
    if next_player == 0 {
        new_state.turn_number = new_state.turn_number + 1;
    }
    assert(new_state@ == rotated(moved_of(g, action)));
    match detect_terminal(&new_state) {
        Some(winner) => {
            new_state.is_terminal = true;
            new_state.winner = Some(winner);
        },
        None => {},
    }
    proof {
        lemma_settled_live(rotated(moved_of(g, action)));
        match action {
            Action::Double(s1, s2) => {
                lemma_apply_step_frame(g, s1);
                let g1 = apply_step_of(g, s1);
                lemma_apply_step_frame(g1, s2);
                assert(g1.mrx_index() == g.mrx_index());
                assert(g1.cur().id == g.cur().id);
            },
            _ => {},
        }
    }
    new_state
}

} // verus!
