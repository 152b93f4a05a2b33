use vstd::prelude::*;
use std::sync::Arc;
use crate::board::{share_board, Board};
use crate::gamestate::{player_ids, player_models, PlayerId, PlayerModel, PlayerState, GameState, TicketInventory};
use crate::history::{Game, GameHistory, MrXMove, RevealSchedule};
use crate::rules::{copy_state, is_detective_id, mrx_position};
use crate::rules_spec::is_detective;

verus! {

/// What a viewer legitimately knows: Mr X sees the ground truth; a
/// detective sees the public part of it.
pub enum Observation {
    MrX(GameState),
    Detective(DetectiveObservation),
}

/// A detective's information set: every detective's position and tickets,
/// Mr X's public log and ticket counts, and the public game settings, but not
/// Mr X's station between reveals.
#[derive(Clone)]
pub struct DetectiveObservation {
    pub board: Arc<Board>,
    pub detectives: Vec<PlayerState>,
    pub mr_x_log: Vec<MrXMove>,
    pub mr_x_tickets: TicketInventory,
    pub current_player: usize,
    pub turn_number: usize,
    pub reveal: RevealSchedule,
    pub max_turns: usize,
}

/// The detectives among `ps`, in order.
pub open spec fn detectives_of(ps: Seq<PlayerModel>) -> Seq<PlayerModel>
    decreases ps.len(),
{
    if ps.len() == 0 {
        Seq::empty()
    } else if is_detective(ps.last().id) {
        detectives_of(ps.drop_last()).push(ps.last())
    } else {
        detectives_of(ps.drop_last())
    }
}

/// The detectives picked out of a roster are all detectives.
pub proof fn lemma_detectives_of_are_detectives(ps: Seq<PlayerModel>)
    ensures
        forall|i: int|
            0 <= i < detectives_of(ps).len() ==> is_detective(#[trigger] detectives_of(ps)[i].id),
    decreases ps.len(),
{
    if ps.len() > 0 {
        lemma_detectives_of_are_detectives(ps.drop_last());
    }
}

/// `r` is what `viewer` may know of `state`, given Mr X's public `log` and
/// the `reveal` schedule.
pub open spec fn observes(
    r: Observation,
    state: GameState,
    log: Seq<MrXMove>,
    reveal: Seq<usize>,
    viewer: PlayerId,
) -> bool {
    match viewer {
        PlayerId::MrX => r matches Observation::MrX(s) && s@ == state@,
        PlayerId::Detective(_) => r matches Observation::Detective(o) && {
            &&& o.board == state.board
            &&& player_models(o.detectives@) == detectives_of(state@.players)
            &&& forall|i: int|
                0 <= i < o.detectives@.len() ==> is_detective(#[trigger] o.detectives@[i].id)
            &&& o.mr_x_log@ == log
            &&& o.mr_x_tickets@ == state@.players[state@.mrx_index()].tickets
            &&& o.current_player == state.current_player
            &&& o.turn_number == state.turn_number
            &&& o.reveal@ == reveal
            &&& o.max_turns == state.max_turns
        },
    }
}

/// `s1` and `s2` differ at most in where Mr X stands: same board, turn
/// bookkeeping and roster, every player with the same identity and tickets,
/// and every detective on the same station.
pub open spec fn same_but_mrx_station(s1: GameState, s2: GameState) -> bool {
    &&& s1.board == s2.board
    &&& s1.current_player == s2.current_player
    &&& s1.turn_number == s2.turn_number
    &&& s1.max_turns == s2.max_turns
    &&& s1@.players.len() == s2@.players.len()
    &&& forall|i: int|
        0 <= i < s1@.players.len() ==> {
            &&& (#[trigger] s1@.players[i]).id == s2@.players[i].id
            &&& s1@.players[i].tickets == s2@.players[i].tickets
            &&& is_detective(s1@.players[i].id) ==> s1@.players[i].station
                == s2@.players[i].station
        }
}

proof fn lemma_detectives_of_same(ps1: Seq<PlayerModel>, ps2: Seq<PlayerModel>)
    requires
        ps1.len() == ps2.len(),
        forall|i: int|
            0 <= i < ps1.len() ==> {
                &&& (#[trigger] ps1[i]).id == ps2[i].id
                &&& ps1[i].tickets == ps2[i].tickets
                &&& is_detective(ps1[i].id) ==> ps1[i].station == ps2[i].station
            },
    ensures
        detectives_of(ps1) == detectives_of(ps2),
    decreases ps1.len(),
{
    if ps1.len() > 0 {
        let n = ps1.len() - 1;
        assert forall|i: int| 0 <= i < ps1.drop_last().len() implies {
            &&& (#[trigger] ps1.drop_last()[i]).id == ps2.drop_last()[i].id
            &&& ps1.drop_last()[i].tickets == ps2.drop_last()[i].tickets
            &&& is_detective(ps1.drop_last()[i].id) ==> ps1.drop_last()[i].station
                == ps2.drop_last()[i].station
        } by {
            assert(ps1.drop_last()[i] == ps1[i]);
            assert(ps2.drop_last()[i] == ps2[i]);
        }
        lemma_detectives_of_same(ps1.drop_last(), ps2.drop_last());
        assert(ps1.last() == ps1[n]);
        assert(ps2.last() == ps2[n]);
        if is_detective(ps1.last().id) {
            assert(ps1.last() == ps2.last());
        }
    }
}

/// A detective's view does not depend on where Mr X stands: two states that
/// differ only in Mr X's station, with the same log and reveal schedule,
/// give a detective the same observation.
pub proof fn lemma_detective_view_hides_mrx(
    r1: Observation,
    r2: Observation,
    s1: GameState,
    s2: GameState,
    log: Seq<MrXMove>,
    reveal: Seq<usize>,
    n: u8,
)
    requires
        s1@.has_mrx(),
        same_but_mrx_station(s1, s2),
        observes(r1, s1, log, reveal, PlayerId::Detective(n)),
        observes(r2, s2, log, reveal, PlayerId::Detective(n)),
    ensures
        r1 matches Observation::Detective(o1) && r2 matches Observation::Detective(o2) && {
            &&& o1.board == o2.board
            &&& o1.detectives@ == o2.detectives@
            &&& o1.mr_x_log@ == o2.mr_x_log@
            &&& o1.mr_x_tickets == o2.mr_x_tickets
            &&& o1.current_player == o2.current_player
            &&& o1.turn_number == o2.turn_number
            &&& o1.reveal@ == o2.reveal@
            &&& o1.max_turns == o2.max_turns
        },
{
    broadcast use crate::gamestate::lemma_player_view, crate::gamestate::lemma_inventory_view;

    lemma_detectives_of_same(s1@.players, s2@.players);
    let ids1 = player_ids(s1@.players);
    let ids2 = player_ids(s2@.players);
    assert(ids1 =~= ids2);
    if let Observation::Detective(o1) = r1 {
        if let Observation::Detective(o2) = r2 {
            let d1 = o1.detectives@;
            let d2 = o2.detectives@;
            assert(player_models(d1) == player_models(d2));
            assert(d1.len() == player_models(d1).len());
            assert forall|i: int| 0 <= i < d1.len() implies d1[i] == d2[i] by {
                assert(player_models(d1)[i] == d1[i]@);
                assert(player_models(d2)[i] == d2[i]@);
            }
            assert(d1 =~= d2);
            let m = s1@.mrx_index();
            assert(s2@.mrx_index() == m);
            crate::gamestate::lemma_first_mrx_exists(ids1);
            assert(o1.mr_x_tickets@ == o2.mr_x_tickets@);
        }
    }
}

/// Projects the ground truth onto what `viewer` knows. Mr X's observation is
/// the full state; a detective's holds the detectives (in roster order), Mr
/// X's log and tickets, and the board, turn order, round, reveal schedule and
/// turn limit — never a player who is Mr X.
pub fn observe(
    state: &GameState,
    history: &GameHistory,
    reveal: &RevealSchedule,
    viewer: PlayerId,
) -> (r: Observation)
    requires
        viewer is Detective ==> state@.has_mrx(),
    ensures
        observes(r, *state, history.mr_x_log@, reveal@, viewer),
{
    match viewer {
        PlayerId::MrX => {
            let full = copy_state(state);
            assert(full@ == state@);
            let r = Observation::MrX(full);
            r
        },
        PlayerId::Detective(_) => {
            let ghost ps = state@.players;
            let mut detectives: Vec<PlayerState> = Vec::new();
            let mut i: usize = 0;
            while i < state.players.len()
                invariant
                    i <= state.players.len(),
                    ps == state@.players,
                    player_models(detectives@) == detectives_of(ps.take(i as int)),
                decreases state.players.len() - i,
            {
                let p = state.players[i];
                assert(ps.take(i + 1).drop_last() =~= ps.take(i as int));
                if is_detective_id(p.id) {
                    detectives.push(p);
                }
                i = i + 1;
                assert(player_models(detectives@) =~= detectives_of(ps.take(i as int)));
            }
            assert(ps.take(i as int) =~= ps);
            proof {
                lemma_detectives_of_are_detectives(ps);
                assert forall|i: int| 0 <= i < detectives@.len() implies is_detective(
                    #[trigger] detectives@[i].id,
                ) by {
                    assert(player_models(detectives@)[i].id == detectives@[i].id);
                }
            }
            let m = mrx_position(&state.players);
            let mr_x = &state.players[m];
            Observation::Detective(DetectiveObservation {
                board: share_board(&state.board),
                detectives,
                mr_x_log: history.mr_x_log.clone(),
                mr_x_tickets: mr_x.tickets,
                current_player: state.current_player,
                turn_number: state.turn_number,
                reveal: reveal.duplicate(),
                max_turns: state.max_turns,
            })
        },
    }
}

impl Game {
    /// The observation of `viewer` in this game.
    pub fn observe(&self, viewer: PlayerId) -> (r: Observation)
        requires
            viewer is Detective ==> self.state@.has_mrx(),
        ensures
            observes(r, self.state, self.history.mr_x_log@, self.reveal@, viewer),
    {
        observe(&self.state, &self.history, &self.reveal, viewer)
    }
}

} // verus!
