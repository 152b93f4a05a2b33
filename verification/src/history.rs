use vstd::prelude::*;
use crate::board::{StationId, TicketType};
use crate::gamestate::{is_mrx, Action, GameModel, GameState, Step};
use crate::rules::{apply_action, is_detective_id};
use crate::rules_spec::{apply_action_of, apply_step_of, can_apply_action, lemma_apply_step_frame};

verus! {

/// One leg Mr X played, as the detectives see it: the ticket he spent, and
/// his station only when the leg is a reveal leg.
#[derive(Copy, Clone, PartialEq, Eq, Debug, Structural)]
pub struct MrXMove {
    pub ticket: TicketType,
    pub revealed: Option<StationId>,
}

/// The public record of the game: one entry per leg Mr X has played.
#[derive(Clone, Debug, Default, PartialEq, Eq)]
pub struct GameHistory {
    pub mr_x_log: Vec<MrXMove>,
}

/// The legs (counted from 1 over Mr X's legs) on which Mr X's station is
/// revealed.
#[derive(Clone, Debug, PartialEq, Eq)]
pub struct RevealSchedule {
    legs: Vec<usize>,
}

impl View for RevealSchedule {
    type V = Seq<usize>;

    closed spec fn view(&self) -> Seq<usize> {
        self.legs@
    }
}

/// The reveal legs of the standard game.
pub open spec fn standard_reveal_legs() -> Seq<usize> {
    seq![3usize, 8, 13, 18, 24]
}

impl RevealSchedule {
    pub fn new(legs: Vec<usize>) -> (r: Self)
        ensures
            r@ == legs@,
    {
        Self { legs }
    }

    /// The standard schedule: legs 3, 8, 13, 18 and 24.
    pub fn standard() -> (r: Self)
        ensures
            r@ == standard_reveal_legs(),
    {
        let legs: Vec<usize> = vec![3, 8, 13, 18, 24];
        assert(legs@ =~= standard_reveal_legs());
        Self { legs }
    }

    /// Whether Mr X's station is revealed on leg `leg`.
    pub fn is_reveal_leg(&self, leg: usize) -> (r: bool)
        ensures
            r == self@.contains(leg),
    {
        let mut i: usize = 0;
        while i < self.legs.len()
            invariant
                i <= self.legs.len(),
                forall|j: int| 0 <= j < i ==> self.legs@[j] != leg,
            decreases self.legs.len() - i,
        {
            if self.legs[i] == leg {
                assert(self.legs@[i as int] == leg);
                return true;
            }
            i = i + 1;
        }
        false
    }

    /// A copy of this schedule.
    pub(crate) fn duplicate(&self) -> (r: Self)
        ensures
            r@ == self@,
    {
        Self { legs: self.legs.clone() }
    }
}

/// The log entry for leg number `leg` of Mr X, taken as `step`.
pub open spec fn log_entry(reveal: Seq<usize>, leg: nat, step: Step) -> MrXMove {
    MrXMove {
        ticket: step.ticket,
        revealed: if reveal.contains(leg as usize) {
            Some(step.to)
        } else {
            None
        },
    }
}

/// The entries that `action` adds to a log holding `logged` entries: one per
/// leg when Mr X moves, none when a detective does.
pub open spec fn recorded_legs(
    g: GameModel,
    action: Action,
    reveal: Seq<usize>,
    logged: nat,
) -> Seq<MrXMove> {
    if is_mrx(g.cur().id) {
        match action {
            Action::Single(s) => seq![log_entry(reveal, logged + 1, s)],
            Action::Double(s1, s2) => seq![
                log_entry(reveal, logged + 1, s1),
                log_entry(reveal, logged + 2, s2),
            ],
            Action::Pass => Seq::empty(),
        }
    } else {
        Seq::empty()
    }
}

/// Each leg that Mr X's move adds to the log records the ticket spent on
/// that leg, is revealed exactly on a reveal leg, and then shows the station
/// Mr X stands on after that leg: the destination of a single move; the
/// intermediate and then the final station of a double move. A pass adds
/// nothing.
pub proof fn lemma_logged_legs_follow_mr_x(g: GameModel, a: Action, reveal: Seq<usize>, logged: nat)
    requires
        !g.is_terminal,
        g.well_indexed(),
        is_mrx(g.cur().id),
        can_apply_action(g, a),
    ensures
        ({
            let legs = recorded_legs(g, a, reveal, logged);
            let after = apply_action_of(g, a).players[g.current_player].station;
            match a {
                Action::Single(s) => {
                    &&& legs.len() == 1
                    &&& legs[0].ticket == s.ticket
                    &&& (legs[0].revealed is Some <==> reveal.contains((logged + 1) as usize))
                    &&& legs[0].revealed matches Some(st) ==> st == after
                },
                Action::Double(s1, s2) => {
                    &&& legs.len() == 2
                    &&& legs[0].ticket == s1.ticket
                    &&& legs[1].ticket == s2.ticket
                    &&& (legs[0].revealed is Some <==> reveal.contains((logged + 1) as usize))
                    &&& (legs[1].revealed is Some <==> reveal.contains((logged + 2) as usize))
                    &&& legs[0].revealed matches Some(st) ==> st == apply_step_of(
                        g,
                        s1,
                    ).players[g.current_player].station
                    &&& legs[1].revealed matches Some(st) ==> st == after
                },
                Action::Pass => legs.len() == 0,
            }
        }),
{
    match a {
        Action::Single(s) => {
            lemma_apply_step_frame(g, s);
        },
        Action::Double(s1, s2) => {
            lemma_apply_step_frame(g, s1);
            let g1 = apply_step_of(g, s1);
            lemma_apply_step_frame(g1, s2);
        },
        Action::Pass => {},
    }
}

/// A game: the ground truth, the public record and the reveal schedule.
pub struct Game {
    pub state: GameState,
    pub history: GameHistory,
    pub reveal: RevealSchedule,
}

impl Game {
    /// A game starting from `state` with an empty record.
    pub fn new(state: GameState, reveal: RevealSchedule) -> (r: Self)
        ensures
            r.state == state,
            r.history.mr_x_log@ == Seq::<MrXMove>::empty(),
            r.reveal == reveal,
    {
        Self { state, history: GameHistory { mr_x_log: Vec::new() }, reveal }
    }

    /// Plays `action`: Mr X's legs are recorded in the public log (his
    /// station only on reveal legs), then the state advances by
    /// `apply_action`.
    pub fn apply(&mut self, action: Action)
        requires
            old(self).state@.well_indexed(),
            can_apply_action(old(self).state@, action),
            old(self).history.mr_x_log@.len() + 2 <= usize::MAX,
        ensures
            final(self).state@ == apply_action_of(old(self).state@, action),
            final(self).history.mr_x_log@ == old(self).history.mr_x_log@ + recorded_legs(
                old(self).state@,
                action,
                old(self).reveal@,
                old(self).history.mr_x_log@.len(),
            ),
            final(self).reveal == old(self).reveal,
    {
        let ghost g = self.state@;
        let curr = &self.state.players[self.state.current_player];
        assert(curr@ == g.cur());
        if !is_detective_id(curr.id) {
            self.record_mr_x(action);
        } else {
            assert(self.history.mr_x_log@ =~= old(self).history.mr_x_log@ + Seq::<MrXMove>::empty());
        }
        self.state = apply_action(&self.state, action);
    }

    fn record_mr_x(&mut self, action: Action)
        requires
            old(self).history.mr_x_log@.len() + 2 <= usize::MAX,
        ensures
            final(self).state == old(self).state,
            final(self).reveal == old(self).reveal,
            final(self).history.mr_x_log@ == old(self).history.mr_x_log@ + match action {
                Action::Single(s) => seq![
                    log_entry(old(self).reveal@, old(self).history.mr_x_log@.len() + 1, s),
                ],
                Action::Double(s1, s2) => seq![
                    log_entry(old(self).reveal@, old(self).history.mr_x_log@.len() + 1, s1),
                    log_entry(old(self).reveal@, old(self).history.mr_x_log@.len() + 2, s2),
                ],
                Action::Pass => Seq::<MrXMove>::empty(),
            },
    {
        match action {
            Action::Single(step) => {
                self.push_leg(step.ticket, step.to);
                assert(self.history.mr_x_log@ =~= old(self).history.mr_x_log@ + seq![
                    log_entry(old(self).reveal@, old(self).history.mr_x_log@.len() + 1, step),
                ]);
            },
            Action::Double(s1, s2) => {
                self.push_leg(s1.ticket, s1.to);
                self.push_leg(s2.ticket, s2.to);
                assert(self.history.mr_x_log@ =~= old(self).history.mr_x_log@ + seq![
                    log_entry(old(self).reveal@, old(self).history.mr_x_log@.len() + 1, s1),
                    log_entry(old(self).reveal@, old(self).history.mr_x_log@.len() + 2, s2),
                ]);
            },
            Action::Pass => {
                assert(self.history.mr_x_log@ =~= old(self).history.mr_x_log@ + Seq::<
                    MrXMove,
                >::empty());
            },
        }
    }

    /// Appends one leg: `station` is Mr X's position after it, shown only on
    /// a reveal leg.
    fn push_leg(&mut self, ticket: TicketType, station: StationId)
        requires
            old(self).history.mr_x_log@.len() + 1 <= usize::MAX,
        ensures
            final(self).state == old(self).state,
            final(self).reveal == old(self).reveal,
            final(self).history.mr_x_log@ == old(self).history.mr_x_log@.push(
                log_entry(
                    old(self).reveal@,
                    old(self).history.mr_x_log@.len() + 1,
                    Step { to: station, ticket },
                ),
            ),
    {
        let leg_number: usize = self.history.mr_x_log.len() + 1;
        let revealed = if self.reveal.is_reveal_leg(leg_number) {
            Some(station)
        } else {
            None
        };
        self.history.mr_x_log.push(MrXMove { ticket, revealed });
    }
}

} // verus!
