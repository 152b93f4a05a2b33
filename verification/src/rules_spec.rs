use vstd::prelude::*;
use crate::board::{board_closed, station_in_range, StationId, TicketType};
use crate::gamestate::{
    is_first_mrx, lemma_first_mrx_exists,
    first_mrx, has_mrx, is_mrx, player_ids, Action, GameModel, PlayerId, PlayerModel, Step,
    Winner,
};

verus! {

/// An edge `e` can carry `step`: it reaches the step's destination, and the
/// ticket either matches the edge's transport or is a black ticket.
pub open spec fn edge_admits(e: (StationId, TicketType), step: Step) -> bool {
    e.0 == step.to && (step.ticket == TicketType::Black || e.1 == step.ticket)
}

pub open spec fn is_detective(id: PlayerId) -> bool {
    id is Detective
}

impl GameModel {
    /// `current_player` indexes a player.
    pub open spec fn well_indexed(self) -> bool {
        0 <= self.current_player < self.players.len()
    }

    /// The player to move.
    pub open spec fn cur(self) -> PlayerModel {
        self.players[self.current_player]
    }

    pub open spec fn in_range(self, s: StationId) -> bool {
        station_in_range(self.board.len(), s)
    }

    /// The edges leaving station `s`.
    pub open spec fn edges_from(self, s: StationId) -> Seq<(StationId, TicketType)> {
        self.board[s.id - 1]
    }

    /// The edges leaving the current player's station.
    pub open spec fn cur_edges(self) -> Seq<(StationId, TicketType)> {
        self.edges_from(self.cur().station)
    }

    /// Some detective stands on station `s`.
    pub open spec fn detective_at(self, s: StationId) -> bool {
        exists|i: int|
            0 <= i < self.players.len() && is_detective(#[trigger] self.players[i].id)
                && self.players[i].station == s
    }

    /// The index of Mr X in the roster.
    pub open spec fn mrx_index(self) -> int {
        first_mrx(player_ids(self.players))
    }

    pub open spec fn has_mrx(self) -> bool {
        has_mrx(player_ids(self.players))
    }
}

/// A single leg is legal for the player to move: they hold the ticket, an
/// edge from their station carries it to the destination, and no detective
/// stands there.
pub open spec fn step_legal(g: GameModel, step: Step) -> bool {
    &&& g.cur().tickets.count(step.ticket) > 0
    &&& exists|k: int| 0 <= k < g.cur_edges().len() && #[trigger] edge_admits(g.cur_edges()[k], step)
    &&& !g.detective_at(step.to)
}

/// The generator's handling of one edge `e`: the step paid with the edge's own
/// transport (unless it is a black edge whose destination already has a black
/// step), then a black step concealing the transport, at most one per
/// destination. `acc` holds the steps so far and the destinations that
/// already have a black step.
pub open spec fn fold_edge(
    g: GameModel,
    acc: (Seq<Step>, Seq<StationId>),
    e: (StationId, TicketType),
) -> (Seq<Step>, Seq<StationId>) {
    let is_black_edge = e.1 == TicketType::Black;
    let native = Step { to: e.0, ticket: e.1 };
    let take_native = !(is_black_edge && acc.1.contains(e.0)) && step_legal(g, native);
    let steps1 = if take_native { acc.0.push(native) } else { acc.0 };
    let dests1 = if take_native && is_black_edge { acc.1.push(e.0) } else { acc.1 };
    let concealed = Step { to: e.0, ticket: TicketType::Black };
    let take_concealed = g.cur().tickets.count(TicketType::Black) > 0 && !is_black_edge
        && !dests1.contains(e.0) && step_legal(g, concealed);
    if take_concealed {
        (steps1.push(concealed), dests1.push(e.0))
    } else {
        (steps1, dests1)
    }
}

/// The generator run over the first `n` edges of the current station.
pub open spec fn steps_fold(g: GameModel, n: nat) -> (Seq<Step>, Seq<StationId>)
    decreases n,
{
    if n == 0 {
        (Seq::empty(), Seq::empty())
    } else {
        fold_edge(g, steps_fold(g, (n - 1) as nat), g.cur_edges()[n - 1])
    }
}

/// The single legs the player to move may take, in generation order.
pub open spec fn legal_steps_of(g: GameModel) -> Seq<Step> {
    steps_fold(g, g.cur_edges().len()).0
}

/// The state after the player to move takes `step`: they stand on the
/// destination with one ticket fewer, and a detective's ticket goes to Mr X.
pub open spec fn apply_step_of(g: GameModel, step: Step) -> GameModel {
    let cp = g.cur();
    let moved = PlayerModel { id: cp.id, station: step.to, tickets: cp.tickets.spend(step.ticket) };
    let ps1 = g.players.update(g.current_player, moved);
    let m = g.mrx_index();
    let ps2 = if is_detective(cp.id) {
        ps1.update(m, PlayerModel { tickets: ps1[m].tickets.add(step.ticket), ..ps1[m] })
    } else {
        ps1
    };
    GameModel { players: ps2, ..g }
}

/// `apply_step` can take `step` without failing: the player holds the
/// ticket, and when a detective moves there is a Mr X whose count of that
/// ticket can grow.
pub open spec fn apply_step_ok(g: GameModel, step: Step) -> bool {
    &&& g.well_indexed()
    &&& g.cur().tickets.count(step.ticket) > 0
    &&& is_detective(g.cur().id) ==> g.has_mrx() && g.players[g.mrx_index()].tickets.count(
        step.ticket,
    ) < 255
}

/// Double moves that start with `singles[0..n]`, in generation order.
pub open spec fn doubles_fold(g: GameModel, singles: Seq<Step>, n: nat) -> Seq<Action>
    decreases n,
{
    if n == 0 {
        Seq::empty()
    } else {
        let first = singles[n - 1];
        doubles_fold(g, singles, (n - 1) as nat) + legal_steps_of(apply_step_of(g, first)).map_values(
            |second: Step| Action::Double(first, second),
        )
    }
}

/// The player to move may double: Mr X holding a double-move ticket.
pub open spec fn may_double(g: GameModel) -> bool {
    is_mrx(g.cur().id) && g.cur().tickets.double > 0
}

/// Every action the player to move may take, in generation order: singles,
/// then (for Mr X with a double ticket) doubles, and a pass for a detective
/// with nothing else. A finished game has none.
pub open spec fn legal_actions_of(g: GameModel) -> Seq<Action> {
    if g.is_terminal {
        Seq::empty()
    } else {
        let singles = legal_steps_of(g);
        let base = singles.map_values(|s: Step| Action::Single(s));
        let all = if may_double(g) {
            base + doubles_fold(g, singles, singles.len())
        } else {
            base
        };
        if all.len() == 0 && is_detective(g.cur().id) {
            seq![Action::Pass]
        } else {
            all
        }
    }
}

/// The legal moves can be listed without failing: in a live game, the player
/// to move exists, and the current station and, when Mr X may double, the
/// destinations of his single legs are stations.
pub open spec fn can_list_actions(g: GameModel) -> bool {
    !g.is_terminal ==> {
        &&& g.well_indexed()
        &&& g.in_range(g.cur().station)
        &&& may_double(g) ==> forall|i: int|
            0 <= i < legal_steps_of(g).len() ==> g.in_range(#[trigger] legal_steps_of(g)[i].to)
    }
}

/// Whether `action` is legal for the player to move.
pub open spec fn action_legal(g: GameModel, action: Action) -> bool {
    if g.is_terminal {
        false
    } else if is_detective(g.cur().id) {
        match action {
            Action::Single(s) => step_legal(g, s),
            Action::Double(_, _) => false,
            Action::Pass => legal_steps_of(g).len() == 0,
        }
    } else {
        match action {
            Action::Single(s) => step_legal(g, s),
            Action::Double(s1, s2) => g.cur().tickets.double > 0 && step_legal(g, s1) && step_legal(
                apply_step_of(g, s1),
                s2,
            ),
            Action::Pass => false,
        }
    }
}

/// `is_action_legal` can judge `action` without failing.
pub open spec fn can_judge_action(g: GameModel, action: Action) -> bool {
    &&& !g.is_terminal ==> g.well_indexed() && g.in_range(g.cur().station)
    &&& match action {
        Action::Double(s1, _) => (!g.is_terminal && is_mrx(g.cur().id) && g.cur().tickets.double > 0
            && step_legal(g, s1)) ==> g.in_range(s1.to),
        _ => true,
    }
}

/// Mr X's station, where there is a Mr X.
pub open spec fn mrx_station(g: GameModel) -> StationId {
    g.players[g.mrx_index()].station
}

/// `g` judged as a live position, whatever its terminal flag says.
pub open spec fn as_live(g: GameModel) -> GameModel {
    GameModel { is_terminal: false, ..g }
}

/// The terminal status of a position, from the position alone: a detective
/// on Mr X's station wins for the detectives; else reaching the turn limit
/// wins for Mr X; else Mr X to move with no legal move loses. The terminal
/// flag plays no part.
pub open spec fn terminal_of(g: GameModel) -> Option<Winner> {
    if g.detective_at(mrx_station(g)) {
        Some(Winner::Detectives)
    } else if g.turn_number >= g.max_turns {
        Some(Winner::MrX)
    } else if is_mrx(g.cur().id) && legal_actions_of(as_live(g)).len() == 0 {
        Some(Winner::Detectives)
    } else {
        None
    }
}

/// `detect_terminal` can judge `g` without failing.
pub open spec fn can_detect_terminal(g: GameModel) -> bool {
    &&& g.has_mrx()
    &&& (!g.detective_at(mrx_station(g)) && g.turn_number < g.max_turns) ==> {
        &&& g.well_indexed()
        &&& is_mrx(g.cur().id) ==> can_list_actions(as_live(g))
    }
}

/// The position after the mover's legs and tickets are settled, before turn
/// order advances.
pub open spec fn moved_of(g: GameModel, action: Action) -> GameModel {
    match action {
        Action::Single(s) => apply_step_of(g, s),
        Action::Double(s1, s2) => {
            let after = apply_step_of(apply_step_of(g, s1), s2);
            let p = after.players[g.current_player];
            GameModel {
                players: after.players.update(
                    g.current_player,
                    PlayerModel { tickets: p.tickets.spend_double(), ..p },
                ),
                ..after
            }
        },
        Action::Pass => g,
    }
}

/// Turn order advanced: the next player moves, and a new round starts when
/// play wraps back to the first player.
pub open spec fn rotated(g: GameModel) -> GameModel {
    let next = (g.current_player + 1) % (g.players.len() as int);
    GameModel {
        current_player: next,
        turn_number: if next == 0 {
            g.turn_number + 1
        } else {
            g.turn_number
        },
        ..g
    }
}

/// `g` with its terminal status settled by `terminal_of`.
pub open spec fn settled(g: GameModel) -> GameModel {
    match terminal_of(g) {
        Some(w) => GameModel { is_terminal: true, winner: Some(w), ..g },
        None => g,
    }
}

/// The state after `action`; a finished game is left as it is.
pub open spec fn apply_action_of(g: GameModel, action: Action) -> GameModel {
    if g.is_terminal {
        g
    } else {
        settled(rotated(moved_of(g, action)))
    }
}

/// `apply_action` can apply `action` without failing.
pub open spec fn can_apply_action(g: GameModel, action: Action) -> bool {
    !g.is_terminal ==> {
        &&& g.well_indexed()
        &&& match action {
            Action::Single(s) => apply_step_ok(g, s),
            Action::Double(s1, s2) => {
                &&& apply_step_ok(g, s1)
                &&& apply_step_ok(apply_step_of(g, s1), s2)
                &&& apply_step_of(apply_step_of(g, s1), s2).cur().tickets.double > 0
            },
            Action::Pass => true,
        }
        &&& rotated(moved_of(g, action)).current_player == 0 ==> g.turn_number < usize::MAX
        &&& can_detect_terminal(rotated(moved_of(g, action)))
    }
}


/// What the generator has produced after `n` edges: only legal steps; a
/// black step for every destination it marked; and, for each edge seen, the
/// legal step paid with its own (non-black) transport and the legal black
/// step to its destination.
pub proof fn lemma_steps_fold(g: GameModel, n: nat)
    ensures
        forall|i: int|
            0 <= i < steps_fold(g, n).0.len() ==> step_legal(g, #[trigger] steps_fold(g, n).0[i]),
        forall|d: StationId|
            #[trigger] steps_fold(g, n).1.contains(d) ==> steps_fold(g, n).0.contains(
                Step { to: d, ticket: TicketType::Black },
            ),
        forall|k: int|
            0 <= k < n ==> {
                let e = #[trigger] g.cur_edges()[k];
                &&& (e.1 != TicketType::Black && step_legal(g, Step { to: e.0, ticket: e.1 }))
                    ==> steps_fold(g, n).0.contains(Step { to: e.0, ticket: e.1 })
                &&& step_legal(g, Step { to: e.0, ticket: TicketType::Black }) ==> steps_fold(
                    g,
                    n,
                ).0.contains(Step { to: e.0, ticket: TicketType::Black })
            },
    decreases n,
{
    if n > 0 {
        let m = (n - 1) as nat;
        lemma_steps_fold(g, m);
        let prev = steps_fold(g, m);
        let cur = steps_fold(g, n);
        let e = g.cur_edges()[m as int];
        assert(cur == fold_edge(g, prev, e));
        // everything already produced survives
        assert forall|x: Step| prev.0.contains(x) implies cur.0.contains(x) by {
            let i = choose|i: int| 0 <= i < prev.0.len() && prev.0[i] == x;
            let is_black_edge = e.1 == TicketType::Black;
            let native = Step { to: e.0, ticket: e.1 };
            let take_native = !(is_black_edge && prev.1.contains(e.0)) && step_legal(g, native);
            let steps1 = if take_native { prev.0.push(native) } else { prev.0 };
            assert(steps1[i] == x);
            if cur.0.len() > steps1.len() {
                assert(cur.0[i] == x);
            } else {
                assert(cur.0 == steps1);
            }
        }
        assert forall|i: int| 0 <= i < cur.0.len() implies step_legal(g, #[trigger] cur.0[i]) by {
            if i < prev.0.len() {
                assert(prev.0[i] == cur.0[i]) by {
                    let is_black_edge = e.1 == TicketType::Black;
                    let native = Step { to: e.0, ticket: e.1 };
                    let take_native = !(is_black_edge && prev.1.contains(e.0)) && step_legal(
                        g,
                        native,
                    );
                    let steps1 = if take_native { prev.0.push(native) } else { prev.0 };
                    assert(steps1[i] == prev.0[i]);
                }
            }
        }
        assert forall|d: StationId| #[trigger] cur.1.contains(d) implies cur.0.contains(
            Step { to: d, ticket: TicketType::Black },
        ) by {
            if prev.1.contains(d) {
                assert(prev.0.contains(Step { to: d, ticket: TicketType::Black }));
            } else {
                let is_black_edge = e.1 == TicketType::Black;
                let native = Step { to: e.0, ticket: e.1 };
                let take_native = !(is_black_edge && prev.1.contains(e.0)) && step_legal(g, native);
                let steps1 = if take_native { prev.0.push(native) } else { prev.0 };
                let dests1 = if take_native && is_black_edge { prev.1.push(e.0) } else { prev.1 };
                if dests1.contains(d) {
                    assert(d == e.0);
                    assert(steps1[steps1.len() - 1] == native);
                    assert(steps1.contains(native));
                    let j = choose|j: int| 0 <= j < steps1.len() && steps1[j] == native;
                    if cur.0 != steps1 {
                        assert(cur.0[j] == native);
                    }
                } else {
                    assert(d == e.0);
                    assert(cur.0[cur.0.len() - 1] == Step { to: d, ticket: TicketType::Black });
                }
            }
        }
        assert forall|k: int| 0 <= k < n implies {
            let e = #[trigger] g.cur_edges()[k];
            &&& (e.1 != TicketType::Black && step_legal(g, Step { to: e.0, ticket: e.1 }))
                ==> cur.0.contains(Step { to: e.0, ticket: e.1 })
            &&& step_legal(g, Step { to: e.0, ticket: TicketType::Black }) ==> cur.0.contains(
                Step { to: e.0, ticket: TicketType::Black },
            )
        } by {
            if k < m {
                let ek = g.cur_edges()[k];
                if ek.1 != TicketType::Black && step_legal(g, Step { to: ek.0, ticket: ek.1 }) {
                    assert(prev.0.contains(Step { to: ek.0, ticket: ek.1 }));
                }
                if step_legal(g, Step { to: ek.0, ticket: TicketType::Black }) {
                    assert(prev.0.contains(Step { to: ek.0, ticket: TicketType::Black }));
                }
            } else {
                let is_black_edge = e.1 == TicketType::Black;
                let native = Step { to: e.0, ticket: e.1 };
                let take_native = !(is_black_edge && prev.1.contains(e.0)) && step_legal(g, native);
                let steps1 = if take_native { prev.0.push(native) } else { prev.0 };
                let dests1 = if take_native && is_black_edge { prev.1.push(e.0) } else { prev.1 };
                let concealed = Step { to: e.0, ticket: TicketType::Black };
                if take_native {
                    assert(steps1[steps1.len() - 1] == native);
                    if cur.0 != steps1 {
                        assert(cur.0[steps1.len() - 1] == native);
                    }
                    assert(cur.0.contains(native));
                }
                if step_legal(g, concealed) {
                    if is_black_edge {
                        assert(native == concealed);
                        if prev.1.contains(e.0) {
                            assert(prev.0.contains(concealed));
                        }
                    } else if dests1.contains(e.0) {
                        assert(prev.1.contains(e.0));
                        assert(prev.0.contains(concealed));
                    } else {
                        assert(g.cur().tickets.count(TicketType::Black) > 0);
                        assert(cur.0[cur.0.len() - 1] == concealed);
                    }
                }
            }
        }
    }
}

/// Every generated single leg is legal.
pub proof fn lemma_legal_steps_sound(g: GameModel)
    ensures
        forall|i: int|
            0 <= i < legal_steps_of(g).len() ==> step_legal(g, #[trigger] legal_steps_of(g)[i]),
{
    lemma_steps_fold(g, g.cur_edges().len());
}

/// Every legal single leg is generated.
pub proof fn lemma_legal_steps_complete(g: GameModel, s: Step)
    requires
        step_legal(g, s),
    ensures
        legal_steps_of(g).contains(s),
{
    let n = g.cur_edges().len();
    lemma_steps_fold(g, n);
    let k = choose|k: int| 0 <= k < g.cur_edges().len() && #[trigger] edge_admits(g.cur_edges()[k], s);
    let e = g.cur_edges()[k];
    if s.ticket == TicketType::Black {
        assert(s == Step { to: e.0, ticket: TicketType::Black });
    } else {
        assert(s == Step { to: e.0, ticket: e.1 });
    }
}


/// The double moves generated from the first `n` single legs are exactly
/// the pairs of one of those legs with a legal leg from where it ends.
pub proof fn lemma_doubles_fold(g: GameModel, singles: Seq<Step>, n: nat)
    requires
        n <= singles.len(),
    ensures
        forall|a: Action|
            #[trigger] doubles_fold(g, singles, n).contains(a) <==> exists|i: int, s2: Step|
                0 <= i < n && a == Action::Double(singles[i], s2) && #[trigger] legal_steps_of(
                    apply_step_of(g, singles[i]),
                ).contains(s2),
    decreases n,
{
    if n > 0 {
        let m = (n - 1) as nat;
        lemma_doubles_fold(g, singles, m);
        let first = singles[m as int];
        let prev = doubles_fold(g, singles, m);
        let tail = legal_steps_of(apply_step_of(g, first)).map_values(
            |second: Step| Action::Double(first, second),
        );
        assert(doubles_fold(g, singles, n) == prev + tail);
        assert forall|a: Action| #[trigger] doubles_fold(g, singles, n).contains(a) implies exists|
            i: int,
            s2: Step,
        |
            0 <= i < n && a == Action::Double(singles[i], s2) && #[trigger] legal_steps_of(
                apply_step_of(g, singles[i]),
            ).contains(s2) by {
            let all = prev + tail;
            let j = choose|j: int| 0 <= j < all.len() && all[j] == a;
            if j < prev.len() {
                assert(prev[j] == a);
                assert(prev.contains(a));
            } else {
                let t = j - prev.len();
                let s2 = legal_steps_of(apply_step_of(g, first))[t];
                assert(tail[t] == a);
                assert(a == Action::Double(singles[m as int], s2));
                assert(legal_steps_of(apply_step_of(g, singles[m as int])).contains(s2));
            }
        }
        assert forall|a: Action|
            (exists|i: int, s2: Step|
                0 <= i < n && a == Action::Double(singles[i], s2) && #[trigger] legal_steps_of(
                    apply_step_of(g, singles[i]),
                ).contains(s2)) implies #[trigger] doubles_fold(g, singles, n).contains(a) by {
            let (i, s2) = choose|i: int, s2: Step|
                0 <= i < n && a == Action::Double(singles[i], s2) && #[trigger] legal_steps_of(
                    apply_step_of(g, singles[i]),
                ).contains(s2);
            let all = prev + tail;
            if i < m {
                assert(prev.contains(a));
                let j = choose|j: int| 0 <= j < prev.len() && prev[j] == a;
                assert(all[j] == a);
            } else {
                let steps2 = legal_steps_of(apply_step_of(g, first));
                let t = choose|t: int| 0 <= t < steps2.len() && steps2[t] == s2;
                assert(tail[t] == a);
                assert(all[prev.len() + t] == a);
            }
        }
    }
}

/// The generator and the validator agree: an action is generated exactly
/// when it is legal.
pub proof fn lemma_generated_iff_legal(g: GameModel, a: Action)
    requires
        g.well_indexed(),
    ensures
        legal_actions_of(g).contains(a) <==> action_legal(g, a),
{
    if !g.is_terminal {
        let singles = legal_steps_of(g);
        let base = singles.map_values(|s: Step| Action::Single(s));
        let doubles = doubles_fold(g, singles, singles.len());
        let all = if may_double(g) { base + doubles } else { base };
        lemma_legal_steps_sound(g);
        lemma_doubles_fold(g, singles, singles.len());
        // membership in the singles part
        assert forall|s: Step| base.contains(Action::Single(s)) <==> singles.contains(s) by {
            if base.contains(Action::Single(s)) {
                let j = choose|j: int| 0 <= j < base.len() && base[j] == Action::Single(s);
                assert(singles[j] == s);
            }
            if singles.contains(s) {
                let j = choose|j: int| 0 <= j < singles.len() && singles[j] == s;
                assert(base[j] == Action::Single(s));
            }
        }
        assert forall|b: Action| base.contains(b) implies b is Single by {
            let j = choose|j: int| 0 <= j < base.len() && base[j] == b;
        }
        assert forall|b: Action| all.contains(b) <==> (base.contains(b) || (may_double(g)
            && doubles.contains(b))) by {
            if may_double(g) {
                if all.contains(b) {
                    let j = choose|j: int| 0 <= j < all.len() && all[j] == b;
                    if j < base.len() {
                        assert(base[j] == b);
                    } else {
                        assert(doubles[j - base.len()] == b);
                    }
                }
                if base.contains(b) {
                    let j = choose|j: int| 0 <= j < base.len() && base[j] == b;
                    assert(all[j] == b);
                }
                if doubles.contains(b) {
                    let j = choose|j: int| 0 <= j < doubles.len() && doubles[j] == b;
                    assert(all[base.len() + j] == b);
                }
            }
        }
        assert(legal_actions_of(g) == if all.len() == 0 && is_detective(g.cur().id) {
            seq![Action::Pass]
        } else {
            all
        });
        assert(seq![Action::Pass].contains(Action::Pass)) by {
            assert(seq![Action::Pass][0] == Action::Pass);
        }
        match a {
            Action::Single(s) => {
                if step_legal(g, s) {
                    lemma_legal_steps_complete(g, s);
                }
                if singles.contains(s) {
                    let j = choose|j: int| 0 <= j < singles.len() && singles[j] == s;
                    assert(step_legal(g, singles[j]));
                }
                if all.len() == 0 && is_detective(g.cur().id) {
                    if step_legal(g, s) {
                        assert(all.contains(a));
                    }
                    assert(!seq![Action::Pass].contains(a));
                }
                assert(legal_actions_of(g).contains(a) <==> action_legal(g, a));
            },
            Action::Double(s1, s2) => {
                if action_legal(g, a) {
                    lemma_legal_steps_complete(g, s1);
                    let i = choose|i: int| 0 <= i < singles.len() && singles[i] == s1;
                    lemma_legal_steps_complete(apply_step_of(g, s1), s2);
                    assert(doubles.contains(a));
                    assert(all.contains(a));
                }
                if legal_actions_of(g).contains(a) {
                    if all.len() == 0 && is_detective(g.cur().id) {
                        assert(legal_actions_of(g) == seq![Action::Pass]);
                        assert(false);
                    }
                    assert(all.contains(a));
                    assert(!base.contains(a));
                    assert(may_double(g));
                    assert(doubles.contains(a));
                    let (i, t2) = choose|i: int, t2: Step|
                        0 <= i < singles.len() && a == Action::Double(singles[i], t2)
                            && #[trigger] legal_steps_of(apply_step_of(g, singles[i])).contains(t2);
                    assert(step_legal(g, singles[i]));
                    lemma_legal_steps_sound(apply_step_of(g, singles[i]));
                    let k = choose|k: int|
                        0 <= k < legal_steps_of(apply_step_of(g, singles[i])).len()
                            && legal_steps_of(apply_step_of(g, singles[i]))[k] == t2;
                    assert(step_legal(apply_step_of(g, s1), s2));
                }
                assert(legal_actions_of(g).contains(a) <==> action_legal(g, a));
            },
            Action::Pass => {
                if all.len() > 0 {
                    assert(all.contains(all[0]));
                    if all[0] == Action::Pass {
                        assert(!base.contains(Action::Pass));
                        assert(false);
                    }
                }
                if singles.len() > 0 {
                    assert(base.contains(base[0]));
                    assert(all.contains(base[0]));
                }
                if all.len() == 0 {
                    assert(singles.len() == 0);
                }
                if legal_actions_of(g).contains(a) && all.len() > 0 {
                    assert(all.contains(Action::Pass));
                    assert(!base.contains(Action::Pass));
                    if may_double(g) {
                        assert(doubles.contains(Action::Pass));
                        let (i, t2) = choose|i: int, t2: Step|
                            0 <= i < singles.len() && Action::Pass == Action::Double(singles[i], t2)
                                && #[trigger] legal_steps_of(apply_step_of(g, singles[i])).contains(t2);
                    }
                    assert(false);
                }
                assert(legal_actions_of(g).contains(a) <==> action_legal(g, a));
            },
        }
    }
}


/// Mr X never passes; a detective is offered a pass exactly when no single
/// leg is open to them.
pub proof fn lemma_pass_rule(g: GameModel)
    requires
        g.well_indexed(),
        !g.is_terminal,
    ensures
        is_mrx(g.cur().id) ==> !legal_actions_of(g).contains(Action::Pass),
        is_detective(g.cur().id) ==> (legal_actions_of(g).contains(Action::Pass)
            <==> legal_steps_of(g).len() == 0),
{
    lemma_generated_iff_legal(g, Action::Pass);
}

/// Capture ends the game at once: whenever a detective stands on Mr X's
/// station, the position is won by the detectives, whoever is to move and
/// whatever the turn count.
pub proof fn lemma_capture_wins(g: GameModel)
    requires
        exists|i: int|
            0 <= i < g.players.len() && is_detective(#[trigger] g.players[i].id)
                && g.players[i].station == g.players[g.mrx_index()].station,
    ensures
        terminal_of(g) == Some(Winner::Detectives),
{
}

/// A detective who moves onto Mr X's station wins: the game is over at once
/// and the detectives are the winners.
pub proof fn lemma_move_onto_mrx_wins(g: GameModel, s: Step)
    requires
        !g.is_terminal,
        is_detective(g.cur().id),
        apply_step_ok(g, s),
        s.to == g.players[g.mrx_index()].station,
    ensures
        apply_action_of(g, Action::Single(s)).is_terminal,
        apply_action_of(g, Action::Single(s)).winner == Some(Winner::Detectives),
{
    lemma_apply_step_frame(g, s);
    let m = apply_step_of(g, s);
    let r = rotated(m);
    assert(player_ids(r.players) == player_ids(g.players));
    assert(r.mrx_index() == g.mrx_index());
    assert(r.players[g.mrx_index()].station == g.players[g.mrx_index()].station);
    assert(r.players[g.current_player].station == s.to);
    assert(is_detective(r.players[g.current_player].id));
    lemma_capture_wins(r);
}

/// What a single leg changes: the mover's station and tickets and, when a
/// detective moves, Mr X's count of the spent ticket; nothing else.
pub proof fn lemma_apply_step_frame(g: GameModel, step: Step)
    requires
        apply_step_ok(g, step),
    ensures
        ({
            let r = apply_step_of(g, step);
            &&& r.players.len() == g.players.len()
            &&& r.well_indexed()
            &&& player_ids(r.players) == player_ids(g.players)
            &&& r.cur() == (PlayerModel {
                id: g.cur().id,
                station: step.to,
                tickets: g.cur().tickets.spend(step.ticket),
            })
            &&& is_detective(g.cur().id) ==> {
                &&& is_first_mrx(player_ids(g.players), g.mrx_index())
                &&& g.mrx_index() != g.current_player
                &&& r.players[g.mrx_index()] == (PlayerModel {
                    tickets: g.players[g.mrx_index()].tickets.add(step.ticket),
                    ..g.players[g.mrx_index()]
                })
            }
            &&& forall|i: int|
                0 <= i < g.players.len() && i != g.current_player && (is_mrx(g.cur().id) || i
                    != g.mrx_index()) ==> #[trigger] r.players[i] == g.players[i]
        }),
{
    let r = apply_step_of(g, step);
    if is_detective(g.cur().id) {
        lemma_first_mrx_exists(player_ids(g.players));
        assert(player_ids(g.players)[g.mrx_index()] is MrX);
    }
    assert(player_ids(r.players) =~= player_ids(g.players));
}


/// Once its terminal status is settled, a position that is not finished has
/// at least one legal action.
pub proof fn lemma_settled_live(g: GameModel)
    requires
        g.well_indexed(),
    ensures
        !settled(g).is_terminal ==> legal_actions_of(settled(g)).len() > 0,
{
    if !settled(g).is_terminal {
        assert(terminal_of(g) is None);
        assert(settled(g) == g);
        if is_detective(g.cur().id) {
            let singles = legal_steps_of(g);
            let base = singles.map_values(|s: Step| Action::Single(s));
            let all = if may_double(g) {
                base + doubles_fold(g, singles, singles.len())
            } else {
                base
            };
            if all.len() == 0 {
                assert(legal_actions_of(g) == seq![Action::Pass]);
            }
        }
    }
}

/// The first position of a game: the first player moves in round zero of a
/// game of 22 rounds, not yet decided.
pub open spec fn initial_model(
    board: Seq<Seq<(StationId, TicketType)>>,
    players: Seq<PlayerModel>,
) -> GameModel {
    GameModel {
        board,
        players,
        current_player: 0,
        turn_number: 0,
        is_terminal: false,
        winner: None,
        max_turns: 22,
    }
}


/// After `n` edges the generator has marked every destination it gave a
/// black step, and no black step occurs twice.
pub proof fn lemma_black_steps_unique_fold(g: GameModel, n: nat)
    ensures
        forall|d: StationId|
            #[trigger] steps_fold(g, n).0.contains(Step { to: d, ticket: TicketType::Black })
                ==> steps_fold(g, n).1.contains(d),
        forall|i: int, j: int|
            0 <= i < j < steps_fold(g, n).0.len() && #[trigger] steps_fold(g, n).0[i]
                == #[trigger] steps_fold(g, n).0[j] ==> steps_fold(g, n).0[i].ticket
                != TicketType::Black,
    decreases n,
{
    if n > 0 {
        let m = (n - 1) as nat;
        lemma_black_steps_unique_fold(g, m);
        let prev = steps_fold(g, m);
        let e = g.cur_edges()[m as int];
        let is_black_edge = e.1 == TicketType::Black;
        let native = Step { to: e.0, ticket: e.1 };
        let take_native = !(is_black_edge && prev.1.contains(e.0)) && step_legal(g, native);
        let steps1 = if take_native { prev.0.push(native) } else { prev.0 };
        let dests1 = if take_native && is_black_edge { prev.1.push(e.0) } else { prev.1 };
        let concealed = Step { to: e.0, ticket: TicketType::Black };
        let take_concealed = g.cur().tickets.count(TicketType::Black) > 0 && !is_black_edge
            && !dests1.contains(e.0) && step_legal(g, concealed);
        assert forall|d: StationId|
            #[trigger] steps1.contains(Step { to: d, ticket: TicketType::Black }) implies dests1.contains(
            d,
        ) by {
            let b = Step { to: d, ticket: TicketType::Black };
            let k = choose|k: int| 0 <= k < steps1.len() && steps1[k] == b;
            if k < prev.0.len() {
                assert(prev.0[k] == b);
                assert(prev.0.contains(b));
                assert(prev.1.contains(d));
                let q = choose|q: int| 0 <= q < prev.1.len() && prev.1[q] == d;
                assert(dests1[q] == d);
            } else {
                assert(dests1[dests1.len() - 1] == d);
            }
        }
        assert forall|i: int, j: int|
            0 <= i < j < steps1.len() && #[trigger] steps1[i] == #[trigger] steps1[j] implies steps1[i].ticket
            != TicketType::Black by {
            if j < prev.0.len() {
                assert(prev.0[i] == prev.0[j]);
            } else if steps1[j].ticket == TicketType::Black {
                assert(prev.0[i] == steps1[j]);
                assert(prev.0.contains(Step { to: e.0, ticket: TicketType::Black }));
            }
        }
        if take_concealed {
            let cur = steps_fold(g, n);
            assert(cur.0 == steps1.push(concealed));
            assert(cur.1 == dests1.push(e.0));
            assert forall|d: StationId|
                #[trigger] cur.0.contains(Step { to: d, ticket: TicketType::Black }) implies cur.1.contains(
                d,
            ) by {
                let b = Step { to: d, ticket: TicketType::Black };
                let k = choose|k: int| 0 <= k < cur.0.len() && cur.0[k] == b;
                if k < steps1.len() {
                    assert(steps1[k] == b);
                    assert(steps1.contains(b));
                    let q = choose|q: int| 0 <= q < dests1.len() && dests1[q] == d;
                    assert(cur.1[q] == d);
                } else {
                    assert(cur.1[cur.1.len() - 1] == d);
                }
            }
            assert forall|i: int, j: int|
                0 <= i < j < cur.0.len() && #[trigger] cur.0[i] == #[trigger] cur.0[j] implies cur.0[i].ticket
                != TicketType::Black by {
                if j < steps1.len() {
                    assert(steps1[i] == steps1[j]);
                } else {
                    assert(steps1[i] == concealed);
                    assert(steps1.contains(concealed));
                }
            }
        }
    }
}


/// Every generated step paid with a transport other than black is an edge
/// among the first `n`, taken with its own transport.
pub proof fn lemma_plain_steps_are_edges(g: GameModel, n: nat)
    ensures
        forall|i: int|
            0 <= i < steps_fold(g, n).0.len() && (#[trigger] steps_fold(g, n).0[i]).ticket
                != TicketType::Black ==> exists|k: int|
                0 <= k < n && #[trigger] g.cur_edges()[k] == (
                    steps_fold(g, n).0[i].to,
                    steps_fold(g, n).0[i].ticket,
                ),
    decreases n,
{
    if n > 0 {
        let m = (n - 1) as nat;
        lemma_plain_steps_are_edges(g, m);
        let prev = steps_fold(g, m);
        let cur = steps_fold(g, n);
        let e = g.cur_edges()[m as int];
        assert(cur == fold_edge(g, prev, e));
        assert forall|i: int|
            0 <= i < cur.0.len() && (#[trigger] cur.0[i]).ticket != TicketType::Black implies exists|
            k: int,
        | 0 <= k < n && #[trigger] g.cur_edges()[k] == (cur.0[i].to, cur.0[i].ticket) by {
            if i < prev.0.len() {
                assert(cur.0[i] == prev.0[i]);
                let k = choose|k: int|
                    0 <= k < m && #[trigger] g.cur_edges()[k] == (prev.0[i].to, prev.0[i].ticket);
                assert(g.cur_edges()[k] == (cur.0[i].to, cur.0[i].ticket));
            } else {
                assert(g.cur_edges()[m as int] == (cur.0[i].to, cur.0[i].ticket));
            }
        }
    }
}

/// When no edge from the current station repeats, the generator lists no
/// step twice.
pub proof fn lemma_steps_fold_distinct(g: GameModel, n: nat)
    requires
        n <= g.cur_edges().len(),
        g.cur_edges().no_duplicates(),
    ensures
        steps_fold(g, n).0.no_duplicates(),
    decreases n,
{
    lemma_black_steps_unique_fold(g, n);
    if n > 0 {
        let m = (n - 1) as nat;
        lemma_steps_fold_distinct(g, m);
        lemma_plain_steps_are_edges(g, m);
        let prev = steps_fold(g, m);
        let cur = steps_fold(g, n);
        let e = g.cur_edges()[m as int];
        assert(cur == fold_edge(g, prev, e));
        assert forall|i: int, j: int| 0 <= i < j < cur.0.len() implies cur.0[i] != cur.0[j] by {
            if cur.0[i] == cur.0[j] {
                assert(cur.0[i].ticket != TicketType::Black);
                if j < prev.0.len() {
                    assert(prev.0[i] == cur.0[i] && prev.0[j] == cur.0[j]);
                } else {
                    // the only plain step this edge adds is the edge itself
                    assert(cur.0[j] == Step { to: e.0, ticket: e.1 });
                    if i < prev.0.len() {
                        assert(prev.0[i] == cur.0[i]);
                        let k = choose|k: int|
                            0 <= k < m && #[trigger] g.cur_edges()[k] == (
                                prev.0[i].to,
                                prev.0[i].ticket,
                            );
                        assert(g.cur_edges()[k] == g.cur_edges()[m as int]);
                    }
                }
            }
        }
    }
}

/// Legal legs come out once each: when no edge from the current station
/// repeats, `legal_steps` lists no step twice.
pub proof fn lemma_legal_steps_distinct(g: GameModel)
    requires
        g.cur_edges().no_duplicates(),
    ensures
        legal_steps_of(g).no_duplicates(),
{
    lemma_steps_fold_distinct(g, g.cur_edges().len());
}

/// No station's edge list repeats an edge.
pub open spec fn edges_distinct(board: Seq<Seq<(StationId, TicketType)>>) -> bool {
    forall|i: int| 0 <= i < board.len() ==> (#[trigger] board[i]).no_duplicates()
}

/// The doubles built from distinct first legs, each followed by distinct
/// second legs, are distinct.
proof fn lemma_doubles_fold_distinct(g: GameModel, singles: Seq<Step>, n: nat)
    requires
        n <= singles.len(),
        singles.no_duplicates(),
        forall|k: int| 0 <= k < n ==> (#[trigger] legal_steps_of(apply_step_of(g, singles[k]))).no_duplicates(),
    ensures
        doubles_fold(g, singles, n).no_duplicates(),
        forall|i: int|
            0 <= i < doubles_fold(g, singles, n).len() ==> exists|k: int|
                0 <= k < n && (#[trigger] doubles_fold(g, singles, n)[i]) is Double
                    && doubles_fold(g, singles, n)[i]->Double_0 == singles[k],
    decreases n,
{
    if n > 0 {
        let m = (n - 1) as nat;
        lemma_doubles_fold_distinct(g, singles, m);
        let first = singles[m as int];
        let prev = doubles_fold(g, singles, m);
        let seconds = legal_steps_of(apply_step_of(g, first));
        let block = seconds.map_values(|second: Step| Action::Double(first, second));
        let cur = doubles_fold(g, singles, n);
        assert(cur == prev + block);
        assert(seconds.no_duplicates());
        assert forall|i: int| 0 <= i < cur.len() implies exists|k: int|
            0 <= k < n && (#[trigger] cur[i]) is Double && cur[i]->Double_0 == singles[k] by {
            if i < prev.len() {
                assert(cur[i] == prev[i]);
                let k = choose|k: int|
                    0 <= k < m && (#[trigger] prev[i]) is Double && prev[i]->Double_0 == singles[k];
            } else {
                assert(cur[i] == block[i - prev.len()]);
            }
        }
        assert forall|i: int, j: int| 0 <= i < j < cur.len() implies cur[i] != cur[j] by {
            if j < prev.len() {
                assert(cur[i] == prev[i] && cur[j] == prev[j]);
            } else if i < prev.len() {
                assert(cur[i] == prev[i]);
                let k = choose|k: int|
                    0 <= k < m && (#[trigger] prev[i]) is Double && prev[i]->Double_0 == singles[k];
                assert(cur[j] == block[j - prev.len()]);
                assert(singles[k] != singles[m as int]);
            } else {
                assert(cur[i] == block[i - prev.len()]);
                assert(cur[j] == block[j - prev.len()]);
                assert(seconds[i - prev.len()] != seconds[j - prev.len()]);
            }
        }
    }
}

/// Legal actions come out once each: on a board where no station's edge
/// list repeats an edge, `legal_actions` lists no action twice.
pub proof fn lemma_legal_actions_distinct(g: GameModel)
    requires
        can_list_actions(g),
        edges_distinct(g.board),
    ensures
        legal_actions_of(g).no_duplicates(),
{
    if !g.is_terminal {
        let singles = legal_steps_of(g);
        let st = g.cur().station.id - 1;
        assert(g.cur_edges() == g.board[st]);
        lemma_legal_steps_distinct(g);
        let base = singles.map_values(|s: Step| Action::Single(s));
        assert forall|i: int, j: int| 0 <= i < j < base.len() implies base[i] != base[j] by {
            assert(singles[i] != singles[j]);
        }
        if may_double(g) {
            lemma_legal_steps_sound(g);
            assert forall|k: int| 0 <= k < singles.len() implies (#[trigger] legal_steps_of(
                apply_step_of(g, singles[k]),
            )).no_duplicates() by {
                let h = apply_step_of(g, singles[k]);
                assert(g.in_range(singles[k].to));
                assert(h.cur().station == singles[k].to);
                assert(h.board == g.board);
                assert(h.cur_edges() == g.board[h.cur().station.id - 1]);
                lemma_legal_steps_distinct(h);
            }
            lemma_doubles_fold_distinct(g, singles, singles.len());
            let doubles = doubles_fold(g, singles, singles.len());
            let all = base + doubles;
            assert forall|i: int, j: int| 0 <= i < j < all.len() implies all[i] != all[j] by {
                if j < base.len() {
                    assert(all[i] == base[i] && all[j] == base[j]);
                } else if i < base.len() {
                    assert(all[i] == base[i]);
                    assert(all[j] == doubles[j - base.len()]);
                    let k = choose|k: int|
                        0 <= k < singles.len() && (#[trigger] doubles[j - base.len()]) is Double
                            && doubles[j - base.len()]->Double_0 == singles[k];
                } else {
                    assert(all[i] == doubles[i - base.len()]);
                    assert(all[j] == doubles[j - base.len()]);
                }
            }
        }
    }
}

/// On a board whose edges all lead to stations, the moves from any station
/// can be listed.
pub proof fn lemma_closed_board_lists(g: GameModel)
    requires
        board_closed(g.board),
        g.well_indexed(),
        g.in_range(g.cur().station),
    ensures
        can_list_actions(g),
{
    lemma_legal_steps_sound(g);
    assert forall|i: int| 0 <= i < legal_steps_of(g).len() implies g.in_range(
        #[trigger] legal_steps_of(g)[i].to,
    ) by {
        let s = legal_steps_of(g)[i];
        assert(step_legal(g, s));
        let k = choose|k: int|
            0 <= k < g.cur_edges().len() && #[trigger] edge_admits(g.cur_edges()[k], s);
        let st = g.cur().station.id - 1;
        assert(g.board[st][k].0 == s.to);
    }
}

} // verus!
