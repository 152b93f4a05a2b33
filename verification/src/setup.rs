use vstd::prelude::*;
use rand::seq::SliceRandom;
use rand::SeedableRng;
use std::sync::Arc;
use crate::board::{board_closed, station_in_range, Board, StationId};
use crate::decimal::{decimal_chars, decimal_string};
use crate::dto::{result_view, NewGameRequest};
use crate::gamestate::{
    player_ids, player_models, GameState, PlayerId, PlayerModel, PlayerState, TicketCounts,
    TicketInventory,
};
use crate::history::{standard_reveal_legs, Game, MrXMove, RevealSchedule};
use crate::board::share_board;
use crate::gamestate::{is_first_mrx, lemma_first_mrx_unique};
use crate::rules_spec::{initial_model, lemma_closed_board_lists, settled};
use crate::invariants::{game_sound, ticket_total};
use crate::board::TicketType;

verus! {

/// The most detectives a game may have.
pub const MAX_DETECTIVES: usize = 5;

/// The standard start cards: Mr X and the detectives are dealt distinct
/// stations from these.
pub open spec fn start_cards() -> Seq<u8> {
    seq![13u8, 26, 29, 34, 50, 53, 91, 94, 103, 112, 117, 132, 138, 141, 155, 174, 197, 198]
}

/// The 18 start cards are distinct.
pub proof fn lemma_start_cards_distinct()
    ensures
        start_cards().no_duplicates(),
        start_cards().len() == 18,
{
    let s = start_cards();
    assert forall|i: int, j: int| 0 <= i < j < s.len() implies s[i] < s[j] by {
        assert(s[0] < s[1] && s[1] < s[2] && s[2] < s[3] && s[3] < s[4] && s[4] < s[5]);
    }
}

/// The standard start cards, in order.
pub fn standard_start_cards() -> (r: Vec<u8>)
    ensures
        r@ == start_cards(),
{
    let r: Vec<u8> = vec![13, 26, 29, 34, 50, 53, 91, 94, 103, 112, 117, 132, 138, 141, 155, 174, 197, 198];
    assert(r@ =~= start_cards());
    r
}

pub open spec fn mr_x_counts() -> TicketCounts {
    TicketCounts { taxi: 4, bus: 3, underground: 3, black: 5, double: 2 }
}

pub open spec fn detective_counts() -> TicketCounts {
    TicketCounts { taxi: 10, bus: 8, underground: 4, black: 0, double: 0 }
}

/// Standard Mr X loadout: 4 taxi, 3 bus, 3 underground, 5 black, 2 double.
pub fn standard_mr_x_tickets() -> (r: TicketInventory)
    ensures
        r@ == mr_x_counts(),
{
    TicketInventory::new(4, 3, 3, 5, 2)
}

/// Standard detective loadout: 10 taxi, 8 bus, 4 underground, no black or
/// double.
pub fn standard_detective_tickets() -> (r: TicketInventory)
    ensures
        r@ == detective_counts(),
{
    TicketInventory::new(10, 8, 4, 0, 0)
}

/// The order `SliceRandom::shuffle` (rand) leaves `cards` in when driven by
/// `StdRng::seed_from_u64(seed)`: a Fisher-Yates pass whose swaps come from
/// ChaCha12 keyed by a PCG32 expansion of the seed, so the same cards and
/// seed always give the same order.
pub uninterp spec fn seeded_shuffle(cards: Seq<u8>, seed: u64) -> Seq<u8>;

/// Trusted: `SliceRandom::shuffle` (rand) with `StdRng::seed_from_u64(seed)`
/// puts the cards in the order `seeded_shuffle` names, and only swaps
/// elements, so that order is a permutation of the cards. Which permutation
/// is not stated.
#[verifier::external_body]
fn shuffle_seeded(cards: &mut Vec<u8>, seed: u64)
    ensures
        final(cards)@ == seeded_shuffle(old(cards)@, seed),
        final(cards)@.to_multiset() == old(cards)@.to_multiset(),
{
    cards.shuffle(&mut rand::rngs::StdRng::seed_from_u64(seed));
}

/// Trusted: `SliceRandom::shuffle` (rand) with `thread_rng()` only swaps
/// elements, so the cards afterwards are a permutation of the cards before.
/// Which permutation depends on chance and is not stated.
#[verifier::external_body]
fn shuffle_unseeded(cards: &mut Vec<u8>)
    ensures
        final(cards)@.to_multiset() == old(cards)@.to_multiset(),
{
    cards.shuffle(&mut rand::thread_rng());
}

/// A deal of start stations: Mr X's first, then one per detective, all
/// distinct and all start cards.
pub open spec fn is_deal(mr_x: u8, detectives: Seq<u8>, n: nat) -> bool {
    &&& detectives.len() == n
    &&& (seq![mr_x] + detectives).no_duplicates()
    &&& forall|i: int|
        0 <= i < n + 1 ==> start_cards().contains(#[trigger] (seq![mr_x] + detectives)[i])
}

/// The deal from a pool of cards: the first card to Mr X, the next `n` to
/// the detectives.
pub open spec fn dealt_from(pool: Seq<u8>, n: nat) -> (u8, Seq<u8>) {
    (pool[0], pool.subrange(1, (n + 1) as int))
}

/// Deals from `pool`: the first card to Mr X, the next `detectives` cards
/// to the detectives in order.
pub fn deal_from(pool: &Vec<u8>, detectives: usize) -> (r: (u8, Vec<u8>))
    requires
        detectives < pool.len(),
    ensures
        (r.0, r.1@) == dealt_from(pool@, detectives as nat),
{
    let mr_x = pool[0];
    let mut detective_starts: Vec<u8> = Vec::new();
    let mut i: usize = 1;
    while i <= detectives
        invariant
            1 <= i <= detectives + 1,
            detectives < pool.len(),
            detective_starts@ == pool@.subrange(1, i as int),
        decreases detectives + 1 - i,
    {
        detective_starts.push(pool[i]);
        i = i + 1;
        assert(detective_starts@ =~= pool@.subrange(1, i as int));
    }
    (mr_x, detective_starts)
}

/// Dealing from any order of the start cards gives distinct start cards.
pub proof fn lemma_shuffled_deal(pool: Seq<u8>, n: nat)
    requires
        pool.to_multiset() == start_cards().to_multiset(),
        n < 18,
    ensures
        pool.len() == 18,
        is_deal(dealt_from(pool, n).0, dealt_from(pool, n).1, n),
{
    broadcast use vstd::seq_lib::group_to_multiset_ensures;

    lemma_start_cards_distinct();
    start_cards().lemma_multiset_has_no_duplicates();
    pool.lemma_multiset_has_no_duplicates_conv();
    vstd::seq_lib::to_multiset_len(pool);
    vstd::seq_lib::to_multiset_len(start_cards());
    let (mr_x, ds) = dealt_from(pool, n);
    let dealt = seq![mr_x] + ds;
    assert(dealt =~= pool.subrange(0, (n + 1) as int));
    assert forall|k: int| 0 <= k < n + 1 implies start_cards().contains(#[trigger] dealt[k]) by {
        assert(pool.contains(pool[k]));
        assert(pool.to_multiset().count(pool[k]) > 0);
    }
}

/// Deals distinct start stations from the shuffled start cards: the first to
/// Mr X, the next `detectives` to the detectives. A seed makes the deal
/// reproducible: the same seed always deals the same stations.
pub fn deal_starts(detectives: usize, seed: Option<u64>) -> (r: (u8, Vec<u8>))
    requires
        detectives < 18,
    ensures
        is_deal(r.0, r.1@, detectives as nat),
        seed matches Some(s) ==> (r.0, r.1@) == dealt_from(
            seeded_shuffle(start_cards(), s),
            detectives as nat,
        ),
{
    let mut pool = standard_start_cards();
    match seed {
        Some(s) => shuffle_seeded(&mut pool, s),
        None => shuffle_unseeded(&mut pool),
    }
    proof {
        lemma_shuffled_deal(pool@, detectives as nat);
    }
    deal_from(&pool, detectives)
}

pub open spec fn start_out_of_range_message(s: u8) -> Seq<char> {
    "station "@ + decimal_chars(s as nat) + " out of range"@
}

pub open spec fn duplicate_start_message(s: u8) -> Seq<char> {
    "duplicate start station "@ + decimal_chars(s as nat)
}

/// The first problem among `starts[0..n]` on a board of `count` stations: a
/// number that is no station, or a station already taken.
pub open spec fn starts_error_upto(starts: Seq<u8>, count: nat, n: nat) -> Option<Seq<char>>
    decreases n,
{
    if n == 0 {
        None
    } else {
        match starts_error_upto(starts, count, (n - 1) as nat) {
            Some(e) => Some(e),
            None => {
                let s = starts[n - 1];
                if s < 1 || s > count {
                    Some(start_out_of_range_message(s))
                } else if starts.take(n - 1).contains(s) {
                    Some(duplicate_start_message(s))
                } else {
                    None
                }
            },
        }
    }
}

pub open spec fn starts_error(starts: Seq<u8>, count: nat) -> Option<Seq<char>> {
    starts_error_upto(starts, count, starts.len())
}

/// Start positions without a problem are distinct stations.
pub proof fn lemma_starts_ok(starts: Seq<u8>, count: nat, n: nat)
    requires
        n <= starts.len(),
        starts_error_upto(starts, count, n) is None,
    ensures
        starts.take(n as int).no_duplicates(),
        forall|i: int| 0 <= i < n ==> 1 <= #[trigger] starts[i] <= count,
    decreases n,
{
    if n > 0 {
        let m = (n - 1) as nat;
        lemma_starts_ok(starts, count, m);
        assert(starts.take(n as int).drop_last() =~= starts.take(m as int));
        let t = starts.take(n as int);
        assert forall|i: int, j: int| 0 <= i < t.len() && 0 <= j < t.len() && i != j implies t[i]
            != t[j] by {
            if i == m {
                assert(starts.take(m as int)[j] == t[j]);
            } else if j == m {
                assert(starts.take(m as int)[i] == t[i]);
            } else {
                assert(starts.take(m as int)[i] == t[i]);
                assert(starts.take(m as int)[j] == t[j]);
            }
        }
    }
}

/// Once a problem is found among the first `n` positions, it stays the
/// first problem.
pub proof fn lemma_starts_error_stable(starts: Seq<u8>, count: nat, n: nat, m: nat)
    requires
        n <= m,
        starts_error_upto(starts, count, n) is Some,
    ensures
        starts_error_upto(starts, count, m) == starts_error_upto(starts, count, n),
    decreases m - n,
{
    if n < m {
        lemma_starts_error_stable(starts, count, n, (m - 1) as nat);
    }
}

fn start_error_message(prefix: &str, s: u8, suffix: &str) -> (r: String)
    ensures
        r@ == prefix@ + decimal_chars(s as nat) + suffix@,
{
    let mut msg = prefix.to_owned();
    let digits = decimal_string(s as u64);
    msg.append(digits.as_str());
    msg.append(suffix);
    msg
}

fn contains_u8(v: &Vec<u8>, x: u8) -> (r: bool)
    ensures
        r == v@.contains(x),
{
    let mut i: usize = 0;
    while i < v.len()
        invariant
            i <= v.len(),
            forall|k: int| 0 <= k < i ==> v@[k] != x,
        decreases v.len() - i,
    {
        if v[i] == x {
            assert(v@[i as int] == x);
            return true;
        }
        i = i + 1;
    }
    false
}

/// Checks start positions in order: each must be a station of a board with
/// `station_count` stations, and none may repeat an earlier one.
pub fn validate_starts(starts: &Vec<u8>, station_count: usize) -> (r: Result<(), String>)
    ensures
        match r {
            Ok(()) => starts_error(starts@, station_count as nat) is None,
            Err(e) => starts_error(starts@, station_count as nat) == Some(e@),
        },
{
    let mut seen: Vec<u8> = Vec::new();
    let mut i: usize = 0;
    while i < starts.len()
        invariant
            i <= starts.len(),
            seen@ == starts@.take(i as int),
            starts_error_upto(starts@, station_count as nat, i as nat) is None,
        decreases starts.len() - i,
    {
        let s = starts[i];
        assert(starts@.take(i as int) == seen@);
        if s < 1 || s as usize > station_count {
            let e = start_error_message("station ", s, " out of range");
            proof {
                lemma_starts_error_stable(starts@, station_count as nat, (i + 1) as nat, starts@.len());
            }
            return Err(e);
        }
        if contains_u8(&seen, s) {
            let e = start_error_message("duplicate start station ", s, "");
            proof {
                reveal_strlit("");
                assert(e@ =~= duplicate_start_message(s));
                lemma_starts_error_stable(starts@, station_count as nat, (i + 1) as nat, starts@.len());
            }
            return Err(e);
        }
        seen.push(s);
        i = i + 1;
        assert(seen@ =~= starts@.take(i as int));
    }
    Ok(())
}

/// The roster of a new game: Mr X on `mr_x` with the standard Mr X tickets,
/// then detective `k + 1` on `detectives[k]` with the standard detective
/// tickets.
pub open spec fn roster(mr_x: u8, detectives: Seq<u8>) -> Seq<PlayerModel> {
    seq![PlayerModel { id: PlayerId::MrX, station: StationId { id: mr_x }, tickets: mr_x_counts() }]
        + Seq::new(
        detectives.len(),
        |k: int|
            PlayerModel {
                id: PlayerId::Detective((k + 1) as u8),
                station: StationId { id: detectives[k] },
                tickets: detective_counts(),
            },
    )
}

fn build_players(mr_x: u8, detectives: &Vec<u8>) -> (r: Vec<PlayerState>)
    requires
        detectives@.len() <= MAX_DETECTIVES,
    ensures
        player_models(r@) == roster(mr_x, detectives@),
{
    let mut players: Vec<PlayerState> = Vec::new();
    players.push(PlayerState::new(PlayerId::MrX, StationId { id: mr_x }, standard_mr_x_tickets()));
    let mut k: usize = 0;
    while k < detectives.len()
        invariant
            k <= detectives@.len() <= MAX_DETECTIVES,
            player_models(players@) == roster(mr_x, detectives@.take(k as int)),
        decreases detectives.len() - k,
    {
        let ghost before = player_models(players@);
        let p = PlayerState::new(
            PlayerId::Detective((k + 1) as u8),
            StationId { id: detectives[k] },
            standard_detective_tickets(),
        );
        players.push(p);
        proof {
            assert(player_models(players@) =~= before.push(p@));
            let d0 = detectives@.take(k as int);
            let d1 = detectives@.take(k + 1);
            let tail0 = Seq::new(
                d0.len(),
                |j: int|
                    PlayerModel {
                        id: PlayerId::Detective((j + 1) as u8),
                        station: StationId { id: d0[j] },
                        tickets: detective_counts(),
                    },
            );
            let tail1 = Seq::new(
                d1.len(),
                |j: int|
                    PlayerModel {
                        id: PlayerId::Detective((j + 1) as u8),
                        station: StationId { id: d1[j] },
                        tickets: detective_counts(),
                    },
            );
            assert(tail1 =~= tail0.push(p@));
            let head = seq![
                PlayerModel {
                    id: PlayerId::MrX,
                    station: StationId { id: mr_x },
                    tickets: mr_x_counts(),
                },
            ];
            assert(head + tail1 =~= (head + tail0).push(p@));
        }
        k = k + 1;
    }
    assert(detectives@.take(k as int) =~= detectives@);
    players
}


/// A new game's roster holds few enough tickets of each kind.
pub proof fn lemma_roster_tickets(mr_x: u8, detectives: Seq<u8>)
    requires
        detectives.len() <= MAX_DETECTIVES,
    ensures
        forall|t: TicketType| #[trigger] ticket_total(roster(mr_x, detectives), t) < 255,
{
    assert forall|t: TicketType| #[trigger] ticket_total(roster(mr_x, detectives), t) < 255 by {
        lemma_roster_tickets_bound(mr_x, detectives, t);
    }
}

proof fn lemma_roster_tickets_bound(mr_x: u8, detectives: Seq<u8>, t: TicketType)
    ensures
        ticket_total(roster(mr_x, detectives), t) <= 5 + 10 * detectives.len(),
    decreases detectives.len(),
{
    let r = roster(mr_x, detectives);
    if detectives.len() > 0 {
        let d = detectives.drop_last();
        lemma_roster_tickets_bound(mr_x, d, t);
        assert(r.drop_last() =~= roster(mr_x, d));
        assert(r.last().tickets == detective_counts());
        assert(r.last().tickets.count(t) <= 10);
        assert(ticket_total(r, t) == ticket_total(roster(mr_x, d), t) + r.last().tickets.count(t));
    } else {
        assert(r.drop_last() =~= Seq::<PlayerModel>::empty());
        assert(r.last().tickets == mr_x_counts());
        assert(ticket_total(r, t) == ticket_total(r.drop_last(), t) + r.last().tickets.count(t));
    }
}

/// The problem with the shape of a request to start a game, if any.
pub open spec fn request_error(req: NewGameRequest) -> Option<Seq<char>> {
    if req.detectives < 1 || req.detectives > MAX_DETECTIVES {
        Some("detectives must be between 1 and 5"@)
    } else {
        match (req.mr_x_start, req.detective_starts) {
            (Some(_), Some(ds)) => if ds@.len() != req.detectives {
                Some("detective_starts length must equal detectives"@)
            } else {
                None
            },
            (None, None) => None,
            _ => Some("provide both mr_x_start and detective_starts, or neither"@),
        }
    }
}

/// `game` is a new standard game on `board`: Mr X on `mr_x` and detective
/// `k + 1` on `detectives[k]`, with the standard loadouts and reveal legs.
pub open spec fn started_as(game: Game, board: Arc<Board>, mr_x: u8, detectives: Seq<u8>) -> bool {
    &&& game.state.board == board
    &&& game.state@ == settled(initial_model(board@, roster(mr_x, detectives)))
    &&& game.history.mr_x_log@ == Seq::<MrXMove>::empty()
    &&& game.reveal@ == standard_reveal_legs()
}

/// `r` is what starting a game on `board` from `req` may give: the error
/// of a malformed request; else, with both start positions given, the error
/// of the first bad one or the game started from them; else, with the start
/// positions dealt (by the seed's deal when there is a seed), the error of
/// the first bad dealt station or the game started from the deal.
pub open spec fn game_started(board: Arc<Board>, req: NewGameRequest, r: Result<Game, Seq<char>>) -> bool {
    match request_error(req) {
        Some(e) => r == Err::<Game, Seq<char>>(e),
        None => match (req.mr_x_start, req.detective_starts) {
            (Some(mx), Some(ds)) => match starts_error(seq![mx] + ds@, board@.len()) {
                Some(e) => r == Err::<Game, Seq<char>>(e),
                None => r matches Ok(game) && started_as(game, board, mx, ds@),
            },
            _ => {
                &&& match r {
                    Ok(game) => exists|mx: u8, ds: Seq<u8>|
                        is_deal(mx, ds, req.detectives as nat) && starts_error(
                            seq![mx] + ds,
                            board@.len(),
                        ) is None && started_as(game, board, mx, ds),
                    Err(m) => exists|mx: u8, ds: Seq<u8>|
                        is_deal(mx, ds, req.detectives as nat) && starts_error(
                            seq![mx] + ds,
                            board@.len(),
                        ) == Some(m),
                }
                &&& req.seed matches Some(s) ==> {
                    let (mx, ds) = dealt_from(
                        seeded_shuffle(start_cards(), s),
                        req.detectives as nat,
                    );
                    match starts_error(seq![mx] + ds, board@.len()) {
                        Some(e) => r == Err::<Game, Seq<char>>(e),
                        None => r matches Ok(game) && started_as(game, board, mx, ds),
                    }
                }
            },
        },
    }
}

/// Starts a standard game on `board` from a request: between 1 and 5
/// detectives, and either both start positions given (one per detective) or
/// neither (then dealt from the start cards). Start positions must be
/// distinct stations. Each problem is reported as a message.
pub fn start_game(board: &Arc<Board>, req: &NewGameRequest) -> (r: Result<Game, String>)
    requires
        board_closed(board@),
    ensures
        game_started(*board, *req, result_view(r)),
        r matches Ok(game) ==> game_sound(game),
{
    if req.detectives < 1 || req.detectives > MAX_DETECTIVES {
        return Err("detectives must be between 1 and 5".to_owned());
    }
    let (mr_x_start, detective_starts) = match req.mr_x_start {
        Some(mx) => match &req.detective_starts {
            Some(ds) => {
                if ds.len() != req.detectives {
                    return Err("detective_starts length must equal detectives".to_owned());
                }
                (mx, ds.clone())
            },
            None => {
                return Err("provide both mr_x_start and detective_starts, or neither".to_owned());
            },
        },
        None => match &req.detective_starts {
            Some(_) => {
                return Err("provide both mr_x_start and detective_starts, or neither".to_owned());
            },
            None => deal_starts(req.detectives, req.seed),
        },
    };
    let mut all: Vec<u8> = Vec::new();
    all.push(mr_x_start);
    let mut k: usize = 0;
    while k < detective_starts.len()
        invariant
            k <= detective_starts@.len(),
            all@ == seq![mr_x_start] + detective_starts@.take(k as int),
        decreases detective_starts.len() - k,
    {
        all.push(detective_starts[k]);
        k = k + 1;
        assert(all@ =~= seq![mr_x_start] + detective_starts@.take(k as int));
    }
    assert(detective_starts@.take(k as int) =~= detective_starts@);
    match validate_starts(&all, board.adjacency_map.len()) {
        Err(e) => {
            return Err(e);
        },
        Ok(()) => {},
    }
    let players = build_players(mr_x_start, &detective_starts);
    let ghost ps = roster(mr_x_start, detective_starts@);
    let ghost g = initial_model(board@, ps);
    proof {
        let ids = player_ids(ps);
        assert(ids[0] is MrX);
        assert forall|i: int| 1 <= i < ids.len() implies !crate::gamestate::is_mrx(
            #[trigger] ids[i],
        ) by {
            assert(ps[i] == ps[i]);
        }
        assert(is_first_mrx(ids, 0));
        lemma_first_mrx_unique(ids, 0);
        lemma_starts_ok(all@, board@.len(), all@.len());
        assert(all@.take(all@.len() as int) =~= all@);
        assert(all@[0] == mr_x_start);
        assert(station_in_range(board@.len(), StationId { id: mr_x_start }));
        assert(!g.detective_at(StationId { id: mr_x_start })) by {
            if g.detective_at(StationId { id: mr_x_start }) {
                let i = choose|i: int|
                    0 <= i < g.players.len() && crate::rules_spec::is_detective(
                        #[trigger] g.players[i].id,
                    ) && g.players[i].station == StationId { id: mr_x_start };
                assert(i != 0);
                assert(all@[i] == detective_starts@[i - 1]);
                assert(all@[i] == all@[0]);
            }
        }
        lemma_closed_board_lists(g);
    }
    proof {
        lemma_roster_tickets(mr_x_start, detective_starts@);
        assert forall|i: int| 0 <= i < ps.len() implies g.in_range(#[trigger] ps[i].station) by {
            if i > 0 {
                assert(all@[i] == detective_starts@[i - 1]);
            }
        }
    }
    let state = GameState::new(share_board(board), players);
    let game = Game::new(state, RevealSchedule::standard());
    assert(game_sound(game));
    Ok(game)
}

} // verus!
