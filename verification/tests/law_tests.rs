use std::sync::Arc;

use scotland_yard::board::{Board, StationId, TicketType};
use scotland_yard::gamestate::{Action, GameState, PlayerId, PlayerState, Step, TicketInventory, Winner};
use scotland_yard::history::{Game, GameHistory, RevealSchedule};
use scotland_yard::invariants::game_is_sound;
use scotland_yard::observation::{observe, Observation};
use scotland_yard::rules::{apply_action, apply_step, detect_terminal, legal_actions, legal_steps};
use scotland_yard::store::AppState;

// 1 <-taxi/bus-> 2 <-taxi-> 3 <-underground-> 1, plus an isolated station 4.
fn board() -> Arc<Board> {
    Arc::new(Board {
        adjacency_map: vec![
            vec![
                (StationId { id: 2 }, TicketType::Taxi),
                (StationId { id: 2 }, TicketType::Bus),
                (StationId { id: 3 }, TicketType::Underground),
            ],
            vec![
                (StationId { id: 1 }, TicketType::Taxi),
                (StationId { id: 1 }, TicketType::Bus),
                (StationId { id: 3 }, TicketType::Taxi),
            ],
            vec![(StationId { id: 2 }, TicketType::Taxi), (StationId { id: 1 }, TicketType::Underground)],
            vec![],
        ],
    })
}

fn state(mr_x: u8, detective: u8) -> GameState {
    let players = vec![
        PlayerState::new(PlayerId::MrX, StationId { id: mr_x }, TicketInventory::new(4, 3, 3, 5, 2)),
        PlayerState::new(PlayerId::Detective(1), StationId { id: detective }, TicketInventory::new(10, 8, 4, 0, 0)),
    ];
    GameState::new(board(), players)
}

fn finished_with_bad_index() -> GameState {
    let mut s = state(1, 4);
    s.is_terminal = true;
    s.winner = Some(Winner::MrX);
    s.current_player = 7;
    s
}

#[test]
fn a_finished_game_lists_no_actions_even_with_a_stale_index() {
    assert!(legal_actions(&finished_with_bad_index()).is_empty());
}

#[test]
fn a_finished_game_does_not_change_even_with_a_stale_index() {
    let s = finished_with_bad_index();
    let step = Step { to: StationId { id: 3 }, ticket: TicketType::Black };
    for action in [Action::Pass, Action::Single(step), Action::Double(step, step)] {
        let r = apply_action(&s, action);
        assert_eq!(r.players, s.players);
        assert_eq!(r.current_player, 7);
        assert_eq!(r.turn_number, s.turn_number);
        assert!(r.is_terminal);
        assert_eq!(r.winner, Some(Winner::MrX));
        assert!(Arc::ptr_eq(&r.board, &s.board));
    }
}

#[test]
fn legal_moves_are_listed_once_each() {
    let s = state(1, 4);
    let steps = legal_steps(&s);
    for (i, a) in steps.iter().enumerate() {
        assert!(!steps[i + 1..].contains(a));
    }
    let actions = legal_actions(&s);
    assert!(actions.iter().any(|a| matches!(a, Action::Double(_, _))));
    for (i, a) in actions.iter().enumerate() {
        assert!(!actions[i + 1..].contains(a), "{:?} twice", a);
    }
}

fn ticket_totals(s: &GameState) -> [u32; 4] {
    let kinds = [TicketType::Taxi, TicketType::Bus, TicketType::Underground, TicketType::Black];
    kinds.map(|t| s.players.iter().map(|p| *p.tickets.get(t) as u32).sum())
}

#[test]
fn one_leg_balances_tickets_exactly() {
    let s = state(1, 4);
    let before = ticket_totals(&s);
    let after_mr_x = apply_step(&s, Step { to: StationId { id: 3 }, ticket: TicketType::Black });
    assert_eq!(ticket_totals(&after_mr_x), [before[0], before[1], before[2], before[3] - 1]);
    assert_eq!(after_mr_x.players[0].tickets.double, 2);

    let mut d = state(1, 2);
    d.current_player = 1;
    let after_detective = apply_step(&d, Step { to: StationId { id: 3 }, ticket: TicketType::Taxi });
    assert_eq!(ticket_totals(&after_detective), ticket_totals(&d));
    assert_eq!(*after_detective.players[0].tickets.get(TicketType::Taxi), 5);
}

#[test]
fn a_detective_cannot_tell_where_mr_x_stands() {
    let history = GameHistory::default();
    let reveal = RevealSchedule::standard();
    let a = observe(&state(1, 4), &history, &reveal, PlayerId::Detective(1));
    let b = observe(&state(3, 4), &history, &reveal, PlayerId::Detective(1));
    match (a, b) {
        (Observation::Detective(a), Observation::Detective(b)) => {
            assert_eq!(a.detectives, b.detectives);
            assert_eq!(a.mr_x_log, b.mr_x_log);
            assert_eq!(a.mr_x_tickets, b.mr_x_tickets);
            assert_eq!((a.current_player, a.turn_number, a.max_turns), (b.current_player, b.turn_number, b.max_turns));
            assert_eq!(a.reveal, b.reveal);
            assert!(Arc::ptr_eq(&a.board, &b.board) || a.board.adjacency_map == b.board.adjacency_map);
        }
        _ => panic!("detectives get detective observations"),
    }
}

#[test]
fn any_game_can_be_stored_and_changed() {
    let mut store = AppState::new(board());
    let mut odd = Game::new(state(1, 4), RevealSchedule::standard());
    odd.state.current_player = 9;
    assert!(!game_is_sound(&odd));
    assert_eq!(store.insert_game(odd), "1");
    assert!(!store.game_is_well_formed("1"));
    assert_eq!(store.with_game("1", |g| g.state.current_player), Some(9));
    assert_eq!(store.with_game_mut("1", |g| { g.state.current_player = 0; 5 }), Some(5));
    assert_eq!(store.with_game("1", |g| g.state.current_player), Some(0));
    assert!(store.game_is_well_formed("1"));
    assert!(store.game_is_well_formed("2"));
}

#[test]
fn well_formedness_is_checked() {
    let good = Game::new(state(1, 4), RevealSchedule::standard());
    assert!(game_is_sound(&good));
    let mut flooded = Game::new(state(1, 4), RevealSchedule::standard());
    flooded.state.players[1].tickets = TicketInventory::new(251, 0, 0, 0, 0);
    assert!(!game_is_sound(&flooded));
    let mut off_board = Game::new(state(1, 4), RevealSchedule::standard());
    off_board.state.players[1].station = StationId { id: 5 };
    assert!(!game_is_sound(&off_board));
}

#[test]
fn terminal_status_comes_from_the_position_alone() {
    // A live position marked finished: Mr X to move, with moves available.
    let mut flagged = state(1, 4);
    flagged.is_terminal = true;
    flagged.winner = Some(Winner::Detectives);
    assert_eq!(detect_terminal(&flagged), None);
    assert_eq!(detect_terminal(&state(1, 4)), None);

    // Mr X cornered on a dead end, whatever the flag says.
    let dead_end = Arc::new(Board {
        adjacency_map: vec![vec![(StationId { id: 2 }, TicketType::Taxi)], vec![(StationId { id: 1 }, TicketType::Taxi)], vec![]],
    });
    let players = vec![
        PlayerState::new(PlayerId::MrX, StationId { id: 1 }, TicketInventory::new(1, 0, 0, 0, 0)),
        PlayerState::new(PlayerId::Detective(1), StationId { id: 2 }, TicketInventory::new(1, 0, 0, 0, 0)),
    ];
    let mut cornered = GameState::new(dead_end, players);
    assert_eq!(detect_terminal(&cornered), Some(Winner::Detectives));
    cornered.is_terminal = false;
    assert_eq!(detect_terminal(&cornered), Some(Winner::Detectives));
}

#[test]
fn double_move_tickets_are_readable() {
    let inv = TicketInventory::new(1, 2, 3, 4, 5);
    assert_eq!(inv.doubles(), 5);
    assert_eq!(inv.doubles(), inv.double);
}
