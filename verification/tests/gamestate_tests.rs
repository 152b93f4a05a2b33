use std::sync::Arc;

use scotland_yard::board::{Board, StationId, TicketType};
use scotland_yard::gamestate::{Action, GameState, PlayerId, PlayerState, Step, TicketInventory, Winner};
use scotland_yard::rules::legal_actions;

#[test]
fn assert_ticket_get() {
    let inv = TicketInventory::new(1, 2, 3, 4, 5);

    assert_eq!(*inv.get(TicketType::Taxi), 1);
    assert_eq!(*inv.get(TicketType::Bus), 2);
    assert_eq!(*inv.get(TicketType::Underground), 3);
    assert_eq!(*inv.get(TicketType::Black), 4);
    assert_eq!(inv.double, 5);
}

#[test]
fn assert_spend_ticket_subtraction() {
    let mut inv = TicketInventory::new(1, 0, 0, 0, 0);

    inv.spend_ticket(TicketType::Taxi);
    assert_eq!(*inv.get(TicketType::Taxi), 0);
}



#[test]
fn add_ticket_increments_taxi() {
    let mut inv = TicketInventory::new(0, 0, 0, 0, 0);
    inv.add_ticket(TicketType::Taxi);
    assert_eq!(*inv.get(TicketType::Taxi), 1);
}

#[test]
fn add_ticket_increments_bus() {
    let mut inv = TicketInventory::new(0, 0, 0, 0, 0);
    inv.add_ticket(TicketType::Bus);
    assert_eq!(*inv.get(TicketType::Bus), 1);
}

#[test]
fn add_ticket_increments_underground() {
    let mut inv = TicketInventory::new(0, 0, 0, 0, 0);
    inv.add_ticket(TicketType::Underground);
    assert_eq!(*inv.get(TicketType::Underground), 1);
}

#[test]
fn add_ticket_increments_black() {
    let mut inv = TicketInventory::new(0, 0, 0, 0, 0);
    inv.add_ticket(TicketType::Black);
    assert_eq!(*inv.get(TicketType::Black), 1);
}

#[test]
fn spend_double_decrements_count() {
    let mut inv = TicketInventory::new(0, 0, 0, 0, 2);
    inv.spend_double();
    assert_eq!(inv.double, 1);
}

#[test]
fn add_ticket_does_not_affect_other_tickets() {
    let mut inv = TicketInventory::new(1, 1, 1, 1, 1);
    inv.add_ticket(TicketType::Taxi);
    assert_eq!(*inv.get(TicketType::Bus), 1);
    assert_eq!(*inv.get(TicketType::Underground), 1);
    assert_eq!(*inv.get(TicketType::Black), 1);
    assert_eq!(inv.double, 1);
}

fn two_station_board() -> Arc<Board> {
    Arc::new(Board {
        adjacency_map: vec![vec![(StationId { id: 2 }, TicketType::Taxi)], vec![]],
    })
}

fn mrx(station: u8) -> PlayerState {
    PlayerState::new(PlayerId::MrX, StationId { id: station }, TicketInventory::new(1, 0, 0, 0, 0))
}

fn detective(n: u8, station: u8) -> PlayerState {
    PlayerState::new(PlayerId::Detective(n), StationId { id: station }, TicketInventory::new(1, 0, 0, 0, 0))
}

#[test]
fn new_accepts_one_mrx_and_one_detective() {
    let players = vec![mrx(1), detective(1, 2)];

    let state = GameState::new(two_station_board(), players);
    assert!(matches!(state.players[0].id, PlayerId::MrX));
}






#[test]
fn new_marks_caught_state_terminal() {
    // A detective sharing MrX's station means MrX is already caught; the
    // constructor must flag this rather than yield a live, actionless state.
    let players = vec![mrx(2), detective(1, 2)];
    let state = GameState::new(two_station_board(), players);

    assert!(state.is_terminal);
    assert_eq!(state.winner, Some(Winner::Detectives));
}

#[test]
fn new_marks_cornered_mrx_terminal() {
    // MrX at station 2 (a dead end on two_station_board) with a taxi ticket
    // has no edge to leave by, so he is cornered the moment the game starts.
    let players = vec![
        PlayerState::new(PlayerId::MrX, StationId { id: 2 }, TicketInventory::new(1, 0, 0, 0, 0)),
        detective(1, 1),
    ];
    let state = GameState::new(two_station_board(), players);

    assert!(state.is_terminal);
    assert_eq!(state.winner, Some(Winner::Detectives));
    // The invariant this fix protects: a non-terminal state always has a move,
    // so a terminal one is the only way the action list may be empty.
    assert!(legal_actions(&state).is_empty());
}

#[test]
fn new_leaves_live_state_non_terminal() {
    // MrX at 1 can taxi to the empty station 2; nobody is caught. The state
    // must start live with a move available.
    let players = vec![mrx(1), detective(1, 2)];
    // Place the detective off MrX's only exit so MrX still has a move.
    let board = Arc::new(Board {
        adjacency_map: vec![
            vec![(StationId { id: 2 }, TicketType::Taxi), (StationId { id: 3 }, TicketType::Taxi)],
            vec![(StationId { id: 1 }, TicketType::Taxi)],
            vec![(StationId { id: 1 }, TicketType::Taxi)],
        ],
    });
    let state = GameState::new(board, players);

    assert!(!state.is_terminal);
    assert_eq!(state.winner, None);
    assert!(!legal_actions(&state).is_empty());
}