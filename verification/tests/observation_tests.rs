use std::sync::Arc;

use scotland_yard::board::{Board, StationId, TicketType};
use scotland_yard::gamestate::{Action, GameState, PlayerId, PlayerState, Step, TicketInventory, Winner};
use scotland_yard::history::{Game, RevealSchedule};
use scotland_yard::observation::Observation;

// 1 <-taxi-> 2 <-taxi-> 3, plus an isolated parking station 4.
fn board() -> Arc<Board> {
    Arc::new(Board {
        adjacency_map: vec![
            vec![(StationId { id: 2 }, TicketType::Taxi)],
            vec![
                (StationId { id: 1 }, TicketType::Taxi),
                (StationId { id: 3 }, TicketType::Taxi),
            ],
            vec![(StationId { id: 2 }, TicketType::Taxi)],
            vec![],
        ],
    })
}

fn game(reveal: RevealSchedule) -> Game {
    let players = vec![
        PlayerState::new(PlayerId::MrX, StationId { id: 1 }, TicketInventory::new(5, 0, 0, 0, 0)),
        PlayerState::new(
            PlayerId::Detective(1),
            StationId { id: 4 },
            TicketInventory::new(3, 0, 0, 0, 0),
        ),
    ];
    Game::new(GameState::new(board(), players), reveal)
}

#[test]
fn mrx_observation_is_full_ground_truth() {
    let g = game(RevealSchedule::standard());
    match g.observe(PlayerId::MrX) {
        Observation::MrX(state) => {
            assert_eq!(state.players[0].station, StationId { id: 1 });
        }
        _ => panic!("Mr X should get a full observation"),
    }
}

#[test]
fn detective_observation_hides_station_between_reveals() {
    // Reveal only at leg 3; after one move Mr X's station is not exposed.
    let mut g = game(RevealSchedule::new(vec![3]));
    g.apply(Action::Single(Step { to: StationId { id: 2 }, ticket: TicketType::Taxi }));

    match g.observe(PlayerId::Detective(1)) {
        Observation::Detective(obs) => {
            assert_eq!(obs.mr_x_log.len(), 1);
            assert_eq!(obs.mr_x_log[0].revealed, None);
            // Mr X spent one taxi ticket; the public inventory reflects that.
            assert_eq!(*obs.mr_x_tickets.get(TicketType::Taxi), 4);
            assert_eq!(obs.detectives.len(), 1);
            assert_eq!(obs.detectives[0].station, StationId { id: 4 });
        }
        _ => panic!("detective should get a detective observation"),
    }
}

#[test]
fn detective_observation_exposes_station_on_reveal_leg() {
    let mut g = game(RevealSchedule::new(vec![1]));
    g.apply(Action::Single(Step { to: StationId { id: 2 }, ticket: TicketType::Taxi }));

    match g.observe(PlayerId::Detective(1)) {
        Observation::Detective(obs) => {
            assert_eq!(obs.mr_x_log[0].revealed, Some(StationId { id: 2 }));
        }
        _ => panic!("detective should get a detective observation"),
    }
}