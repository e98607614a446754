use slide_puzzle::board::Board;
use slide_puzzle::game::{current_to_move, next_phase, Action, Event, Phase, TileMove, MOVE_STEPS};
use slide_puzzle::world::WorldPoint;

fn click(x: i64, y: i64) -> Event {
    Event::Click(WorldPoint { x, y, denom: 1 })
}

#[test]
fn click_on_movable_tile_plans_a_move() {
    let board = Board::init_board(2, 600, &vec![0]);
    // slot 0 holds tile 1, slot 1 is empty
    assert_eq!(
        current_to_move(&board, WorldPoint { x: -150, y: -150, denom: 1 }),
        Some(TileMove { from: 0, to: 1, tile: 1 })
    );
    assert_eq!(current_to_move(&board, WorldPoint { x: 150, y: -150, denom: 1 }), None);
    assert_eq!(current_to_move(&board, WorldPoint { x: 150, y: 150, denom: 1 }), Some(TileMove {
        from: 3,
        to: 1,
        tile: 3
    }));
    assert_eq!(current_to_move(&board, WorldPoint { x: 900, y: 0, denom: 1 }), None);
}

#[test]
fn click_on_stuck_tile_plans_nothing() {
    let board = Board::from_tiles(
        3,
        vec![Some(1), Some(2), Some(3), Some(4), None, Some(5), Some(6), Some(7), Some(8)],
        600,
    )
    .unwrap();
    assert_eq!(current_to_move(&board, WorldPoint { x: -250, y: -250, denom: 1 }), None);
}

#[test]
fn a_game_from_start_to_win() {
    let mut board = Board::init_board(2, 600, &vec![0]);
    let (phase, action) = next_phase(Phase::Starting, &mut board, Event::Frame);
    assert_eq!((phase, action), (Phase::Awaiting, Action::Idle));

    let (phase, action) = next_phase(phase, &mut board, Event::Frame);
    assert_eq!((phase, action), (Phase::Awaiting, Action::Idle));

    // a click on the empty slot does nothing
    let (phase, _) = next_phase(phase, &mut board, click(150, -150));
    assert_eq!(phase, Phase::Awaiting);

    let (mut phase, _) = next_phase(phase, &mut board, click(-150, -150));
    let m = TileMove { from: 0, to: 1, tile: 1 };
    assert_eq!(phase, Phase::Moving { tile_move: m, steps_completed: 0 });

    for step in 0..MOVE_STEPS {
        // clicks are ignored while a tile slides
        let (p, a) = next_phase(phase, &mut board, click(150, 150));
        assert_eq!((p, a), (phase, Action::Idle));
        let (p, a) = next_phase(phase, &mut board, Event::Frame);
        assert_eq!(a, Action::Advance(m));
        assert_eq!(p, Phase::Moving { tile_move: m, steps_completed: step + 1 });
        assert_eq!(board.tile_at(0), Some(1));
        phase = p;
    }

    let (phase, action) = next_phase(phase, &mut board, Event::Frame);
    assert_eq!((phase, action), (Phase::Awaiting, Action::Idle));
    assert!(board.is_solved());

    let (phase, action) = next_phase(phase, &mut board, Event::Frame);
    assert_eq!((phase, action), (Phase::Won, Action::Announce));

    let (phase, action) = next_phase(phase, &mut board, click(-150, -150));
    assert_eq!((phase, action), (Phase::Won, Action::Idle));
}

#[test]
fn starting_ignores_clicks() {
    let mut board = Board::init_board(2, 600, &vec![0]);
    let (phase, action) = next_phase(Phase::Starting, &mut board, click(-150, -150));
    assert_eq!((phase, action), (Phase::Starting, Action::Idle));
    assert_eq!(board.tile_at(0), Some(1));
}
