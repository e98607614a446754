use slide_puzzle::board::{Board, BoardError};
use slide_puzzle::world::WorldPoint;

fn two_by_two(tiles: Vec<Option<u32>>) -> Board {
    Board::from_tiles(2, tiles, 600).unwrap()
}

fn as_world(p: WorldPoint) -> (f64, f64) {
    (p.x as f64 / p.denom as f64, p.y as f64 / p.denom as f64)
}

#[test]
fn checks() {
    let board = two_by_two(vec![None, Some(2), Some(1), Some(3)]);

    assert_eq!(board.check_x(1), Some(1));
    assert_eq!(board.check_y(0), Some(0));
    assert_eq!(board.check_idx(3), Some(3));
    assert_eq!(board.check_xy((1, 1)), Some((1, 1)));

    assert_eq!(board.check_x(3), None);
    assert_eq!(board.check_y(4), None);
    assert_eq!(board.check_idx(8), None);
    assert_eq!(board.check_xy((1, 2)), None);

    assert_eq!(board.check_x(-1), None);
    assert_eq!(board.check_y(-2), None);
    assert_eq!(board.check_idx(-2), None);
    assert_eq!(board.check_xy((-1, -2)), None);
    assert_eq!(board.check_xy((-1, -2)), None);
}

#[test]
fn idx_xy() {
    let board = two_by_two(vec![None, Some(2), Some(1), Some(3)]);

    let (x, y) = board.idx_xy(0);
    assert_eq!(x, 0);
    assert_eq!(y, 0);

    let (x, y) = board.idx_xy(1);
    assert_eq!(x, 1);
    assert_eq!(y, 0);

    let (x, y) = board.idx_xy(2);
    assert_eq!(x, 0);
    assert_eq!(y, 1);

    let (x, y) = board.idx_xy(3);
    assert_eq!(x, 1);
    assert_eq!(y, 1);
}

#[test]
fn xy_idx() {
    let board = two_by_two(vec![None, Some(2), Some(1), Some(3)]);

    let idx = board.xy_idx((0, 0));
    assert_eq!(idx, 0);

    let idx = board.xy_idx((1, 0));
    assert_eq!(idx, 1);

    let idx = board.xy_idx((0, 1));
    assert_eq!(idx, 2);
    let idx = board.xy_idx((1, 1));

    assert_eq!(idx, 3);
}

#[test]
fn world_idx() {
    let board = two_by_two(vec![None, Some(2), Some(1), Some(3)]);

    assert_eq!(board.world_coord_idx(-200, -200, 1), Some(0));
    assert_eq!(board.world_coord_idx(200, -200, 1), Some(1));
    assert_eq!(board.world_coord_idx(-200, 200, 1), Some(2));
    assert_eq!(board.world_coord_idx(200, 200, 1), Some(3));
    assert_eq!(board.world_coord_idx(400, -200, 1), None);
}

#[test]
fn adj() {
    let board = two_by_two(vec![None, Some(2), Some(1), Some(3)]);

    let adj = board.adj_xy((0, 0));
    assert_eq!(adj.contains(&(1, 0)), true);
    assert_eq!(adj.contains(&(0, 1)), true);
    assert_eq!(adj.len(), 2);

    let board = Board::from_tiles(
        3,
        vec![
            None, Some(2), Some(1),
            Some(3), Some(4), Some(5),
            Some(6), Some(7), Some(8),
        ],
        600,
    )
    .unwrap();

    let adj = board.adj_xy((1, 1));
    assert_eq!(adj.contains(&(1, 0)), true);
    assert_eq!(adj.contains(&(0, 1)), true);
    assert_eq!(adj.contains(&(1, 2)), true);
    assert_eq!(adj.contains(&(2, 1)), true);
    assert_eq!(adj.len(), 4);
}

#[test]
fn idx_world() {
    let board = two_by_two(vec![None, Some(2), Some(1), Some(3)]);

    assert_eq!(board.idx_world(0).map(as_world), Some((-150.0, -150.0)));
    assert_eq!(board.idx_world(2).map(as_world), Some((-150.0, 150.0)));
    assert_eq!(board.idx_world(5), None);
}

#[test]
fn board_solved() {
    let board = two_by_two(vec![None, Some(1), Some(2), Some(3)]);

    assert_eq!(board.is_solved(), true);
}

#[test]
fn unsolved_when_two_tiles_swapped() {
    let board = two_by_two(vec![None, Some(2), Some(1), Some(3)]);
    assert_eq!(board.is_solved(), false);
    let board = two_by_two(vec![Some(1), None, Some(2), Some(3)]);
    assert_eq!(board.is_solved(), false);
}

#[test]
fn adjacency_counts() {
    let board = two_by_two(vec![None, Some(1), Some(2), Some(3)]);
    assert_eq!(board.adj_xy(board.idx_xy(0)).len(), 2);
    let board = Board::init_board(3, 600, &vec![]);
    assert_eq!(board.adj_xy(board.idx_xy(4)).len(), 4);
    assert_eq!(board.adj_xy(board.idx_xy(1)).len(), 3);
    assert_eq!(board.adj_xy(board.idx_xy(8)).len(), 2);
    assert_eq!(board.adj_xy((1, 1)), vec![(0, 1), (2, 1), (1, 0), (1, 2)]);
}

#[test]
fn move_swaps_tile_into_empty_slot() {
    let mut board = two_by_two(vec![None, Some(1), Some(2), Some(3)]);
    assert_eq!(board.move_tile_at(1), Ok(()));
    let expected = [Some(1), None, Some(2), Some(3)];
    for (slot, tile) in expected.iter().enumerate() {
        assert_eq!(board.tile_at(slot as u32), *tile);
    }
    assert!(board.is_empty(1));
    assert!(!board.is_empty(0));
}

#[test]
fn illegal_move_leaves_board_unchanged() {
    let tiles = vec![
        Some(1), Some(2), Some(3),
        Some(4), None, Some(5),
        Some(6), Some(7), Some(8),
    ];
    let mut board = Board::from_tiles(3, tiles.clone(), 600).unwrap();
    assert_eq!(board.move_tile_at(0), Err(BoardError::IllegalMove));
    assert_eq!(board.move_tile_at(4), Err(BoardError::IllegalMove));
    assert_eq!(board.move_tile_at(9), Err(BoardError::OutOfRange));
    for (slot, tile) in tiles.iter().enumerate() {
        assert_eq!(board.tile_at(slot as u32), *tile);
    }
}

#[test]
fn exactly_one_empty_after_moves() {
    let mut board = Board::init_board(3, 600, &vec![]);
    for slot in [1u32, 4, 5, 2, 1, 0, 3] {
        let _ = board.move_tile_at(slot);
        let empties = (0..9).filter(|i| board.is_empty(*i)).count();
        assert_eq!(empties, 1);
    }
}

#[test]
fn empty_neighbour_lookup() {
    let board = Board::from_tiles(
        3,
        vec![Some(1), Some(2), Some(3), Some(4), None, Some(5), Some(6), Some(7), Some(8)],
        600,
    )
    .unwrap();
    assert_eq!(board.empty_adjacent(1), Some(4));
    assert_eq!(board.empty_adjacent(3), Some(4));
    assert_eq!(board.empty_adjacent(5), Some(4));
    assert_eq!(board.empty_adjacent(7), Some(4));
    assert_eq!(board.empty_adjacent(0), None);
    assert_eq!(board.empty_adjacent(4), None);
    assert_eq!(board.empty_adjacent(9), None);
}

#[test]
fn hit_test_boundary() {
    let board = two_by_two(vec![None, Some(1), Some(2), Some(3)]);
    let at = |x: i64, y: i64| board.world_idx(WorldPoint { x, y, denom: 1 });
    assert_eq!(at(-200, -200), Some(0));
    assert_eq!(at(200, -200), Some(1));
    assert_eq!(at(400, -200), None);
    assert_eq!(at(-300, -300), Some(0));
    assert_eq!(at(0, 0), Some(3));
    assert_eq!(at(300, 0), None);
    assert_eq!(at(-301, 0), None);
    assert_eq!(board.world_idx(WorldPoint { x: -1, y: -1, denom: 2 }), Some(0));
}

#[test]
fn centres_map_back_to_their_slots() {
    for dim in 2u32..6 {
        let board = Board::init_board(dim, 600, &vec![]);
        for i in 0..(dim * dim) as i32 {
            let c = board.idx_world(i).unwrap();
            assert_eq!(board.world_idx(c), Some(i as u32));
        }
    }
    let board = Board::init_board(16, 600, &vec![]);
    let c = board.idx_world(17).unwrap();
    assert_eq!(as_world(c), (-243.75, -243.75));
    assert_eq!(board.world_idx(c), Some(17));
}

#[test]
fn coordinate_functions_are_inverse() {
    let board = Board::init_board(4, 600, &vec![]);
    for i in 0..16u32 {
        assert_eq!(board.xy_idx(board.idx_xy(i)), i);
    }
    for x in 0..4u32 {
        for y in 0..4u32 {
            assert_eq!(board.idx_xy(board.xy_idx((x, y))), (x, y));
        }
    }
    assert_eq!(board.idx_xy(13), (1, 3));
    assert_eq!(board.xy_idx((3, 2)), 11);
}

#[test]
fn init_board_without_picks_is_solved() {
    let board = Board::init_board(4, 600, &vec![]);
    assert!(board.is_solved());
    assert_eq!(board.tile_at(0), None);
    assert_eq!(board.tile_at(15), Some(15));
    assert_eq!(board.tile_at(16), None);
    assert_eq!(board.dimension(), 4);
    assert_eq!(board.board_size(), 600);
}

#[test]
fn scramble_walks_the_empty_slot() {
    let board = Board::init_board(2, 600, &vec![0]);
    assert_eq!(board.tile_at(0), Some(1));
    assert!(board.is_empty(1));
    assert!(!board.is_solved());

    let board = Board::init_board(2, 600, &vec![1, 4]);
    // the empty slot goes up to slot 2, then right to slot 3
    assert_eq!(board.tile_at(0), Some(2));
    assert_eq!(board.tile_at(1), Some(1));
    assert_eq!(board.tile_at(2), Some(3));
    assert!(board.is_empty(3));
}

#[test]
fn scrambled_board_can_be_solved_by_moves() {
    let mut board = Board::init_board(2, 600, &vec![1, 4]);
    assert_eq!(board.move_tile_at(2), Ok(()));
    assert_eq!(board.move_tile_at(0), Ok(()));
    assert!(board.is_solved());
}

#[test]
fn from_tiles_refuses_bad_layouts() {
    let bad = |dim: u32, tiles: Vec<Option<u32>>, size: u32| {
        Board::from_tiles(dim, tiles, size).err()
    };
    let layout = Some(BoardError::InvalidLayout);
    assert_eq!(bad(2, vec![None, Some(1), Some(2)], 600), layout);
    assert_eq!(bad(2, vec![None, Some(1), Some(1), Some(3)], 600), layout);
    assert_eq!(bad(2, vec![None, None, Some(1), Some(3)], 600), layout);
    assert_eq!(bad(2, vec![Some(4), Some(1), Some(2), Some(3)], 600), layout);
    assert_eq!(bad(2, vec![None, Some(0), Some(2), Some(3)], 600), layout);
    assert_eq!(bad(2, vec![None, Some(4), Some(2), Some(3)], 600), layout);
    assert_eq!(bad(2, vec![None, Some(1), Some(2), Some(3)], 0), layout);
    assert_eq!(bad(1, vec![None], 600), layout);
    assert_eq!(bad(2, vec![Some(3), Some(1), None, Some(2)], 600), None);
}

#[test]
fn atlas_rows_count_from_the_top() {
    let board = Board::init_board(3, 600, &vec![]);
    assert_eq!(board.atlas_xy(0), (0, 2));
    assert_eq!(board.atlas_xy(5), (2, 1));
    assert_eq!(board.atlas_xy(7), (1, 0));
}
