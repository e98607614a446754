use crate::board::{Board, BoardView, TileId};
use crate::world::WorldPoint;
use vstd::prelude::*;

verus! {

/// Frames a sliding tile takes to reach the slot it moves into.
pub const MOVE_STEPS: u32 = 10;

/// A tile about to slide from slot `from` into the empty slot `to`.
#[derive(Debug, Clone, Copy, PartialEq, Eq, Structural)]
pub struct TileMove {
    pub from: u32,
    pub to: u32,
    pub tile: TileId,
}

/// Where a game stands. `Won` is final.
#[derive(Debug, Clone, Copy, PartialEq, Eq, Structural)]
pub enum Phase {
    /// The board is set up; play begins on the next frame.
    Starting,
    /// Waiting for the player to click a tile.
    Awaiting,
    /// A tile is sliding; the board changes once it arrives.
    Moving { tile_move: TileMove, steps_completed: u32 },
    /// The board is solved.
    Won,
}

/// What happened since the last call.
#[derive(Debug, Clone, Copy, PartialEq, Eq, Structural)]
pub enum Event {
    /// A frame went by.
    Frame,
    /// The player released the left mouse button over this world point.
    Click(WorldPoint),
}

/// What the caller should show in answer.
#[derive(Debug, Clone, Copy, PartialEq, Eq, Structural)]
pub enum Action {
    /// Nothing to show.
    Idle,
    /// Draw the sliding tile one step further toward its new slot.
    Advance(TileMove),
    /// Tell the player the puzzle is solved.
    Announce,
}

/// The move that a click over `slot` asks for: the tile there slides into its
/// empty neighbour. `None` off the board, on the empty slot, or where the
/// slot has no empty neighbour.
pub open spec fn move_for(v: BoardView, slot: Option<u32>) -> Option<TileMove> {
    match slot {
        Some(from) => match (v.slots[from as int], v.empty_adjacent_to(from as int)) {
            (Some(tile), Some(to)) => Some(TileMove { from, to, tile }),
            _ => None,
        },
        None => None,
    }
}

/// The board once a move has landed: the tile slides if it still can.
pub open spec fn land(v: BoardView, m: TileMove) -> BoardView {
    if v.empty_adjacent_to(m.from as int) is Some {
        v.slide(m.from as int)
    } else {
        v
    }
}

/// The next phase, board and action after `event` in `phase` on board `v`.
pub open spec fn phase_after(phase: Phase, v: BoardView, event: Event) -> (Phase, BoardView, Action) {
    match (phase, event) {
        (Phase::Starting, Event::Frame) => (Phase::Awaiting, v, Action::Idle),
        (Phase::Awaiting, Event::Frame) => if v.is_solved() {
            (Phase::Won, v, Action::Announce)
        } else {
            (Phase::Awaiting, v, Action::Idle)
        },
        (Phase::Awaiting, Event::Click(p)) => match move_for(
            v,
            v.world_to_slot(p.x as int, p.y as int, p.denom as int),
        ) {
            Some(m) => (Phase::Moving { tile_move: m, steps_completed: 0 }, v, Action::Idle),
            None => (Phase::Awaiting, v, Action::Idle),
        },
        (Phase::Moving { tile_move, steps_completed }, Event::Frame) => if steps_completed
            >= MOVE_STEPS {
            (Phase::Awaiting, land(v, tile_move), Action::Idle)
        } else {
            (
                Phase::Moving { tile_move, steps_completed: (steps_completed + 1) as u32 },
                v,
                Action::Advance(tile_move),
            )
        },
        _ => (phase, v, Action::Idle),
    }
}

/// The move that a click at `loc` asks for, if any.
pub fn current_to_move(board: &Board, loc: WorldPoint) -> (r: Option<TileMove>)
    requires
        board@.wf(),
        loc.denom > 0,
    ensures
        r == move_for(board@, board@.world_to_slot(loc.x as int, loc.y as int, loc.denom as int)),
{
    match board.world_idx(loc) {
        Some(from) => {
            if board.is_empty(from) {
                return None;
            }
            match (board.tile_at(from), board.empty_adjacent(from)) {
                (Some(tile), Some(to)) => Some(TileMove { from, to, tile }),
                _ => None,
            }
        },
        None => None,
    }
}

/// Takes the game one event further: returns the next phase and what to
/// show, and lands a move on `board` when its tile arrives.
pub fn next_phase(phase: Phase, board: &mut Board, event: Event) -> (r: (Phase, Action))
    requires
        old(board)@.wf(),
        event matches Event::Click(p) ==> p.denom > 0,
    ensures
        final(board)@.wf(),
        (r.0, final(board)@, r.1) == phase_after(phase, old(board)@, event),
{
    match (phase, event) {
        (Phase::Starting, Event::Frame) => (Phase::Awaiting, Action::Idle),
        (Phase::Awaiting, Event::Frame) => {
            if board.is_solved() {
                (Phase::Won, Action::Announce)
            } else {
                (Phase::Awaiting, Action::Idle)
            }
        },
        (Phase::Awaiting, Event::Click(p)) => match current_to_move(board, p) {
            Some(m) => (Phase::Moving { tile_move: m, steps_completed: 0 }, Action::Idle),
            None => (Phase::Awaiting, Action::Idle),
        },
        (Phase::Moving { tile_move, steps_completed }, Event::Frame) => {
            if steps_completed >= MOVE_STEPS {
                let _ = board.move_tile_at(tile_move.from);
                (Phase::Awaiting, Action::Idle)
            } else {
                (
                    Phase::Moving { tile_move, steps_completed: steps_completed + 1 },
                    Action::Advance(tile_move),
                )
            }
        },
        _ => (phase, Action::Idle),
    }
}

} // verus!
