use vstd::arithmetic::div_mod::lemma_fundamental_div_mod_converse;
use vstd::prelude::*;

verus! {

/// Number printed on a tile; tiles are numbered `1 .. dimension²`.
pub type TileId = u32;

/// Largest grid side: the number of slots must fit an `i32`.
pub const MAX_DIM: u32 = 46340;

/// An `N × N` sliding-tile board.
///
/// Slot `i` is the grid cell `(i % N, i / N)`: row-major, `x` varies fastest,
/// with `(0, 0)` at the bottom-left corner.
///
/// ```text
/// + - - +
/// | 2 3 | 1
/// | 0 1 | 0
/// + - - + y
/// x 0 1
/// ```
#[derive(Debug)]
pub struct Board {
    pub(crate) tiles_dim: u32,
    pub(crate) tiles: Vec<Option<TileId>>,
    pub(crate) board_size: u32,
}

/// Mathematical model of a [`Board`].
pub struct BoardView {
    /// Side length `N` of the grid.
    pub dim: nat,
    /// Content of each slot: `None` for the empty slot.
    pub slots: Seq<Option<TileId>>,
    /// Side length of the board in world units.
    pub size: nat,
}

/// Exactly one slot of `slots` is empty.
pub open spec fn exactly_one_empty(slots: Seq<Option<TileId>>) -> bool {
    exists|e: int|
        0 <= e < slots.len() && #[trigger] slots[e] is None && forall|i: int|
            0 <= i < slots.len() && #[trigger] slots[i] is None ==> i == e
}

/// Every tile lies in `1 .. slots.len()` and no tile appears twice.
pub open spec fn tiles_distinct_in_range(slots: Seq<Option<TileId>>) -> bool {
    &&& forall|i: int|
        0 <= i < slots.len() ==> (#[trigger] slots[i] matches Some(t) ==> 1 <= t < slots.len())
    &&& forall|i: int, j: int|
        0 <= i < slots.len() && 0 <= j < slots.len() && i != j && (#[trigger] slots[i]) is Some
            ==> slots[i] != #[trigger] slots[j]
}

/// The grid coordinates `(x, y)` of slot `i` on a grid of side `dim`.
pub open spec fn slot_xy(dim: nat, i: int) -> (int, int) {
    (i % (dim as int), i / (dim as int))
}

/// The slot at grid coordinates `(x, y)` on a grid of side `dim`.
pub open spec fn xy_slot(dim: nat, x: int, y: int) -> int {
    x + y * dim
}

/// `(x, y)` lies on a grid of side `dim`.
pub open spec fn on_grid(dim: nat, x: int, y: int) -> bool {
    0 <= x < dim && 0 <= y < dim
}

/// Slots `i` and `j` share an edge of the grid.
pub open spec fn adjacent(dim: nat, i: int, j: int) -> bool {
    let (xi, yi) = slot_xy(dim, i);
    let (xj, yj) = slot_xy(dim, j);
    &&& 0 <= i < dim * dim
    &&& 0 <= j < dim * dim
    &&& ((xi == xj && (yi == yj + 1 || yj == yi + 1)) || (yi == yj && (xi == xj + 1 || xj
        == xi + 1)))
}

/// The cells that share an edge with `(x, y)` and lie on the grid, in the
/// order left, right, below, above.
pub open spec fn adjacent_cells(dim: nat, x: int, y: int) -> Seq<(u32, u32)> {
    let left = if x > 0 { seq![((x - 1) as u32, y as u32)] } else { Seq::empty() };
    let right = if x + 1 < dim { seq![((x + 1) as u32, y as u32)] } else { Seq::empty() };
    let below = if y > 0 { seq![(x as u32, (y - 1) as u32)] } else { Seq::empty() };
    let above = if y + 1 < dim { seq![(x as u32, (y + 1) as u32)] } else { Seq::empty() };
    left + right + below + above
}

/// The cells listed by `adjacent_cells` are exactly the grid neighbours.
pub proof fn lemma_adjacent_cells(dim: nat, x: int, y: int)
    requires
        0 < dim <= MAX_DIM,
        on_grid(dim, x, y),
    ensures
        forall|k: int|
            0 <= k < adjacent_cells(dim, x, y).len() ==> {
                let c = #[trigger] adjacent_cells(dim, x, y)[k];
                &&& on_grid(dim, c.0 as int, c.1 as int)
                &&& adjacent(dim, xy_slot(dim, x, y), xy_slot(dim, c.0 as int, c.1 as int))
            },
        forall|j: int|
            #[trigger] adjacent(dim, xy_slot(dim, x, y), j) ==> exists|k: int|
                0 <= k < adjacent_cells(dim, x, y).len() && xy_slot(
                    dim,
                    (#[trigger] adjacent_cells(dim, x, y)[k]).0 as int,
                    adjacent_cells(dim, x, y)[k].1 as int,
                ) == j,
{
    let cells = adjacent_cells(dim, x, y);
    let i = xy_slot(dim, x, y);
    let left = if x > 0 { seq![((x - 1) as u32, y as u32)] } else { Seq::empty() };
    let right = if x + 1 < dim { seq![((x + 1) as u32, y as u32)] } else { Seq::empty() };
    let below = if y > 0 { seq![(x as u32, (y - 1) as u32)] } else { Seq::empty() };
    let above = if y + 1 < dim { seq![(x as u32, (y + 1) as u32)] } else { Seq::empty() };
    let lr = left + right;
    let lrb = lr + below;
    assert(cells == lrb + above);
    lemma_xy_slot(dim, x, y);
    assert forall|k: int| 0 <= k < cells.len() implies {
        let c = #[trigger] cells[k];
        &&& on_grid(dim, c.0 as int, c.1 as int)
        &&& adjacent(dim, i, xy_slot(dim, c.0 as int, c.1 as int))
    } by {
        let c = cells[k];
        if k < lrb.len() {
            assert(c == lrb[k]);
            if k < lr.len() {
                assert(c == lr[k]);
                if k < left.len() {
                    assert(c == left[k]);
                } else {
                    assert(c == right[k - left.len()]);
                }
            } else {
                assert(c == below[k - lr.len()]);
            }
        } else {
            assert(c == above[k - lrb.len()]);
        }
        assert(on_grid(dim, c.0 as int, c.1 as int));
        lemma_xy_slot(dim, c.0 as int, c.1 as int);
    }
    assert forall|j: int| #[trigger] adjacent(dim, i, j) implies exists|k: int|
        0 <= k < cells.len() && xy_slot(dim, (#[trigger] cells[k]).0 as int, cells[k].1 as int)
            == j by {
        lemma_slot_xy(dim, j);
        let (xj, yj) = slot_xy(dim, j);
        let k = if xj + 1 == x {
            0
        } else if xj == x + 1 {
            left.len() as int
        } else if yj + 1 == y {
            lr.len() as int
        } else {
            lrb.len() as int
        };
        assert(cells[k] == (xj as u32, yj as u32));
    }
}

/// Ways a board operation can refuse its input.
#[derive(Debug, Clone, Copy, PartialEq, Eq, Structural)]
pub enum BoardError {
    /// An index or coordinate off the board.
    OutOfRange,
    /// The slot has no empty neighbour, so its content cannot move.
    IllegalMove,
    /// A layout that is not a valid arrangement of tiles.
    InvalidLayout,
}

/// The empty slot, on a sequence of slots with exactly one.
pub open spec fn empty_slot(slots: Seq<Option<TileId>>) -> int {
    choose|e: int| 0 <= e < slots.len() && slots[e] is None
}

/// The solved arrangement of `n` slots: slot 0 empty, tile `i` in slot `i`.
pub open spec fn solved_slots(n: nat) -> Seq<Option<TileId>> {
    Seq::new(n, |i: int| if i == 0 { None } else { Some(i as TileId) })
}

/// The board after the given moves, played in order from `start`: each
/// slides the content of the named slot into its empty neighbour. `None` if
/// one of them has no empty neighbour when its turn comes.
pub open spec fn play(start: BoardView, moves: Seq<int>) -> Option<BoardView>
    decreases moves.len(),
{
    if moves.len() == 0 {
        Some(start)
    } else {
        match play(start, moves.drop_last()) {
            Some(b) => if b.empty_adjacent_to(moves.last()) is Some {
                Some(b.slide(moves.last()))
            } else {
                None
            },
            None => None,
        }
    }
}

/// `to` can be reached from `from` by legal moves alone.
pub open spec fn reachable(from: BoardView, to: BoardView) -> bool {
    exists|moves: Seq<int>| play(from, moves) == Some(to)
}

/// The solved board of side `dim` and world size `size`.
pub open spec fn solved_board(dim: nat, size: nat) -> BoardView {
    BoardView { dim, slots: solved_slots(dim * dim), size }
}

/// One step of a random walk of the empty slot: `pick` chooses, among the
/// cells next to the empty slot, the one at `pick % count`, whose content
/// then slides into the empty slot.
pub open spec fn walk_step(v: BoardView, pick: u32) -> BoardView {
    let e = empty_slot(v.slots);
    let cells = adjacent_cells(v.dim, slot_xy(v.dim, e).0, slot_xy(v.dim, e).1);
    let c = cells[pick as int % cells.len() as int];
    v.slide(xy_slot(v.dim, c.0 as int, c.1 as int))
}

/// The board after a random walk of the empty slot steered by `picks`.
pub open spec fn walk(v: BoardView, picks: Seq<u32>) -> BoardView
    decreases picks.len(),
{
    if picks.len() == 0 {
        v
    } else {
        walk_step(walk(v, picks.drop_last()), picks.last())
    }
}

impl BoardView {
    /// Well-formed: a grid of at least `2 × 2` whose slots hold each tile
    /// `1 .. N²` once and leave exactly one slot empty.
    pub open spec fn wf(self) -> bool {
        &&& 2 <= self.dim <= MAX_DIM
        &&& self.slots.len() == self.dim * self.dim
        &&& 0 < self.size <= u32::MAX
        &&& exactly_one_empty(self.slots)
        &&& tiles_distinct_in_range(self.slots)
    }

    /// Number of slots, `N²`.
    pub open spec fn num_slots(self) -> int {
        (self.dim * self.dim) as int
    }

    /// The empty neighbour of slot `idx`, if it has one.
    pub open spec fn empty_adjacent_to(self, idx: int) -> Option<u32> {
        let e = empty_slot(self.slots);
        if adjacent(self.dim, idx, e) {
            Some(e as u32)
        } else {
            None
        }
    }

    /// The board after the content of slot `idx` slides into the empty slot.
    pub open spec fn slide(self, idx: int) -> BoardView {
        let e = empty_slot(self.slots);
        BoardView { slots: self.slots.update(e, self.slots[idx]).update(idx, None), ..self }
    }

    /// Tiles `1 .. N²` stand in slots `1 .. N²` in order, slot 0 empty.
    pub open spec fn is_solved(self) -> bool {
        self.slots == solved_slots(self.dim * self.dim)
    }
}

impl View for Board {
    type V = BoardView;

    closed spec fn view(&self) -> BoardView {
        BoardView { dim: self.tiles_dim as nat, slots: self.tiles@, size: self.board_size as nat }
    }
}

/// What the model of a board is made of.
pub(crate) proof fn lemma_view_fields(b: &Board)
    ensures
        b@.dim == b.tiles_dim as nat,
        b@.slots == b.tiles@,
        b@.size == b.board_size as nat,
{
}

/// A slot index splits into grid coordinates that lie on the grid and
/// give the index back.
pub proof fn lemma_slot_xy(dim: nat, i: int)
    requires
        dim > 0,
        0 <= i < dim * dim,
    ensures
        on_grid(dim, slot_xy(dim, i).0, slot_xy(dim, i).1),
        xy_slot(dim, slot_xy(dim, i).0, slot_xy(dim, i).1) == i,
{
    let d = dim as int;
    vstd::arithmetic::div_mod::lemma_fundamental_div_mod(i, d);
    vstd::arithmetic::div_mod::lemma_mod_pos_bound(i, d);
    vstd::arithmetic::div_mod::lemma_div_pos_is_pos(i, d);
    assert(i / d < d) by (nonlinear_arith)
        requires
            i < d * d,
            i == d * (i / d) + i % d,
            0 <= i % d,
            d > 0,
    ;
    assert(i == i % d + (i / d) * d) by (nonlinear_arith)
        requires
            i == d * (i / d) + i % d,
    ;
}

/// Grid coordinates on the grid give a slot index in range, which splits
/// back into the same coordinates.
pub proof fn lemma_xy_slot(dim: nat, x: int, y: int)
    requires
        dim > 0,
        on_grid(dim, x, y),
    ensures
        0 <= xy_slot(dim, x, y) < dim * dim,
        slot_xy(dim, xy_slot(dim, x, y)) == (x, y),
{
    let d = dim as int;
    assert(0 <= x + y * d < d * d) by (nonlinear_arith)
        requires
            0 <= x < d,
            0 <= y < d,
    ;
    lemma_fundamental_div_mod_converse(x + y * d, d, y, x);
}

/// The slot count of a well-formed board fits an `i32`.
pub proof fn lemma_num_slots_bound(v: BoardView)
    requires
        v.wf(),
    ensures
        v.num_slots() <= MAX_DIM * MAX_DIM,
        v.num_slots() <= i32::MAX,
{
    assert(v.dim * v.dim <= MAX_DIM * MAX_DIM) by (nonlinear_arith)
        requires
            v.dim <= MAX_DIM,
    ;
}

/// On a well-formed board `empty_slot` is the one empty slot.
pub proof fn lemma_empty_slot(v: BoardView)
    requires
        v.wf(),
    ensures
        0 <= empty_slot(v.slots) < v.num_slots(),
        v.slots[empty_slot(v.slots)] is None,
        forall|i: int| 0 <= i < v.num_slots() && #[trigger] v.slots[i] is None ==> i
            == empty_slot(v.slots),
{
    let e = choose|e: int|
        0 <= e < v.slots.len() && #[trigger] v.slots[e] is None && forall|i: int|
            0 <= i < v.slots.len() && #[trigger] v.slots[i] is None ==> i == e;
    assert(0 <= e < v.slots.len() && v.slots[e] is None);
}

/// Sliding a tile that has an empty neighbour keeps the board well-formed:
/// the slot it leaves becomes the one empty slot.
pub proof fn lemma_slide_wf(v: BoardView, idx: int)
    requires
        v.wf(),
        v.empty_adjacent_to(idx) is Some,
    ensures
        v.slide(idx).wf(),
        empty_slot(v.slide(idx).slots) == idx,
        v.slide(idx).dim == v.dim,
        v.slide(idx).size == v.size,
{
    lemma_empty_slot(v);
    let e = empty_slot(v.slots);
    let w = v.slide(idx);
    let s = w.slots;
    assert(idx != e);
    assert(v.slots[idx] is Some);
    assert forall|i: int| 0 <= i < s.len() && #[trigger] s[i] is None implies i == idx by {
        if i != idx && i != e {
            assert(s[i] == v.slots[i]);
        }
    }
    assert(exactly_one_empty(s)) by {
        assert(s[idx] is None);
    }
    assert forall|i: int, j: int|
        0 <= i < s.len() && 0 <= j < s.len() && i != j && (#[trigger] s[i]) is Some implies s[i]
        != #[trigger] s[j] by {
        let oi = if i == e { idx } else { i };
        let oj = if j == e { idx } else if j == idx { e } else { j };
        assert(s[i] == v.slots[oi]);
        assert(s[j] == v.slots[oj]);
    }
    assert forall|i: int| 0 <= i < s.len() implies (#[trigger] s[i] matches Some(t) ==> 1 <= t
        < s.len()) by {
        let oi = if i == e { idx } else if i == idx { e } else { i };
        assert(s[i] == v.slots[oi]);
    }
    lemma_empty_slot(w);
}

/// Every legal move keeps a board reachable from where it was reachable
/// from.
pub proof fn lemma_reachable_step(from: BoardView, b: BoardView, idx: int)
    requires
        reachable(from, b),
        b.empty_adjacent_to(idx) is Some,
    ensures
        reachable(from, b.slide(idx)),
{
    let moves = choose|moves: Seq<int>| play(from, moves) == Some(b);
    let more = moves.push(idx);
    assert(more.drop_last() =~= moves);
    assert(play(from, more) == Some(b.slide(idx)));
}

/// The solved board is well-formed.
pub proof fn lemma_solved_wf(dim: nat, size: nat)
    requires
        2 <= dim <= MAX_DIM,
        0 < size <= u32::MAX,
    ensures
        solved_board(dim, size).wf(),
{
    let v = solved_board(dim, size);
    assert(4 <= dim * dim) by (nonlinear_arith)
        requires
            2 <= dim,
    ;
    assert(v.slots[0] is None);
    assert(exactly_one_empty(v.slots));
    assert(v.slots.len() == dim * dim);
    assert(dim * dim <= MAX_DIM * MAX_DIM) by (nonlinear_arith)
        requires
            dim <= MAX_DIM,
    ;
    assert forall|i: int| 0 <= i < v.slots.len() implies (#[trigger] v.slots[i] matches Some(
        t,
    ) ==> 1 <= t < v.slots.len()) by {
        if i > 0 {
            assert(v.slots[i] == Some(i as TileId));
        }
    }
    assert forall|i: int, j: int|
        0 <= i < v.slots.len() && 0 <= j < v.slots.len() && i != j && (#[trigger] v.slots[i])
            is Some implies v.slots[i] != #[trigger] v.slots[j] by {
        if j > 0 {
            assert(v.slots[j] == Some(j as TileId));
            assert(v.slots[i] == Some(i as TileId));
        }
    }
}

/// One step of the walk is a legal move that keeps the board well-formed;
/// the slot it moves from becomes the empty slot.
pub proof fn lemma_walk_step(v: BoardView, pick: u32)
    requires
        v.wf(),
    ensures
        ({
            let e = empty_slot(v.slots);
            let cells = adjacent_cells(v.dim, slot_xy(v.dim, e).0, slot_xy(v.dim, e).1);
            let c = cells[pick as int % cells.len() as int];
            let s = xy_slot(v.dim, c.0 as int, c.1 as int);
            &&& cells.len() > 0
            &&& on_grid(v.dim, c.0 as int, c.1 as int)
            &&& v.empty_adjacent_to(s) is Some
            &&& walk_step(v, pick) == v.slide(s)
            &&& walk_step(v, pick).wf()
            &&& empty_slot(walk_step(v, pick).slots) == s
        }),
{
    lemma_empty_slot(v);
    let e = empty_slot(v.slots);
    lemma_slot_xy(v.dim, e);
    let (x, y) = slot_xy(v.dim, e);
    let cells = adjacent_cells(v.dim, x, y);
    lemma_adjacent_cells(v.dim, x, y);
    assert(cells.len() > 0) by {
        if x > 0 {
            assert(cells[0] == ((x - 1) as u32, y as u32));
        } else {
            assert(cells[0] == ((x + 1) as u32, y as u32));
        }
    }
    let k = pick as int % cells.len() as int;
    let c = cells[k];
    let s = xy_slot(v.dim, c.0 as int, c.1 as int);
    assert(adjacent(v.dim, e, s));
    assert(v.empty_adjacent_to(s) is Some);
    lemma_slide_wf(v, s);
}

impl Board {
    /// Builds a `tiles_dim × tiles_dim` board of world size `screen_size` in
    /// the solved arrangement, then scrambles it with a walk of the empty
    /// slot steered by `picks` (see [`Board::scramble`]).
    pub fn init_board(tiles_dim: u32, screen_size: u32, picks: &Vec<u32>) -> (r: Board)
        requires
            2 <= tiles_dim <= MAX_DIM,
            0 < screen_size,
        ensures
            r@.wf(),
            r@ == walk(solved_board(tiles_dim as nat, screen_size as nat), picks@),
            reachable(solved_board(tiles_dim as nat, screen_size as nat), r@),
    {
        let ghost goal = solved_board(tiles_dim as nat, screen_size as nat);
        proof {
            lemma_solved_wf(tiles_dim as nat, screen_size as nat);
            lemma_num_slots_bound(goal);
        }
        let num_tiles = tiles_dim * tiles_dim;
        let mut tiles: Vec<Option<TileId>> = Vec::with_capacity(num_tiles as usize);
        tiles.push(None);
        let mut i: u32 = 1;
        while i < num_tiles
            invariant
                goal == solved_board(tiles_dim as nat, screen_size as nat),
                num_tiles == goal.slots.len(),
                1 <= i <= num_tiles,
                tiles@.len() == i,
                forall|m: int| 0 <= m < i ==> #[trigger] tiles@[m] == goal.slots[m],
            decreases num_tiles - i,
        {
            assert(goal.slots[i as int] == Some(i as TileId));
            tiles.push(Some(i));
            i += 1;
        }
        assert(tiles@ =~= goal.slots);
        let mut board = Board { tiles_dim, tiles, board_size: screen_size };
        board.scramble(picks);
        board
    }

    /// Builds a board from a given arrangement of tiles, row by row from the
    /// bottom-left slot. Refuses with `InvalidLayout` anything that is not a
    /// well-formed board: a side under 2 or over `MAX_DIM`, a world size of 0,
    /// a slot count other than `tiles_dim²`, other than one empty slot, a tile
    /// outside `1 .. tiles_dim²`, or a tile twice.
    pub fn from_tiles(tiles_dim: u32, tiles: Vec<Option<TileId>>, board_size: u32) -> (r: Result<
        Board,
        BoardError,
    >)
        ensures
            r is Ok <==> (BoardView {
                dim: tiles_dim as nat,
                slots: tiles@,
                size: board_size as nat,
            }).wf(),
            r matches Ok(b) ==> b@ == (BoardView {
                dim: tiles_dim as nat,
                slots: tiles@,
                size: board_size as nat,
            }),
            r matches Err(e) ==> e == BoardError::InvalidLayout,
    {
        let ghost v = BoardView { dim: tiles_dim as nat, slots: tiles@, size: board_size as nat };
        if tiles_dim < 2 || tiles_dim > MAX_DIM || board_size == 0 {
            return Err(BoardError::InvalidLayout);
        }
        proof {
            assert(tiles_dim * tiles_dim <= MAX_DIM * MAX_DIM) by (nonlinear_arith)
                requires
                    tiles_dim <= MAX_DIM,
            ;
        }
        let n = tiles_dim * tiles_dim;
        if tiles.len() != n as usize {
            return Err(BoardError::InvalidLayout);
        }
        let mut seen: Vec<bool> = Vec::with_capacity(n as usize);
        let mut j: u32 = 0;
        while j < n
            invariant
                0 <= j <= n,
                seen@.len() == j,
                forall|t: int| 0 <= t < j ==> !(#[trigger] seen@[t]),
            decreases n - j,
        {
            seen.push(false);
            j += 1;
        }
        let mut empty_at: Option<usize> = None;
        let mut i: usize = 0;
        while i < tiles.len()
            invariant
                v == (BoardView { dim: tiles_dim as nat, slots: tiles@, size: board_size as nat }),
                n == tiles@.len(),
                n <= MAX_DIM * MAX_DIM,
                seen@.len() == n,
                0 <= i <= n,
                forall|m: int|
                    0 <= m < i ==> (#[trigger] tiles@[m] matches Some(t) ==> 1 <= t < n
                        && seen@[t as int]),
                forall|t: int|
                    0 <= t < n && #[trigger] seen@[t] ==> exists|m: int|
                        0 <= m < i && #[trigger] tiles@[m] == Some(t as TileId),
                forall|m1: int, m2: int|
                    0 <= m1 < i && 0 <= m2 < i && m1 != m2 && (#[trigger] tiles@[m1]) is Some
                        ==> tiles@[m1] != #[trigger] tiles@[m2],
                match empty_at {
                    None => forall|m: int| 0 <= m < i ==> (#[trigger] tiles@[m]) is Some,
                    Some(e) => e < i && tiles@[e as int] is None && forall|m: int|
                        0 <= m < i && (#[trigger] tiles@[m]) is None ==> m == e,
                },
            decreases n - i,
        {
            match tiles[i] {
                None => {
                    if let Some(e) = empty_at {
                        assert(!exactly_one_empty(v.slots)) by {
                            if exactly_one_empty(v.slots) {
                                let f = choose|f: int|
                                    0 <= f < v.slots.len() && #[trigger] v.slots[f] is None
                                        && forall|m: int|
                                        0 <= m < v.slots.len() && #[trigger] v.slots[m] is None
                                            ==> m == f;
                                assert(v.slots[e as int] is None);
                                assert(v.slots[i as int] is None);
                            }
                        }
                        return Err(BoardError::InvalidLayout);
                    }
                    empty_at = Some(i);
                },
                Some(t) => {
                    if t == 0 || t >= n {
                        assert(!tiles_distinct_in_range(v.slots)) by {
                            assert(v.slots[i as int] matches Some(u) && !(1 <= u < v.slots.len()));
                        }
                        return Err(BoardError::InvalidLayout);
                    }
                    if seen[t as usize] {
                        assert(!tiles_distinct_in_range(v.slots)) by {
                            let m = choose|m: int|
                                0 <= m < i && #[trigger] tiles@[m] == Some(t as TileId);
                            assert(v.slots[m] == v.slots[i as int]);
                        }
                        return Err(BoardError::InvalidLayout);
                    }
                    seen.set(t as usize, true);
                    assert forall|u: int|
                        0 <= u < n && #[trigger] seen@[u] implies exists|m: int|
                        0 <= m < i + 1 && #[trigger] tiles@[m] == Some(u as TileId) by {
                        if u == t {
                            assert(tiles@[i as int] == Some(u as TileId));
                        }
                    }
                },
            }
            i += 1;
        }
        if empty_at.is_none() {
            assert(!exactly_one_empty(v.slots)) by {
                if exactly_one_empty(v.slots) {
                    let f = choose|f: int| 0 <= f < v.slots.len() && #[trigger] v.slots[f] is None;
                    assert(tiles@[f] is Some);
                }
            }
            return Err(BoardError::InvalidLayout);
        }
        proof {
            let e = empty_at.unwrap() as int;
            assert(v.slots[e] is None);
        }
        Ok(Board { tiles_dim, tiles, board_size })
    }

    /// Scrambles the board by a walk of the empty slot: for each pick in
    /// turn, of the cells next to the empty slot (left, right, below, above)
    /// the one at `pick % count` slides its content into the empty slot.
    /// Every step is a legal move, so the result stays solvable.
    pub fn scramble(&mut self, picks: &Vec<u32>)
        requires
            old(self)@.wf(),
        ensures
            final(self)@.wf(),
            final(self)@ == walk(old(self)@, picks@),
            reachable(old(self)@, final(self)@),
    {
        let ghost start = self@;
        let ghost mut moves: Seq<int> = Seq::empty();
        assert(picks@.take(0) =~= Seq::<u32>::empty());
        let mut e = self.find_empty();
        let mut k: usize = 0;
        while k < picks.len()
            invariant
                self@.wf(),
                e == empty_slot(self@.slots),
                0 <= k <= picks.len(),
                self@ == walk(start, picks@.take(k as int)),
                play(start, moves) == Some(self@),
            decreases picks.len() - k,
        {
            proof {
                lemma_walk_step(self@, picks@[k as int]);
                lemma_empty_slot(self@);
            }
            let ghost before = self@;
            let ghost before_moves = moves;
            let xy = self.idx_xy(e);
            let adj = self.adj_xy(xy);
            let c = adj[(picks[k] as usize) % adj.len()];
            let s = self.xy_idx(c);
            let _ = self.move_tile_at(s);
            proof {
                moves = moves.push(s as int);
                assert(moves.drop_last() =~= before_moves);
                assert(picks@.take(k + 1).drop_last() =~= picks@.take(k as int));
                lemma_slide_wf(before, s as int);
            }
            e = s;
            k += 1;
        }
        assert(picks@.take(picks.len() as int) =~= picks@);
        assert(play(start, moves) == Some(self@));
    }

    /// The empty slot.
    fn find_empty(&self) -> (r: u32)
        requires
            self@.wf(),
        ensures
            r as int == empty_slot(self@.slots),
    {
        proof {
            lemma_empty_slot(self@);
        }
        let n = self.idx_max();
        let mut i: u32 = 0;
        while i < n
            invariant
                self@.wf(),
                n == self@.num_slots(),
                0 <= i <= n,
                forall|m: int| 0 <= m < i ==> (#[trigger] self@.slots[m]) is Some,
            decreases n - i,
        {
            if self.is_empty(i) {
                return i;
            }
            i += 1;
        }
        proof {
            let e = empty_slot(self@.slots);
            assert(self@.slots[e] is None);
        }
        0
    }

    /// Number of slots, `N²`.
    pub fn idx_max(&self) -> (r: u32)
        requires
            self@.wf(),
        ensures
            r == self@.num_slots(),
    {
        proof {
            lemma_num_slots_bound(self@);
        }
        self.tiles_dim * self.tiles_dim
    }

    /// `Some(x)` when column `x` lies on the grid.
    pub fn check_x(&self, x: i32) -> (r: Option<u32>)
        requires
            self@.wf(),
        ensures
            r == (if 0 <= x < self@.dim { Some(x as u32) } else { None::<u32> }),
    {
        if 0 <= x && x < self.tiles_dim as i32 {
            Some(x as u32)
        } else {
            None
        }
    }

    /// `Some(y)` when row `y` lies on the grid.
    pub fn check_y(&self, y: i32) -> (r: Option<u32>)
        requires
            self@.wf(),
        ensures
            r == (if 0 <= y < self@.dim { Some(y as u32) } else { None::<u32> }),
    {
        if 0 <= y && y < self.tiles_dim as i32 {
            Some(y as u32)
        } else {
            None
        }
    }

    /// `Some((x, y))` when the cell lies on the grid.
    pub fn check_xy(&self, xy: (i32, i32)) -> (r: Option<(u32, u32)>)
        requires
            self@.wf(),
        ensures
            r == (if on_grid(self@.dim, xy.0 as int, xy.1 as int) {
                Some((xy.0 as u32, xy.1 as u32))
            } else {
                None::<(u32, u32)>
            }),
    {
        match self.check_x(xy.0) {
            Some(x) => match self.check_y(xy.1) {
                Some(y) => Some((x, y)),
                None => None,
            },
            None => None,
        }
    }

    /// `Some(idx)` when `idx` names a slot.
    pub fn check_idx(&self, idx: i32) -> (r: Option<u32>)
        requires
            self@.wf(),
        ensures
            r == (if 0 <= idx < self@.num_slots() { Some(idx as u32) } else { None::<u32> }),
    {
        proof {
            lemma_num_slots_bound(self@);
        }
        if 0 <= idx && idx < self.idx_max() as i32 {
            Some(idx as u32)
        } else {
            None
        }
    }

    /// The cells that share an edge with `(x, y)`, in the order left, right,
    /// below, above.
    pub fn adj_xy(&self, xy: (u32, u32)) -> (r: Vec<(u32, u32)>)
        requires
            self@.wf(),
            on_grid(self@.dim, xy.0 as int, xy.1 as int),
        ensures
            r@ == adjacent_cells(self@.dim, xy.0 as int, xy.1 as int),
    {
        let x = xy.0 as i32;
        let y = xy.1 as i32;
        let ghost cells = adjacent_cells(self@.dim, xy.0 as int, xy.1 as int);
        let mut res: Vec<(u32, u32)> = Vec::with_capacity(4);
        if let Some(c) = self.check_xy((x - 1, y)) {
            res.push(c);
        }
        if let Some(c) = self.check_xy((x + 1, y)) {
            res.push(c);
        }
        if let Some(c) = self.check_xy((x, y - 1)) {
            res.push(c);
        }
        if let Some(c) = self.check_xy((x, y + 1)) {
            res.push(c);
        }
        assert(res@ =~= cells);
        res
    }

    /// The tile in `slot`; `None` for the empty slot or a slot off the board.
    pub fn tile_at(&self, slot: u32) -> (r: Option<TileId>)
        requires
            self@.wf(),
        ensures
            r == (if slot < self@.num_slots() { self@.slots[slot as int] } else { None::<TileId> }),
    {
        if slot < self.idx_max() {
            self.tiles[slot as usize]
        } else {
            None
        }
    }

    /// `slot` is on the board and empty.
    pub fn is_empty(&self, slot: u32) -> (r: bool)
        requires
            self@.wf(),
        ensures
            r == (slot < self@.num_slots() && self@.slots[slot as int] is None),
    {
        slot < self.idx_max() && self.tiles[slot as usize].is_none()
    }

    /// The empty neighbour of slot `idx`, if it has one; `None` for a slot
    /// off the board.
    pub fn empty_adjacent(&self, idx: u32) -> (r: Option<u32>)
        requires
            self@.wf(),
        ensures
            r == self@.empty_adjacent_to(idx as int),
    {
        proof {
            lemma_empty_slot(self@);
        }
        if idx >= self.idx_max() {
            return None;
        }
        let a = self.idx_xy(idx);
        let b = self.adj_xy(a);
        proof {
            lemma_slot_xy(self@.dim, idx as int);
            lemma_adjacent_cells(self@.dim, a.0 as int, a.1 as int);
        }
        let mut k: usize = 0;
        while k < b.len()
            invariant
                self@.wf(),
                idx < self@.num_slots(),
                xy_slot(self@.dim, a.0 as int, a.1 as int) == idx,
                on_grid(self@.dim, a.0 as int, a.1 as int),
                b@ == adjacent_cells(self@.dim, a.0 as int, a.1 as int),
                0 <= k <= b.len(),
                forall|m: int|
                    0 <= m < k ==> self@.slots[xy_slot(
                        self@.dim,
                        (#[trigger] b@[m]).0 as int,
                        b@[m].1 as int,
                    )] is Some,
            decreases b.len() - k,
        {
            proof {
                lemma_adjacent_cells(self@.dim, a.0 as int, a.1 as int);
                lemma_empty_slot(self@);
            }
            let s = self.xy_idx(b[k]);
            if self.is_empty(s) {
                return Some(s);
            }
            k += 1;
        }
        proof {
            lemma_adjacent_cells(self@.dim, a.0 as int, a.1 as int);
            let e = empty_slot(self@.slots);
            if adjacent(self@.dim, idx as int, e) {
                let m = choose|m: int|
                    0 <= m < b@.len() && xy_slot(
                        self@.dim,
                        (#[trigger] b@[m]).0 as int,
                        b@[m].1 as int,
                    ) == e;
                assert(self@.slots[e] is Some);
            }
        }
        None
    }

    /// Whether the tiles stand in order with slot 0 empty.
    pub fn is_solved(&self) -> (r: bool)
        requires
            self@.wf(),
        ensures
            r == self@.is_solved(),
    {
        proof {
            lemma_num_slots_bound(self@);
        }
        let n = self.tiles.len();
        if self.tiles[0].is_some() {
            assert(self@.slots[0] != solved_slots(self@.dim * self@.dim)[0]);
            return false;
        }
        let mut expected: usize = 1;
        while expected < n
            invariant
                self@.wf(),
                n == self@.slots.len(),
                n <= i32::MAX,
                1 <= expected <= n,
                self@.slots[0] is None,
                forall|m: int| 1 <= m < expected ==> #[trigger] self@.slots[m] == Some(m as TileId),
            decreases n - expected,
        {
            let ghost goal = solved_slots(self@.dim * self@.dim);
            match self.tiles[expected] {
                Some(t) => {
                    if t != expected as TileId {
                        assert(self@.slots[expected as int] != goal[expected as int]);
                        return false;
                    }
                },
                None => {
                    assert(self@.slots[expected as int] != goal[expected as int]);
                    return false;
                },
            }
            expected += 1;
        }
        assert(self@.slots =~= solved_slots(self@.dim * self@.dim));
        true
    }

    /// Slides the tile in slot `idx` into its empty neighbour.
    ///
    /// Refuses a slot off the board with `OutOfRange`, and a slot without an
    /// empty neighbour (the empty slot itself among them) with `IllegalMove`,
    /// leaving the board as it was.
    pub fn move_tile_at(&mut self, idx: u32) -> (r: Result<(), BoardError>)
        requires
            old(self)@.wf(),
        ensures
            final(self)@.wf(),
            exactly_one_empty(final(self)@.slots),
            idx >= old(self)@.num_slots() ==> r == Err::<(), BoardError>(BoardError::OutOfRange),
            idx < old(self)@.num_slots() && old(self)@.empty_adjacent_to(idx as int) is None ==> r
                == Err::<(), BoardError>(BoardError::IllegalMove),
            old(self)@.empty_adjacent_to(idx as int) is Some ==> r == Ok::<(), BoardError>(()),
            r is Ok ==> final(self)@ == old(self)@.slide(idx as int),
            r is Err ==> final(self)@ == old(self)@,
    {
        if idx >= self.idx_max() {
            return Err(BoardError::OutOfRange);
        }
        match self.empty_adjacent(idx) {
            Some(to) => {
                proof {
                    lemma_empty_slot(self@);
                    lemma_slide_wf(self@, idx as int);
                }
                let ghost before = self@;
                let t = self.tiles[idx as usize];
                self.tiles.set(to as usize, t);
                self.tiles.set(idx as usize, None);
                assert(self@.slots =~= before.slide(idx as int).slots);
                Ok(())
            },
            None => Err(BoardError::IllegalMove),
        }
    }

    /// Grid coordinates of slot `idx`.
    pub fn idx_xy(&self, idx: u32) -> (r: (u32, u32))
        requires
            self@.wf(),
            idx < self@.num_slots(),
        ensures
            (r.0 as int, r.1 as int) == slot_xy(self@.dim, idx as int),
            on_grid(self@.dim, r.0 as int, r.1 as int),
    {
        proof {
            lemma_slot_xy(self@.dim, idx as int);
        }
        let y = idx / self.tiles_dim;
        let x = idx % self.tiles_dim;
        (x, y)
    }

    /// Slot at grid coordinates `(x, y)`.
    pub fn xy_idx(&self, xy: (u32, u32)) -> (r: u32)
        requires
            self@.wf(),
            on_grid(self@.dim, xy.0 as int, xy.1 as int),
        ensures
            r as int == xy_slot(self@.dim, xy.0 as int, xy.1 as int),
            r < self@.num_slots(),
    {
        proof {
            lemma_xy_slot(self@.dim, xy.0 as int, xy.1 as int);
            lemma_num_slots_bound(self@);
            assert(xy.1 * self.tiles_dim <= xy.0 + xy.1 * self.tiles_dim);
        }
        let (x, y) = xy;
        x + y * self.tiles_dim
    }

    /// Cell of slot `idx`'s picture in a square image cut into `N × N`
    /// pieces, counted from the top-left corner: the column is the slot's,
    /// the row is flipped, since slots count from the bottom.
    pub fn atlas_xy(&self, idx: u32) -> (r: (u32, u32))
        requires
            self@.wf(),
            idx < self@.num_slots(),
        ensures
            r.0 as int == slot_xy(self@.dim, idx as int).0,
            r.1 as int == self@.dim - 1 - slot_xy(self@.dim, idx as int).1,
    {
        let (x, y) = self.idx_xy(idx);
        (x, self.tiles_dim - (y + 1))
    }

    /// Side length `N` of the grid.
    pub fn dimension(&self) -> (r: u32)
        ensures
            r == self@.dim,
    {
        self.tiles_dim
    }

    /// Side length of the board in world units.
    pub fn board_size(&self) -> (r: u32)
        ensures
            r == self@.size,
    {
        self.board_size
    }
}

} // verus!
