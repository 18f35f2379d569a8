//! Tetris on a 10 x 20 board: pieces fall one row per tick, can be moved,
//! rotated (with a one-column wall kick), soft- and hard-dropped; full rows
//! are cleared and scored.
use vstd::prelude::*;

use crate::input::Key;
use crate::input::KeyInput;
use crate::input::KeyKind;

verus! {

pub const BOARD_W: usize = 10;

pub const BOARD_H: usize = 20;

/// Milliseconds between two drops.
pub const TICK_MS: u64 = 500;

/// Milliseconds between two drops while soft-dropping.
pub const FAST_TICK_MS: u64 = 50;

/// Milliseconds without a Down key after which soft-dropping stops.
pub const SOFT_DROP_GRACE_MS: u64 = 175;

pub const TICK_NANOS: u128 = 500_000_000;

pub const FAST_TICK_NANOS: u128 = 50_000_000;

pub const SOFT_DROP_GRACE_NANOS: u128 = 175_000_000;

/// The row new pieces appear on.
pub const SPAWN_ROW: i32 = 3;

/// The column new pieces appear on.
pub const SPAWN_COL: i32 = 4;

/// The seven tetrominoes, in the order they are dealt.
#[derive(Clone, Copy, PartialEq, Eq, Debug, Structural)]
pub enum Shape {
    I,
    O,
    T,
    S,
    Z,
    L,
    J,
}

#[derive(Clone, Copy, PartialEq, Eq, Debug, Structural)]
pub enum Cell {
    Empty,
    Filled(Shape),
}

/// The falling piece: a shape in one of four rotations, placed with its
/// origin at (row, col).
#[derive(Clone, Copy, PartialEq, Eq, Debug, Structural)]
pub struct ActivePiece {
    pub shape: Shape,
    pub rotation: usize,
    pub row: i32,
    pub col: i32,
}

pub type Board = [[Cell; 10]; 20];

/// The shape dealt as the `n`-th piece.
pub open spec fn shape_at(n: int) -> Shape {
    let k = n % 7;
    if k == 0 {
        Shape::I
    } else if k == 1 {
        Shape::O
    } else if k == 2 {
        Shape::T
    } else if k == 3 {
        Shape::S
    } else if k == 4 {
        Shape::Z
    } else if k == 5 {
        Shape::L
    } else {
        Shape::J
    }
}

/// The four (row, col) offsets of a shape in a rotation.
pub open spec fn offsets(shape: Shape, rot: int) -> Seq<(i32, i32)> {
    match shape {
        Shape::I => if rot % 2 == 0 {
            seq![(0i32, 0i32), (0, 1), (0, 2), (0, 3)]
        } else {
            seq![(0i32, 0i32), (1, 0), (2, 0), (3, 0)]
        },
        Shape::O => seq![(0i32, 0i32), (0, 1), (1, 0), (1, 1)],
        Shape::T => if rot == 0 {
            seq![(0i32, 0i32), (0, 1), (0, 2), (1, 1)]
        } else if rot == 1 {
            seq![(0i32, 0i32), (1, 0), (2, 0), (1, 1)]
        } else if rot == 2 {
            seq![(1i32, 0i32), (1, 1), (1, 2), (0, 1)]
        } else {
            seq![(0i32, 0i32), (1, 0), (2, 0), (1, -1i32)]
        },
        Shape::S => if rot % 2 == 0 {
            seq![(0i32, 1i32), (0, 2), (1, 0), (1, 1)]
        } else {
            seq![(0i32, 0i32), (1, 0), (1, 1), (2, 1)]
        },
        Shape::Z => if rot % 2 == 0 {
            seq![(0i32, 0i32), (0, 1), (1, 1), (1, 2)]
        } else {
            seq![(0i32, 1i32), (1, 0), (1, 1), (2, 0)]
        },
        Shape::L => if rot == 0 {
            seq![(0i32, 0i32), (0, 1), (0, 2), (1, 0)]
        } else if rot == 1 {
            seq![(0i32, 0i32), (1, 0), (2, 0), (2, 1)]
        } else if rot == 2 {
            seq![(1i32, 0i32), (1, 1), (1, 2), (0, 2)]
        } else {
            seq![(0i32, 0i32), (0, 1), (1, 1), (2, 1)]
        },
        Shape::J => if rot == 0 {
            seq![(0i32, 0i32), (0, 1), (0, 2), (1, 2)]
        } else if rot == 1 {
            seq![(0i32, 0i32), (1, 0), (2, 0), (0, 1)]
        } else if rot == 2 {
            seq![(0i32, 0i32), (1, 0), (1, 1), (1, 2)]
        } else {
            seq![(0i32, 1i32), (1, 1), (2, 0), (2, 1)]
        },
    }
}

/// Every offset lies within rows 0..=3 and columns -1..=3.
pub proof fn lemma_offsets_small(shape: Shape, rot: int)
    requires
        0 <= rot < 4,
    ensures
        offsets(shape, rot).len() == 4,
        forall|i: int|
            0 <= i < 4 ==> 0 <= (#[trigger] offsets(shape, rot)[i]).0 <= 3 && -1 <= offsets(
                shape,
                rot,
            )[i].1 <= 3,
{
}

/// The offsets as integer cells.
pub open spec fn as_cells(o: Seq<(i32, i32)>) -> Seq<(int, int)> {
    Seq::new(o.len(), |i: int| (o[i].0 as int, o[i].1 as int))
}

/// The offsets turned a quarter turn, so that a step down becomes a step
/// right, and then moved by (dr, dc).
pub open spec fn quarter_turn(o: Seq<(i32, i32)>, dr: int, dc: int) -> Seq<(int, int)> {
    Seq::new(o.len(), |i: int| (dr - o[i].1, dc + o[i].0))
}

/// The two lists hold the same cells.
pub open spec fn same_cells(a: Seq<(int, int)>, b: Seq<(int, int)>) -> bool {
    forall|x: (int, int)| a.contains(x) <==> b.contains(x)
}

proof fn lemma_same_cells_perm(a: Seq<(int, int)>, b: Seq<(int, int)>, p0: int, p1: int, p2: int, p3: int)
    requires
        a.len() == 4,
        b.len() == 4,
        0 <= p0 < 4 && 0 <= p1 < 4 && 0 <= p2 < 4 && 0 <= p3 < 4,
        p0 != p1 && p0 != p2 && p0 != p3 && p1 != p2 && p1 != p3 && p2 != p3,
        a[0] == b[p0],
        a[1] == b[p1],
        a[2] == b[p2],
        a[3] == b[p3],
    ensures
        same_cells(a, b),
{
    assert forall|x: (int, int)| a.contains(x) <==> b.contains(x) by {
        if a.contains(x) {
            let i = choose|i: int| 0 <= i < 4 && a[i] == x;
            if i == 0 {
                assert(b[p0] == x);
            } else if i == 1 {
                assert(b[p1] == x);
            } else if i == 2 {
                assert(b[p2] == x);
            } else {
                assert(b[p3] == x);
            }
        }
        if b.contains(x) {
            let j = choose|j: int| 0 <= j < 4 && b[j] == x;
            if j == p0 {
                assert(a[0] == x);
            } else if j == p1 {
                assert(a[1] == x);
            } else if j == p2 {
                assert(a[2] == x);
            } else {
                assert(j == p3);
                assert(a[3] == x);
            }
        }
    }
}

/// Rotating a piece turns its shape a quarter turn: the cells of rotation
/// `k + 1` are those of rotation `k` turned a quarter turn and moved, so a
/// piece keeps its shape however often it is rotated.
pub proof fn lemma_rotation_is_quarter_turn(shape: Shape, k: int)
    requires
        0 <= k < 4,
    ensures
        exists|dr: int, dc: int|
            #[trigger] same_cells(
                as_cells(offsets(shape, (k + 1) % 4)),
                quarter_turn(offsets(shape, k), dr, dc),
            ),
{
    match shape {
        Shape::I => {
            if k == 0 {
                lemma_same_cells_perm(as_cells(offsets(shape, (k + 1) % 4)), quarter_turn(offsets(shape, k), 3, 0), 3, 2, 1, 0);
            } else if k == 1 {
                lemma_same_cells_perm(as_cells(offsets(shape, (k + 1) % 4)), quarter_turn(offsets(shape, k), 0, 0), 0, 1, 2, 3);
            } else if k == 2 {
                lemma_same_cells_perm(as_cells(offsets(shape, (k + 1) % 4)), quarter_turn(offsets(shape, k), 3, 0), 3, 2, 1, 0);
            } else {
                lemma_same_cells_perm(as_cells(offsets(shape, (k + 1) % 4)), quarter_turn(offsets(shape, k), 0, 0), 0, 1, 2, 3);
            }
        },
        Shape::O => {
            if k == 0 {
                lemma_same_cells_perm(as_cells(offsets(shape, (k + 1) % 4)), quarter_turn(offsets(shape, k), 1, 0), 1, 3, 0, 2);
            } else if k == 1 {
                lemma_same_cells_perm(as_cells(offsets(shape, (k + 1) % 4)), quarter_turn(offsets(shape, k), 1, 0), 1, 3, 0, 2);
            } else if k == 2 {
                lemma_same_cells_perm(as_cells(offsets(shape, (k + 1) % 4)), quarter_turn(offsets(shape, k), 1, 0), 1, 3, 0, 2);
            } else {
                lemma_same_cells_perm(as_cells(offsets(shape, (k + 1) % 4)), quarter_turn(offsets(shape, k), 1, 0), 1, 3, 0, 2);
            }
        },
        Shape::T => {
            if k == 0 {
                lemma_same_cells_perm(as_cells(offsets(shape, (k + 1) % 4)), quarter_turn(offsets(shape, k), 2, 0), 2, 1, 0, 3);
            } else if k == 1 {
                lemma_same_cells_perm(as_cells(offsets(shape, (k + 1) % 4)), quarter_turn(offsets(shape, k), 1, 0), 0, 1, 2, 3);
            } else if k == 2 {
                lemma_same_cells_perm(as_cells(offsets(shape, (k + 1) % 4)), quarter_turn(offsets(shape, k), 2, -1), 2, 1, 0, 3);
            } else {
                lemma_same_cells_perm(as_cells(offsets(shape, (k + 1) % 4)), quarter_turn(offsets(shape, k), 0, 0), 0, 1, 2, 3);
            }
        },
        Shape::S => {
            if k == 0 {
                lemma_same_cells_perm(as_cells(offsets(shape, (k + 1) % 4)), quarter_turn(offsets(shape, k), 2, 0), 1, 0, 3, 2);
            } else if k == 1 {
                lemma_same_cells_perm(as_cells(offsets(shape, (k + 1) % 4)), quarter_turn(offsets(shape, k), 1, 0), 2, 3, 0, 1);
            } else if k == 2 {
                lemma_same_cells_perm(as_cells(offsets(shape, (k + 1) % 4)), quarter_turn(offsets(shape, k), 2, 0), 1, 0, 3, 2);
            } else {
                lemma_same_cells_perm(as_cells(offsets(shape, (k + 1) % 4)), quarter_turn(offsets(shape, k), 1, 0), 2, 3, 0, 1);
            }
        },
        Shape::Z => {
            if k == 0 {
                lemma_same_cells_perm(as_cells(offsets(shape, (k + 1) % 4)), quarter_turn(offsets(shape, k), 2, 0), 3, 1, 2, 0);
            } else if k == 1 {
                lemma_same_cells_perm(as_cells(offsets(shape, (k + 1) % 4)), quarter_turn(offsets(shape, k), 1, 0), 0, 2, 1, 3);
            } else if k == 2 {
                lemma_same_cells_perm(as_cells(offsets(shape, (k + 1) % 4)), quarter_turn(offsets(shape, k), 2, 0), 3, 1, 2, 0);
            } else {
                lemma_same_cells_perm(as_cells(offsets(shape, (k + 1) % 4)), quarter_turn(offsets(shape, k), 1, 0), 0, 2, 1, 3);
            }
        },
        Shape::L => {
            if k == 0 {
                lemma_same_cells_perm(as_cells(offsets(shape, (k + 1) % 4)), quarter_turn(offsets(shape, k), 2, 0), 2, 1, 0, 3);
            } else if k == 1 {
                lemma_same_cells_perm(as_cells(offsets(shape, (k + 1) % 4)), quarter_turn(offsets(shape, k), 1, 0), 0, 1, 2, 3);
            } else if k == 2 {
                lemma_same_cells_perm(as_cells(offsets(shape, (k + 1) % 4)), quarter_turn(offsets(shape, k), 2, 0), 3, 2, 1, 0);
            } else {
                lemma_same_cells_perm(as_cells(offsets(shape, (k + 1) % 4)), quarter_turn(offsets(shape, k), 1, 0), 1, 2, 3, 0);
            }
        },
        Shape::J => {
            if k == 0 {
                lemma_same_cells_perm(as_cells(offsets(shape, (k + 1) % 4)), quarter_turn(offsets(shape, k), 2, 0), 2, 1, 0, 3);
            } else if k == 1 {
                lemma_same_cells_perm(as_cells(offsets(shape, (k + 1) % 4)), quarter_turn(offsets(shape, k), 1, 0), 3, 0, 1, 2);
            } else if k == 2 {
                lemma_same_cells_perm(as_cells(offsets(shape, (k + 1) % 4)), quarter_turn(offsets(shape, k), 2, 0), 3, 2, 0, 1);
            } else {
                lemma_same_cells_perm(as_cells(offsets(shape, (k + 1) % 4)), quarter_turn(offsets(shape, k), 1, 0), 0, 1, 3, 2);
            }
        },
    }
}

/// The board cells covered by a piece.
pub open spec fn cell_pos(p: ActivePiece, i: int) -> (int, int) {
    let o = offsets(p.shape, p.rotation as int)[i];
    (p.row + o.0, p.col + o.1)
}

pub open spec fn board_cell(b: Board, r: int, c: int) -> Cell {
    b@[r]@[c]
}

/// Cell `i` of the piece is off the sides or the bottom of the board, or on
/// an occupied cell (cells above the top are free).
pub open spec fn cell_blocked(b: Board, p: ActivePiece, i: int) -> bool {
    let (r, c) = cell_pos(p, i);
    c < 0 || c >= 10 || r >= 20 || (r >= 0 && board_cell(b, r, c) != Cell::Empty)
}

pub open spec fn collides(b: Board, p: ActivePiece) -> bool {
    exists|i: int| 0 <= i < 4 && #[trigger] cell_blocked(b, p, i)
}

/// The piece's coordinates stay well inside `i32` when stepped by one.
pub open spec fn coords_fit(p: ActivePiece) -> bool {
    &&& p.rotation < 4
    &&& i32::MIN + 2 <= p.row <= i32::MAX - 5
    &&& i32::MIN + 2 <= p.col <= i32::MAX - 5
}

/// A piece that fits on the board sits in rows above 20 and columns 0..=9.
proof fn lemma_fits_bounds(b: Board, p: ActivePiece)
    requires
        p.rotation < 4,
        !collides(b, p),
    ensures
        p.row < 20,
        0 <= p.col + offsets(p.shape, p.rotation as int)[0].1 < 10,
        -1 <= p.col < 10,
{
    lemma_offsets_small(p.shape, p.rotation as int);
    assert(!cell_blocked(b, p, 0));
    assert(!cell_blocked(b, p, 1));
    assert(!cell_blocked(b, p, 2));
    assert(!cell_blocked(b, p, 3));
}

/// The offsets of a shape in a rotation.
pub fn rotation_offsets(shape: Shape, rot: usize) -> (o: [(i32, i32); 4])
    requires
        rot < 4,
    ensures
        o@ == offsets(shape, rot as int),
{
    match shape {
        Shape::I => if rot % 2 == 0 {
            [(0, 0), (0, 1), (0, 2), (0, 3)]
        } else {
            [(0, 0), (1, 0), (2, 0), (3, 0)]
        },
        Shape::O => [(0, 0), (0, 1), (1, 0), (1, 1)],
        Shape::T => if rot == 0 {
            [(0, 0), (0, 1), (0, 2), (1, 1)]
        } else if rot == 1 {
            [(0, 0), (1, 0), (2, 0), (1, 1)]
        } else if rot == 2 {
            [(1, 0), (1, 1), (1, 2), (0, 1)]
        } else {
            [(0, 0), (1, 0), (2, 0), (1, -1)]
        },
        Shape::S => if rot % 2 == 0 {
            [(0, 1), (0, 2), (1, 0), (1, 1)]
        } else {
            [(0, 0), (1, 0), (1, 1), (2, 1)]
        },
        Shape::Z => if rot % 2 == 0 {
            [(0, 0), (0, 1), (1, 1), (1, 2)]
        } else {
            [(0, 1), (1, 0), (1, 1), (2, 0)]
        },
        Shape::L => if rot == 0 {
            [(0, 0), (0, 1), (0, 2), (1, 0)]
        } else if rot == 1 {
            [(0, 0), (1, 0), (2, 0), (2, 1)]
        } else if rot == 2 {
            [(1, 0), (1, 1), (1, 2), (0, 2)]
        } else {
            [(0, 0), (0, 1), (1, 1), (2, 1)]
        },
        Shape::J => if rot == 0 {
            [(0, 0), (0, 1), (0, 2), (1, 2)]
        } else if rot == 1 {
            [(0, 0), (1, 0), (2, 0), (0, 1)]
        } else if rot == 2 {
            [(0, 0), (1, 0), (1, 1), (1, 2)]
        } else {
            [(0, 1), (1, 1), (2, 0), (2, 1)]
        },
    }
}

/// The shape dealt as the `n`-th piece (the order I, O, T, S, Z, L, J
/// repeats).
pub fn shape_for(n: usize) -> (s: Shape)
    ensures
        s == shape_at(n as int),
{
    let k = n % 7;
    if k == 0 {
        Shape::I
    } else if k == 1 {
        Shape::O
    } else if k == 2 {
        Shape::T
    } else if k == 3 {
        Shape::S
    } else if k == 4 {
        Shape::Z
    } else if k == 5 {
        Shape::L
    } else {
        Shape::J
    }
}

impl ActivePiece {
    /// The board cells the piece covers.
    pub fn cells(&self) -> (cells: [(i32, i32); 4])
        requires
            coords_fit(*self),
        ensures
            forall|i: int|
                0 <= i < 4 ==> cells@[i].0 == cell_pos(*self, i).0 && cells@[i].1 == cell_pos(
                    *self,
                    i,
                ).1,
    {
        let offs = rotation_offsets(self.shape, self.rotation);
        proof {
            lemma_offsets_small(self.shape, self.rotation as int);
        }
        let mut cells = [(0i32, 0i32);4];
        let mut i: usize = 0;
        while i < 4
            invariant
                0 <= i <= 4,
                coords_fit(*self),
                offs@ == offsets(self.shape, self.rotation as int),
                forall|j: int|
                    0 <= j < i ==> cells@[j].0 == cell_pos(*self, j).0 && cells@[j].1 == cell_pos(
                        *self,
                        j,
                    ).1,
            decreases 4 - i,
        {
            let (dr, dc) = offs[i];
            cells[i] = (self.row + dr, self.col + dc);
            i = i + 1;
        }
        cells
    }
}

/// Whether the piece would overlap a wall, the floor or a filled cell.
pub fn collides_on_board(board: &Board, piece: &ActivePiece) -> (hit: bool)
    requires
        coords_fit(*piece),
    ensures
        hit == collides(*board, *piece),
{
    let cells = piece.cells();
    let mut i: usize = 0;
    while i < 4
        invariant
            0 <= i <= 4,
            forall|j: int|
                0 <= j < 4 ==> cells@[j].0 == cell_pos(*piece, j).0 && cells@[j].1 == cell_pos(
                    *piece,
                    j,
                ).1,
            forall|j: int| 0 <= j < i ==> !#[trigger] cell_blocked(*board, *piece, j),
        decreases 4 - i,
    {
        let (r, c) = cells[i];
        if c < 0 || c >= BOARD_W as i32 || r >= BOARD_H as i32 {
            assert(cell_blocked(*board, *piece, i as int));
            return true;
        }
        if r >= 0 {
            let row = board[r as usize];
            match row[c as usize] {
                Cell::Empty => {},
                Cell::Filled(_) => {
                    assert(cell_blocked(*board, *piece, i as int));
                    return true;
                },
            }
        }
        i = i + 1;
    }
    false
}

// ── Clearing rows ──

pub open spec fn row_full(row: Seq<Cell>) -> bool {
    forall|c: int| 0 <= c < row.len() ==> row[c] != Cell::Empty
}

/// The rows of a board, top to bottom.
pub open spec fn rows_of(b: Board) -> Seq<Seq<Cell>> {
    Seq::new(20, |r: int| b@[r]@)
}

pub open spec fn empty_row() -> Seq<Cell> {
    Seq::new(10, |c: int| Cell::Empty)
}

/// The rows that are not full, in order.
pub open spec fn kept_rows(rows: Seq<Seq<Cell>>) -> Seq<Seq<Cell>>
    decreases rows.len(),
{
    if rows.len() == 0 {
        Seq::empty()
    } else {
        (if row_full(rows[0]) {
            Seq::empty()
        } else {
            seq![rows[0]]
        }) + kept_rows(rows.drop_first())
    }
}

/// The rows after clearing: the full rows vanish, the others fall and empty
/// rows fill the top.
pub open spec fn cleared_rows(rows: Seq<Seq<Cell>>) -> Seq<Seq<Cell>> {
    let kept = kept_rows(rows);
    Seq::new((rows.len() - kept.len()) as nat, |i: int| empty_row()) + kept
}

/// The number of full rows.
pub open spec fn full_count(rows: Seq<Seq<Cell>>) -> int {
    rows.len() - kept_rows(rows).len()
}

/// Points for clearing `n` rows at once.
pub open spec fn line_points(n: int) -> int {
    if n == 1 {
        100
    } else if n == 2 {
        300
    } else if n == 3 {
        500
    } else if n == 4 {
        800
    } else {
        0
    }
}

/// Scoring rewards clearing rows together: one row is worth 100, each of
/// two or three rows cleared at once 50 more than the row before it
/// (200n - 100 in all), four rows 800; so the points per row rise with every
/// extra row cleared at once, and clearing nothing (or more rows than a piece
/// can fill) scores nothing.
pub proof fn lemma_line_points(n: int)
    ensures
        n == 1 ==> line_points(n) == 100,
        2 <= n <= 3 ==> line_points(n) == 200 * n - 100,
        n == 4 ==> line_points(n) == 800,
        1 <= n < 4 ==> line_points(n + 1) * n > line_points(n) * (n + 1),
        2 <= n <= 4 ==> line_points(n) > n * line_points(1),
        n <= 0 || n > 4 ==> line_points(n) == 0,
{
}

proof fn lemma_kept_len(rows: Seq<Seq<Cell>>)
    ensures
        kept_rows(rows).len() <= rows.len(),
        forall|i: int|
            0 <= i < kept_rows(rows).len() ==> rows.contains(#[trigger] kept_rows(rows)[i]),
    decreases rows.len(),
{
    if rows.len() > 0 {
        lemma_kept_len(rows.drop_first());
        let rest = kept_rows(rows.drop_first());
        assert forall|i: int| 0 <= i < kept_rows(rows).len() implies rows.contains(
            #[trigger] kept_rows(rows)[i],
        ) by {
            if row_full(rows[0]) {
                assert(kept_rows(rows)[i] == rest[i]);
                let k = choose|k: int| 0 <= k < rows.drop_first().len() && rows.drop_first()[k] == rest[i];
                assert(rows[k + 1] == rest[i]);
            } else if i == 0 {
                assert(rows[0] == kept_rows(rows)[0]);
            } else {
                assert(kept_rows(rows)[i] == rest[i - 1]);
                let k = choose|k: int| 0 <= k < rows.drop_first().len() && rows.drop_first()[k] == rest[i - 1];
                assert(rows[k + 1] == rest[i - 1]);
            }
        }
    }
}

fn row_is_full(row: &[Cell; 10]) -> (full: bool)
    ensures
        full == row_full(row@),
{
    let mut c: usize = 0;
    while c < BOARD_W
        invariant
            0 <= c <= 10,
            forall|k: int| 0 <= k < c ==> row@[k] != Cell::Empty,
        decreases 10 - c,
    {
        match row[c] {
            Cell::Empty => return false,
            Cell::Filled(_) => {},
        }
        c = c + 1;
    }
    true
}

/// Removes the full rows, letting the rows above fall; returns how many
/// rows were removed.
pub fn clear_full_rows(board: &mut Board) -> (cleared: u32)
    ensures
        rows_of(*final(board)) == cleared_rows(rows_of(*old(board))),
        cleared == full_count(rows_of(*old(board))),
        cleared <= 20,
{
    let ghost rows0 = rows_of(*board);
    let mut cleared: u32 = 0;
    let mut write: usize = BOARD_H;
    let mut read: usize = BOARD_H;
    proof {
        assert(rows0.subrange(20, 20) =~= Seq::<Seq<Cell>>::empty());
        assert(rows_of(*board).subrange(20, 20) =~= Seq::<Seq<Cell>>::empty());
    }
    while read > 0
        invariant
            0 <= read <= write <= 20,
            rows0 == rows_of(*old(board)),
            cleared == write - read,
            forall|r: int| 0 <= r < read ==> (#[trigger] board@[r])@ == rows0[r],
            rows_of(*board).subrange(write as int, 20) == kept_rows(rows0.subrange(read as int, 20)),
        decreases read,
    {
        let r = read - 1;
        proof {
            assert(rows0.subrange(r as int, 20).drop_first() =~= rows0.subrange(read as int, 20));
            assert(rows0.subrange(r as int, 20)[0] == rows0[r as int]);
        }
        let row = board[r];
        if row_is_full(&row) {
            cleared = cleared + 1;
            proof {
                lemma_kept_len(rows0.subrange(read as int, 20));
            }
        } else {
            let ghost before = rows_of(*board);
            board[write - 1] = row;
            proof {
                assert(rows_of(*board).subrange(write - 1, 20) =~= seq![rows0[r as int]]
                    + before.subrange(write as int, 20));
            }
            write = write - 1;
        }
        read = r;
    }
    proof {
        assert(rows0.subrange(0, 20) =~= rows0);
        lemma_kept_len(rows0);
    }
    let ghost kept = kept_rows(rows0);
    let mut w: usize = write;
    while w > 0
        invariant
            0 <= w <= write <= 20,
            kept == kept_rows(rows0),
            rows_of(*board).subrange(write as int, 20) == kept,
            forall|r: int| w <= r < write ==> (#[trigger] board@[r])@ == empty_row(),
        decreases w,
    {
        let ghost before = rows_of(*board);
        board[w - 1] = [Cell::Empty;10];
        proof {
            assert(board@[w - 1]@ =~= empty_row());
            assert(rows_of(*board).subrange(write as int, 20) =~= before.subrange(write as int, 20));
        }
        w = w - 1;
    }
    proof {
        assert(rows_of(*board) =~= cleared_rows(rows0));
    }
    cleared
}

// ── Locking a piece ──

/// Cell (r, c) is one of the first `n` cells of the piece.
pub open spec fn covers(p: ActivePiece, n: int, r: int, c: int) -> bool {
    exists|i: int| 0 <= i < n && #[trigger] cell_pos(p, i) == (r, c)
}

/// The rows of the board with the first `n` cells of the piece written in
/// (cells outside the board are dropped).
pub open spec fn stamp_upto(b: Board, p: ActivePiece, n: int) -> Seq<Seq<Cell>> {
    Seq::new(
        20,
        |r: int|
            Seq::new(
                10,
                |c: int|
                    if covers(p, n, r, c) {
                        Cell::Filled(p.shape)
                    } else {
                        board_cell(b, r, c)
                    },
            ),
    )
}

/// The rows of the board once the piece is written in.
pub open spec fn stamp(b: Board, p: ActivePiece) -> Seq<Seq<Cell>> {
    stamp_upto(b, p, 4)
}

/// The piece `k` rows lower.
pub open spec fn lowered(p: ActivePiece, k: int) -> ActivePiece {
    ActivePiece { row: (p.row + k) as i32, ..p }
}

/// `q` is where `p` comes to rest when dropped straight down.
pub open spec fn landing(b: Board, p: ActivePiece, q: ActivePiece) -> bool {
    &&& q.shape == p.shape
    &&& q.rotation == p.rotation
    &&& q.col == p.col
    &&& q.row >= p.row
    &&& forall|k: int| 0 <= k <= q.row - p.row ==> !#[trigger] collides(b, lowered(p, k))
    &&& collides(b, lowered(q, 1))
}

/// The piece new rounds and locks deal as the `n`-th piece.
pub open spec fn spawn_piece_at(n: int) -> ActivePiece {
    ActivePiece { shape: shape_at(n), rotation: 0, row: SPAWN_ROW, col: SPAWN_COL }
}

/// Outcome of a game tick.
#[derive(Clone, Copy, PartialEq, Eq, Debug, Structural)]
pub struct TickResult {
    /// The game was running: another frame is wanted.
    pub ran: bool,
    /// Soft-dropping stopped for lack of Down keys.
    pub soft_drop_expired: bool,
    /// The piece dropped a row (or locked): the drop clock restarts.
    pub dropped: bool,
}

/// What a key did.
#[derive(Clone, Copy, PartialEq, Eq, Debug, Structural)]
pub enum KeyResult {
    Ignored,
    Handled,
    /// Down was pressed: soft-dropping (re)starts now.
    SoftDropPressed,
    /// Down was released: soft-dropping stops.
    SoftDropReleased,
}

/// Writes the piece's cells that lie on the board into it.
fn stamp_piece(board: &mut Board, piece: ActivePiece)
    requires
        coords_fit(piece),
    ensures
        rows_of(*final(board)) == stamp(*old(board), piece),
{
    let cells = piece.cells();
    let ghost b0 = *board;
    proof {
        assert forall|r: int| 0 <= r < 20 implies #[trigger] rows_of(*board)[r]
            =~= stamp_upto(b0, piece, 0)[r] by {}
        assert(rows_of(*board) =~= stamp_upto(b0, piece, 0));
    }
    let mut i: usize = 0;
    while i < 4
        invariant
            0 <= i <= 4,
            coords_fit(piece),
            forall|j: int|
                0 <= j < 4 ==> cells@[j].0 == cell_pos(piece, j).0 && cells@[j].1
                    == cell_pos(piece, j).1,
            rows_of(*board) == stamp_upto(b0, piece, i as int),
        decreases 4 - i,
    {
        let (r, c) = cells[i];
        let ghost before = *board;
        if r >= 0 && r < BOARD_H as i32 && c >= 0 && c < BOARD_W as i32 {
            let mut row = board[r as usize];
            row[c as usize] = Cell::Filled(piece.shape);
            board[r as usize] = row;
        }
        proof {
            assert forall|rr: int, cc: int| 0 <= rr < 20 && 0 <= cc < 10 implies (
            #[trigger] (*board)@[rr]@[cc]) == stamp_upto(b0, piece, i + 1)[rr][cc] by {
                assert(rows_of(before)[rr] == before@[rr]@);
                assert(before@[rr]@[cc] == stamp_upto(b0, piece, i as int)[rr][cc]);
                if covers(piece, i + 1, rr, cc) && !covers(piece, i as int, rr, cc) {
                    assert(cell_pos(piece, i as int) == (rr, cc));
                }
                if covers(piece, i as int, rr, cc) {
                    let j = choose|j: int| 0 <= j < i && #[trigger] cell_pos(piece, j) == (rr, cc);
                    assert(covers(piece, i + 1, rr, cc));
                }
                if !covers(piece, i + 1, rr, cc) {
                    assert(cell_pos(piece, i as int) != (rr, cc));
                }
            }
            assert forall|rr: int| 0 <= rr < 20 implies #[trigger] rows_of(*board)[rr]
                =~= stamp_upto(b0, piece, i + 1)[rr] by {}
            assert(rows_of(*board) =~= stamp_upto(b0, piece, i + 1));
        }
        i = i + 1;
    }
}

/// The state of a game of Tetris, as the contracts speak of it.
pub struct TetrisState {
    pub board: Board,
    pub piece: Option<ActivePiece>,
    pub score: u32,
    pub lines_cleared: u32,
    pub game_over: bool,
    pub soft_drop: bool,
    pub next_piece_index: usize,
}

pub struct TetrisGame {
    board: Board,
    piece: Option<ActivePiece>,
    score: u32,
    lines_cleared: u32,
    game_over: bool,
    soft_drop: bool,
    next_piece_index: usize,
}

impl View for TetrisGame {
    type V = TetrisState;

    closed spec fn view(&self) -> TetrisState {
        TetrisState {
            board: self.board,
            piece: self.piece,
            score: self.score,
            lines_cleared: self.lines_cleared,
            game_over: self.game_over,
            soft_drop: self.soft_drop,
            next_piece_index: self.next_piece_index,
        }
    }
}

impl TetrisState {
    /// A piece is falling exactly while the game runs, and the falling piece
    /// fits on the board.
    pub open spec fn wf(&self) -> bool {
        &&& self.piece is None <==> self.game_over
        &&& self.piece matches Some(p) ==> coords_fit(p) && !collides(self.board, p)
    }

    /// Locking `p` keeps the counters in range: the score and the line count
    /// take the rows it completes, the piece count the next piece.
    pub open spec fn lock_fits(&self, p: ActivePiece) -> bool {
        let n = full_count(stamp(self.board, p));
        &&& self.score + line_points(n) <= u32::MAX
        &&& self.lines_cleared + n <= u32::MAX
        &&& self.next_piece_index < usize::MAX
    }

    /// When a drop tick would lock the piece, the lock keeps the counters in
    /// range.
    pub open spec fn drop_fits(&self) -> bool {
        match self.piece {
            Some(p) => collides(self.board, lowered(p, 1)) ==> self.lock_fits(p),
            None => true,
        }
    }

    /// The lock at the end of a hard drop keeps the counters in range.
    pub open spec fn hard_drop_fits(&self) -> bool {
        match self.piece {
            Some(p) => forall|q: ActivePiece|
                #![trigger self.lock_fits(q)]
                landing(self.board, p, q) ==> self.lock_fits(q),
            None => true,
        }
    }

    pub open spec fn with_piece(self, q: Option<ActivePiece>) -> TetrisState {
        TetrisState { piece: q, ..self }
    }

    pub open spec fn with_soft(self, b: bool) -> TetrisState {
        TetrisState { soft_drop: b, ..self }
    }

    /// `post` is `self` after dealing the next piece onto `self`'s board.
    pub open spec fn spawned(self, post: TetrisState) -> bool {
        let q = spawn_piece_at(self.next_piece_index as int);
        &&& post.board == self.board
        &&& post.score == self.score
        &&& post.lines_cleared == self.lines_cleared
        &&& post.next_piece_index == self.next_piece_index + 1
        &&& !post.soft_drop
        &&& if collides(self.board, q) {
            post.game_over && post.piece is None
        } else {
            post.game_over == self.game_over && post.piece == Some(q)
        }
    }

    /// `post` is `self` after its falling piece locked: the piece is
    /// written into the board, full rows are cleared and scored, and the
    /// next piece is dealt.
    pub open spec fn locked(self, post: TetrisState) -> bool {
        match self.piece {
            None => post == self,
            Some(p) => {
                let filled = stamp(self.board, p);
                let n = full_count(filled);
                exists|b: Board|
                    rows_of(b) == cleared_rows(filled) && TetrisState {
                        board: b,
                        piece: None,
                        score: (self.score + line_points(n)) as u32,
                        lines_cleared: (self.lines_cleared + n) as u32,
                        ..self
                    }.spawned(post)
            },
        }
    }

    /// `post` is `self` after trying to shift the piece by (dr, dc).
    pub open spec fn shifted(self, dr: int, dc: int, post: TetrisState) -> bool {
        match self.piece {
            None => post == self,
            Some(p) => {
                let q = ActivePiece { row: (p.row + dr) as i32, col: (p.col + dc) as i32, ..p };
                if collides(self.board, q) {
                    post == self
                } else {
                    post == self.with_piece(Some(q))
                }
            },
        }
    }

    /// `post` is `self` after trying to rotate the piece a quarter turn,
    /// kicking it a column left or right when it does not fit in place.
    pub open spec fn rotated(self, post: TetrisState) -> bool {
        match self.piece {
            None => post == self,
            Some(p) => {
                let r = ActivePiece { rotation: ((p.rotation + 1) % 4) as usize, ..p };
                let left = ActivePiece { col: (p.col - 1) as i32, ..r };
                let right = ActivePiece { col: (p.col + 1) as i32, ..r };
                if !collides(self.board, r) {
                    post == self.with_piece(Some(r))
                } else if !collides(self.board, left) {
                    post == self.with_piece(Some(left))
                } else if !collides(self.board, right) {
                    post == self.with_piece(Some(right))
                } else {
                    post == self
                }
            },
        }
    }

    /// `post` is `self` after the piece fell a row, or locked when it could
    /// not.
    pub open spec fn drop_ticked(self, post: TetrisState) -> bool {
        match self.piece {
            None => post == self,
            Some(p) => if collides(self.board, lowered(p, 1)) {
                self.locked(post)
            } else {
                post == self.with_piece(Some(lowered(p, 1)))
            },
        }
    }

    /// `post` is `self` after the piece dropped all the way down and locked.
    pub open spec fn hard_dropped(self, post: TetrisState) -> bool {
        match self.piece {
            None => post == self,
            Some(p) => exists|q: ActivePiece|
                landing(self.board, p, q) && #[trigger] self.with_piece(Some(q)).locked(post),
        }
    }

    /// `post` is a new game: empty board, zero score, the first piece dealt.
    pub open spec fn is_fresh(post: TetrisState) -> bool {
        &&& post.wf()
        &&& rows_of(post.board) == Seq::new(20, |r: int| empty_row())
        &&& post.score == 0
        &&& post.lines_cleared == 0
        &&& !post.game_over
        &&& !post.soft_drop
        &&& post.next_piece_index == 1
        &&& post.piece == Some(spawn_piece_at(0))
    }
}

impl TetrisGame {
    pub open spec fn board_view(&self) -> Board {
        self@.board
    }

    pub open spec fn piece_view(&self) -> Option<ActivePiece> {
        self@.piece
    }

    pub open spec fn score_view(&self) -> nat {
        self@.score as nat
    }

    pub open spec fn lines_view(&self) -> nat {
        self@.lines_cleared as nat
    }

    pub open spec fn over_view(&self) -> bool {
        self@.game_over
    }

    pub open spec fn soft_view(&self) -> bool {
        self@.soft_drop
    }

    pub open spec fn next_view(&self) -> nat {
        self@.next_piece_index as nat
    }

    pub open spec fn wf(&self) -> bool {
        self@.wf()
    }


    pub open spec fn spawned(self, post: TetrisGame) -> bool {
        self@.spawned(post@)
    }

    pub open spec fn locked(self, post: TetrisGame) -> bool {
        self@.locked(post@)
    }

    pub open spec fn shifted(self, dr: int, dc: int, post: TetrisGame) -> bool {
        self@.shifted(dr, dc, post@)
    }

    pub open spec fn rotated(self, post: TetrisGame) -> bool {
        self@.rotated(post@)
    }

    pub open spec fn drop_ticked(self, post: TetrisGame) -> bool {
        self@.drop_ticked(post@)
    }

    pub open spec fn hard_dropped(self, post: TetrisGame) -> bool {
        self@.hard_dropped(post@)
    }

    pub open spec fn is_fresh(post: TetrisGame) -> bool {
        TetrisState::is_fresh(post@)
    }

    /// A new game with the first piece (an I) falling.
    pub fn new() -> (g: Self)
        ensures
            Self::is_fresh(g),
    {
        let mut game = TetrisGame {
            board: [[Cell::Empty;10];20],
            piece: None,
            score: 0,
            lines_cleared: 0,
            game_over: false,
            soft_drop: false,
            next_piece_index: 0,
        };
        proof {
            assert forall|r: int| 0 <= r < 20 implies #[trigger] rows_of(game.board)[r] =~= empty_row() by {}
            assert(rows_of(game.board) =~= Seq::new(20, |r: int| empty_row()));
        }
        game.spawn_piece();
        game
    }

    /// Deals the next piece at the top of the board; the game ends when it
    /// does not fit.
    fn spawn_piece(&mut self)
        requires
            old(self).next_piece_index < usize::MAX,
            old(self).piece is None,
        ensures
            old(self).spawned(*final(self)),
    {
        self.soft_drop = false;
        let shape = shape_for(self.next_piece_index);
        self.next_piece_index = self.next_piece_index + 1;
        let piece = ActivePiece { shape, rotation: 0, row: SPAWN_ROW, col: (BOARD_W as i32) / 2 - 1 };
        // Check if spawn position is blocked
        if collides_on_board(&self.board, &piece) {
            self.game_over = true;
            self.piece = None;
        } else {
            self.piece = Some(piece);
        }
    }

    /// Clears the full rows and adds them to the line count and the score.
    fn clear_lines(&mut self)
        requires
            old(self).score + line_points(full_count(rows_of(old(self).board))) <= u32::MAX,
            old(self).lines_cleared + full_count(rows_of(old(self).board)) <= u32::MAX,
        ensures
            rows_of(final(self).board) == cleared_rows(rows_of(old(self).board)),
            final(self).lines_cleared == old(self).lines_cleared + full_count(
                rows_of(old(self).board),
            ),
            final(self).score == old(self).score + line_points(full_count(rows_of(old(self).board))),
            final(self).piece == old(self).piece,
            final(self).game_over == old(self).game_over,
            final(self).soft_drop == old(self).soft_drop,
            final(self).next_piece_index == old(self).next_piece_index,
    {
        let cleared = clear_full_rows(&mut self.board);
        self.lines_cleared = self.lines_cleared + cleared;
        self.score = self.score + match cleared {
            1 => 100,
            2 => 300,
            3 => 500,
            4 => 800,
            _ => 0,
        };
    }

    /// Writes the falling piece into the board, clears full rows and deals
    /// the next piece.
    fn lock_piece(&mut self)
        requires
            old(self).wf(),
            match old(self).piece_view() {
                Some(p) => old(self)@.lock_fits(p),
                None => true,
            },
        ensures
            final(self).wf(),
            old(self).locked(*final(self)),
    {
        let ghost pre = *self;
        if let Some(piece) = self.piece {
            self.piece = None;
            stamp_piece(&mut self.board, piece);
            let ghost stamped = self.board;
            self.clear_lines();
            let ghost mid = *self;
            self.spawn_piece();
            proof {
                assert(rows_of(stamped) == stamp(pre.board, piece));
                assert(rows_of(mid.board) == cleared_rows(stamp(pre.board, piece)));
                assert(mid@ == TetrisState {
                    board: mid.board,
                    piece: None,
                    score: (pre.score + line_points(full_count(stamp(pre.board, piece)))) as u32,
                    lines_cleared: (pre.lines_cleared + full_count(stamp(pre.board, piece))) as u32,
                    ..pre@
                });
            }
        }
    }
}

/// A tick after these times moves the piece down: the game is running and
/// the drop interval has passed (the fast one while soft-dropping, which
/// ends once no Down key came within the grace period).
pub open spec fn tick_drops(s: TetrisState, since_soft_drop_key: Option<u128>, since_last_drop: u128) -> bool {
    let expired = s.soft_drop && (since_soft_drop_key matches Some(t) && t > SOFT_DROP_GRACE_NANOS);
    let interval = if s.soft_drop && !expired {
        FAST_TICK_NANOS
    } else {
        TICK_NANOS
    };
    !s.game_over && since_last_drop >= interval
}

/// The shift by (dr, dc) keeps the falling piece's coordinates in range.
pub open spec fn shift_fits(g: TetrisGame, dr: int, dc: int) -> bool {
    g.piece_view() matches Some(p) ==> coords_fit(
        ActivePiece { row: (p.row + dr) as i32, col: (p.col + dc) as i32, ..p },
    ) && i32::MIN <= p.row + dr <= i32::MAX && i32::MIN <= p.col + dc <= i32::MAX
}

impl TetrisGame {
    /// Shifts the piece by (dr, dc) unless it would collide; returns whether
    /// it moved.
    pub fn try_move(&mut self, dr: i32, dc: i32) -> (moved: bool)
        requires
            old(self).wf(),
            shift_fits(*old(self), dr as int, dc as int),
        ensures
            final(self).wf(),
            old(self).shifted(dr as int, dc as int, *final(self)),
            moved == (old(self).piece_view() matches Some(p) && !collides(
                old(self).board_view(),
                ActivePiece { row: (p.row + dr) as i32, col: (p.col + dc) as i32, ..p },
            )),
    {
        if let Some(piece) = self.piece {
            let moved = ActivePiece {
                shape: piece.shape,
                rotation: piece.rotation,
                row: piece.row + dr,
                col: piece.col + dc,
            };
            if collides_on_board(&self.board, &moved) {
                false
            } else {
                self.piece = Some(moved);
                true
            }
        } else {
            false
        }
    }

    /// Rotates the piece a quarter turn, trying a kick one column left, then
    /// one column right, when it does not fit in place.
    pub fn try_rotate(&mut self)
        requires
            old(self).wf(),
        ensures
            final(self).wf(),
            old(self).rotated(*final(self)),
    {
        if let Some(piece) = self.piece {
            proof {
                lemma_fits_bounds(self.board, piece);
            }
            let rotated = ActivePiece {
                shape: piece.shape,
                rotation: (piece.rotation + 1) % 4,
                row: piece.row,
                col: piece.col,
            };
            if !collides_on_board(&self.board, &rotated) {
                self.piece = Some(rotated);
                return;
            }
            // Try wall kicks: left, right
            let left = ActivePiece { col: piece.col - 1, ..rotated };
            if !collides_on_board(&self.board, &left) {
                self.piece = Some(left);
                return;
            }
            let right = ActivePiece { col: piece.col + 1, ..rotated };
            if !collides_on_board(&self.board, &right) {
                self.piece = Some(right);
            }
        }
    }

    /// Moves the piece down a row, locking it when it cannot fall.
    pub fn drop_tick(&mut self)
        requires
            old(self).wf(),
            old(self)@.drop_fits(),
        ensures
            final(self).wf(),
            old(self).drop_ticked(*final(self)),
    {
        if let Some(piece) = self.piece {
            proof {
                lemma_fits_bounds(self.board, piece);
            }
        }
        if !self.try_move(1, 0) {
            self.lock_piece();
        }
    }

    /// Drops the piece straight down as far as it goes and locks it.
    pub fn hard_drop(&mut self)
        requires
            old(self).wf(),
            old(self)@.hard_drop_fits(),
        ensures
            final(self).wf(),
            old(self).hard_dropped(*final(self)),
    {
        let ghost pre = *self;
        match self.piece {
            None => {
                self.lock_piece();
            },
            Some(p0) => {
                proof {
                    assert(lowered(p0, 0) == p0);
                }
                loop
                    invariant_except_break
                        self.wf(),
                        self.piece matches Some(q) && q.shape == p0.shape && q.rotation
                            == p0.rotation && q.col == p0.col && q.row >= p0.row && forall|k: int|
                            0 <= k <= q.row - p0.row ==> !#[trigger] collides(pre.board, lowered(p0, k)),
                        self@ == pre@.with_piece(self.piece),
                    ensures
                        self.wf(),
                        self.piece matches Some(q) && landing(pre.board, p0, q),
                        self@ == pre@.with_piece(self.piece),
                    decreases 20 - self.piece->0.row,
                {
                    let ghost q = self.piece->0;
                    proof {
                        lemma_fits_bounds(self.board, q);
                    }
                    if !self.try_move(1, 0) {
                        break;
                    }
                    proof {
                        assert(lowered(p0, q.row + 1 - p0.row) == lowered(q, 1));
                    }
                }
                let ghost q = self.piece->0;
                proof {
                    assert(pre@.lock_fits(q));
                }
                self.lock_piece();
                proof {
                    assert(pre@.with_piece(Some(q)).locked(self@));
                }
            },
        }
    }

    /// Where the piece would come to rest if dropped now.
    pub fn ghost_piece(&self) -> (g: Option<ActivePiece>)
        requires
            self.wf(),
        ensures
            match self.piece_view() {
                None => g is None,
                Some(p) => g matches Some(q) && landing(self.board_view(), p, q),
            },
    {
        match self.piece {
            None => None,
            Some(p0) => {
                let mut ghost_p = p0;
                proof {
                    assert(lowered(p0, 0) == p0);
                }
                loop
                    invariant_except_break
                        coords_fit(ghost_p),
                        !collides(self.board, ghost_p),
                        ghost_p.shape == p0.shape && ghost_p.rotation == p0.rotation && ghost_p.col
                            == p0.col && ghost_p.row >= p0.row,
                        forall|k: int|
                            0 <= k <= ghost_p.row - p0.row ==> !#[trigger] collides(
                                self.board,
                                lowered(p0, k),
                            ),
                    ensures
                        landing(self.board, p0, ghost_p),
                    decreases 20 - ghost_p.row,
                {
                    proof {
                        lemma_fits_bounds(self.board, ghost_p);
                    }
                    let dropped = ActivePiece { row: ghost_p.row + 1, ..ghost_p };
                    if collides_on_board(&self.board, &dropped) {
                        break;
                    }
                    proof {
                        assert(lowered(p0, dropped.row - p0.row) == dropped);
                    }
                    ghost_p = dropped;
                }
                Some(ghost_p)
            },
        }
    }

    /// Starts a new game.
    pub fn reset(&mut self)
        ensures
            Self::is_fresh(*final(self)),
    {
        self.board = [[Cell::Empty;10];20];
        self.piece = None;
        self.score = 0;
        self.lines_cleared = 0;
        self.game_over = false;
        self.soft_drop = false;
        self.next_piece_index = 0;
        proof {
            assert forall|r: int| 0 <= r < 20 implies #[trigger] rows_of(self.board)[r] =~= empty_row() by {}
            assert(rows_of(self.board) =~= Seq::new(20, |r: int| empty_row()));
        }
        self.spawn_piece();
    }

    /// Handles a key: Left/Right shift the piece, Up/Space rotate it, Down
    /// soft-drops (one row now, faster ticks while held), Enter hard-drops;
    /// once the game is over Enter/Space start a new game.
    pub fn handle_key_event(&mut self, key: KeyInput) -> (res: KeyResult)
        requires
            old(self).wf(),
            key.kind != KeyKind::Release && !old(self).over_view() && key.key == Key::Down
                ==> old(self)@.drop_fits(),
            key.kind != KeyKind::Release && !old(self).over_view() && key.key == Key::Enter
                ==> old(self)@.hard_drop_fits(),
        ensures
            final(self).wf(),
            key.kind == KeyKind::Release ==> if key.key == Key::Down {
                res == KeyResult::SoftDropReleased && final(self)@ == old(self)@.with_soft(false)
            } else {
                res == KeyResult::Ignored && *final(self) == *old(self)
            },
            key.kind != KeyKind::Release && old(self).over_view() ==> if crate::input::is_restart_key(
                key.key,
            ) {
                res == KeyResult::Handled && Self::is_fresh(*final(self))
            } else {
                res == KeyResult::Ignored && *final(self) == *old(self)
            },
            key.kind != KeyKind::Release && !old(self).over_view() ==> match key.key {
                Key::Left => res == KeyResult::Handled && old(self).shifted(0, -1, *final(self)),
                Key::Right => res == KeyResult::Handled && old(self).shifted(0, 1, *final(self)),
                Key::Up | Key::Char(' ') => res == KeyResult::Handled && old(self).rotated(
                    *final(self),
                ),
                Key::Down => res == KeyResult::SoftDropPressed && old(self)@.with_soft(
                    true,
                ).drop_ticked(final(self)@),
                Key::Enter => res == KeyResult::Handled && old(self).hard_dropped(*final(self)),
                _ => res == KeyResult::Ignored && *final(self) == *old(self),
            },
    {
        if key.kind == KeyKind::Release {
            if key.key == Key::Down {
                self.soft_drop = false;
                return KeyResult::SoftDropReleased;
            }
            return KeyResult::Ignored;
        }

        if self.game_over {
            if crate::input::restart_key(key.key) {
                self.reset();
                return KeyResult::Handled;
            }
            return KeyResult::Ignored;
        }
        if let Some(piece) = self.piece {
            proof {
                lemma_fits_bounds(self.board, piece);
            }
        }
        match key.key {
            Key::Left => {
                self.try_move(0, -1);
                KeyResult::Handled
            },
            Key::Right => {
                self.try_move(0, 1);
                KeyResult::Handled
            },
            Key::Up => {
                self.try_rotate();
                KeyResult::Handled
            },
            Key::Char(c) => {
                if c == ' ' {
                    self.try_rotate();
                    KeyResult::Handled
                } else {
                    KeyResult::Ignored
                }
            },
            Key::Down => {
                self.soft_drop = true;
                self.drop_tick();
                KeyResult::SoftDropPressed
            },
            Key::Enter => {
                // Hard drop
                self.hard_drop();
                KeyResult::Handled
            },
            _ => KeyResult::Ignored,
        }
    }

    /// Advances the game clock. `since_soft_drop_key` is the time since the
    /// last Down key (if soft-dropping), `since_last_drop` the time since
    /// the piece last fell, both in nanoseconds: soft-dropping stops after
    /// the grace period, and the piece falls once the (fast or normal) drop
    /// interval has passed.
    pub fn tick(&mut self, since_soft_drop_key: Option<u128>, since_last_drop: u128) -> (res: TickResult)
        requires
            old(self).wf(),
            tick_drops(old(self)@, since_soft_drop_key, since_last_drop) ==> old(self)@.drop_fits(),
        ensures
            final(self).wf(),
            old(self).over_view() ==> !res.ran && !res.soft_drop_expired && !res.dropped
                && *final(self) == *old(self),
            !old(self).over_view() ==> {
                let expired = old(self).soft_view() && (since_soft_drop_key matches Some(t) && t
                    > SOFT_DROP_GRACE_NANOS);
                let soft = old(self).soft_view() && !expired;
                let interval = if soft {
                    FAST_TICK_NANOS
                } else {
                    TICK_NANOS
                };
                &&& res.ran
                &&& res.soft_drop_expired == expired
                &&& res.dropped == (since_last_drop >= interval)
                &&& if since_last_drop >= interval {
                    old(self)@.with_soft(soft).drop_ticked(final(self)@)
                } else {
                    final(self)@ == old(self)@.with_soft(soft)
                }
            },
    {
        if self.game_over {
            return TickResult { ran: false, soft_drop_expired: false, dropped: false };
        }
        let expired = self.soft_drop && match since_soft_drop_key {
            Some(t) => t > SOFT_DROP_GRACE_NANOS,
            None => false,
        };
        if expired {
            self.soft_drop = false;
        }
        let interval = if self.soft_drop {
            FAST_TICK_NANOS
        } else {
            TICK_NANOS
        };
        let dropped = since_last_drop >= interval;
        if dropped {
            self.drop_tick();
        }
        TickResult { ran: true, soft_drop_expired: expired, dropped }
    }

    /// Whether a drop tick now would keep the counters in range.
    pub fn drop_has_room(&self) -> (b: bool)
        requires
            self.wf(),
        ensures
            b == self@.drop_fits(),
    {
        match self.piece {
            None => true,
            Some(p) => {
                proof {
                    lemma_fits_bounds(self.board, p);
                }
                let below = ActivePiece { row: p.row + 1, ..p };
                if collides_on_board(&self.board, &below) {
                    self.lock_has_room(p)
                } else {
                    true
                }
            },
        }
    }

    /// Whether a hard drop now would keep the counters in range.
    pub fn hard_drop_has_room(&self) -> (b: bool)
        requires
            self.wf(),
        ensures
            b == self@.hard_drop_fits(),
    {
        match self.ghost_piece() {
            None => true,
            Some(g) => {
                let p = self.piece.unwrap();
                proof {
                    lemma_fits_bounds(self.board, p);
                    assert(lowered(p, g.row - p.row) == g);
                    lemma_fits_bounds(self.board, g);
                    assert forall|q: ActivePiece| landing(self.board, p, q) implies #[trigger] self@.lock_fits(q)
                        == self@.lock_fits(g) by {
                        lemma_landing_unique(self.board, p, q, g);
                    }
                }
                self.lock_has_room(g)
            },
        }
    }

    /// Whether locking `p` now would keep the counters in range.
    fn lock_has_room(&self, p: ActivePiece) -> (b: bool)
        requires
            coords_fit(p),
        ensures
            b == self@.lock_fits(p),
    {
        let mut board = self.board;
        stamp_piece(&mut board, p);
        let n = clear_full_rows(&mut board);
        let points: u32 = match n {
            1 => 100,
            2 => 300,
            3 => 500,
            4 => 800,
            _ => 0,
        };
        self.score <= u32::MAX - points && self.lines_cleared <= u32::MAX - n
            && self.next_piece_index < usize::MAX
    }

    /// Whether a tick after these times would move the piece down.
    pub fn drop_due(&self, since_soft_drop_key: Option<u128>, since_last_drop: u128) -> (b: bool)
        ensures
            b == tick_drops(self@, since_soft_drop_key, since_last_drop),
    {
        if self.game_over {
            return false;
        }
        let expired = self.soft_drop && match since_soft_drop_key {
            Some(t) => t > SOFT_DROP_GRACE_NANOS,
            None => false,
        };
        let interval = if self.soft_drop && !expired {
            FAST_TICK_NANOS
        } else {
            TICK_NANOS
        };
        since_last_drop >= interval
    }

    pub fn is_game_over(&self) -> (b: bool)
        ensures
            b == self.over_view(),
    {
        self.game_over
    }

    pub fn score(&self) -> (s: u32)
        ensures
            s == self.score_view(),
    {
        self.score
    }

    pub fn lines_cleared(&self) -> (n: u32)
        ensures
            n == self.lines_view(),
    {
        self.lines_cleared
    }

    pub fn is_soft_dropping(&self) -> (b: bool)
        ensures
            b == self.soft_view(),
    {
        self.soft_drop
    }

    pub fn piece(&self) -> (p: Option<ActivePiece>)
        ensures
            p == self.piece_view(),
    {
        self.piece
    }

    /// The content of the board cell in row `row` (0 is the top), column `col`.
    pub fn cell_at(&self, row: usize, col: usize) -> (c: Cell)
        requires
            row < BOARD_H,
            col < BOARD_W,
        ensures
            c == board_cell(self.board_view(), row as int, col as int),
    {
        let r = self.board[row];
        r[col]
    }

    /// The shape that will be dealt next.
    pub fn next_shape(&self) -> (s: Shape)
        ensures
            s == shape_at(self.next_view() as int),
    {
        shape_for(self.next_piece_index)
    }
}

/// Clearing leaves the board the same height, the non-full rows in their
/// order at the bottom, and no full row anywhere.
pub proof fn lemma_cleared_rows(rows: Seq<Seq<Cell>>)
    ensures
        cleared_rows(rows).len() == rows.len(),
        cleared_rows(rows).subrange(full_count(rows), rows.len() as int) == kept_rows(rows),
        forall|r: int| 0 <= r < cleared_rows(rows).len() ==> !row_full(#[trigger] cleared_rows(rows)[r]),
        0 <= full_count(rows) <= rows.len(),
{
    lemma_kept_len(rows);
    lemma_kept_not_full(rows);
    let c = cleared_rows(rows);
    let n = full_count(rows);
    assert(c.subrange(n, rows.len() as int) =~= kept_rows(rows));
    assert forall|r: int| 0 <= r < c.len() implies !row_full(#[trigger] c[r]) by {
        if r < n {
            assert(c[r] == empty_row());
            assert(empty_row()[0] == Cell::Empty);
        } else {
            assert(c[r] == kept_rows(rows)[r - n]);
        }
    }
}

proof fn lemma_kept_not_full(rows: Seq<Seq<Cell>>)
    ensures
        forall|i: int| 0 <= i < kept_rows(rows).len() ==> !row_full(#[trigger] kept_rows(rows)[i]),
    decreases rows.len(),
{
    if rows.len() > 0 {
        lemma_kept_not_full(rows.drop_first());
        let rest = kept_rows(rows.drop_first());
        assert forall|i: int| 0 <= i < kept_rows(rows).len() implies !row_full(
            #[trigger] kept_rows(rows)[i],
        ) by {
            if row_full(rows[0]) {
                assert(kept_rows(rows)[i] == rest[i]);
            } else if i > 0 {
                assert(kept_rows(rows)[i] == rest[i - 1]);
            }
        }
    }
}

impl TetrisGame {
    /// In a well-formed game a piece is falling exactly while the game is
    /// running, and it never overlaps the walls, the floor or the stack.
    pub proof fn lemma_piece_fits(self)
        requires
            self.wf(),
        ensures
            self.piece_view() is None <==> self.over_view(),
            self.piece_view() matches Some(p) ==> !collides(self.board_view(), p) && p.rotation < 4,
    {
    }
}

// ── What each board cell shows ──

/// A piece comes to rest in one place only.
pub proof fn lemma_landing_unique(b: Board, p: ActivePiece, q1: ActivePiece, q2: ActivePiece)
    requires
        landing(b, p, q1),
        landing(b, p, q2),
    ensures
        q1 == q2,
{
    if q1.row < q2.row {
        let k = q1.row - p.row + 1;
        assert(lowered(p, k) == lowered(q1, 1));
        assert(!collides(b, lowered(p, k)));
    } else if q2.row < q1.row {
        let k = q2.row - p.row + 1;
        assert(lowered(p, k) == lowered(q2, 1));
        assert(!collides(b, lowered(p, k)));
    }
}

impl TetrisGame {
    /// A hard drop locks the piece exactly where its outline shows it coming
    /// to rest.
    pub proof fn lemma_hard_drop_lands_on_outline(self, post: TetrisGame, g: ActivePiece)
        requires
            self.piece_view() matches Some(p) && landing(self.board_view(), p, g),
            self.hard_dropped(post),
        ensures
            self@.with_piece(Some(g)).locked(post@),
    {
        let p = self.piece->0;
        let q = choose|q: ActivePiece|
            landing(self.board, p, q) && #[trigger] self@.with_piece(Some(q)).locked(post@);
        lemma_landing_unique(self.board, p, q, g);
    }
}

/// What a board cell shows.
#[derive(Clone, Copy, PartialEq, Eq, Debug, Structural)]
pub enum Look {
    /// Part of the falling piece.
    Falling(Shape),
    /// A locked block.
    Locked(Shape),
    /// Where the falling piece would come to rest.
    Shadow(Shape),
    Empty,
}

/// What cell (r, c) shows with `falling` the falling piece (if any) and its
/// resting place: the falling piece over locked blocks over the resting
/// place's outline.
pub open spec fn look_of(b: Board, falling: Option<(ActivePiece, ActivePiece)>, r: int, c: int) -> Look {
    match falling {
        Some((p, g)) => if covers(p, 4, r, c) {
            Look::Falling(p.shape)
        } else if let Cell::Filled(s) = board_cell(b, r, c) {
            Look::Locked(s)
        } else if covers(g, 4, r, c) {
            Look::Shadow(p.shape)
        } else {
            Look::Empty
        },
        None => if let Cell::Filled(s) = board_cell(b, r, c) {
            Look::Locked(s)
        } else {
            Look::Empty
        },
    }
}

/// Whether one of the four cells is (r, c).
fn among(cells: &[(i32, i32); 4], r: i32, c: i32) -> (b: bool)
    ensures
        b == exists|i: int| 0 <= i < 4 && cells@[i].0 == r && cells@[i].1 == c,
{
    let mut i: usize = 0;
    while i < 4
        invariant
            0 <= i <= 4,
            forall|j: int| 0 <= j < i ==> !(cells@[j].0 == r && cells@[j].1 == c),
        decreases 4 - i,
    {
        if cells[i].0 == r && cells[i].1 == c {
            return true;
        }
        i = i + 1;
    }
    false
}

impl TetrisGame {
    /// What the board cell at (row, col) shows.
    pub fn look_at(&self, row: usize, col: usize) -> (look: Look)
        requires
            self.wf(),
            row < BOARD_H,
            col < BOARD_W,
        ensures
            match self.piece_view() {
                None => look == look_of(self.board_view(), None, row as int, col as int),
                Some(p) => exists|g: ActivePiece|
                    landing(self.board_view(), p, g) && look == #[trigger] look_of(
                        self.board_view(),
                        Some((p, g)),
                        row as int,
                        col as int,
                    ),
            },
    {
        let cell = self.cell_at(row, col);
        match (self.piece, self.ghost_piece()) {
            (Some(p), Some(g)) => {
                proof {
                    lemma_fits_bounds(self.board, p);
                    assert(lowered(p, g.row - p.row) == g);
                    lemma_fits_bounds(self.board, g);
                }
                let pc = p.cells();
                let gc = g.cells();
                let falling = among(&pc, row as i32, col as i32);
                let resting = among(&gc, row as i32, col as i32);
                proof {
                    assert(falling == covers(p, 4, row as int, col as int)) by {
                        if falling {
                            let i = choose|i: int| 0 <= i < 4 && pc@[i].0 == row && pc@[i].1 == col;
                            assert(cell_pos(p, i) == (row as int, col as int));
                        }
                        if covers(p, 4, row as int, col as int) {
                            let i = choose|i: int| 0 <= i < 4 && #[trigger] cell_pos(p, i) == (row as int, col as int);
                            assert(pc@[i].0 == row && pc@[i].1 == col);
                        }
                    }
                    assert(resting == covers(g, 4, row as int, col as int)) by {
                        if resting {
                            let i = choose|i: int| 0 <= i < 4 && gc@[i].0 == row && gc@[i].1 == col;
                            assert(cell_pos(g, i) == (row as int, col as int));
                        }
                        if covers(g, 4, row as int, col as int) {
                            let i = choose|i: int| 0 <= i < 4 && #[trigger] cell_pos(g, i) == (row as int, col as int);
                            assert(gc@[i].0 == row && gc@[i].1 == col);
                        }
                    }
                }
                let look = if falling {
                    Look::Falling(p.shape)
                } else {
                    match cell {
                        Cell::Filled(s) => Look::Locked(s),
                        Cell::Empty => if resting {
                            Look::Shadow(p.shape)
                        } else {
                            Look::Empty
                        },
                    }
                };
                proof {
                    assert(look == look_of(self.board, Some((p, g)), row as int, col as int));
                }
                look
            },
            _ => {
                match cell {
                    Cell::Filled(s) => Look::Locked(s),
                    Cell::Empty => Look::Empty,
                }
            },
        }
    }
}

// ── Layout ──

/// The board rows shown when `space` screen rows are left for the board and
/// its bottom wall: the lowest ones, so the stack stays in view on short
/// screens. Returns the first shown row and the end of the range.
pub open spec fn shown_rows(space: int) -> (int, int) {
    let n = if space - 1 < 0 {
        0
    } else if space - 1 > 20 {
        20
    } else {
        space - 1
    };
    (20 - n, 20)
}

/// The range of board rows to draw in `space` screen rows (see `shown_rows`).
pub fn visible_rows(space: u16) -> (r: (usize, usize))
    ensures
        r.0 == shown_rows(space as int).0,
        r.1 == shown_rows(space as int).1,
{
    let n = (space.saturating_sub(1) as usize);
    let n = if n > BOARD_H {
        BOARD_H
    } else {
        n
    };
    let start = BOARD_H - n;
    let end = if start + n > BOARD_H {
        BOARD_H
    } else {
        start + n
    };
    (start, end)
}

pub open spec fn least(a: int, b: int) -> int {
    if a <= b {
        a
    } else {
        b
    }
}

pub open spec fn most(a: int, b: int) -> int {
    if a >= b {
        a
    } else {
        b
    }
}

/// The margin that centres `n` cells in a box of four (rounding towards the
/// top left).
pub open spec fn margin(n: int) -> int {
    if n < 4 {
        (4 - n) / 2
    } else {
        0
    }
}

/// Where cell `i` of a shape's first rotation is drawn in the four-by-four
/// preview box: its place in the shape's bounding box, with the box centred.
pub open spec fn preview_pos(shape: Shape, i: int) -> (int, int) {
    let o = offsets(shape, 0);
    let r0 = least_of(o, 4, true);
    let r1 = most_of(o, 4, true);
    let c0 = least_of(o, 4, false);
    let c1 = most_of(o, 4, false);
    (o[i].0 - r0 + margin(r1 - r0 + 1), o[i].1 - c0 + margin(c1 - c0 + 1))
}

/// The cells of the next-piece preview, as (row, column) in its box.
pub fn preview_cells(shape: Shape) -> (cells: [(u16, u16); 4])
    ensures
        forall|i: int|
            0 <= i < 4 ==> cells@[i].0 == preview_pos(shape, i).0 && cells@[i].1 == preview_pos(
                shape,
                i,
            ).1,
        forall|i: int| 0 <= i < 4 ==> cells@[i].0 < 4 && cells@[i].1 < 4,
{
    let o = rotation_offsets(shape, 0);
    proof {
        lemma_first_rotation_box(shape);
        lemma_extremes(o@, 4, true, 0, 1);
        lemma_extremes(o@, 4, false, 0, 3);
    }
    let mut min_r = o[0].0;
    let mut max_r = o[0].0;
    let mut min_c = o[0].1;
    let mut max_c = o[0].1;
    let mut k: usize = 1;
    while k < 4
        invariant
            1 <= k <= 4,
            o@ == offsets(shape, 0),
            min_r == least_of(o@, k as int, true),
            max_r == most_of(o@, k as int, true),
            min_c == least_of(o@, k as int, false),
            max_c == most_of(o@, k as int, false),
        decreases 4 - k,
    {
        let (r, c) = o[k];
        if r < min_r {
            min_r = r;
        }
        if r > max_r {
            max_r = r;
        }
        if c < min_c {
            min_c = c;
        }
        if c > max_c {
            max_c = c;
        }
        k = k + 1;
    }
    let h = (max_r - min_r + 1) as u16;
    let w = (max_c - min_c + 1) as u16;
    let pad_r = 4u16.saturating_sub(h) / 2;
    let pad_c = 4u16.saturating_sub(w) / 2;
    let mut cells = [(0u16, 0u16); 4];
    let mut i: usize = 0;
    while i < 4
        invariant
            0 <= i <= 4,
            o@ == offsets(shape, 0),
            min_r == least_of(o@, 4, true),
            max_r == most_of(o@, 4, true),
            min_c == least_of(o@, 4, false),
            max_c == most_of(o@, 4, false),
            forall|j: int| 0 <= j < 4 ==> min_r <= #[trigger] coord(o@[j], true) <= max_r,
            forall|j: int| 0 <= j < 4 ==> min_c <= #[trigger] coord(o@[j], false) <= max_c,
            0 <= min_r <= max_r <= 1,
            0 <= min_c <= max_c <= 3,
            h == max_r - min_r + 1,
            w == max_c - min_c + 1,
            pad_r == margin(h as int),
            pad_c == margin(w as int),
            forall|j: int|
                0 <= j < i ==> cells@[j].0 == preview_pos(shape, j).0 && cells@[j].1 == preview_pos(
                    shape,
                    j,
                ).1,
        decreases 4 - i,
    {
        let (r, c) = o[i];
        assert(coord(o@[i as int], true) == r && coord(o@[i as int], false) == c);
        cells[i] = (((r - min_r) as u16) + pad_r, ((c - min_c) as u16) + pad_c);
        i = i + 1;
    }
    proof {
        let hi = max_r - min_r + 1;
        let wi = max_c - min_c + 1;
        assert(margin(hi) + hi <= 4) by {
            if hi == 1 {
            } else {
                assert(hi == 2);
            }
        }
        assert(margin(wi) + wi <= 4) by {
            if wi == 1 {
            } else if wi == 2 {
            } else if wi == 3 {
            } else {
                assert(wi == 4);
            }
        }
        assert forall|i: int| 0 <= i < 4 implies cells@[i].0 < 4 && cells@[i].1 < 4 by {
            assert(min_r <= coord(o@[i], true) <= max_r);
            assert(min_c <= coord(o@[i], false) <= max_c);
            assert(cells@[i].0 == preview_pos(shape, i).0);
            assert(cells@[i].1 == preview_pos(shape, i).1);
        }
    }
    cells
}

/// The row (`rows`) or the column of an offset.
pub open spec fn coord(p: (i32, i32), rows: bool) -> int {
    if rows {
        p.0 as int
    } else {
        p.1 as int
    }
}

/// The least row (`rows`) or column among the first `k` offsets.
pub open spec fn least_of(o: Seq<(i32, i32)>, k: int, rows: bool) -> int
    decreases k,
{
    if k <= 1 {
        coord(o[0], rows)
    } else {
        least(least_of(o, k - 1, rows), coord(o[k - 1], rows))
    }
}

/// The greatest row (`rows`) or column among the first `k` offsets.
pub open spec fn most_of(o: Seq<(i32, i32)>, k: int, rows: bool) -> int
    decreases k,
{
    if k <= 1 {
        coord(o[0], rows)
    } else {
        most(most_of(o, k - 1, rows), coord(o[k - 1], rows))
    }
}

/// The least and greatest of the first `k` offsets bound each of them and
/// are among the offsets' range.
proof fn lemma_extremes(o: Seq<(i32, i32)>, k: int, rows: bool, lo: int, hi: int)
    requires
        1 <= k <= o.len(),
        forall|j: int| 0 <= j < o.len() ==> lo <= #[trigger] coord(o[j], rows) <= hi,
    ensures
        forall|j: int|
            0 <= j < k ==> least_of(o, k, rows) <= #[trigger] coord(o[j], rows) <= most_of(o, k, rows),
        lo <= least_of(o, k, rows) <= most_of(o, k, rows) <= hi,
    decreases k,
{
    if k > 1 {
        lemma_extremes(o, k - 1, rows, lo, hi);
    }
}

/// The first rotation of every shape lies in rows 0..=1 and columns 0..=3.
proof fn lemma_first_rotation_box(shape: Shape)
    ensures
        offsets(shape, 0).len() == 4,
        forall|j: int| 0 <= j < 4 ==> 0 <= #[trigger] coord(offsets(shape, 0)[j], true) <= 1,
        forall|j: int| 0 <= j < 4 ==> 0 <= #[trigger] coord(offsets(shape, 0)[j], false) <= 3,
{
}

} // verus!
