//! Connect 4 against a minimax opponent with alpha-beta pruning.
//!
//! The board is stored row-major in a flat array: the cell in row `r`
//! (0 is the top row) and column `c` sits at index `r * COLS + c`. Pieces
//! fall to the lowest empty row of a column.
use vstd::prelude::*;

use crate::input::Key;
use crate::input::KeyInput;
use crate::input::KeyKind;

verus! {

pub const COLS: usize = 7;

pub const ROWS: usize = 6;

pub const CELLS: usize = 42;

/// How many plies the opponent looks ahead.
pub const SEARCH_DEPTH: u32 = 10;

/// Score of a position won by the opponent (before the depth bonus).
pub const WIN_SCORE: i32 = 100_000;

/// The column the cursor starts on.
pub const START_COL: usize = 3;

#[derive(Clone, Copy, PartialEq, Eq, Debug, Structural)]
pub enum Player {
    Human,
    Ai,
}

#[derive(Clone, Copy, PartialEq, Eq, Debug, Structural)]
pub enum GameResult {
    Win(Player),
    Draw,
}

/// A board, row-major, `CELLS` cells.
pub type Board = [Option<Player>; 42];

// ── Board model ──

pub open spec fn cell(s: Seq<Option<Player>>, r: int, c: int) -> Option<Player> {
    s[r * 7 + c]
}

pub open spec fn in_bounds(r: int, c: int) -> bool {
    0 <= r < 6 && 0 <= c < 7
}

pub open spec fn other(p: Player) -> Player {
    match p {
        Player::Human => Player::Ai,
        Player::Ai => Player::Human,
    }
}

/// The row a piece dropped in column `col` lands on, looking only at the
/// lowest `n` rows: the lowest empty one among them.
pub open spec fn landing_from(s: Seq<Option<Player>>, col: int, n: nat) -> Option<int>
    decreases n,
{
    if n == 0 {
        None
    } else if cell(s, n - 1, col) is None {
        Some(n - 1)
    } else {
        landing_from(s, col, (n - 1) as nat)
    }
}

/// The lowest empty row of column `col`, if any.
pub open spec fn landing_row(s: Seq<Option<Player>>, col: int) -> Option<int> {
    landing_from(s, col, 6)
}

/// The board after `p` drops a piece in column `col` (unchanged when full).
pub open spec fn place(s: Seq<Option<Player>>, col: int, p: Player) -> Seq<Option<Player>> {
    match landing_row(s, col) {
        Some(r) => s.update(r * 7 + col, Some(p)),
        None => s,
    }
}

/// A column is open when its top cell is empty.
pub open spec fn col_open(s: Seq<Option<Player>>, col: int) -> bool {
    cell(s, 0, col) is None
}

/// The number of occupied cells among the first `n`.
pub open spec fn filled_upto(s: Seq<Option<Player>>, n: nat) -> nat
    decreases n,
{
    if n == 0 {
        0
    } else {
        filled_upto(s, (n - 1) as nat) + if s[n - 1] is Some {
            1nat
        } else {
            0nat
        }
    }
}

pub open spec fn filled_count(s: Seq<Option<Player>>) -> nat {
    filled_upto(s, 42)
}

/// Filling an empty cell raises the count of occupied cells by one.
proof fn lemma_filled_update(s: Seq<Option<Player>>, i: int, p: Player, n: nat)
    requires
        0 <= i < s.len(),
        n <= s.len(),
        s[i] is None,
    ensures
        filled_upto(s.update(i, Some(p)), n) == filled_upto(s, n) + if i < n {
            1nat
        } else {
            0nat
        },
    decreases n,
{
    if n > 0 {
        lemma_filled_update(s, i, p, (n - 1) as nat);
    }
}

proof fn lemma_filled_bound(s: Seq<Option<Player>>, n: nat)
    requires
        n <= s.len(),
    ensures
        filled_upto(s, n) <= n,
    decreases n,
{
    if n > 0 {
        lemma_filled_bound(s, (n - 1) as nat);
    }
}

proof fn lemma_filled_empty(n: nat)
    requires
        n <= 42,
    ensures
        filled_upto(Seq::new(42, |i: int| None::<Player>), n) == 0,
    decreases n,
{
    if n > 0 {
        lemma_filled_empty((n - 1) as nat);
    }
}

/// A dropped piece lands on the lowest empty cell of its column: the
/// landing row is empty and every row below it in that column is occupied;
/// there is no landing row exactly when the column is full.
pub proof fn lemma_landing(s: Seq<Option<Player>>, col: int, n: nat)
    requires
        n <= 6,
    ensures
        match landing_from(s, col, n) {
            Some(r) => 0 <= r < n && cell(s, r, col) is None && forall|k: int|
                r < k < n ==> cell(s, k, col) is Some,
            None => forall|k: int| 0 <= k < n ==> cell(s, k, col) is Some,
        },
    decreases n,
{
    if n > 0 {
        lemma_landing(s, col, (n - 1) as nat);
    }
}

// ── Four in a row ──

/// Row step of direction `d` (0: horizontal, 1: vertical, 2: down-right,
/// 3: down-left) taken `i` times, backwards when `neg`.
pub open spec fn ray_r(row: int, d: int, neg: bool, i: int) -> int {
    let step = if d == 0 {
        0
    } else {
        i
    };
    if neg {
        row - step
    } else {
        row + step
    }
}

pub open spec fn ray_c(col: int, d: int, neg: bool, i: int) -> int {
    let step = if d == 0 {
        i
    } else if d == 1 {
        0
    } else if d == 2 {
        i
    } else {
        -i
    };
    if neg {
        col - step
    } else {
        col + step
    }
}

pub open spec fn owned_by(s: Seq<Option<Player>>, r: int, c: int, p: Player) -> bool {
    in_bounds(r, c) && cell(s, r, c) == Some(p)
}

/// How many consecutive cells, from step `i` up to step 3 along the ray,
/// belong to `p`.
pub open spec fn run_from(
    s: Seq<Option<Player>>,
    row: int,
    col: int,
    d: int,
    neg: bool,
    p: Player,
    i: int,
) -> int
    decreases 4 - i,
{
    if i >= 4 || i < 1 {
        0
    } else if owned_by(s, ray_r(row, d, neg, i), ray_c(col, d, neg, i), p) {
        1 + run_from(s, row, col, d, neg, p, i + 1)
    } else {
        0
    }
}

/// The cells of `p` counted on the line through (row, col) in direction `d`:
/// the cell itself plus up to three on each side.
pub open spec fn line_count(s: Seq<Option<Player>>, row: int, col: int, d: int, p: Player) -> int {
    1 + run_from(s, row, col, d, false, p, 1) + run_from(s, row, col, d, true, p, 1)
}

/// The piece at (row, col) is part of four or more in a row.
pub open spec fn four_at(s: Seq<Option<Player>>, row: int, col: int) -> bool {
    match cell(s, row, col) {
        Some(p) => {
            ||| line_count(s, row, col, 0, p) >= 4
            ||| line_count(s, row, col, 1, p) >= 4
            ||| line_count(s, row, col, 2, p) >= 4
            ||| line_count(s, row, col, 3, p) >= 4
        },
        None => false,
    }
}

/// The first direction in which the piece at (row, col) makes four.
pub open spec fn first_win_dir(s: Seq<Option<Player>>, row: int, col: int, p: Player) -> int {
    if line_count(s, row, col, 0, p) >= 4 {
        0
    } else if line_count(s, row, col, 1, p) >= 4 {
        1
    } else if line_count(s, row, col, 2, p) >= 4 {
        2
    } else {
        3
    }
}

/// The first `n` cells of a ray, as board coordinates.
pub open spec fn ray_cells(row: int, col: int, d: int, neg: bool, n: int) -> Seq<(usize, usize)> {
    Seq::new(
        n as nat,
        |j: int| (ray_r(row, d, neg, j + 1) as usize, ray_c(col, d, neg, j + 1) as usize),
    )
}

/// The winning line reported for (row, col): the cell itself, then the run
/// forwards, then the run backwards along the first winning direction.
pub open spec fn win_cells(s: Seq<Option<Player>>, row: int, col: int, p: Player) -> Seq<(usize, usize)> {
    let d = first_win_dir(s, row, col, p);
    seq![(row as usize, col as usize)] + ray_cells(row, col, d, false, run_from(s, row, col, d, false, p, 1))
        + ray_cells(row, col, d, true, run_from(s, row, col, d, true, p, 1))
}

proof fn lemma_run_bounds(
    s: Seq<Option<Player>>,
    row: int,
    col: int,
    d: int,
    neg: bool,
    p: Player,
    i: int,
)
    ensures
        0 <= run_from(s, row, col, d, neg, p, i),
        1 <= i <= 4 ==> run_from(s, row, col, d, neg, p, i) <= 4 - i,
        forall|k: int|
            i <= k < i + run_from(s, row, col, d, neg, p, i) ==> #[trigger] owned_by(
                s,
                ray_r(row, d, neg, k),
                ray_c(col, d, neg, k),
                p,
            ),
    decreases 4 - i,
{
    if 1 <= i < 4 {
        lemma_run_bounds(s, row, col, d, neg, p, i + 1);
    }
}

fn owner_is(c: Option<Player>, p: Player) -> (b: bool)
    ensures
        b == (c == Some(p)),
{
    match c {
        Some(q) => q == p,
        None => false,
    }
}

/// Position `i` steps along direction `d` (backwards when `neg`).
fn ray_pos(row: usize, col: usize, d: usize, neg: bool, i: i32) -> (pos: (i32, i32))
    requires
        row < 6,
        col < 7,
        d < 4,
        0 <= i <= 3,
    ensures
        pos.0 == ray_r(row as int, d as int, neg, i as int),
        pos.1 == ray_c(col as int, d as int, neg, i as int),
{
    let r = row as i32;
    let c = col as i32;
    let (dr, dc): (i32, i32) = if d == 0 {
        (0, i)
    } else if d == 1 {
        (i, 0)
    } else if d == 2 {
        (i, i)
    } else {
        (i, -i)
    };
    if neg {
        (r - dr, c - dc)
    } else {
        (r + dr, c + dc)
    }
}

fn owned_at(board: &Board, r: i32, c: i32, p: Player) -> (b: bool)
    ensures
        b == owned_by(board@, r as int, c as int, p),
{
    if r >= 0 && r < ROWS as i32 && c >= 0 && c < COLS as i32 {
        owner_is(board[(r as usize) * COLS + c as usize], p)
    } else {
        false
    }
}

/// Length of the run of `p` leaving (row, col) along a ray, at most three.
fn run_length(board: &Board, row: usize, col: usize, d: usize, neg: bool, p: Player) -> (n: u32)
    requires
        row < 6,
        col < 7,
        d < 4,
    ensures
        n == run_from(board@, row as int, col as int, d as int, neg, p, 1),
        n <= 3,
{
    let mut k: u32 = 0;
    proof {
        lemma_run_bounds(board@, row as int, col as int, d as int, neg, p, 1);
    }
    while k < 3
        invariant_except_break
            0 <= k <= 3,
            row < 6,
            col < 7,
            d < 4,
            k + run_from(board@, row as int, col as int, d as int, neg, p, k + 1) == run_from(
                board@,
                row as int,
                col as int,
                d as int,
                neg,
                p,
                1,
            ),
        ensures
            k == run_from(board@, row as int, col as int, d as int, neg, p, 1),
            k <= 3,
        decreases 3 - k,
    {
        let (r, c) = ray_pos(row, col, d, neg, (k + 1) as i32);
        if owned_at(board, r, c, p) {
            k = k + 1;
        } else {
            break;
        }
    }
    k
}

/// Whether the piece at (row, col) is part of four in a row.
pub fn has_four_at(board: &Board, row: usize, col: usize) -> (b: bool)
    requires
        row < ROWS,
        col < COLS,
    ensures
        b == four_at(board@, row as int, col as int),
{
    let player = match board[row * COLS + col] {
        Some(p) => p,
        None => return false,
    };
    let mut d: usize = 0;
    while d < 4
        invariant
            0 <= d <= 4,
            row < 6,
            col < 7,
            cell(board@, row as int, col as int) == Some(player),
            forall|e: int|
                0 <= e < d ==> line_count(board@, row as int, col as int, e, player) < 4,
        decreases 4 - d,
    {
        let count = 1 + run_length(board, row, col, d, false, player) + run_length(
            board,
            row,
            col,
            d,
            true,
            player,
        );
        if count >= 4 {
            return true;
        }
        d = d + 1;
    }
    false
}

/// Drops `player`'s piece in `col`; returns the row it landed on, or `None`
/// (board unchanged) when the column is full.
pub fn drop_on_board(board: &mut Board, col: usize, player: Player) -> (landed: Option<usize>)
    requires
        col < COLS,
    ensures
        landed == (match landing_row(old(board)@, col as int) {
            Some(r) => Some(r as usize),
            None => None::<usize>,
        }),
        final(board)@ == place(old(board)@, col as int, player),
        landed is None ==> *final(board) == *old(board),
{
    let ghost s0 = old(board)@;
    let mut row: usize = ROWS;
    while row > 0
        invariant
            0 <= row <= 6,
            col < 7,
            board@ == s0,
            s0 == old(board)@,
            *board == *old(board),
            landing_from(s0, col as int, 6) == landing_from(s0, col as int, row as nat),
        decreases row,
    {
        let r = row - 1;
        if board[r * COLS + col].is_none() {
            assert(landing_from(s0, col as int, row as nat) == Some(r as int));
            board[r * COLS + col] = Some(player);
            return Some(r);
        }
        row = r;
    }
    None
}

// ── Position evaluation ──

pub open spec fn weight(n: int) -> int {
    if n == 3 {
        5
    } else if n == 2 {
        2
    } else {
        0
    }
}

pub open spec fn is_of(c: Option<Player>, p: Player) -> int {
    if c == Some(p) {
        1
    } else {
        0
    }
}

/// The value of a window of four cells: nothing when both players are in it,
/// otherwise a bonus for two or three pieces of one player.
pub open spec fn window_value(
    a: Option<Player>,
    b: Option<Player>,
    c: Option<Player>,
    d: Option<Player>,
) -> int {
    let ai = is_of(a, Player::Ai) + is_of(b, Player::Ai) + is_of(c, Player::Ai) + is_of(
        d,
        Player::Ai,
    );
    let human = is_of(a, Player::Human) + is_of(b, Player::Human) + is_of(c, Player::Human)
        + is_of(d, Player::Human);
    if ai > 0 && human > 0 {
        0
    } else {
        weight(ai) - weight(human)
    }
}

/// The window starting at (r, c) and going three steps by (dr, dc).
pub open spec fn window_at(s: Seq<Option<Player>>, r: int, c: int, dr: int, dc: int) -> int {
    window_value(
        cell(s, r, c),
        cell(s, r + dr, c + dc),
        cell(s, r + 2 * dr, c + 2 * dc),
        cell(s, r + 3 * dr, c + 3 * dc),
    )
}

/// Sum of the windows starting at columns 0..n of row r.
pub open spec fn row_windows(s: Seq<Option<Player>>, r: int, n: int, dr: int, dc: int) -> int
    decreases n,
{
    if n <= 0 {
        0
    } else {
        row_windows(s, r, n - 1, dr, dc) + window_at(s, r, n - 1, dr, dc)
    }
}

/// Sum of the windows starting at rows lo..hi and columns 0..n.
pub open spec fn grid_windows(
    s: Seq<Option<Player>>,
    lo: int,
    hi: int,
    n: int,
    dr: int,
    dc: int,
) -> int
    decreases hi - lo,
{
    if hi <= lo {
        0
    } else {
        grid_windows(s, lo, hi - 1, n, dr, dc) + row_windows(s, hi - 1, n, dr, dc)
    }
}

pub open spec fn center_value(c: Option<Player>) -> int {
    3 * is_of(c, Player::Ai) - 3 * is_of(c, Player::Human)
}

/// Bonus for pieces in the center column, rows 0..n.
pub open spec fn center_upto(s: Seq<Option<Player>>, n: int) -> int
    decreases n,
{
    if n <= 0 {
        0
    } else {
        center_upto(s, n - 1) + center_value(cell(s, n - 1, 3))
    }
}

/// The static evaluation of a position, positive when it favours the AI:
/// center-column pieces plus every window of four (horizontal, vertical and
/// both diagonals).
pub open spec fn evaluation(s: Seq<Option<Player>>) -> int {
    center_upto(s, 6) + grid_windows(s, 0, 6, 4, 0, 1) + grid_windows(s, 0, 3, 7, 1, 0)
        + grid_windows(s, 0, 3, 4, 1, 1) + grid_windows(s, 3, 6, 4, -1, 1)
}

pub open spec fn window_ok(r: int, c: int, dr: int, dc: int) -> bool {
    in_bounds(r, c) && in_bounds(r + 3 * dr, c + 3 * dc)
}

proof fn lemma_row_windows_bound(s: Seq<Option<Player>>, r: int, n: int, dr: int, dc: int)
    requires
        n >= 0,
    ensures
        -5 * n <= row_windows(s, r, n, dr, dc) <= 5 * n,
    decreases n,
{
    if n > 0 {
        lemma_row_windows_bound(s, r, n - 1, dr, dc);
    }
}

proof fn lemma_grid_windows_bound(
    s: Seq<Option<Player>>,
    lo: int,
    hi: int,
    n: int,
    dr: int,
    dc: int,
)
    requires
        0 <= n <= 7,
        lo <= hi,
    ensures
        -35 * (hi - lo) <= grid_windows(s, lo, hi, n, dr, dc) <= 35 * (hi - lo),
    decreases hi - lo,
{
    if hi > lo {
        lemma_grid_windows_bound(s, lo, hi - 1, n, dr, dc);
        lemma_row_windows_bound(s, hi - 1, n, dr, dc);
    }
}

proof fn lemma_center_bound(s: Seq<Option<Player>>, n: int)
    requires
        n >= 0,
    ensures
        -3 * n <= center_upto(s, n) <= 3 * n,
    decreases n,
{
    if n > 0 {
        lemma_center_bound(s, n - 1);
    }
}

/// The static evaluation stays far below a win.
pub proof fn lemma_evaluation_bound(s: Seq<Option<Player>>)
    ensures
        -600 <= evaluation(s) <= 600,
{
    lemma_center_bound(s, 6);
    lemma_grid_windows_bound(s, 0, 6, 4, 0, 1);
    lemma_grid_windows_bound(s, 0, 3, 7, 1, 0);
    lemma_grid_windows_bound(s, 0, 3, 4, 1, 1);
    lemma_grid_windows_bound(s, 3, 6, 4, -1, 1);
}

// ── Symmetries of the evaluation ──

/// The piece in a cell with its owner changed.
pub open spec fn swap_owner(c: Option<Player>) -> Option<Player> {
    match c {
        Some(p) => Some(other(p)),
        None => None,
    }
}

/// The board with every piece handed to the other player.
pub open spec fn swapped(s: Seq<Option<Player>>) -> Seq<Option<Player>> {
    Seq::new(s.len(), |i: int| swap_owner(s[i]))
}

/// The board reflected left to right.
pub open spec fn mirrored(s: Seq<Option<Player>>) -> Seq<Option<Player>> {
    Seq::new(s.len(), |i: int| s[i - i % 7 + 6 - i % 7])
}

proof fn lemma_cell_swapped(s: Seq<Option<Player>>, r: int, c: int)
    requires
        s.len() == 42,
        in_bounds(r, c),
    ensures
        cell(swapped(s), r, c) == swap_owner(cell(s, r, c)),
{
}

proof fn lemma_window_swapped(s: Seq<Option<Player>>, r: int, c: int, dr: int, dc: int)
    requires
        s.len() == 42,
        window_ok(r, c, dr, dc),
        -1 <= dr <= 1,
        -1 <= dc <= 1,
    ensures
        window_at(swapped(s), r, c, dr, dc) == -window_at(s, r, c, dr, dc),
{
    lemma_cell_swapped(s, r, c);
    lemma_cell_swapped(s, r + dr, c + dc);
    lemma_cell_swapped(s, r + 2 * dr, c + 2 * dc);
    lemma_cell_swapped(s, r + 3 * dr, c + 3 * dc);
}

proof fn lemma_row_swapped(s: Seq<Option<Player>>, r: int, n: int, dr: int, dc: int)
    requires
        s.len() == 42,
        -1 <= dr <= 1,
        -1 <= dc <= 1,
        forall|k: int| 0 <= k < n ==> #[trigger] window_ok(r, k, dr, dc),
    ensures
        row_windows(swapped(s), r, n, dr, dc) == -row_windows(s, r, n, dr, dc),
    decreases n,
{
    if n > 0 {
        lemma_row_swapped(s, r, n - 1, dr, dc);
        assert(window_ok(r, n - 1, dr, dc));
        lemma_window_swapped(s, r, n - 1, dr, dc);
    }
}

proof fn lemma_grid_swapped(s: Seq<Option<Player>>, lo: int, hi: int, n: int, dr: int, dc: int)
    requires
        s.len() == 42,
        -1 <= dr <= 1,
        -1 <= dc <= 1,
        forall|r: int, k: int| lo <= r < hi && 0 <= k < n ==> #[trigger] window_ok(r, k, dr, dc),
    ensures
        grid_windows(swapped(s), lo, hi, n, dr, dc) == -grid_windows(s, lo, hi, n, dr, dc),
    decreases hi - lo,
{
    if hi > lo {
        lemma_grid_swapped(s, lo, hi - 1, n, dr, dc);
        assert forall|k: int| 0 <= k < n implies #[trigger] window_ok(hi - 1, k, dr, dc) by {}
        lemma_row_swapped(s, hi - 1, n, dr, dc);
    }
}

proof fn lemma_center_swapped(s: Seq<Option<Player>>, n: int)
    requires
        s.len() == 42,
        n <= 6,
    ensures
        center_upto(swapped(s), n) == -center_upto(s, n),
    decreases n,
{
    if n > 0 {
        lemma_center_swapped(s, n - 1);
        lemma_cell_swapped(s, n - 1, 3);
    }
}

/// The evaluation treats both players alike: handing every piece to the
/// other player negates it.
pub proof fn lemma_evaluation_swapped(s: Seq<Option<Player>>)
    requires
        s.len() == 42,
    ensures
        evaluation(swapped(s)) == -evaluation(s),
{
    lemma_center_swapped(s, 6);
    lemma_grid_swapped(s, 0, 6, 4, 0, 1);
    lemma_grid_swapped(s, 0, 3, 7, 1, 0);
    lemma_grid_swapped(s, 0, 3, 4, 1, 1);
    lemma_grid_swapped(s, 3, 6, 4, -1, 1);
}

proof fn lemma_cell_mirrored(s: Seq<Option<Player>>, r: int, c: int)
    requires
        s.len() == 42,
        in_bounds(r, c),
    ensures
        cell(mirrored(s), r, c) == cell(s, r, 6 - c),
{
    let i = r * 7 + c;
    assert(i % 7 == c) by {
        if r == 0 {
        } else if r == 1 {
        } else if r == 2 {
        } else if r == 3 {
        } else if r == 4 {
        } else {
            assert(r == 5);
        }
    }
}

proof fn lemma_row_cells_mirrored(s: Seq<Option<Player>>, r: int)
    requires
        s.len() == 42,
        0 <= r < 6,
    ensures
        forall|c: int| 0 <= c < 7 ==> #[trigger] cell(mirrored(s), r, c) == cell(s, r, 6 - c),
{
    assert forall|c: int| 0 <= c < 7 implies #[trigger] cell(mirrored(s), r, c) == cell(s, r, 6 - c) by {
        lemma_cell_mirrored(s, r, c);
    }
}

proof fn lemma_horizontal_mirrored(s: Seq<Option<Player>>, r: int)
    requires
        s.len() == 42,
        0 <= r < 6,
    ensures
        row_windows(mirrored(s), r, 4, 0, 1) == row_windows(s, r, 4, 0, 1),
{
    reveal_with_fuel(row_windows, 5);
    lemma_row_cells_mirrored(s, r);
    let m = mirrored(s);
    assert(cell(m, r, 0) == cell(s, r, 6) && cell(m, r, 1) == cell(s, r, 5) && cell(m, r, 2)
        == cell(s, r, 4) && cell(m, r, 3) == cell(s, r, 3) && cell(m, r, 4) == cell(s, r, 2)
        && cell(m, r, 5) == cell(s, r, 1) && cell(m, r, 6) == cell(s, r, 0));
}

proof fn lemma_vertical_mirrored(s: Seq<Option<Player>>, r: int)
    requires
        s.len() == 42,
        0 <= r < 3,
    ensures
        row_windows(mirrored(s), r, 7, 1, 0) == row_windows(s, r, 7, 1, 0),
{
    reveal_with_fuel(row_windows, 8);
    lemma_row_cells_mirrored(s, r);
    lemma_row_cells_mirrored(s, r + 1);
    lemma_row_cells_mirrored(s, r + 2);
    lemma_row_cells_mirrored(s, r + 3);
    let m = mirrored(s);
    assert forall|k: int| 0 <= k < 7 implies #[trigger] window_at(m, r, k, 1, 0) == window_at(
        s,
        r,
        6 - k,
        1,
        0,
    ) by {
        assert(cell(m, r, k) == cell(s, r, 6 - k));
        assert(cell(m, r + 1, k) == cell(s, r + 1, 6 - k));
        assert(cell(m, r + 2, k) == cell(s, r + 2, 6 - k));
        assert(cell(m, r + 3, k) == cell(s, r + 3, 6 - k));
    }
    assert(window_at(m, r, 0, 1, 0) == window_at(s, r, 6, 1, 0));
    assert(window_at(m, r, 1, 1, 0) == window_at(s, r, 5, 1, 0));
    assert(window_at(m, r, 2, 1, 0) == window_at(s, r, 4, 1, 0));
    assert(window_at(m, r, 3, 1, 0) == window_at(s, r, 3, 1, 0));
    assert(window_at(m, r, 4, 1, 0) == window_at(s, r, 2, 1, 0));
    assert(window_at(m, r, 5, 1, 0) == window_at(s, r, 1, 1, 0));
    assert(window_at(m, r, 6, 1, 0) == window_at(s, r, 0, 1, 0));
}

/// Row `r` of the down-right diagonals of the mirrored board matches row
/// `r + 3` of the up-right diagonals of the board, window for window.
proof fn lemma_diagonal_mirrored(s: Seq<Option<Player>>, r: int)
    requires
        s.len() == 42,
        0 <= r < 3,
    ensures
        row_windows(mirrored(s), r, 4, 1, 1) == row_windows(s, r + 3, 4, -1, 1),
        row_windows(mirrored(s), r + 3, 4, -1, 1) == row_windows(s, r, 4, 1, 1),
{
    reveal_with_fuel(row_windows, 5);
    lemma_row_cells_mirrored(s, r);
    lemma_row_cells_mirrored(s, r + 1);
    lemma_row_cells_mirrored(s, r + 2);
    lemma_row_cells_mirrored(s, r + 3);
    let m = mirrored(s);
    assert forall|k: int| 0 <= k < 4 implies #[trigger] window_at(m, r, k, 1, 1) == window_at(
        s,
        r + 3,
        3 - k,
        -1,
        1,
    ) by {
        assert(cell(m, r, k) == cell(s, r, 6 - k));
        assert(cell(m, r + 1, k + 1) == cell(s, r + 1, 5 - k));
        assert(cell(m, r + 2, k + 2) == cell(s, r + 2, 4 - k));
        assert(cell(m, r + 3, k + 3) == cell(s, r + 3, 3 - k));
    }
    assert forall|k: int| 0 <= k < 4 implies #[trigger] window_at(m, r + 3, k, -1, 1) == window_at(
        s,
        r,
        3 - k,
        1,
        1,
    ) by {
        assert(cell(m, r + 3, k) == cell(s, r + 3, 6 - k));
        assert(cell(m, r + 2, k + 1) == cell(s, r + 2, 5 - k));
        assert(cell(m, r + 1, k + 2) == cell(s, r + 1, 4 - k));
        assert(cell(m, r, k + 3) == cell(s, r, 3 - k));
    }
    assert(window_at(m, r, 0, 1, 1) == window_at(s, r + 3, 3, -1, 1));
    assert(window_at(m, r, 1, 1, 1) == window_at(s, r + 3, 2, -1, 1));
    assert(window_at(m, r, 2, 1, 1) == window_at(s, r + 3, 1, -1, 1));
    assert(window_at(m, r, 3, 1, 1) == window_at(s, r + 3, 0, -1, 1));
    assert(window_at(m, r + 3, 0, -1, 1) == window_at(s, r, 3, 1, 1));
    assert(window_at(m, r + 3, 1, -1, 1) == window_at(s, r, 2, 1, 1));
    assert(window_at(m, r + 3, 2, -1, 1) == window_at(s, r, 1, 1, 1));
    assert(window_at(m, r + 3, 3, -1, 1) == window_at(s, r, 0, 1, 1));
}

/// The evaluation does not tell a board from its left-right mirror image.
pub proof fn lemma_evaluation_mirrored(s: Seq<Option<Player>>)
    requires
        s.len() == 42,
    ensures
        evaluation(mirrored(s)) == evaluation(s),
{
    let m = mirrored(s);
    reveal_with_fuel(grid_windows, 7);
    reveal_with_fuel(center_upto, 7);
    assert forall|k: int| 0 <= k < 6 implies #[trigger] cell(m, k, 3) == cell(s, k, 3) by {
        lemma_cell_mirrored(s, k, 3);
    }
    assert(center_upto(m, 6) == center_upto(s, 6)) by {
        assert(cell(m, 0, 3) == cell(s, 0, 3));
        assert(cell(m, 1, 3) == cell(s, 1, 3));
        assert(cell(m, 2, 3) == cell(s, 2, 3));
        assert(cell(m, 3, 3) == cell(s, 3, 3));
        assert(cell(m, 4, 3) == cell(s, 4, 3));
        assert(cell(m, 5, 3) == cell(s, 5, 3));
    }
    assert(grid_windows(m, 0, 6, 4, 0, 1) == grid_windows(s, 0, 6, 4, 0, 1)) by {
        lemma_horizontal_mirrored(s, 0);
        lemma_horizontal_mirrored(s, 1);
        lemma_horizontal_mirrored(s, 2);
        lemma_horizontal_mirrored(s, 3);
        lemma_horizontal_mirrored(s, 4);
        lemma_horizontal_mirrored(s, 5);
    }
    assert(grid_windows(m, 0, 3, 7, 1, 0) == grid_windows(s, 0, 3, 7, 1, 0)) by {
        lemma_vertical_mirrored(s, 0);
        lemma_vertical_mirrored(s, 1);
        lemma_vertical_mirrored(s, 2);
    }
    lemma_diagonal_mirrored(s, 0);
    lemma_diagonal_mirrored(s, 1);
    lemma_diagonal_mirrored(s, 2);
    assert(grid_windows(m, 0, 3, 4, 1, 1) == grid_windows(s, 3, 6, 4, -1, 1));
    assert(grid_windows(m, 3, 6, 4, -1, 1) == grid_windows(s, 0, 3, 4, 1, 1));
}

fn count_of(c: Option<Player>, p: Player) -> (n: i32)
    ensures
        n == is_of(c, p),
{
    if owner_is(c, p) {
        1
    } else {
        0
    }
}

fn weight_of(n: i32) -> (w: i32)
    ensures
        w == weight(n as int),
{
    if n == 3 {
        5
    } else if n == 2 {
        2
    } else {
        0
    }
}

/// Scores one window of four cells.
pub fn score_window(a: Option<Player>, b: Option<Player>, c: Option<Player>, d: Option<Player>) -> (v: i32)
    ensures
        v == window_value(a, b, c, d),
        -5 <= v <= 5,
{
    let ai = count_of(a, Player::Ai) + count_of(b, Player::Ai) + count_of(c, Player::Ai)
        + count_of(d, Player::Ai);
    let human = count_of(a, Player::Human) + count_of(b, Player::Human) + count_of(
        c,
        Player::Human,
    ) + count_of(d, Player::Human);

    // Mixed windows (both players present) have no strategic value.
    if ai > 0 && human > 0 {
        return 0;
    }
    weight_of(ai) - weight_of(human)
}

fn window_score(board: &Board, r: usize, c: usize, dr: i32, dc: i32) -> (v: i32)
    requires
        -1 <= dr <= 1,
        -1 <= dc <= 1,
        window_ok(r as int, c as int, dr as int, dc as int),
    ensures
        v == window_at(board@, r as int, c as int, dr as int, dc as int),
        -5 <= v <= 5,
{
    let r0 = r as i32;
    let c0 = c as i32;
    let i1 = ((r0 + dr) as usize) * COLS + (c0 + dc) as usize;
    let i2 = ((r0 + 2 * dr) as usize) * COLS + (c0 + 2 * dc) as usize;
    let i3 = ((r0 + 3 * dr) as usize) * COLS + (c0 + 3 * dc) as usize;
    score_window(board[r * COLS + c], board[i1], board[i2], board[i3])
}

fn sum_row_windows(board: &Board, r: usize, n: usize, dr: i32, dc: i32) -> (v: i32)
    requires
        -1 <= dr <= 1,
        -1 <= dc <= 1,
        n <= 7,
        forall|c: int| 0 <= c < n ==> window_ok(r as int, c, dr as int, dc as int),
    ensures
        v == row_windows(board@, r as int, n as int, dr as int, dc as int),
{
    let mut acc: i32 = 0;
    let mut c: usize = 0;
    while c < n
        invariant
            0 <= c <= n <= 7,
            -1 <= dr <= 1,
            -1 <= dc <= 1,
            forall|k: int| 0 <= k < n ==> window_ok(r as int, k, dr as int, dc as int),
            acc == row_windows(board@, r as int, c as int, dr as int, dc as int),
        decreases n - c,
    {
        proof {
            lemma_row_windows_bound(board@, r as int, c as int, dr as int, dc as int);
        }
        acc = acc + window_score(board, r, c, dr, dc);
        c = c + 1;
    }
    acc
}

fn sum_grid_windows(board: &Board, lo: usize, hi: usize, n: usize, dr: i32, dc: i32) -> (v: i32)
    requires
        -1 <= dr <= 1,
        -1 <= dc <= 1,
        n <= 7,
        lo <= hi <= 6,
        forall|r: int, c: int| lo <= r < hi && 0 <= c < n ==> window_ok(r, c, dr as int, dc as int),
    ensures
        v == grid_windows(board@, lo as int, hi as int, n as int, dr as int, dc as int),
{
    let mut acc: i32 = 0;
    let mut r: usize = lo;
    while r < hi
        invariant
            lo <= r <= hi <= 6,
            -1 <= dr <= 1,
            -1 <= dc <= 1,
            n <= 7,
            forall|rr: int, c: int|
                lo <= rr < hi && 0 <= c < n ==> window_ok(rr, c, dr as int, dc as int),
            acc == grid_windows(board@, lo as int, r as int, n as int, dr as int, dc as int),
        decreases hi - r,
    {
        proof {
            lemma_grid_windows_bound(board@, lo as int, r as int, n as int, dr as int, dc as int);
            lemma_row_windows_bound(board@, r as int, n as int, dr as int, dc as int);
        }
        acc = acc + sum_row_windows(board, r, n, dr, dc);
        r = r + 1;
    }
    acc
}

/// The heuristic value of a position from the AI's point of view.
pub fn evaluate(board: &Board) -> (v: i32)
    ensures
        v == evaluation(board@),
        -600 <= v <= 600,
{
    let mut score: i32 = 0;

    // Center column preference
    let center = COLS / 2;
    let mut r: usize = 0;
    while r < ROWS
        invariant
            0 <= r <= 6,
            center == 3,
            score == center_upto(board@, r as int),
        decreases 6 - r,
    {
        proof {
            lemma_center_bound(board@, r as int);
        }
        match board[r * COLS + center] {
            Some(Player::Ai) => score = score + 3,
            Some(Player::Human) => score = score - 3,
            None => {},
        }
        r = r + 1;
    }
    proof {
        lemma_center_bound(board@, 6);
        lemma_grid_windows_bound(board@, 0, 6, 4, 0, 1);
        lemma_grid_windows_bound(board@, 0, 3, 7, 1, 0);
        lemma_grid_windows_bound(board@, 0, 3, 4, 1, 1);
        lemma_grid_windows_bound(board@, 3, 6, 4, -1, 1);
    }
    // Horizontal windows
    score = score + sum_grid_windows(board, 0, ROWS, COLS - 3, 0, 1);
    // Vertical windows
    score = score + sum_grid_windows(board, 0, ROWS - 3, COLS, 1, 0);
    // Diagonal down-right
    score = score + sum_grid_windows(board, 0, ROWS - 3, COLS - 3, 1, 1);
    // Diagonal up-right
    score = score + sum_grid_windows(board, 3, ROWS, COLS - 3, -1, 1);
    score
}

// ── Minimax search ──

/// The order in which columns are tried: center first, then outwards.
pub open spec fn move_order_at(k: int) -> int {
    if k == 0 {
        3
    } else if k == 1 {
        2
    } else if k == 2 {
        4
    } else if k == 3 {
        1
    } else if k == 4 {
        5
    } else if k == 5 {
        0
    } else {
        6
    }
}

/// The position of a column in the search order.
pub open spec fn order_pos(c: int) -> int {
    if c == 3 {
        0
    } else if c == 2 {
        1
    } else if c == 4 {
        2
    } else if c == 1 {
        3
    } else if c == 5 {
        4
    } else if c == 0 {
        5
    } else {
        6
    }
}

/// The `k`-th column of the search order.
pub fn move_order(k: usize) -> (c: usize)
    requires
        k < 7,
    ensures
        c == move_order_at(k as int),
        c < 7,
        order_pos(c as int) == k,
{
    if k == 0 {
        3
    } else if k == 1 {
        2
    } else if k == 2 {
        4
    } else if k == 3 {
        1
    } else if k == 4 {
        5
    } else if k == 5 {
        0
    } else {
        6
    }
}

pub open spec fn mover(maximizing: bool) -> Player {
    if maximizing {
        Player::Ai
    } else {
        Player::Human
    }
}

/// The score of a win found `depth` plies from the search horizon.
pub open spec fn win_value(depth: int, maximizing: bool) -> int {
    if maximizing {
        WIN_SCORE + depth
    } else {
        -(WIN_SCORE + depth)
    }
}

/// The starting value of a search node, worse than any real score.
pub open spec fn worst(maximizing: bool) -> int {
    if maximizing {
        i32::MIN + 1
    } else {
        i32::MAX as int
    }
}

pub open spec fn any_open(s: Seq<Option<Player>>) -> bool {
    exists|c: int| 0 <= c < 7 && col_open(s, c)
}

/// Some column among the first `k` of the search order is open.
pub open spec fn open_upto(s: Seq<Option<Player>>, k: int) -> bool {
    exists|j: int| 0 <= j < k && col_open(s, #[trigger] move_order_at(j))
}

/// The value of moving in `col` at a node: a win right away scores the win,
/// otherwise the minimax value of the resulting position for the opponent.
pub open spec fn child_value(
    s: Seq<Option<Player>>,
    depth: nat,
    maximizing: bool,
    moves: nat,
    col: int,
) -> int
    decreases depth, 0nat,
{
    match landing_row(s, col) {
        Some(r) => {
            let s2 = s.update(r * 7 + col, Some(mover(maximizing)));
            if four_at(s2, r, col) {
                win_value(depth as int, maximizing)
            } else if depth == 0 {
                0
            } else {
                minimax_value(s2, (depth - 1) as nat, !maximizing, moves + 1)
            }
        },
        None => 0,
    }
}

/// The best child value among the first `k` columns of the search order
/// (maximum for the AI, minimum for the human), starting from `worst`.
pub open spec fn explored(
    s: Seq<Option<Player>>,
    depth: nat,
    maximizing: bool,
    moves: nat,
    k: nat,
) -> int
    decreases depth, k,
{
    if k == 0 {
        worst(maximizing)
    } else {
        let prev = explored(s, depth, maximizing, moves, (k - 1) as nat);
        let col = move_order_at(k - 1);
        if !col_open(s, col) {
            prev
        } else {
            let v = child_value(s, depth, maximizing, moves, col);
            if maximizing {
                if v > prev {
                    v
                } else {
                    prev
                }
            } else {
                if v < prev {
                    v
                } else {
                    prev
                }
            }
        }
    }
}

/// The minimax value of a position: 0 once the board is full or no move is
/// left, the static evaluation at the horizon, otherwise the best child.
pub open spec fn minimax_value(s: Seq<Option<Player>>, depth: nat, maximizing: bool, moves: nat) -> int
    decreases depth, 8nat,
{
    if moves >= 42 {
        0
    } else if depth == 0 {
        evaluation(s)
    } else if !any_open(s) {
        0
    } else {
        explored(s, depth, maximizing, moves, 7)
    }
}

/// What a fail-soft alpha-beta search returns for a node of value `v`
/// searched with window (alpha, beta): an upper bound on `v` when it fails
/// low, the exact value inside the window, a lower bound when it fails high.
pub open spec fn fail_soft(r: int, v: int, alpha: int, beta: int) -> bool {
    &&& r <= alpha ==> v <= r
    &&& (alpha < r && r < beta) ==> v == r
    &&& r >= beta ==> v >= r
}

/// What the alpha-beta search returns at a node searched with window
/// (alpha, beta): 0 once the board is full, the static evaluation at the
/// horizon, otherwise the result of trying the columns in search order.
pub open spec fn search_value(
    s: Seq<Option<Player>>,
    depth: nat,
    alpha: int,
    beta: int,
    maximizing: bool,
    moves: nat,
) -> int
    decreases depth, 8int,
{
    if moves >= 42 {
        0
    } else if depth == 0 {
        evaluation(s)
    } else {
        search_from(s, depth, alpha, beta, maximizing, moves, 0, worst(maximizing), false)
    }
}

/// The search at a node from the `k`-th column of the search order on, with
/// the window narrowed to (alpha, beta), `best` the best child score so far
/// and `found` whether any column was open: it stops at the first move that
/// wins at once (returning the win), when the window closes or the columns
/// run out (returning `best`, or 0 when no column was open); a full column
/// is passed over; any other column is searched one level deeper with the
/// current window, and `best` and the window are narrowed by its score.
pub open spec fn search_from(
    s: Seq<Option<Player>>,
    depth: nat,
    alpha: int,
    beta: int,
    maximizing: bool,
    moves: nat,
    k: int,
    best: int,
    found: bool,
) -> int
    decreases depth, 7 - k,
{
    if k >= 7 || alpha >= beta || k < 0 || depth == 0 {
        if found {
            best
        } else {
            0
        }
    } else {
        let col = move_order_at(k);
        if !col_open(s, col) {
            search_from(s, depth, alpha, beta, maximizing, moves, k + 1, best, found)
        } else {
            match landing_row(s, col) {
                None => search_from(s, depth, alpha, beta, maximizing, moves, k + 1, best, true),
                Some(r) => {
                    let s2 = s.update(r * 7 + col, Some(mover(maximizing)));
                    if four_at(s2, r, col) {
                        win_value(depth as int, maximizing)
                    } else {
                        let score = search_value(
                            s2,
                            (depth - 1) as nat,
                            alpha,
                            beta,
                            !maximizing,
                            moves + 1,
                        );
                        if maximizing {
                            let b = if score > best {
                                score
                            } else {
                                best
                            };
                            let a = if b > alpha {
                                b
                            } else {
                                alpha
                            };
                            search_from(s, depth, a, beta, maximizing, moves, k + 1, b, true)
                        } else {
                            let b = if score < best {
                                score
                            } else {
                                best
                            };
                            let bt = if b < beta {
                                b
                            } else {
                                beta
                            };
                            search_from(s, depth, alpha, bt, maximizing, moves, k + 1, b, true)
                        }
                    }
                },
            }
        }
    }
}

proof fn lemma_open_lands(s: Seq<Option<Player>>, col: int)
    requires
        col_open(s, col),
    ensures
        landing_row(s, col) is Some,
{
    lemma_landing(s, col, 6);
}

proof fn lemma_any_open_order(s: Seq<Option<Player>>)
    ensures
        any_open(s) == open_upto(s, 7),
{
    if any_open(s) {
        let c = choose|c: int| 0 <= c < 7 && col_open(s, c);
        assert(col_open(s, move_order_at(order_pos(c))));
    }
    if open_upto(s, 7) {
        let j = choose|j: int| 0 <= j < 7 && col_open(s, #[trigger] move_order_at(j));
        assert(0 <= move_order_at(j) < 7);
    }
}

proof fn lemma_child_bound(s: Seq<Option<Player>>, depth: nat, maximizing: bool, moves: nat, col: int)
    ensures
        -(WIN_SCORE + depth) <= child_value(s, depth, maximizing, moves, col) <= WIN_SCORE + depth,
    decreases depth, 0nat,
{
    match landing_row(s, col) {
        Some(r) => {
            let s2 = s.update(r * 7 + col, Some(mover(maximizing)));
            if !four_at(s2, r, col) && depth > 0 {
                lemma_value_bound(s2, (depth - 1) as nat, !maximizing, moves + 1);
            }
        },
        None => {},
    }
}

proof fn lemma_explored_bound(
    s: Seq<Option<Player>>,
    depth: nat,
    maximizing: bool,
    moves: nat,
    k: nat,
)
    requires
        k <= 7,
    ensures
        open_upto(s, k as int) ==> -(WIN_SCORE + depth) <= explored(s, depth, maximizing, moves, k)
            <= WIN_SCORE + depth,
        !open_upto(s, k as int) ==> explored(s, depth, maximizing, moves, k) == worst(maximizing),
    decreases depth, k,
{
    if k > 0 {
        lemma_explored_bound(s, depth, maximizing, moves, (k - 1) as nat);
        lemma_child_bound(s, depth, maximizing, moves, move_order_at(k - 1));
        if open_upto(s, k as int) && !col_open(s, move_order_at(k - 1)) {
            let j = choose|j: int| 0 <= j < k && col_open(s, #[trigger] move_order_at(j));
            assert(open_upto(s, k - 1));
        }
        if open_upto(s, k - 1) {
            let j = choose|j: int| 0 <= j < k - 1 && col_open(s, #[trigger] move_order_at(j));
            assert(open_upto(s, k as int));
        }
        if col_open(s, move_order_at(k - 1)) {
            assert(open_upto(s, k as int));
        }
    }
}

/// The minimax value never exceeds a win found at the current depth.
pub proof fn lemma_value_bound(s: Seq<Option<Player>>, depth: nat, maximizing: bool, moves: nat)
    ensures
        -(WIN_SCORE + depth) <= minimax_value(s, depth, maximizing, moves) <= WIN_SCORE + depth,
    decreases depth, 8nat,
{
    if moves < 42 && depth == 0 {
        lemma_evaluation_bound(s);
    }
    if moves < 42 && depth > 0 && any_open(s) {
        lemma_any_open_order(s);
        lemma_explored_bound(s, depth, maximizing, moves, 7);
    }
}

/// The best so far only improves as more columns are explored.
proof fn lemma_explored_monotone(
    s: Seq<Option<Player>>,
    depth: nat,
    maximizing: bool,
    moves: nat,
    k1: nat,
    k2: nat,
)
    requires
        k1 <= k2,
    ensures
        maximizing ==> explored(s, depth, maximizing, moves, k2) >= explored(
            s,
            depth,
            maximizing,
            moves,
            k1,
        ),
        !maximizing ==> explored(s, depth, maximizing, moves, k2) <= explored(
            s,
            depth,
            maximizing,
            moves,
            k1,
        ),
    decreases k2,
{
    if k2 > k1 {
        lemma_explored_monotone(s, depth, maximizing, moves, k1, (k2 - 1) as nat);
    }
}

/// The best so far is at least as good as every explored open column.
proof fn lemma_explored_dominates(
    s: Seq<Option<Player>>,
    depth: nat,
    maximizing: bool,
    moves: nat,
    k: nat,
    j: int,
)
    requires
        0 <= j < k,
        col_open(s, move_order_at(j)),
    ensures
        maximizing ==> explored(s, depth, maximizing, moves, k) >= child_value(
            s,
            depth,
            maximizing,
            moves,
            move_order_at(j),
        ),
        !maximizing ==> explored(s, depth, maximizing, moves, k) <= child_value(
            s,
            depth,
            maximizing,
            moves,
            move_order_at(j),
        ),
    decreases k,
{
    if j < k - 1 {
        lemma_explored_dominates(s, depth, maximizing, moves, (k - 1) as nat, j);
    }
}

/// A move that wins on the spot is the value of the node.
proof fn lemma_immediate_win(s: Seq<Option<Player>>, depth: nat, maximizing: bool, moves: nat, j: int)
    requires
        0 <= j < 7,
        depth > 0,
        moves < 42,
        col_open(s, move_order_at(j)),
        child_value(s, depth, maximizing, moves, move_order_at(j)) == win_value(
            depth as int,
            maximizing,
        ),
    ensures
        minimax_value(s, depth, maximizing, moves) == win_value(depth as int, maximizing),
{
    assert(open_upto(s, 7));
    lemma_any_open_order(s);
    lemma_explored_bound(s, depth, maximizing, moves, 7);
    lemma_explored_dominates(s, depth, maximizing, moves, 7, j);
}

/// Alpha-beta minimax search: returns exactly the search value of the node
/// (`search_value`), which is the minimax value when it falls inside the
/// window and a bound on it on the side where it fails (fail-soft).
pub fn minimax(board: &Board, depth: u32, alpha: i32, beta: i32, maximizing: bool, moves: u32) -> (score: i32)
    requires
        alpha < beta,
        depth + WIN_SCORE <= i32::MAX,
    ensures
        score == search_value(
            board@,
            depth as nat,
            alpha as int,
            beta as int,
            maximizing,
            moves as nat,
        ),
        fail_soft(
            score as int,
            minimax_value(board@, depth as nat, maximizing, moves as nat),
            alpha as int,
            beta as int,
        ),
        -(WIN_SCORE + depth) <= score <= WIN_SCORE + depth,
    decreases depth,
{
    if moves >= (ROWS * COLS) as u32 {
        return 0;
    }
    if depth == 0 {
        return evaluate(board);
    }
    let ghost s = board@;
    let ghost d = depth as nat;
    let ghost m = moves as nat;

    let player = if maximizing {
        Player::Ai
    } else {
        Player::Human
    };
    let mut lo = alpha;
    let mut hi = beta;
    let ghost a0 = alpha as int;
    let ghost b0 = beta as int;
    let mut best = if maximizing {
        i32::MIN + 1
    } else {
        i32::MAX
    };
    let mut found_move = false;
    let mut cut = false;
    let mut k: usize = 0;

    while k < 7 && !cut
        invariant
            0 <= k <= 7,
            s == board@,
            d == depth,
            m == moves,
            0 < depth,
            moves < 42,
            depth + WIN_SCORE <= i32::MAX,
            a0 < b0,
            player == mover(maximizing),
            found_move == open_upto(s, k as int),
            a0 == alpha,
            b0 == beta,
            search_from(s, d, lo as int, hi as int, maximizing, m, k as int, best as int, found_move)
                == search_value(s, d, a0, b0, maximizing, m),
            !found_move ==> best == worst(maximizing),
            !found_move ==> !cut,
            found_move ==> -(WIN_SCORE + depth) <= best <= WIN_SCORE + depth,
            maximizing ==> {
                &&& lo == (if a0 >= best || !found_move {
                    a0
                } else {
                    best as int
                })
                &&& hi == b0
                &&& cut == (found_move && best >= b0)
                &&& !cut ==> (best <= a0 ==> explored(s, d, maximizing, m, k as nat) <= best)
                &&& !cut ==> (best > a0 ==> explored(s, d, maximizing, m, k as nat) == best)
                &&& cut ==> explored(s, d, maximizing, m, k as nat) >= best
            },
            !maximizing ==> {
                &&& hi == (if b0 <= best || !found_move {
                    b0
                } else {
                    best as int
                })
                &&& lo == a0
                &&& cut == (found_move && best <= a0)
                &&& !cut ==> (best >= b0 ==> explored(s, d, maximizing, m, k as nat) >= best)
                &&& !cut ==> (best < b0 ==> explored(s, d, maximizing, m, k as nat) == best)
                &&& cut ==> explored(s, d, maximizing, m, k as nat) <= best
            },
        decreases 7 - k,
    {
        let col = move_order(k);
        proof {
            if open_upto(s, k as int) {
                let j = choose|j: int| 0 <= j < k && col_open(s, #[trigger] move_order_at(j));
                assert(open_upto(s, k + 1));
            }
        }
        if board[col].is_some() {
            proof {
                if open_upto(s, k + 1) {
                    let j = choose|j: int| 0 <= j < k + 1 && col_open(s, #[trigger] move_order_at(j));
                    assert(open_upto(s, k as int));
                }
            }
            k = k + 1;
        } else {
            found_move = true;
            proof {
                assert(col_open(s, move_order_at(k as int)));
                assert(open_upto(s, k + 1));
                lemma_open_lands(s, col as int);
            }
            let mut b = *board;
            let landed = drop_on_board(&mut b, col, player);
            if let Some(row) = landed {
                proof {
                    lemma_landing(s, col as int, 6);
                }
                if has_four_at(&b, row, col) {
                    let win = WIN_SCORE + depth as i32;
                    proof {
                        assert(child_value(s, d, maximizing, m, col as int) == win_value(
                            d as int,
                            maximizing,
                        ));
                        lemma_immediate_win(s, d, maximizing, m, k as int);
                        assert((lo as int) < (hi as int));
                        assert(b@ == s.update(row * 7 + col, Some(mover(maximizing))));
                        assert(search_from(
                            s,
                            d,
                            lo as int,
                            hi as int,
                            maximizing,
                            m,
                            k as int,
                            best as int,
                            found_move,
                        ) == win_value(d as int, maximizing));
                    }
                    let result = if maximizing {
                        win
                    } else {
                        -win
                    };
                    proof {
                        assert(result == win_value(d as int, maximizing));
                        assert(result == search_value(s, d, a0, b0, maximizing, m));
                    }
                    return result;
                }
                let score = minimax(&b, depth - 1, lo, hi, !maximizing, moves + 1);
                proof {
                    assert(child_value(s, d, maximizing, m, col as int) == minimax_value(
                        b@,
                        (d - 1) as nat,
                        !maximizing,
                        m + 1,
                    ));
                }
                if maximizing {
                    if score > best {
                        best = score;
                    }
                    if best > lo {
                        lo = best;
                    }
                } else {
                    if score < best {
                        best = score;
                    }
                    if best < hi {
                        hi = best;
                    }
                }
                if lo >= hi {
                    cut = true;
                }
            }
            k = k + 1;
        }
    }
    if !found_move {
        proof {
            lemma_any_open_order(s);
        }
        return 0;
    }
    proof {
        lemma_any_open_order(s);
        lemma_explored_monotone(s, d, maximizing, m, k as nat, 7);
    }
    best
}

/// Appends the run of `p` leaving (row, col) along a ray.
fn push_run(
    board: &Board,
    row: usize,
    col: usize,
    d: usize,
    neg: bool,
    p: Player,
    cells: &mut Vec<(usize, usize)>,
)
    requires
        row < 6,
        col < 7,
        d < 4,
        old(cells)@.len() <= 4,
    ensures
        final(cells)@ == old(cells)@ + ray_cells(
            row as int,
            col as int,
            d as int,
            neg,
            run_from(board@, row as int, col as int, d as int, neg, p, 1),
        ),
{
    let ghost c0 = old(cells)@;
    let ghost total = run_from(board@, row as int, col as int, d as int, neg, p, 1);
    proof {
        lemma_run_bounds(board@, row as int, col as int, d as int, neg, p, 1);
        assert(ray_cells(row as int, col as int, d as int, neg, 0) =~= Seq::<(usize, usize)>::empty());
        assert(c0 + Seq::<(usize, usize)>::empty() =~= c0);
    }
    let mut k: u32 = 0;
    while k < 3
        invariant_except_break
            0 <= k <= 3,
            row < 6,
            col < 7,
            d < 4,
            c0 == old(cells)@,
            total == run_from(board@, row as int, col as int, d as int, neg, p, 1),
            k + run_from(board@, row as int, col as int, d as int, neg, p, k + 1) == total,
            cells@ == c0 + ray_cells(row as int, col as int, d as int, neg, k as int),
        ensures
            cells@ == c0 + ray_cells(row as int, col as int, d as int, neg, total),
        decreases 3 - k,
    {
        let (r, c) = ray_pos(row, col, d, neg, (k + 1) as i32);
        if owned_at(board, r, c, p) {
            cells.push((r as usize, c as usize));
            proof {
                assert(ray_cells(row as int, col as int, d as int, neg, k + 1) =~= ray_cells(
                    row as int,
                    col as int,
                    d as int,
                    neg,
                    k as int,
                ).push((r as usize, c as usize)));
                assert(c0 + ray_cells(row as int, col as int, d as int, neg, k + 1) =~= (c0
                    + ray_cells(row as int, col as int, d as int, neg, k as int)).push(
                    (r as usize, c as usize),
                ));
            }
            k = k + 1;
        } else {
            break;
        }
    }
}

/// `best` is the column the AI picks on board `s` after `moves` moves: none
/// when every column is full, otherwise the first open column in the search
/// order whose move has the highest value.
pub open spec fn best_move_choice(s: Seq<Option<Player>>, moves: nat, best: Option<usize>) -> bool {
    &&& (best is None <==> !any_open(s))
    &&& (best matches Some(c) ==> {
        &&& c < 7
        &&& col_open(s, c as int)
        &&& child_value(s, SEARCH_DEPTH as nat, true, moves, c as int)
            == explored(s, SEARCH_DEPTH as nat, true, moves, 7)
        &&& forall|j: int|
            0 <= j < order_pos(c as int) && col_open(s, #[trigger] move_order_at(j))
                ==> child_value(s, SEARCH_DEPTH as nat, true, moves, move_order_at(j))
                < child_value(s, SEARCH_DEPTH as nat, true, moves, c as int)
    })
}

/// Finds the best column for the AI: among the open columns, the first in
/// the search order whose move scores highest.
pub fn best_move(board: &Board, moves: u32) -> (best: Option<usize>)
    requires
        moves < u32::MAX,
    ensures
        best_move_choice(board@, moves as nat, best),
{
    let ghost s = board@;
    let ghost d = SEARCH_DEPTH as nat;
    let ghost m = moves as nat;
    let mut best_score: i32 = i32::MIN + 1;
    let mut best_col: Option<usize> = None;
    let mut alpha: i32 = i32::MIN + 1;
    let beta: i32 = i32::MAX;
    let mut k: usize = 0;
    while k < 7
        invariant
            0 <= k <= 7,
            s == board@,
            d == SEARCH_DEPTH,
            m == moves,
            moves < u32::MAX,
            beta == i32::MAX,
            alpha == best_score,
            best_score == explored(s, d, true, m, k as nat),
            best_col is None <==> !open_upto(s, k as int),
            best_col matches Some(c) ==> {
                &&& c < 7
                &&& order_pos(c as int) < k
                &&& move_order_at(order_pos(c as int)) == c
                &&& col_open(s, c as int)
                &&& child_value(s, d, true, m, c as int) == best_score
                &&& forall|j: int|
                    0 <= j < order_pos(c as int) && col_open(s, #[trigger] move_order_at(j))
                        ==> child_value(s, d, true, m, move_order_at(j)) < best_score
            },
        decreases 7 - k,
    {
        let col = move_order(k);
        proof {
            lemma_explored_bound(s, d, true, m, k as nat);
            if open_upto(s, k as int) {
                let j = choose|j: int| 0 <= j < k && col_open(s, #[trigger] move_order_at(j));
                assert(open_upto(s, k + 1));
            }
        }
        if board[col].is_some() {
            proof {
                if open_upto(s, k + 1) {
                    let j = choose|j: int| 0 <= j < k + 1 && col_open(s, #[trigger] move_order_at(j));
                    assert(open_upto(s, k as int));
                }
            }
            k = k + 1;
            continue;
        }
        proof {
            assert(col_open(s, move_order_at(k as int)));
            assert(open_upto(s, k + 1));
            lemma_open_lands(s, col as int);
            lemma_landing(s, col as int, 6);
            lemma_child_bound(s, d, true, m, col as int);
        }
        let mut b = *board;
        let landed = drop_on_board(&mut b, col, Player::Ai);
        if let Some(row) = landed {
            let score = if has_four_at(&b, row, col) {
                WIN_SCORE + SEARCH_DEPTH as i32
            } else {
                minimax(&b, SEARCH_DEPTH - 1, alpha, beta, false, moves + 1)
            };
            proof {
                assert forall|j: int|
                    0 <= j < k && col_open(s, #[trigger] move_order_at(j)) implies child_value(
                        s,
                        d,
                        true,
                        m,
                        move_order_at(j),
                    ) <= explored(s, d, true, m, k as nat) by {
                    lemma_explored_dominates(s, d, true, m, k as nat, j);
                }
                if !four_at(b@, row as int, col as int) {
                    assert(child_value(s, d, true, m, col as int) == minimax_value(
                        b@,
                        (d - 1) as nat,
                        false,
                        m + 1,
                    ));
                }
            }
            if score > best_score {
                best_score = score;
                best_col = Some(col);
            }
            if score > alpha {
                alpha = score;
            }
        }
        k = k + 1;
    }
    proof {
        lemma_any_open_order(s);
    }
    best_col
}

// ── The game ──


/// A game of Connect 4: the human plays against the minimax AI.
pub struct Connect4Game {
    board: Board,
    selected_col: usize,
    current_player: Player,
    result: Option<GameResult>,
    move_count: u32,
    /// The cells that form the winning line (if any).
    winning_cells: Vec<(usize, usize)>,
    /// The AI is due to move once its delay has passed.
    ai_pending: bool,
}

/// `post` is the game after the player to move in `pre` dropped a piece
/// in `col`.
pub open spec fn move_made(pre: Connect4Game, col: int, post: Connect4Game) -> bool {
    &&& post.selected_view() == pre.selected_view()
    &&& post.ai_pending_view() == pre.ai_pending_view()
    &&& match landing_row(pre.board_view(), col as int) {
        None => post == pre,
        Some(r) => {
            let s = place(pre.board_view(), col as int, pre.player_view());
            &&& post.board_view() == s
            &&& post.moves_view() == pre.moves_view() + 1
            &&& if four_at(s, r, col as int) {
                &&& post.winning_view() == win_cells(
                    s,
                    r,
                    col as int,
                    pre.player_view(),
                )
                &&& post.result_view() == Some(
                    GameResult::Win(pre.player_view()),
                )
                &&& post.player_view() == pre.player_view()
            } else if pre.moves_view() + 1 >= 42 {
                &&& post.winning_view() == pre.winning_view()
                &&& post.result_view() == Some(GameResult::Draw)
                &&& post.player_view() == pre.player_view()
            } else {
                &&& post.winning_view() == pre.winning_view()
                &&& post.result_view() == pre.result_view()
                &&& post.player_view() == other(pre.player_view())
            }
        },
    }
}

/// `post` is `pre` after the AI played its chosen move (unchanged when no
/// column is open).
pub open spec fn ai_moved(pre: Connect4Game, post: Connect4Game) -> bool {
    &&& !any_open(pre.board_view()) ==> post == pre
    &&& any_open(pre.board_view()) ==> exists|c: usize|
        best_move_choice(pre.board_view(), pre.moves_view(), Some(c)) && #[trigger] move_made(
            pre,
            c as int,
            post,
        )
}

/// The state of a new round: empty board, cursor in the center, the human
/// to move, nothing pending.
pub open spec fn is_fresh(g: Connect4Game) -> bool {
    &&& g.wf()
    &&& g.board_view() == Seq::new(42, |i: int| None::<Player>)
    &&& g.selected_view() == START_COL
    &&& g.player_view() == Player::Human
    &&& g.result_view() is None
    &&& g.moves_view() == 0
    &&& g.winning_view() == Seq::<(usize, usize)>::empty()
    &&& !g.ai_pending_view()
}

/// `post` is `pre` with the AI's pending flag set to `b` and nothing else
/// changed.
pub open spec fn pending_set(pre: Connect4Game, b: bool, post: Connect4Game) -> bool {
    &&& post.board_view() == pre.board_view()
    &&& post.selected_view() == pre.selected_view()
    &&& post.player_view() == pre.player_view()
    &&& post.result_view() == pre.result_view()
    &&& post.moves_view() == pre.moves_view()
    &&& post.winning_view() == pre.winning_view()
    &&& post.ai_pending_view() == b
}

/// `post` is `pre` with only the cursor moved to `col`.
pub open spec fn cursor_moved(pre: Connect4Game, col: int, post: Connect4Game) -> bool {
    &&& post.selected_view() == col
    &&& post.board_view() == pre.board_view()
    &&& post.player_view() == pre.player_view()
    &&& post.result_view() == pre.result_view()
    &&& post.moves_view() == pre.moves_view()
    &&& post.winning_view() == pre.winning_view()
    &&& post.ai_pending_view() == pre.ai_pending_view()
}

impl Connect4Game {
    pub closed spec fn board_view(&self) -> Seq<Option<Player>> {
        self.board@
    }

    pub closed spec fn selected_view(&self) -> int {
        self.selected_col as int
    }

    pub closed spec fn player_view(&self) -> Player {
        self.current_player
    }

    pub closed spec fn result_view(&self) -> Option<GameResult> {
        self.result
    }

    pub closed spec fn moves_view(&self) -> nat {
        self.move_count as nat
    }

    pub closed spec fn winning_view(&self) -> Seq<(usize, usize)> {
        self.winning_cells@
    }

    pub closed spec fn ai_pending_view(&self) -> bool {
        self.ai_pending
    }

    /// The cursor is on the board and the move count is the number of
    /// pieces on it.
    pub open spec fn wf(&self) -> bool {
        &&& self.selected_view() < 7
        &&& self.moves_view() == filled_count(self.board_view())
    }

    /// An empty board, the cursor in the center, the human to move.
    pub fn new() -> (g: Self)
        ensures
            g.wf(),
            g.board_view() == Seq::new(42, |i: int| None::<Player>),
            g.selected_view() == START_COL,
            g.player_view() == Player::Human,
            g.result_view() is None,
            g.moves_view() == 0,
            g.winning_view() == Seq::<(usize, usize)>::empty(),
            !g.ai_pending_view(),
            is_fresh(g),
    {
        let g = Connect4Game {
            board: [None;42],
            selected_col: START_COL,
            current_player: Player::Human,
            result: None,
            move_count: 0,
            winning_cells: Vec::new(),
            ai_pending: false,
        };
        proof {
            assert(g.board@ =~= Seq::new(42, |i: int| None::<Player>));
            lemma_filled_empty(42);
        }
        g
    }

    /// Drops the current player's piece in `col`; returns where it landed.
    fn drop_piece(&mut self, col: usize) -> (landed: Option<(usize, usize)>)
        requires
            old(self).wf(),
            col < 7,
        ensures
            final(self).wf(),
            landed == (match landing_row(old(self).board@, col as int) {
                Some(r) => Some((r as usize, col)),
                None => None::<(usize, usize)>,
            }),
            final(self).board@ == place(old(self).board@, col as int, old(self).current_player),
            final(self).move_count == old(self).move_count + if landed is Some {
                1int
            } else {
                0int
            },
            final(self).selected_col == old(self).selected_col,
            final(self).current_player == old(self).current_player,
            final(self).result == old(self).result,
            final(self).winning_cells == old(self).winning_cells,
            final(self).ai_pending == old(self).ai_pending,
            landed is None ==> *final(self) == *old(self),
    {
        let ghost s0 = self.board@;
        proof {
            lemma_landing(s0, col as int, 6);
            lemma_filled_bound(s0, 42);
        }
        match drop_on_board(&mut self.board, col, self.current_player) {
            Some(row) => {
                proof {
                    lemma_filled_update(s0, row * 7 + col, self.current_player, 42);
                    lemma_filled_bound(self.board@, 42);
                }
                self.move_count = self.move_count + 1;
                Some((row, col))
            },
            None => None,
        }
    }

    /// Whether column `col` has no room left.
    pub fn column_full(&self, col: usize) -> (full: bool)
        requires
            col < 7,
        ensures
            full == !col_open(self.board_view(), col as int),
    {
        self.board[col].is_some()
    }

    /// The winning line through (row, col), if the piece there makes four.
    pub fn check_win(&self, row: usize, col: usize) -> (cells: Option<Vec<(usize, usize)>>)
        requires
            row < ROWS,
            col < COLS,
        ensures
            cells is Some <==> four_at(self.board_view(), row as int, col as int),
            cells matches Some(v) ==> v@ == win_cells(
                self.board_view(),
                row as int,
                col as int,
                cell(self.board_view(), row as int, col as int)->0,
            ),
    {
        let player = match self.board[row * COLS + col] {
            Some(p) => p,
            None => return None,
        };
        let mut d: usize = 0;
        while d < 4
            invariant
                0 <= d <= 4,
                row < 6,
                col < 7,
                cell(self.board@, row as int, col as int) == Some(player),
                forall|e: int|
                    0 <= e < d ==> line_count(self.board@, row as int, col as int, e, player) < 4,
            decreases 4 - d,
        {
            let mut cells = Vec::new();
            cells.push((row, col));
            proof {
                lemma_run_bounds(self.board@, row as int, col as int, d as int, false, player, 1);
                lemma_run_bounds(self.board@, row as int, col as int, d as int, true, player, 1);
            }
            push_run(&self.board, row, col, d, false, player, &mut cells);
            push_run(&self.board, row, col, d, true, player, &mut cells);
            if cells.len() >= 4 {
                proof {
                    assert(first_win_dir(self.board@, row as int, col as int, player) == d);
                    assert(cells@ =~= win_cells(self.board@, row as int, col as int, player));
                }
                return Some(cells);
            }
            d = d + 1;
        }
        None
    }

    /// Whether every cell has been played.
    pub fn is_draw(&self) -> (draw: bool)
        ensures
            draw == (self.moves_view() >= 42),
    {
        self.move_count as usize >= ROWS * COLS
    }

    /// The current player drops a piece in `col`; the game ends on four in a
    /// row or a full board, otherwise the turn passes.
    pub fn make_move(&mut self, col: usize)
        requires
            old(self).wf(),
            col < 7,
        ensures
            final(self).wf(),
            move_made(*old(self), col as int, *final(self)),
    {
        proof {
            lemma_landing(self.board@, col as int, 6);
        }
        if let Some((row, col)) = self.drop_piece(col) {
            proof {
                assert(self.board@[row * 7 + col] == Some(old(self).current_player));
            }
            if let Some(cells) = self.check_win(row, col) {
                self.winning_cells = cells;
                self.result = Some(GameResult::Win(self.current_player));
            } else if self.is_draw() {
                self.result = Some(GameResult::Draw);
            } else {
                self.current_player = match self.current_player {
                    Player::Human => Player::Ai,
                    Player::Ai => Player::Human,
                };
            }
        }
    }

    /// The column the AI would play now (see `best_move`).
    pub fn find_best_move(&self) -> (best: Option<usize>)
        requires
            self.wf(),
        ensures
            best_move_choice(self.board_view(), self.moves_view(), best),
    {
        proof {
            lemma_filled_bound(self.board@, 42);
        }
        best_move(&self.board, self.move_count)
    }

    /// The AI plays its best move.
    pub fn ai_move(&mut self)
        requires
            old(self).wf(),
        ensures
            final(self).wf(),
            ai_moved(*old(self), *final(self)),
    {
        let ghost pre = *self;
        proof {
            lemma_filled_bound(self.board@, 42);
        }
        if let Some(col) = self.find_best_move() {
            self.make_move(col);
            assert(best_move_choice(pre.board_view(), pre.moves_view(), Some(col)));
            assert(move_made(pre, col as int, *self));
        }
    }
}

impl Connect4Game {
    /// The same game with the pending flag set to `b`.
    spec fn with_ai_pending(self, b: bool) -> Connect4Game {
        Connect4Game {
            board: self.board,
            selected_col: self.selected_col,
            current_player: self.current_player,
            result: self.result,
            move_count: self.move_count,
            winning_cells: self.winning_cells,
            ai_pending: b,
        }
    }

    /// Starts a new round.
    pub fn reset(&mut self)
        ensures
            is_fresh(*final(self)),
    {
        self.board = [None;42];
        self.selected_col = START_COL;
        self.current_player = Player::Human;
        self.result = None;
        self.move_count = 0;
        self.ai_pending = false;
        self.winning_cells.clear();
        proof {
            assert(self.board@ =~= Seq::new(42, |i: int| None::<Player>));
            lemma_filled_empty(42);
        }
    }

    /// Handles a key: Left/Right move the cursor, Enter/Space drop a piece
    /// (and, when the AI is to move next, schedule its move); once the game
    /// is over Enter/Space start a new round. Returns whether the key was
    /// used.
    pub fn handle_key_event(&mut self, key: KeyInput) -> (consumed: bool)
        requires
            old(self).wf(),
        ensures
            final(self).wf(),
            key.kind != KeyKind::Press ==> !consumed && *final(self) == *old(self),
            key.kind == KeyKind::Press && old(self).result_view() is Some ==> {
                if crate::input::is_restart_key(key.key) {
                    consumed && is_fresh(*final(self))
                } else {
                    !consumed && *final(self) == *old(self)
                }
            },
            key.kind == KeyKind::Press && old(self).result_view() is None && old(self).player_view()
                != Player::Human ==> !consumed && *final(self) == *old(self),
            key.kind == KeyKind::Press && old(self).result_view() is None && old(self).player_view()
                == Player::Human ==> match key.key {
                Key::Left => consumed && cursor_moved(
                    *old(self),
                    if old(self).selected_view() > 0 {
                        old(self).selected_view() - 1
                    } else {
                        0
                    },
                    *final(self),
                ),
                Key::Right => consumed && cursor_moved(
                    *old(self),
                    if old(self).selected_view() < 6 {
                        old(self).selected_view() + 1
                    } else {
                        6
                    },
                    *final(self),
                ),
                Key::Enter | Key::Char(' ') => consumed && if !col_open(
                    old(self).board_view(),
                    old(self).selected_view(),
                ) {
                    *final(self) == *old(self)
                } else {
                    exists|mid: Connect4Game|
                        #[trigger] move_made(*old(self), old(self).selected_view(), mid)
                            && pending_set(
                            mid,
                            (mid.result_view() is None && mid.player_view() == Player::Ai)
                                || mid.ai_pending_view(),
                            *final(self),
                        )
                },
                _ => !consumed && *final(self) == *old(self),
            },
    {
        if key.kind != KeyKind::Press {
            return false;
        }

        if self.result.is_some() {
            // Game over: Enter restarts
            if crate::input::restart_key(key.key) {
                self.reset();
                return true;
            }
            return false;
        }

        if self.current_player != Player::Human {
            return false;
        }

        match key.key {
            Key::Left => {
                if self.selected_col > 0 {
                    self.selected_col = self.selected_col - 1;
                }
                true
            },
            Key::Right => {
                if self.selected_col < COLS - 1 {
                    self.selected_col = self.selected_col + 1;
                }
                true
            },
            Key::Enter => {
                self.drop_selected();
                true
            },
            Key::Char(c) => {
                if c == ' ' {
                    self.drop_selected();
                    true
                } else {
                    false
                }
            },
            _ => false,
        }
    }

    fn drop_selected(&mut self)
        requires
            old(self).wf(),
        ensures
            final(self).wf(),
            if !col_open(old(self).board_view(), old(self).selected_view()) {
                *final(self) == *old(self)
            } else {
                exists|mid: Connect4Game|
                    #[trigger] move_made(*old(self), old(self).selected_view(), mid) && pending_set(
                        mid,
                        (mid.result_view() is None && mid.player_view() == Player::Ai)
                            || mid.ai_pending_view(),
                        *final(self),
                    )
            },
    {
        if !self.column_full(self.selected_col) {
            let ghost pre = *self;
            self.make_move(self.selected_col);
            let ghost mid = *self;
            // Schedule the AI move after a short delay
            if self.result.is_none() && self.current_player == Player::Ai {
                self.ai_pending = true;
            }
            proof {
                assert(move_made(pre, pre.selected_view(), mid));
                assert(*self == mid.with_ai_pending(
                    (mid.result_view() is None && mid.player_view() == Player::Ai)
                        || mid.ai_pending_view(),
                ));
            }
        }
    }

    /// Advances the game clock: once the AI's delay has passed
    /// (`deadline_passed`), a pending AI move is played.
    pub fn tick(&mut self, deadline_passed: bool)
        requires
            old(self).wf(),
        ensures
            final(self).wf(),
            old(self).ai_pending_view() && deadline_passed ==> exists|pre: Connect4Game|
                pending_set(*old(self), false, pre) && #[trigger] ai_moved(pre, *final(self)),
            !(old(self).ai_pending_view() && deadline_passed) ==> *final(self) == *old(self),
    {
        if self.ai_pending && deadline_passed {
            self.ai_pending = false;
            let ghost pre = *self;
            proof {
                assert(*self == old(self).with_ai_pending(false));
                assert(pending_set(*old(self), false, pre));
            }
            self.ai_move();
            proof {
                assert(ai_moved(pre, *self));
            }
        }
    }

    /// Whether the game has concluded (win or draw).
    pub fn is_game_over(&self) -> (over: bool)
        ensures
            over == self.result_view() is Some,
    {
        self.result.is_some()
    }

    /// The piece in row `row` (0 is the top) and column `col`.
    pub fn cell_at(&self, row: usize, col: usize) -> (c: Option<Player>)
        requires
            row < ROWS,
            col < COLS,
        ensures
            c == cell(self.board_view(), row as int, col as int),
    {
        self.board[row * COLS + col]
    }

    pub fn selected_col(&self) -> (c: usize)
        ensures
            c == self.selected_view(),
    {
        self.selected_col
    }

    pub fn current_player(&self) -> (p: Player)
        ensures
            p == self.player_view(),
    {
        self.current_player
    }

    pub fn result(&self) -> (r: Option<GameResult>)
        ensures
            r == self.result_view(),
    {
        self.result
    }

    pub fn move_count(&self) -> (n: u32)
        ensures
            n == self.moves_view(),
    {
        self.move_count
    }

    pub fn ai_pending(&self) -> (b: bool)
        ensures
            b == self.ai_pending_view(),
    {
        self.ai_pending
    }

    pub fn winning_cells(&self) -> (cells: &Vec<(usize, usize)>)
        ensures
            cells@ == self.winning_view(),
    {
        &self.winning_cells
    }

    /// Whether (row, col) is part of the winning line.
    pub fn is_winning_cell(&self, row: usize, col: usize) -> (b: bool)
        ensures
            b == self.winning_view().contains((row, col)),
    {
        let mut i: usize = 0;
        while i < self.winning_cells.len()
            invariant
                0 <= i <= self.winning_cells@.len(),
                forall|j: int| 0 <= j < i ==> self.winning_cells@[j] != (row, col),
            decreases self.winning_cells@.len() - i,
        {
            let (wr, wc) = self.winning_cells[i];
            if wr == row && wc == col {
                assert(self.winning_cells@[i as int] == (row, col));
                return true;
            }
            i = i + 1;
        }
        false
    }
}

/// The reported winning line is a line of four or more of the winner's
/// pieces: it starts at the piece just played, every cell is on the board
/// and holds the winner's piece.
pub proof fn lemma_win_line_owned(s: Seq<Option<Player>>, row: int, col: int)
    requires
        in_bounds(row, col),
        four_at(s, row, col),
    ensures
        ({
            let p = cell(s, row, col)->0;
            let w = win_cells(s, row, col, p);
            &&& w.len() >= 4
            &&& w[0] == (row as usize, col as usize)
            &&& forall|i: int|
                0 <= i < w.len() ==> in_bounds(w[i].0 as int, w[i].1 as int) && cell(
                    s,
                    w[i].0 as int,
                    w[i].1 as int,
                ) == Some(p)
        }),
{
    let p = cell(s, row, col)->0;
    let d = first_win_dir(s, row, col, p);
    lemma_run_bounds(s, row, col, d, false, p, 1);
    lemma_run_bounds(s, row, col, d, true, p, 1);
    let n1 = run_from(s, row, col, d, false, p, 1);
    let n2 = run_from(s, row, col, d, true, p, 1);
    let w = win_cells(s, row, col, p);
    assert forall|i: int|
        0 <= i < w.len() implies in_bounds(w[i].0 as int, w[i].1 as int) && cell(
            s,
            w[i].0 as int,
            w[i].1 as int,
        ) == Some(p) by {
        if 1 <= i <= n1 {
            assert(owned_by(s, ray_r(row, d, false, i), ray_c(col, d, false, i), p));
            assert(w[i] == ray_cells(row, col, d, false, n1)[i - 1]);
        } else if i > n1 {
            let k = i - n1;
            assert(owned_by(s, ray_r(row, d, true, k), ray_c(col, d, true, k), p));
            assert(w[i] == ray_cells(row, col, d, true, n2)[k - 1]);
        }
    }
}

/// In a well-formed game the move count is the number of pieces on the
/// board, so at most the number of cells.
pub proof fn lemma_moves_are_pieces(g: Connect4Game)
    requires
        g.wf(),
    ensures
        g.moves_view() == filled_count(g.board_view()),
        g.moves_view() <= 42,
        g.selected_view() < 7,
{
    lemma_filled_bound(g.board@, 42);
}

/// What a board cell shows: a disc of either player, highlighted when it
/// belongs to the winning line.
#[derive(Clone, Copy, PartialEq, Eq, Debug, Structural)]
pub enum Disc {
    Empty,
    Plain(Player),
    Winning(Player),
}

impl Connect4Game {
    /// What the board cell (row, col) shows.
    pub fn disc_at(&self, row: usize, col: usize) -> (d: Disc)
        requires
            row < ROWS,
            col < COLS,
        ensures
            d == (match cell(self.board_view(), row as int, col as int) {
                None => Disc::Empty,
                Some(p) => if self.winning_view().contains((row, col)) {
                    Disc::Winning(p)
                } else {
                    Disc::Plain(p)
                },
            }),
    {
        match self.cell_at(row, col) {
            None => Disc::Empty,
            Some(p) => if self.is_winning_cell(row, col) {
                Disc::Winning(p)
            } else {
                Disc::Plain(p)
            },
        }
    }
}

} // verus!
