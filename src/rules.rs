//! The movement geometry of each rank, stated over the 64 cells of a board
//! listed in row-major order.
use vstd::prelude::*;
use crate::piece::{Color, Piece, Rank};
use crate::pos::{Pos, idx, in_bounds};

verus! {

/// What stands on a square.
pub open spec fn cell(cells: Seq<Option<Piece>>, x: int, y: int) -> Option<Piece> {
    cells[idx(x, y)]
}

pub open spec fn is_empty(cells: Seq<Option<Piece>>, x: int, y: int) -> bool {
    cell(cells, x, y) is None
}

/// The square holds a piece of `color`.
pub open spec fn is_friendly(cells: Seq<Option<Piece>>, x: int, y: int, color: Color) -> bool {
    cell(cells, x, y) is Some && cell(cells, x, y)->0.color == color
}

/// The square holds a piece of the other color.
pub open spec fn is_enemy(cells: Seq<Option<Piece>>, x: int, y: int, color: Color) -> bool {
    cell(cells, x, y) is Some && cell(cells, x, y)->0.color != color
}

/// An L-shaped jump: two squares one way and one square the other.
pub open spec fn knight_jump(dx: int, dy: int) -> bool {
    ||| (dx == 1 || dx == -1) && (dy == 2 || dy == -2)
    ||| (dx == 2 || dx == -2) && (dy == 1 || dy == -1)
}

pub open spec fn knight_steps_to(
    cells: Seq<Option<Piece>>,
    x: int,
    y: int,
    color: Color,
    tx: int,
    ty: int,
) -> bool {
    &&& in_bounds(tx, ty)
    &&& knight_jump(tx - x, ty - y)
    &&& !is_friendly(cells, tx, ty, color)
}

/// A unit direction: each component in `-1..=1`, not both zero.
pub open spec fn is_direction(dx: int, dy: int) -> bool {
    -1 <= dx <= 1 && -1 <= dy <= 1 && (dx != 0 || dy != 0)
}

/// The coordinate `k` steps from `x` in direction `d`.
pub open spec fn ray_coord(x: int, d: int, k: int) -> int {
    if d > 0 {
        x + k
    } else if d < 0 {
        x - k
    } else {
        x
    }
}

/// How many steps along direction `(dx, dy)` lead from `(x, y)` to `(tx, ty)`,
/// if the target lies on that ray at all.
pub open spec fn ray_distance(x: int, y: int, dx: int, dy: int, tx: int, ty: int) -> int {
    if dx != 0 {
        if dx > 0 { tx - x } else { x - tx }
    } else {
        if dy > 0 { ty - y } else { y - ty }
    }
}

/// Every square strictly between the source and the `k`-th square of the ray is empty.
pub open spec fn ray_clear(cells: Seq<Option<Piece>>, x: int, y: int, dx: int, dy: int, k: int) -> bool {
    forall|j: int|
        1 <= j < k ==> #[trigger] is_empty(cells, ray_coord(x, dx, j), ray_coord(y, dy, j))
}

/// A sliding piece of `color` at `(x, y)` reaches `(tx, ty)` along `(dx, dy)`:
/// the target is on the ray and on the board, nothing stands before it, and it
/// does not hold a piece of the same color.
pub open spec fn slides_to(
    cells: Seq<Option<Piece>>,
    x: int,
    y: int,
    dx: int,
    dy: int,
    color: Color,
    tx: int,
    ty: int,
) -> bool {
    let k = ray_distance(x, y, dx, dy, tx, ty);
    &&& k >= 1
    &&& tx == ray_coord(x, dx, k)
    &&& ty == ray_coord(y, dy, k)
    &&& in_bounds(tx, ty)
    &&& ray_clear(cells, x, y, dx, dy, k)
    &&& !is_friendly(cells, tx, ty, color)
}

/// The square at `(x, y)`, for coordinates on the board.
pub open spec fn square(x: int, y: int) -> Pos {
    Pos { x: x as usize, y: y as usize }
}

/// The squares a sliding piece of `color` at `(x, y)` reaches along
/// `(dx, dy)` from the `k`-th square of the ray on, nearest first: the empty
/// squares, then the first occupied square if it holds a piece of the other
/// color. The ray ends at the edge of the board.
pub open spec fn ray_squares(
    cells: Seq<Option<Piece>>,
    x: int,
    y: int,
    dx: int,
    dy: int,
    color: Color,
    k: int,
) -> Seq<Pos>
    decreases 8 - k,
{
    let (cx, cy) = (ray_coord(x, dx, k), ray_coord(y, dy, k));
    if k >= 8 || !in_bounds(cx, cy) {
        seq![]
    } else if is_empty(cells, cx, cy) {
        seq![square(cx, cy)] + ray_squares(cells, x, y, dx, dy, color, k + 1)
    } else if is_enemy(cells, cx, cy, color) {
        seq![square(cx, cy)]
    } else {
        seq![]
    }
}

/// The squares along the four diagonals, the rays taken in the order
/// `(1, -1)`, `(1, 1)`, `(-1, -1)`, `(-1, 1)`.
pub open spec fn diagonal_squares(cells: Seq<Option<Piece>>, x: int, y: int, color: Color) -> Seq<Pos> {
    ray_squares(cells, x, y, 1, -1, color, 1) + ray_squares(cells, x, y, 1, 1, color, 1)
        + ray_squares(cells, x, y, -1, -1, color, 1) + ray_squares(cells, x, y, -1, 1, color, 1)
}

/// The squares along the row and the column, the rays taken in the order
/// `(1, 0)`, `(-1, 0)`, `(0, 1)`, `(0, -1)`.
pub open spec fn straight_squares(cells: Seq<Option<Piece>>, x: int, y: int, color: Color) -> Seq<Pos> {
    ray_squares(cells, x, y, 1, 0, color, 1) + ray_squares(cells, x, y, -1, 0, color, 1)
        + ray_squares(cells, x, y, 0, 1, color, 1) + ray_squares(cells, x, y, 0, -1, color, 1)
}

pub open spec fn diagonal_steps_to(
    cells: Seq<Option<Piece>>,
    x: int,
    y: int,
    color: Color,
    tx: int,
    ty: int,
) -> bool {
    ||| slides_to(cells, x, y, 1, -1, color, tx, ty)
    ||| slides_to(cells, x, y, 1, 1, color, tx, ty)
    ||| slides_to(cells, x, y, -1, -1, color, tx, ty)
    ||| slides_to(cells, x, y, -1, 1, color, tx, ty)
}

pub open spec fn straight_steps_to(
    cells: Seq<Option<Piece>>,
    x: int,
    y: int,
    color: Color,
    tx: int,
    ty: int,
) -> bool {
    ||| slides_to(cells, x, y, 1, 0, color, tx, ty)
    ||| slides_to(cells, x, y, -1, 0, color, tx, ty)
    ||| slides_to(cells, x, y, 0, 1, color, tx, ty)
    ||| slides_to(cells, x, y, 0, -1, color, tx, ty)
}

/// The row a pawn of `color` moves to from row `y`: White moves towards row 0.
pub open spec fn forward(y: int, color: Color) -> int {
    if color == Color::White { y - 1 } else { y + 1 }
}

/// The row a pawn of `color` starts on.
pub open spec fn pawn_base(color: Color) -> int {
    if color == Color::White { 6 } else { 1 }
}

/// A pawn pushes one square forward onto an empty square, two from its base
/// row when both are empty, and captures one square diagonally forward. A pawn
/// on the first or last row goes nowhere.
pub open spec fn pawn_steps_to(
    cells: Seq<Option<Piece>>,
    x: int,
    y: int,
    color: Color,
    tx: int,
    ty: int,
) -> bool {
    let f = forward(y, color);
    &&& 1 <= y <= 6
    &&& {
        ||| tx == x && ty == f && is_empty(cells, x, f)
        ||| {
            &&& tx == x
            &&& y == pawn_base(color)
            &&& ty == forward(f, color)
            &&& is_empty(cells, x, f)
            &&& is_empty(cells, x, ty)
        }
        ||| (tx == x - 1 || tx == x + 1) && ty == f && in_bounds(tx, ty) && is_enemy(
            cells,
            tx,
            ty,
            color,
        )
    }
}

/// The squares among the first `n` in row-major order that hold a piece of
/// `color` threatening `t`, in row-major order.
pub open spec fn attackers_before(cells: Seq<Option<Piece>>, color: Color, t: Pos, n: int) -> Seq<Pos>
    decreases n,
{
    if n <= 0 {
        seq![]
    } else {
        let prev = attackers_before(cells, color, t, n - 1);
        let (sx, sy) = ((n - 1) % 8, (n - 1) / 8);
        if is_friendly(cells, sx, sy, color) && attacks(cells, sx, sy, t.x as int, t.y as int) {
            prev.push(square(sx, sy))
        } else {
            prev
        }
    }
}

/// The squares a pawn of `color` on `(x, y)` threatens, in the order: single
/// push, double push, capture towards column `x - 1`, capture towards `x + 1`.
pub open spec fn pawn_squares(cells: Seq<Option<Piece>>, x: int, y: int, color: Color) -> Seq<Pos> {
    let f = forward(y, color);
    let f2 = forward(f, color);
    if y == 0 || y == 7 {
        seq![]
    } else {
        let single = if is_empty(cells, x, f) { seq![square(x, f)] } else { seq![] };
        let double = if y == pawn_base(color) && is_empty(cells, x, f) && is_empty(cells, x, f2) {
            seq![square(x, f2)]
        } else {
            seq![]
        };
        let left = if x > 0 && is_enemy(cells, x - 1, f, color) { seq![square(x - 1, f)] } else { seq![] };
        let right = if x < 7 && is_enemy(cells, x + 1, f, color) { seq![square(x + 1, f)] } else { seq![] };
        single + double + left + right
    }
}

/// The squares a piece of the given rank and color threatens from `(x, y)`.
/// Kings threaten nothing.
pub open spec fn piece_steps_to(
    cells: Seq<Option<Piece>>,
    x: int,
    y: int,
    piece: Piece,
    tx: int,
    ty: int,
) -> bool {
    match piece.rank {
        Rank::Pawn => pawn_steps_to(cells, x, y, piece.color, tx, ty),
        Rank::Knight => knight_steps_to(cells, x, y, piece.color, tx, ty),
        Rank::Bishop => diagonal_steps_to(cells, x, y, piece.color, tx, ty),
        Rank::Rook => straight_steps_to(cells, x, y, piece.color, tx, ty),
        Rank::Queen => straight_steps_to(cells, x, y, piece.color, tx, ty)
            || diagonal_steps_to(cells, x, y, piece.color, tx, ty),
        Rank::King => false,
    }
}

/// The piece on `(x, y)`, if any, threatens `(tx, ty)`.
pub open spec fn attacks(cells: Seq<Option<Piece>>, x: int, y: int, tx: int, ty: int) -> bool {
    match cell(cells, x, y) {
        Some(piece) => piece_steps_to(cells, x, y, piece, tx, ty),
        None => false,
    }
}

/// The back rank, from column 0 to column 7.
pub open spec fn back_rank(x: int) -> Rank {
    if x == 0 || x == 7 {
        Rank::Rook
    } else if x == 1 || x == 6 {
        Rank::Knight
    } else if x == 2 || x == 5 {
        Rank::Bishop
    } else if x == 3 {
        Rank::Queen
    } else {
        Rank::King
    }
}

/// The standard starting position: Black on rows 0 and 1, White on rows 6 and 7.
pub open spec fn initial_cell(x: int, y: int) -> Option<Piece> {
    if y == 0 {
        Some(Piece { color: Color::Black, rank: back_rank(x) })
    } else if y == 1 {
        Some(Piece { color: Color::Black, rank: Rank::Pawn })
    } else if y == 6 {
        Some(Piece { color: Color::White, rank: Rank::Pawn })
    } else if y == 7 {
        Some(Piece { color: Color::White, rank: back_rank(x) })
    } else {
        None
    }
}

/// The cells of the starting position.
pub open spec fn initial_layout() -> Seq<Option<Piece>> {
    Seq::new(64, |i: int| initial_cell(i % 8, i / 8))
}

/// The indices of the occupied cells.
pub open spec fn occupied(cells: Seq<Option<Piece>>) -> Set<int> {
    Set::new(|i: int| 0 <= i < cells.len() && cells[i] is Some)
}

/// The cells after moving whatever stands on `from` to `to`.
pub open spec fn moved(cells: Seq<Option<Piece>>, fx: int, fy: int, tx: int, ty: int) -> Seq<Option<Piece>> {
    cells.update(idx(fx, fy), None).update(idx(tx, ty), cells[idx(fx, fy)])
}

} // verus!
