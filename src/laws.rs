//! Properties that relate the operations of the board to one another.
use vstd::prelude::*;
use crate::board::Board;
use crate::piece::{Color, Piece};
use crate::pos::{Pos, idx, in_bounds};
use crate::rules::{
    cell,
    forward,
    initial_layout,
    is_direction,
    is_empty,
    is_enemy,
    moved,
    occupied,
    pawn_steps_to,
    ray_clear,
    ray_coord,
    ray_squares,
    square,
    slides_to,
};

verus! {

/// The starting position holds a piece on exactly the squares of rows 0, 1,
/// 6 and 7: four full rows, 32 pieces.
pub proof fn lemma_initial_occupancy(x: int, y: int)
    requires
        in_bounds(x, y),
    ensures
        initial_layout().len() == 64,
        cell(initial_layout(), x, y) is Some <==> (y <= 1 || y >= 6),
{
    let i = idx(x, y);
    assert(i % 8 == x && i / 8 == y) by (nonlinear_arith)
        requires
            i == y * 8 + x,
            0 <= x < 8,
    ;
}

/// The starting position holds exactly 32 pieces.
pub proof fn lemma_initial_count()
    ensures
        occupied(initial_layout()).finite(),
        occupied(initial_layout()).len() == 32,
{
    let low = vstd::set_lib::set_int_range(0, 16);
    let high = vstd::set_lib::set_int_range(48, 64);
    assert forall|i: int| #[trigger] occupied(initial_layout()).contains(i) <==> (low + high).contains(i) by {
        if 0 <= i < 64 {
            assert({
                &&& 0 <= i < 16 ==> i / 8 <= 1
                &&& 16 <= i < 48 ==> 2 <= i / 8 <= 5
                &&& 48 <= i < 64 ==> i / 8 >= 6
            }) by (nonlinear_arith)
                requires
                    0 <= i < 64,
            ;
        }
    }
    assert(occupied(initial_layout()) =~= low + high);
    vstd::set_lib::lemma_int_range(0, 16);
    vstd::set_lib::lemma_int_range(48, 64);
    vstd::set_lib::lemma_set_disjoint_lens(low, high);
}

/// Two well-formed boards with the same cells have identical attacker
/// lists: rebuilding the grids without a change to the cells changes nothing,
/// and a reset board has the grids of a new one.
pub proof fn lemma_attackers_follow_cells(a: &Board, b: &Board)
    requires
        a.wf(),
        b.wf(),
        a@ == b@,
    ensures
        forall|color: Color, t: Pos|
            t.on_board() ==> #[trigger] a.attacker_list(color, t) == b.attacker_list(color, t),
        forall|color: Color, t: Pos| t.on_board() ==> #[trigger] a.attackers(color, t) == b.attackers(color, t),
{
    a.lemma_attackers_exact();
    b.lemma_attackers_exact();
    assert forall|color: Color, t: Pos|
        t.on_board() implies #[trigger] a.attackers(color, t) == b.attackers(color, t) by {
        assert(a.attacker_list(color, t) == b.attacker_list(color, t));
    }
}

/// After a move from `from` to a different square `to`, `from` is empty,
/// `to` holds what stood on `from`, and every other square is unchanged.
pub proof fn lemma_move_relocates(cells: Seq<Option<Piece>>, from: Pos, to: Pos)
    requires
        cells.len() == 64,
        from.on_board(),
        to.on_board(),
        from != to,
    ensures
        is_empty(
            moved(cells, from.x as int, from.y as int, to.x as int, to.y as int),
            from.x as int,
            from.y as int,
        ),
        cell(moved(cells, from.x as int, from.y as int, to.x as int, to.y as int), to.x as int, to.y as int)
            == cell(cells, from.x as int, from.y as int),
        forall|p: Pos|
            p.on_board() && p != from && p != to ==> #[trigger] cell(
                moved(cells, from.x as int, from.y as int, to.x as int, to.y as int),
                p.x as int,
                p.y as int,
            ) == cell(cells, p.x as int, p.y as int),
{
}

/// A ray stops at the first occupied square: that square is reached iff it
/// holds a piece of the other color, and no square beyond it is reached.
pub proof fn lemma_ray_stops(
    cells: Seq<Option<Piece>>,
    x: int,
    y: int,
    dx: int,
    dy: int,
    color: Color,
    k: int,
)
    requires
        cells.len() == 64,
        in_bounds(x, y),
        is_direction(dx, dy),
        k >= 1,
        in_bounds(ray_coord(x, dx, k), ray_coord(y, dy, k)),
        ray_clear(cells, x, y, dx, dy, k),
        !is_empty(cells, ray_coord(x, dx, k), ray_coord(y, dy, k)),
    ensures
        slides_to(cells, x, y, dx, dy, color, ray_coord(x, dx, k), ray_coord(y, dy, k))
            <==> is_enemy(cells, ray_coord(x, dx, k), ray_coord(y, dy, k), color),
        forall|j: int|
            j > k ==> !#[trigger] slides_to(
                cells,
                x,
                y,
                dx,
                dy,
                color,
                ray_coord(x, dx, j),
                ray_coord(y, dy, j),
            ),
{
    assert forall|j: int|
        j > k implies !#[trigger] slides_to(
            cells,
            x,
            y,
            dx,
            dy,
            color,
            ray_coord(x, dx, j),
            ray_coord(y, dy, j),
        ) by {
        assert(!is_empty(cells, ray_coord(x, dx, k), ray_coord(y, dy, k)));
    }
}

/// The squares of a ray from the `j`-th square up to, not including, the
/// `k`-th, nearest first.
pub open spec fn ray_segment(x: int, y: int, dx: int, dy: int, j: int, k: int) -> Seq<Pos> {
    Seq::new((k - j) as nat, |i: int| square(ray_coord(x, dx, j + i), ray_coord(y, dy, j + i)))
}

/// What a ray holds from its `j`-th square on, when the `k`-th square is its
/// first occupied one.
proof fn lemma_ray_squares_from(
    cells: Seq<Option<Piece>>,
    x: int,
    y: int,
    dx: int,
    dy: int,
    color: Color,
    j: int,
    k: int,
)
    requires
        in_bounds(x, y),
        is_direction(dx, dy),
        1 <= j <= k,
        in_bounds(ray_coord(x, dx, k), ray_coord(y, dy, k)),
        ray_clear(cells, x, y, dx, dy, k),
        !is_empty(cells, ray_coord(x, dx, k), ray_coord(y, dy, k)),
    ensures
        ray_squares(cells, x, y, dx, dy, color, j) == ray_segment(x, y, dx, dy, j, k) + if is_enemy(
            cells,
            ray_coord(x, dx, k),
            ray_coord(y, dy, k),
            color,
        ) {
            seq![square(ray_coord(x, dx, k), ray_coord(y, dy, k))]
        } else {
            seq![]
        },
    decreases k - j,
{
    if j < k {
        lemma_ray_squares_from(cells, x, y, dx, dy, color, j + 1, k);
        assert(is_empty(cells, ray_coord(x, dx, j), ray_coord(y, dy, j)));
        assert(ray_segment(x, y, dx, dy, j, k) =~= seq![square(ray_coord(x, dx, j), ray_coord(y, dy, j))]
            + ray_segment(x, y, dx, dy, j + 1, k));
        assert(ray_squares(cells, x, y, dx, dy, color, j) =~= ray_segment(x, y, dx, dy, j, k) + if is_enemy(
            cells,
            ray_coord(x, dx, k),
            ray_coord(y, dy, k),
            color,
        ) {
            seq![square(ray_coord(x, dx, k), ray_coord(y, dy, k))]
        } else {
            seq![]
        });
    } else {
        assert(ray_segment(x, y, dx, dy, j, k) =~= seq![]);
        assert(ray_squares(cells, x, y, dx, dy, color, j) =~= ray_segment(x, y, dx, dy, j, k) + if is_enemy(
            cells,
            ray_coord(x, dx, k),
            ray_coord(y, dy, k),
            color,
        ) {
            seq![square(ray_coord(x, dx, k), ray_coord(y, dy, k))]
        } else {
            seq![]
        });
    }
}

/// The list of a ray ends at its first occupied square: it holds the empty
/// squares before it, nearest first, followed by that square iff it holds a
/// piece of the other color.
pub proof fn lemma_ray_list_stops(
    cells: Seq<Option<Piece>>,
    x: int,
    y: int,
    dx: int,
    dy: int,
    color: Color,
    k: int,
)
    requires
        in_bounds(x, y),
        is_direction(dx, dy),
        k >= 1,
        in_bounds(ray_coord(x, dx, k), ray_coord(y, dy, k)),
        ray_clear(cells, x, y, dx, dy, k),
        !is_empty(cells, ray_coord(x, dx, k), ray_coord(y, dy, k)),
    ensures
        is_enemy(cells, ray_coord(x, dx, k), ray_coord(y, dy, k), color) ==> ray_squares(
            cells,
            x,
            y,
            dx,
            dy,
            color,
            1,
        ) == ray_segment(x, y, dx, dy, 1, k).push(square(ray_coord(x, dx, k), ray_coord(y, dy, k))),
        !is_enemy(cells, ray_coord(x, dx, k), ray_coord(y, dy, k), color) ==> ray_squares(
            cells,
            x,
            y,
            dx,
            dy,
            color,
            1,
        ) == ray_segment(x, y, dx, dy, 1, k),
{
    lemma_ray_squares_from(cells, x, y, dx, dy, color, 1, k);
    let seg = ray_segment(x, y, dx, dy, 1, k);
    let last = square(ray_coord(x, dx, k), ray_coord(y, dy, k));
    assert(seg + seq![last] =~= seg.push(last));
    assert(seg + seq![] =~= seg);
}

/// A White pawn on its base row with both squares ahead empty may push one
/// or two squares; with the first square ahead occupied it has no double push.
pub proof fn lemma_white_pawn_pushes(cells: Seq<Option<Piece>>, x: int)
    requires
        cells.len() == 64,
        0 <= x < 8,
    ensures
        is_empty(cells, x, 5) && is_empty(cells, x, 4) ==> pawn_steps_to(cells, x, 6, Color::White, x, 5)
            && pawn_steps_to(cells, x, 6, Color::White, x, 4),
        !is_empty(cells, x, 5) ==> !pawn_steps_to(cells, x, 6, Color::White, x, 4),
{
}

/// A pawn reaches a diagonal square ahead of it iff that square holds a
/// piece of the other color: an empty diagonal is never reached.
pub proof fn lemma_pawn_diagonals(
    cells: Seq<Option<Piece>>,
    x: int,
    y: int,
    color: Color,
    tx: int,
)
    requires
        cells.len() == 64,
        in_bounds(x, y),
        1 <= y <= 6,
        tx == x - 1 || tx == x + 1,
        in_bounds(tx, forward(y, color)),
    ensures
        pawn_steps_to(cells, x, y, color, tx, forward(y, color)) <==> is_enemy(
            cells,
            tx,
            forward(y, color),
            color,
        ),
{
}

} // verus!
