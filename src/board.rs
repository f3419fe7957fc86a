use vstd::prelude::*;
use crate::piece::{Color, Piece, Rank};
use crate::pos::{Pos, idx, in_bounds};
use crate::rules::{
    attackers_before,
    forward,
    pawn_base,
    diagonal_squares,
    pawn_squares,
    ray_squares,
    square,
    straight_squares,
    attacks,
    cell,
    diagonal_steps_to,
    initial_cell,
    initial_layout,
    is_direction,
    is_empty,
    is_enemy,
    is_friendly,
    knight_steps_to,
    moved,
    pawn_steps_to,
    piece_steps_to,
    ray_clear,
    ray_coord,
    ray_distance,
    slides_to,
    straight_steps_to,
};

verus! {

broadcast use {
    vstd::seq_lib::lemma_seq_concat_contains_all_elements,
    vstd::seq_lib::lemma_seq_contains_after_push,
};

/// The board: 64 cells in row-major order (row 0 holds Black's back rank at
/// the start) and, for each color, the attacker list of every cell: the
/// squares from which a piece of that color threatens it.
#[derive(Clone)]
pub struct Board {
    pieces: Vec<Option<Piece>>,
    white_attacks: Vec<Vec<Pos>>,
    black_attacks: Vec<Vec<Pos>>,
}

impl View for Board {
    type V = Seq<Option<Piece>>;

    /// The cells of the board, in row-major order.
    closed spec fn view(&self) -> Seq<Option<Piece>> {
        self.pieces@
    }
}

/// The square `k` steps from `(x, y)` along `(dx, dy)` is `p`.
pub open spec fn on_ray_at(p: Pos, x: int, y: int, dx: int, dy: int, k: int) -> bool {
    p.x == ray_coord(x, dx, k) && p.y == ray_coord(y, dy, k)
}

/// The pieces of a back rank, from column 0 to column 7.
spec fn back_row() -> Seq<Rank> {
    seq![
        Rank::Rook,
        Rank::Knight,
        Rank::Bishop,
        Rank::Queen,
        Rank::King,
        Rank::Bishop,
        Rank::Knight,
        Rank::Rook,
    ]
}

/// The `j`-th of the eight knight jumps, in the order they are tried.
spec fn knight_offset(j: int) -> (int, int) {
    if j == 0 {
        (-2, 1)
    } else if j == 1 {
        (-2, -1)
    } else if j == 2 {
        (2, 1)
    } else if j == 3 {
        (2, -1)
    } else if j == 4 {
        (1, -2)
    } else if j == 5 {
        (-1, -2)
    } else if j == 6 {
        (1, 2)
    } else {
        (-1, 2)
    }
}

/// `(dx, dy)` is among the first `n` knight jumps.
spec fn among_first_jumps(dx: int, dy: int, n: int) -> bool
    decreases n,
{
    if n <= 0 {
        false
    } else {
        knight_offset(n - 1) == (dx, dy) || among_first_jumps(dx, dy, n - 1)
    }
}

/// Two different rays from one square share no square.
proof fn lemma_rays_disjoint(
    cells: Seq<Option<Piece>>,
    x: int,
    y: int,
    color: Color,
    d1: (int, int),
    d2: (int, int),
    tx: int,
    ty: int,
)
    requires
        is_direction(d1.0, d1.1),
        is_direction(d2.0, d2.1),
        d1 != d2,
    ensures
        !(slides_to(cells, x, y, d1.0, d1.1, color, tx, ty) && slides_to(cells, x, y, d2.0, d2.1, color, tx, ty)),
{
}

/// `p` is reached from `(x, y)` along direction `d`.
spec fn slides_along(cells: Seq<Option<Piece>>, x: int, y: int, color: Color, d: (int, int), p: Pos) -> bool {
    slides_to(cells, x, y, d.0, d.1, color, p.x as int, p.y as int)
}

/// Every square in `steps` is reached along one of the directions `dirs`.
spec fn reached_along(
    cells: Seq<Option<Piece>>,
    x: int,
    y: int,
    color: Color,
    steps: Seq<Pos>,
    dirs: Seq<(int, int)>,
) -> bool {
    forall|p: Pos|
        #[trigger] steps.contains(p) ==> exists|i: int|
            0 <= i < dirs.len() && slides_along(cells, x, y, color, #[trigger] dirs[i], p)
}

/// Joining the squares of rays along two sets of directions that have no
/// direction in common keeps the list free of duplicates.
proof fn lemma_join_rays(
    cells: Seq<Option<Piece>>,
    x: int,
    y: int,
    color: Color,
    a: Seq<Pos>,
    dirs_a: Seq<(int, int)>,
    b: Seq<Pos>,
    dirs_b: Seq<(int, int)>,
)
    requires
        a.no_duplicates(),
        b.no_duplicates(),
        forall|i: int| 0 <= i < dirs_a.len() ==> is_direction(#[trigger] dirs_a[i].0, dirs_a[i].1),
        forall|j: int| 0 <= j < dirs_b.len() ==> is_direction(#[trigger] dirs_b[j].0, dirs_b[j].1),
        forall|i: int, j: int| 0 <= i < dirs_a.len() && 0 <= j < dirs_b.len() ==> dirs_a[i] != dirs_b[j],
        reached_along(cells, x, y, color, a, dirs_a),
        reached_along(cells, x, y, color, b, dirs_b),
    ensures
        (a + b).no_duplicates(),
        reached_along(cells, x, y, color, a + b, dirs_a + dirs_b),
{
    assert forall|m: int, n: int| 0 <= m < a.len() && 0 <= n < b.len() implies a[m] != b[n] by {
        let p = a[m];
        assert(a.contains(p));
        assert(b.contains(b[n]));
        if p == b[n] {
            let i = choose|i: int|
                0 <= i < dirs_a.len() && slides_along(cells, x, y, color, #[trigger] dirs_a[i], p);
            let j = choose|j: int|
                0 <= j < dirs_b.len() && slides_along(cells, x, y, color, #[trigger] dirs_b[j], p);
            lemma_rays_disjoint(cells, x, y, color, dirs_a[i], dirs_b[j], p.x as int, p.y as int);
        }
    }
    vstd::seq_lib::lemma_no_dup_in_concat(a, b);
    let dirs = dirs_a + dirs_b;
    assert forall|p: Pos| #[trigger] (a + b).contains(p) implies exists|i: int|
        0 <= i < dirs.len() && slides_along(cells, x, y, color, #[trigger] dirs[i], p) by {
        if a.contains(p) {
            let i = choose|i: int|
                0 <= i < dirs_a.len() && slides_along(cells, x, y, color, #[trigger] dirs_a[i], p);
            assert(dirs[i] == dirs_a[i]);
        } else {
            let j = choose|j: int|
                0 <= j < dirs_b.len() && slides_along(cells, x, y, color, #[trigger] dirs_b[j], p);
            assert(dirs[dirs_a.len() + j] == dirs_b[j]);
        }
    }
}

/// The squares of one ray are reached along that ray's direction.
proof fn lemma_one_ray(cells: Seq<Option<Piece>>, x: int, y: int, color: Color, steps: Seq<Pos>, d: (int, int))
    requires
        forall|p: Pos| #[trigger] steps.contains(p) ==> slides_along(cells, x, y, color, d, p),
    ensures
        reached_along(cells, x, y, color, steps, seq![d]),
{
    assert forall|p: Pos| #[trigger] steps.contains(p) implies exists|i: int|
        0 <= i < seq![d].len() && slides_along(cells, x, y, color, #[trigger] seq![d][i], p) by {
        assert(seq![d][0] == d);
    }
}

/// No square is reached both along a row or column and along a diagonal.
proof fn lemma_straight_not_diagonal(cells: Seq<Option<Piece>>, x: int, y: int, color: Color, tx: int, ty: int)
    ensures
        !(straight_steps_to(cells, x, y, color, tx, ty) && diagonal_steps_to(cells, x, y, color, tx, ty)),
{
}

/// No knight jump repeats an earlier one.
proof fn lemma_jump_is_new(i: int)
    requires
        0 <= i < 8,
    ensures
        !among_first_jumps(knight_offset(i).0, knight_offset(i).1, i),
{
    reveal_with_fuel(among_first_jumps, 9);
    if i == 0 {
    } else if i == 1 {
    } else if i == 2 {
    } else if i == 3 {
    } else if i == 4 {
    } else if i == 5 {
    } else if i == 6 {
    } else {
    }
}

/// The attacker lists of `color` are exact for every source square before
/// index `n`: a target lists `s` iff `s` comes before `n`, holds a piece of
/// `color`, and that piece threatens the target.
spec fn grid_upto(cells: Seq<Option<Piece>>, grid: Seq<Vec<Pos>>, color: Color, n: int) -> bool {
    &&& grid.len() == 64
    &&& forall|t: Pos, s: Pos|
        t.on_board() ==> (#[trigger] grid[t.index()]@.contains(s) <==> {
            &&& s.on_board()
            &&& s.index() < n
            &&& is_friendly(cells, s.x as int, s.y as int, color)
            &&& attacks(cells, s.x as int, s.y as int, t.x as int, t.y as int)
        })
    &&& forall|t: Pos| t.on_board() ==> #[trigger] grid[t.index()]@ == attackers_before(cells, color, t, n)
}

/// The row-major index of `(x, y)` gives back its column and row.
proof fn lemma_square_of_index(x: int, y: int)
    requires
        in_bounds(x, y),
    ensures
        idx(x, y) % 8 == x,
        idx(x, y) / 8 == y,
{
    assert(idx(x, y) % 8 == x && idx(x, y) / 8 == y) by (nonlinear_arith)
        requires
            0 <= x < 8,
            0 <= y < 8,
    ;
}

/// One call of `calc_attack` on the square of index `n` extends exact
/// attacker lists from the squares before `n` to those before `n + 1`.
proof fn lemma_grid_step(
    cells: Seq<Option<Piece>>,
    before: Seq<Vec<Pos>>,
    after: Seq<Vec<Pos>>,
    color: Color,
    x: int,
    y: int,
)
    requires
        in_bounds(x, y),
        grid_upto(cells, before, color, idx(x, y)),
        after.len() == 64,
        forall|t: Pos|
            t.on_board() ==> #[trigger] after[t.index()]@ == if is_friendly(cells, x, y, color) && attacks(
                cells,
                x,
                y,
                t.x as int,
                t.y as int,
            ) {
                before[t.index()]@.push(square(x, y))
            } else {
                before[t.index()]@
            },
    ensures
        grid_upto(cells, after, color, idx(x, y) + 1),
{
    lemma_square_of_index(x, y);
    let n = idx(x, y);
    assert forall|t: Pos, s: Pos|
        t.on_board() implies (#[trigger] after[t.index()]@.contains(s) <==> {
            &&& s.on_board()
            &&& s.index() < n + 1
            &&& is_friendly(cells, s.x as int, s.y as int, color)
            &&& attacks(cells, s.x as int, s.y as int, t.x as int, t.y as int)
        }) by {
        assert(before[t.index()]@.contains(s) <==> {
            &&& s.on_board()
            &&& s.index() < n
            &&& is_friendly(cells, s.x as int, s.y as int, color)
            &&& attacks(cells, s.x as int, s.y as int, t.x as int, t.y as int)
        });
        if s.on_board() && s.index() == n {
            assert(s.x == x && s.y == y) by (nonlinear_arith)
                requires
                    s.x < 8,
                    s.y < 8,
                    0 <= x < 8,
                    0 <= y < 8,
                    s.y * 8 + s.x == y * 8 + x,
            ;
        }
    }
    assert forall|t: Pos| t.on_board() implies #[trigger] after[t.index()]@ == attackers_before(
        cells,
        color,
        t,
        n + 1,
    ) by {
        assert(before[t.index()]@ == attackers_before(cells, color, t, n));
    }
}

/// 64 empty attacker lists.
fn empty_grid() -> (r: Vec<Vec<Pos>>)
    ensures
        r@.len() == 64,
        forall|i: int| 0 <= i < 64 ==> (#[trigger] r@[i])@.len() == 0,
{
    let mut grid: Vec<Vec<Pos>> = Vec::new();
    for i in 0..64
        invariant
            grid@.len() == i,
            forall|j: int| 0 <= j < i ==> (#[trigger] grid@[j])@.len() == 0,
    {
        grid.push(Vec::new());
    }
    grid
}

/// Lists `source` as an attacker of every square in `targets`.
fn record_attacker(grid: &mut Vec<Vec<Pos>>, targets: &Vec<Pos>, source: Pos)
    requires
        old(grid)@.len() == 64,
        forall|p: Pos| #[trigger] targets@.contains(p) ==> p.on_board(),
        targets@.no_duplicates(),
    ensures
        final(grid)@.len() == 64,
        forall|t: Pos|
            t.on_board() ==> #[trigger] final(grid)@[t.index()]@ == if targets@.contains(t) {
                old(grid)@[t.index()]@.push(source)
            } else {
                old(grid)@[t.index()]@
            },
        forall|t: Pos, s: Pos|
            t.on_board() ==> (#[trigger] final(grid)@[t.index()]@.contains(s) <==> (old(
                grid,
            )@[t.index()]@.contains(s) || (s == source && targets@.contains(t)))),
{
    let ghost start = grid@;
    for i in 0..targets.len()
        invariant
            grid@.len() == 64,
            forall|p: Pos| #[trigger] targets@.contains(p) ==> p.on_board(),
            forall|t: Pos, s: Pos|
                t.on_board() ==> (#[trigger] grid@[t.index()]@.contains(s) <==> (
                    start[t.index()]@.contains(s)
                    || (s == source && targets@.subrange(0, i as int).contains(t))
                )),
            targets@.no_duplicates(),
            forall|t: Pos|
                t.on_board() ==> #[trigger] grid@[t.index()]@ == if targets@.subrange(0, i as int).contains(t) {
                    start[t.index()]@.push(source)
                } else {
                    start[t.index()]@
                },
    {
        let target = targets[i];
        assert(targets@.contains(target));
        assert(!targets@.subrange(0, i as int).contains(target)) by {
            if targets@.subrange(0, i as int).contains(target) {
                let j = choose|j: int| 0 <= j < i && targets@.subrange(0, i as int)[j] == target;
                assert(targets@[j] == targets@[i as int]);
            }
        }
        grid[target.y * 8 + target.x].push(source);
        assert(targets@.subrange(0, i + 1) == targets@.subrange(0, i as int).push(target));
    }
    assert(targets@.subrange(0, targets@.len() as int) == targets@);
}

/// Whether `list` holds `pos`.
fn list_contains(list: &Vec<Pos>, pos: &Pos) -> (r: bool)
    ensures
        r == list@.contains(*pos),
{
    for i in 0..list.len()
        invariant
            !list@.subrange(0, i as int).contains(*pos),
    {
        if list[i] == *pos {
            assert(list@[i as int] == *pos);
            return true;
        }
        assert(list@.subrange(0, i + 1) == list@.subrange(0, i as int).push(list@[i as int]));
    }
    assert(list@.subrange(0, list@.len() as int) == list@);
    false
}

impl Board {
    /// The board in the standard starting position, with its attacker grids.
    pub fn new() -> (r: Board)
        ensures
            r.wf(),
            r@ == initial_layout(),
    {
        let back = [
            Rank::Rook,
            Rank::Knight,
            Rank::Bishop,
            Rank::Queen,
            Rank::King,
            Rank::Bishop,
            Rank::Knight,
            Rank::Rook,
        ];
        let mut pieces: Vec<Option<Piece>> = Vec::new();
        for y in 0..8usize
            invariant
                back@ == back_row(),
                pieces@.len() == y * 8,
                forall|i: int| 0 <= i < y * 8 ==> #[trigger] pieces@[i] == initial_layout()[i],
        {
            for x in 0..8usize
                invariant
                    back@ == back_row(),
                    y < 8,
                    pieces@.len() == y * 8 + x,
                    forall|i: int| 0 <= i < y * 8 + x ==> #[trigger] pieces@[i] == initial_layout()[i],
            {
                let cell = if y == 0 {
                    Some(Piece::black(back[x]))
                } else if y == 1 {
                    Some(Piece::black(Rank::Pawn))
                } else if y == 6 {
                    Some(Piece::white(Rank::Pawn))
                } else if y == 7 {
                    Some(Piece::white(back[x]))
                } else {
                    None
                };
                proof {
                    let i = y * 8 + x;
                    assert(i % 8 == x as int && i / 8 == y as int) by (nonlinear_arith)
                        requires
                            i == y * 8 + x,
                            x < 8,
                    ;
                    assert(cell == initial_cell(x as int, y as int));
                }
                pieces.push(cell);
            }
        }
        assert(pieces@ =~= initial_layout());
        let mut board = Board { pieces, white_attacks: Vec::new(), black_attacks: Vec::new() };
        board.calc_attacks();
        board
    }

    /// Moves whatever stands on `from` to `to`, overwriting what stood there;
    /// `from` is left empty (unless it is `to`). Moving from an empty square
    /// empties `to`. The attacker grids are rebuilt.
    pub fn move_piece(&mut self, from: Pos, to: Pos)
        requires
            old(self).wf(),
            from.on_board(),
            to.on_board(),
        ensures
            final(self).wf(),
            final(self)@ == moved(old(self)@, from.x as int, from.y as int, to.x as int, to.y as int),
    {
        let attacker = self.pieces[from.y * 8 + from.x];
        self.pieces.set(from.y * 8 + from.x, None);
        self.pieces.set(to.y * 8 + to.x, attacker);
        self.calc_attacks();
    }

    /// Puts the board back in the standard starting position.
    pub fn reset(&mut self)
        ensures
            final(self).wf(),
            final(self)@ == initial_layout(),
    {
        *self = Board::new();
    }

    /// A copy of the cells as 8 rows of 8.
    pub fn get_state(&self) -> (r: Vec<Vec<Option<Piece>>>)
        requires
            self.wf(),
        ensures
            r@.len() == 8,
            forall|y: int| 0 <= y < 8 ==> (#[trigger] r@[y])@.len() == 8,
            forall|x: int, y: int|
                in_bounds(x, y) ==> #[trigger] r@[y]@[x] == cell(self@, x, y),
    {
        let mut rows: Vec<Vec<Option<Piece>>> = Vec::new();
        for y in 0..8usize
            invariant
                self.wf(),
                rows@.len() == y,
                forall|j: int| 0 <= j < y ==> (#[trigger] rows@[j])@.len() == 8,
                forall|i: int, j: int|
                    0 <= i < 8 && 0 <= j < y ==> #[trigger] rows@[j]@[i] == cell(self@, i, j),
        {
            let mut row: Vec<Option<Piece>> = Vec::new();
            for x in 0..8usize
                invariant
                    self.wf(),
                    y < 8,
                    row@.len() == x,
                    forall|i: int| 0 <= i < x ==> #[trigger] row@[i] == cell(self@, i, y as int),
            {
                row.push(self.pieces[y * 8 + x]);
            }
            rows.push(row);
        }
        rows
    }

    /// The squares the piece on `pos` threatens, read from the attacker grid of
    /// its color, in row-major order; `None` when `pos` is empty.
    pub fn get_steps(&self, pos: Pos) -> (r: Option<Vec<Pos>>)
        requires
            self.wf(),
            pos.on_board(),
        ensures
            r is None <==> is_empty(self@, pos.x as int, pos.y as int),
            r matches Some(steps) ==> forall|t: Pos|
                steps@.contains(t) <==> t.on_board() && attacks(
                    self@,
                    pos.x as int,
                    pos.y as int,
                    t.x as int,
                    t.y as int,
                ),
            r matches Some(steps) ==> forall|i: int, j: int|
                0 <= i < j < steps@.len() ==> (#[trigger] steps@[i]).index() < (#[trigger] steps@[j]).index(),
    {
        let piece = match self.pieces[pos.y * 8 + pos.x] {
            Some(piece) => piece,
            None => {
                return None;
            },
        };
        let step_container = if piece.color == Color::White {
            &self.white_attacks
        } else {
            &self.black_attacks
        };
        let ghost color = piece.color;
        let mut steps: Vec<Pos> = Vec::new();
        let mut n: usize = 0;
        while n < 64
            invariant
                n <= 64,
                step_container@.len() == 64,
                forall|t: Pos|
                    #[trigger] steps@.contains(t) <==> t.on_board() && t.index() < n
                        && step_container@[t.index()]@.contains(pos),
                forall|i: int| 0 <= i < steps@.len() ==> (#[trigger] steps@[i]).index() < n,
                forall|i: int, j: int|
                    0 <= i < j < steps@.len() ==> (#[trigger] steps@[i]).index() < (#[trigger] steps@[j]).index(),
            decreases 64 - n,
        {
            let target = Pos::new(n % 8, n / 8);
            assert(target.on_board() && target.index() == n) by (nonlinear_arith)
                requires
                    target.x == n % 8,
                    target.y == n / 8,
                    n < 64,
            ;
            let ghost before = steps@;
            let listed = list_contains(&step_container[n], &pos);
            if listed {
                steps.push(target);
            }
            assert forall|t: Pos|
                steps@.contains(t) <==> t.on_board() && t.index() < n + 1
                    && step_container@[t.index()]@.contains(pos) by {
                assert(before.contains(t) <==> t.on_board() && t.index() < n
                    && step_container@[t.index()]@.contains(pos));
                if t.on_board() && t.index() == n {
                    assert(t == target);
                }
                if listed {
                    assert(steps@ == before.push(target));
                    assert(steps@.contains(t) <==> before.contains(t) || t == target);
                }
            }
            n = n + 1;
        }
        assert forall|t: Pos|
            steps@.contains(t) <==> t.on_board() && attacks(
                self@,
                pos.x as int,
                pos.y as int,
                t.x as int,
                t.y as int,
            ) by {
            if t.on_board() {
                assert(step_container@[t.index()]@.contains(pos) <==> attacks(
                    self@,
                    pos.x as int,
                    pos.y as int,
                    t.x as int,
                    t.y as int,
                ));
            }
        }
        Some(steps)
    }

    /// The cells hold 64 squares and both attacker grids are exact.
    pub closed spec fn wf(&self) -> bool {
        &&& self.pieces@.len() == 64
        &&& grid_upto(self.pieces@, self.white_attacks@, Color::White, 64)
        &&& grid_upto(self.pieces@, self.black_attacks@, Color::Black, 64)
    }

    /// The squares listed as attackers of `t` by pieces of `color`.
    pub closed spec fn attackers(&self, color: Color, t: Pos) -> Set<Pos> {
        self.attacker_list(color, t).to_set()
    }

    /// The attacker list of `t` under `color`, as stored.
    pub closed spec fn attacker_list(&self, color: Color, t: Pos) -> Seq<Pos> {
        match color {
            Color::White => self.white_attacks@[t.index()]@,
            Color::Black => self.black_attacks@[t.index()]@,
        }
    }

    /// Rebuilds both attacker grids from the cells: afterwards the list of
    /// each square under each color holds, in row-major order, the squares of
    /// that color's pieces that threaten it.
    pub fn calc_attacks(&mut self)
        requires
            old(self)@.len() == 64,
        ensures
            final(self)@ == old(self)@,
            final(self).wf(),
            forall|color: Color, t: Pos|
                t.on_board() ==> #[trigger] final(self).attacker_list(color, t) == attackers_before(
                    final(self)@,
                    color,
                    t,
                    64,
                ),
    {
        self.white_attacks = empty_grid();
        self.black_attacks = empty_grid();
        assert forall|t: Pos| t.on_board() implies #[trigger] self.white_attacks@[t.index()]@
            == attackers_before(self.pieces@, Color::White, t, 0) by {
            assert(self.white_attacks@[t.index()]@ =~= seq![]);
        }
        assert forall|t: Pos| t.on_board() implies #[trigger] self.black_attacks@[t.index()]@
            == attackers_before(self.pieces@, Color::Black, t, 0) by {
            assert(self.black_attacks@[t.index()]@ =~= seq![]);
        }
        for y in 0..8usize
            invariant
                self.pieces@.len() == 64,
                self@ == old(self)@,
                grid_upto(self.pieces@, self.white_attacks@, Color::White, y * 8 as int),
                grid_upto(self.pieces@, self.black_attacks@, Color::Black, y * 8 as int),
        {
            for x in 0..8usize
                invariant
                    0 <= y < 8,
                    self.pieces@.len() == 64,
                    self@ == old(self)@,
                    grid_upto(self.pieces@, self.white_attacks@, Color::White, y * 8 + x as int),
                    grid_upto(self.pieces@, self.black_attacks@, Color::Black, y * 8 + x as int),
            {
                let ghost (white, black) = (self.white_attacks@, self.black_attacks@);
                self.calc_attack(x, y);
                proof {
                    lemma_grid_step(self.pieces@, white, self.white_attacks@, Color::White, x as int, y as int);
                    lemma_grid_step(self.pieces@, black, self.black_attacks@, Color::Black, x as int, y as int);
                }
            }
        }
        proof {
            assert forall|color: Color, t: Pos|
                t.on_board() implies #[trigger] self.attacker_list(color, t) == attackers_before(
                    self@,
                    color,
                    t,
                    64,
                ) by {
                match color {
                    Color::White => {},
                    Color::Black => {},
                }
            }
        }
    }

    /// Appends the square `(x, y)` to the list of every square its piece
    /// threatens, in the grid of the piece's color. Every other list, and the
    /// cells, stay as they were; an empty square or a king adds nothing.
    fn calc_attack(&mut self, x: usize, y: usize)
        requires
            old(self).pieces@.len() == 64,
            old(self).white_attacks@.len() == 64,
            old(self).black_attacks@.len() == 64,
            in_bounds(x as int, y as int),
        ensures
            final(self).pieces@ == old(self).pieces@,
            final(self).white_attacks@.len() == 64,
            final(self).black_attacks@.len() == 64,
            forall|t: Pos|
                t.on_board() ==> #[trigger] final(self).white_attacks@[t.index()]@ == if is_friendly(
                    old(self)@,
                    x as int,
                    y as int,
                    Color::White,
                ) && attacks(old(self)@, x as int, y as int, t.x as int, t.y as int) {
                    old(self).white_attacks@[t.index()]@.push(square(x as int, y as int))
                } else {
                    old(self).white_attacks@[t.index()]@
                },
            forall|t: Pos|
                t.on_board() ==> #[trigger] final(self).black_attacks@[t.index()]@ == if is_friendly(
                    old(self)@,
                    x as int,
                    y as int,
                    Color::Black,
                ) && attacks(old(self)@, x as int, y as int, t.x as int, t.y as int) {
                    old(self).black_attacks@[t.index()]@.push(square(x as int, y as int))
                } else {
                    old(self).black_attacks@[t.index()]@
                },
    {
        let ghost cells = self.pieces@;
        match self.pieces[y * 8 + x] {
            Some(piece) => {
                let valid_steps = match piece.rank {
                    Rank::Pawn => self.calc_pawn(x, y, &piece.color),
                    Rank::Knight => self.calc_knight(x, y, &piece.color),
                    Rank::Bishop => self.calc_bishop(x, y, &piece.color),
                    Rank::Rook => self.calc_rook(x, y, &piece.color),
                    Rank::Queen => self.calc_queen(x, y, &piece.color),
                    Rank::King => Vec::new(),
                };
                assert forall|p: Pos| #[trigger] valid_steps@.contains(p) implies p.on_board() by {
                    assert(piece_steps_to(cells, x as int, y as int, piece, p.x as int, p.y as int));
                }
                let source = Pos::new(x, y);
                match piece.color {
                    Color::White => record_attacker(&mut self.white_attacks, &valid_steps, source),
                    Color::Black => record_attacker(&mut self.black_attacks, &valid_steps, source),
                }
            },
            None => {},
        }
    }

    /// The squares a knight of `color` on `(x, y)` threatens: the L-shaped
    /// jumps that stay on the board and do not land on a piece of its own color.
    pub fn calc_knight(&self, x: usize, y: usize, color: &Color) -> (r: Vec<Pos>)
        requires
            self@.len() == 64,
            in_bounds(x as int, y as int),
        ensures
            forall|p: Pos|
                r@.contains(p) <==> knight_steps_to(
                    self@,
                    x as int,
                    y as int,
                    *color,
                    p.x as int,
                    p.y as int,
                ),
            r@.no_duplicates(),
    {
        let ghost cells = self@;
        let x = x as i32;
        let y = y as i32;
        let all_steps: [(i32, i32); 8] = [
            (x - 2, y + 1),
            (x - 2, y - 1),
            (x + 2, y + 1),
            (x + 2, y - 1),
            (x + 1, y - 2),
            (x - 1, y - 2),
            (x + 1, y + 2),
            (x - 1, y + 2),
        ];
        assert(forall|j: int|
            0 <= j < 8 ==> #[trigger] all_steps@[j] == (
                (x + knight_offset(j).0) as i32,
                (y + knight_offset(j).1) as i32,
            ));
        let mut valid_steps: Vec<Pos> = Vec::new();
        for i in 0..8
            invariant
                cells == self@,
                cells.len() == 64,
                in_bounds(x as int, y as int),
                forall|j: int|
                    0 <= j < 8 ==> #[trigger] all_steps@[j] == (
                        (x + knight_offset(j).0) as i32,
                        (y + knight_offset(j).1) as i32,
                    ),
                forall|p: Pos|
                    valid_steps@.contains(p) <==> {
                        &&& in_bounds(p.x as int, p.y as int)
                        &&& among_first_jumps(p.x - x, p.y - y, i as int)
                        &&& !is_friendly(cells, p.x as int, p.y as int, *color)
                    },
                valid_steps@.no_duplicates(),
        {
            proof {
                lemma_jump_is_new(i as int);
            }
            let (step_x, step_y) = all_steps[i];
            if 0 <= step_x && step_x < 8 && 0 <= step_y && step_y < 8 {
                let step = Pos::new(step_x as usize, step_y as usize);
                let own = match self.pieces[step.y * 8 + step.x] {
                    Some(piece) => piece.color == *color,
                    None => false,
                };
                if !own {
                    assert(step.x - x == knight_offset(i as int).0 && step.y - y == knight_offset(i as int).1);
                    assert(!valid_steps@.contains(step));
                    let ghost before = valid_steps@;
                    valid_steps.push(step);
                    assert forall|a: int, b: int|
                        0 <= a < b < valid_steps@.len() implies valid_steps@[a] != valid_steps@[b] by {
                        if b == before.len() {
                            assert(before.contains(before[a]));
                        }
                    }
                }
            }
        }
        proof {
            reveal_with_fuel(among_first_jumps, 9);
        }
        valid_steps
    }

    /// The squares reached from `pos` along one direction, nearest first.
    pub fn get_slide_steps(&self, pos: &Pos, dir_x: i32, dir_y: i32, color: &Color) -> (r: Vec<Pos>)
        requires
            self@.len() == 64,
            pos.on_board(),
            is_direction(dir_x as int, dir_y as int),
        ensures
            forall|p: Pos|
                r@.contains(p) <==> slides_to(
                    self@,
                    pos.x as int,
                    pos.y as int,
                    dir_x as int,
                    dir_y as int,
                    *color,
                    p.x as int,
                    p.y as int,
                ),
            forall|i: int|
                0 <= i < r@.len() ==> on_ray_at(
                    #[trigger] r@[i],
                    pos.x as int,
                    pos.y as int,
                    dir_x as int,
                    dir_y as int,
                    i + 1,
                ),
            r@.no_duplicates(),
            r@ == ray_squares(self@, pos.x as int, pos.y as int, dir_x as int, dir_y as int, *color, 1),
    {
        let ghost cells = self@;
        let ghost (x, y, dx, dy) = (pos.x as int, pos.y as int, dir_x as int, dir_y as int);
        let mut valid_steps: Vec<Pos> = Vec::new();
        let mut curr_x: i32 = pos.x as i32;
        let mut curr_y: i32 = pos.y as i32;
        let mut blocker: Option<Piece> = None;
        let ghost mut k: int = 0;

        loop
            invariant_except_break
                0 <= k <= 7,
                curr_x == ray_coord(x, dx, k),
                curr_y == ray_coord(y, dy, k),
                in_bounds(curr_x as int, curr_y as int),
                blocker is None,
            invariant
                cells == self@,
                cells.len() == 64,
                in_bounds(x, y),
                is_direction(dx, dy),
                dir_x == dx,
                dir_y == dy,
                valid_steps@.len() == k,
                forall|i: int|
                    0 <= i < k ==> on_ray_at(#[trigger] valid_steps@[i], x, y, dx, dy, i + 1),
                forall|j: int|
                    1 <= j <= k ==> in_bounds(#[trigger] ray_coord(x, dx, j), ray_coord(y, dy, j)),
                ray_clear(cells, x, y, dx, dy, k + 1),
                valid_steps@ + ray_squares(cells, x, y, dx, dy, *color, k + 1) == ray_squares(
                    cells,
                    x,
                    y,
                    dx,
                    dy,
                    *color,
                    1,
                ),
            ensures
                curr_x == ray_coord(x, dx, k + 1),
                curr_y == ray_coord(y, dy, k + 1),
                blocker is None ==> !in_bounds(curr_x as int, curr_y as int),
                blocker is Some ==> in_bounds(curr_x as int, curr_y as int) && cell(
                    cells,
                    curr_x as int,
                    curr_y as int,
                ) == blocker,
            decreases 8 - k,
        {
            curr_x = curr_x + dir_x;
            curr_y = curr_y + dir_y;
            if !(0 <= curr_x && curr_x < 8 && 0 <= curr_y && curr_y < 8) {
                break ;
            }
            let here = self.pieces[(curr_y * 8 + curr_x) as usize];
            if here.is_some() {
                blocker = here;
                break ;
            }
            let ghost before = valid_steps@;
            valid_steps.push(Pos::from((curr_x, curr_y)));
            proof {
                let rest = ray_squares(cells, x, y, dx, dy, *color, k + 2);
                assert(ray_squares(cells, x, y, dx, dy, *color, k + 1) == seq![
                    square(curr_x as int, curr_y as int),
                ] + rest);
                assert(valid_steps@ + rest =~= before + (seq![square(curr_x as int, curr_y as int)] + rest));
                k = k + 1;
            }
        }

        let ghost passed = valid_steps@;
        match blocker {
            Some(piece) => {
                if piece.color != *color {
                    valid_steps.push(Pos::from((curr_x, curr_y)));
                }
            },
            None => {},
        }
        assert(valid_steps@.len() > k ==> {
            &&& valid_steps@ == passed.push(valid_steps@[k])
            &&& on_ray_at(valid_steps@[k], x, y, dx, dy, k + 1)
            &&& blocker is Some
            &&& blocker->0.color != *color
        });
        assert(valid_steps@.len() == k ==> {
            &&& valid_steps@ == passed
            &&& blocker is None || blocker->0.color == *color
        });
        proof {
            assert forall|p: Pos|
                valid_steps@.contains(p) <==> slides_to(
                    cells,
                    x,
                    y,
                    dx,
                    dy,
                    *color,
                    p.x as int,
                    p.y as int,
                ) by {
                let d = ray_distance(x, y, dx, dy, p.x as int, p.y as int);
                if slides_to(cells, x, y, dx, dy, *color, p.x as int, p.y as int) {
                    if d <= k {
                        assert(on_ray_at(valid_steps@[d - 1], x, y, dx, dy, d));
                        assert(valid_steps@[d - 1] == p);
                    } else if d == k + 1 {
                        assert(valid_steps@[k] == p);
                    } else {
                        if blocker is Some {
                            assert(!is_empty(cells, ray_coord(x, dx, k + 1), ray_coord(y, dy, k + 1)));
                        }
                    }
                }
                if valid_steps@.contains(p) {
                    let i = choose|i: int| 0 <= i < valid_steps@.len() && valid_steps@[i] == p;
                    assert(on_ray_at(valid_steps@[i], x, y, dx, dy, i + 1));
                    assert forall|j: int| 1 <= j < i + 1 implies #[trigger] is_empty(
                        cells,
                        ray_coord(x, dx, j),
                        ray_coord(y, dy, j),
                    ) by {
                        assert(is_empty(cells, ray_coord(x, dx, j), ray_coord(y, dy, j)));
                    }
                    if i < k {
                        assert(is_empty(cells, ray_coord(x, dx, i + 1), ray_coord(y, dy, i + 1)));
                    }
                    assert(!is_friendly(cells, p.x as int, p.y as int, *color));
                }
            }
        }
        proof {
            let tail = ray_squares(cells, x, y, dx, dy, *color, k + 1);
            if blocker is Some && blocker->0.color != *color {
                assert(tail == seq![square(curr_x as int, curr_y as int)]);
                assert(valid_steps@ =~= passed + tail);
            } else {
                assert(tail =~= seq![]);
                assert(valid_steps@ =~= passed + tail);
            }
        }
        assert forall|a: int, b: int|
            0 <= a < b < valid_steps@.len() implies valid_steps@[a] != valid_steps@[b] by {
            assert(on_ray_at(valid_steps@[a], x, y, dx, dy, a + 1));
            assert(on_ray_at(valid_steps@[b], x, y, dx, dy, b + 1));
        }
        valid_steps
    }
    /// The squares a bishop of `color` on `(x, y)` threatens.
    pub fn calc_bishop(&self, x: usize, y: usize, color: &Color) -> (r: Vec<Pos>)
        requires
            self@.len() == 64,
            in_bounds(x as int, y as int),
        ensures
            forall|p: Pos|
                r@.contains(p) <==> diagonal_steps_to(
                    self@,
                    x as int,
                    y as int,
                    *color,
                    p.x as int,
                    p.y as int,
                ),
            r@.no_duplicates(),
            r@ == diagonal_squares(self@, x as int, y as int, *color),
    {
        self.get_diagonal_slide_steps(x, y, color)
    }

    /// The squares a rook of `color` on `(x, y)` threatens.
    pub fn calc_rook(&self, x: usize, y: usize, color: &Color) -> (r: Vec<Pos>)
        requires
            self@.len() == 64,
            in_bounds(x as int, y as int),
        ensures
            forall|p: Pos|
                r@.contains(p) <==> straight_steps_to(
                    self@,
                    x as int,
                    y as int,
                    *color,
                    p.x as int,
                    p.y as int,
                ),
            r@.no_duplicates(),
            r@ == straight_squares(self@, x as int, y as int, *color),
    {
        self.get_straight_slide_steps(x, y, color)
    }

    /// The squares a queen of `color` on `(x, y)` threatens: those of a rook
    /// and those of a bishop.
    pub fn calc_queen(&self, x: usize, y: usize, color: &Color) -> (r: Vec<Pos>)
        requires
            self@.len() == 64,
            in_bounds(x as int, y as int),
        ensures
            forall|p: Pos|
                r@.contains(p) <==> (straight_steps_to(
                    self@,
                    x as int,
                    y as int,
                    *color,
                    p.x as int,
                    p.y as int,
                ) || diagonal_steps_to(self@, x as int, y as int, *color, p.x as int, p.y as int)),
            r@.no_duplicates(),
            r@ == straight_squares(self@, x as int, y as int, *color) + diagonal_squares(
                self@,
                x as int,
                y as int,
                *color,
            ),
    {
        let mut straight_steps = self.get_straight_slide_steps(x, y, color);
        let mut diagonal_steps = self.get_diagonal_slide_steps(x, y, color);
        proof {
            let (a, b) = (straight_steps@, diagonal_steps@);
            assert forall|m: int, n: int| 0 <= m < a.len() && 0 <= n < b.len() implies a[m] != b[n] by {
                assert(a.contains(a[m]));
                assert(b.contains(b[n]));
                lemma_straight_not_diagonal(self@, x as int, y as int, *color, a[m].x as int, a[m].y as int);
            }
            vstd::seq_lib::lemma_no_dup_in_concat(a, b);
        }
        straight_steps.append(&mut diagonal_steps);
        straight_steps
    }

    /// The squares reached along the four diagonals.
    pub fn get_diagonal_slide_steps(&self, x: usize, y: usize, color: &Color) -> (r: Vec<Pos>)
        requires
            self@.len() == 64,
            in_bounds(x as int, y as int),
        ensures
            forall|p: Pos|
                r@.contains(p) <==> diagonal_steps_to(
                    self@,
                    x as int,
                    y as int,
                    *color,
                    p.x as int,
                    p.y as int,
                ),
            r@.no_duplicates(),
            r@ == diagonal_squares(self@, x as int, y as int, *color),
    {
        let ghost cells = self@;
        let pos = Pos::new(x, y);
        let mut valid_steps = self.get_slide_steps(&pos, 1, -1, color);
        let ghost mut dirs = seq![(1int, -1int)];
        proof {
            lemma_one_ray(cells, x as int, y as int, *color, valid_steps@, (1int, -1int));
        }
        let mut steps = self.get_slide_steps(&pos, 1, 1, color);
        proof {
            lemma_one_ray(cells, x as int, y as int, *color, steps@, (1int, 1int));
            lemma_join_rays(cells, x as int, y as int, *color, valid_steps@, dirs, steps@, seq![(1int, 1int)]);
            dirs = dirs + seq![(1int, 1int)];
        }
        valid_steps.append(&mut steps);
        let mut steps = self.get_slide_steps(&pos, -1, -1, color);
        proof {
            lemma_one_ray(cells, x as int, y as int, *color, steps@, (-1int, -1int));
            lemma_join_rays(cells, x as int, y as int, *color, valid_steps@, dirs, steps@, seq![(-1int, -1int)]);
            dirs = dirs + seq![(-1int, -1int)];
        }
        valid_steps.append(&mut steps);
        let mut steps = self.get_slide_steps(&pos, -1, 1, color);
        proof {
            lemma_one_ray(cells, x as int, y as int, *color, steps@, (-1int, 1int));
            lemma_join_rays(cells, x as int, y as int, *color, valid_steps@, dirs, steps@, seq![(-1int, 1int)]);
            dirs = dirs + seq![(-1int, 1int)];
        }
        valid_steps.append(&mut steps);
        valid_steps
    }

    /// The squares reached along the row and the column.
    pub fn get_straight_slide_steps(&self, x: usize, y: usize, color: &Color) -> (r: Vec<Pos>)
        requires
            self@.len() == 64,
            in_bounds(x as int, y as int),
        ensures
            forall|p: Pos|
                r@.contains(p) <==> straight_steps_to(
                    self@,
                    x as int,
                    y as int,
                    *color,
                    p.x as int,
                    p.y as int,
                ),
            r@.no_duplicates(),
            r@ == straight_squares(self@, x as int, y as int, *color),
    {
        let ghost cells = self@;
        let pos = Pos::new(x, y);
        let mut valid_steps = self.get_slide_steps(&pos, 1, 0, color);
        let ghost mut dirs = seq![(1int, 0int)];
        proof {
            lemma_one_ray(cells, x as int, y as int, *color, valid_steps@, (1int, 0int));
        }
        let mut steps = self.get_slide_steps(&pos, -1, 0, color);
        proof {
            lemma_one_ray(cells, x as int, y as int, *color, steps@, (-1int, 0int));
            lemma_join_rays(cells, x as int, y as int, *color, valid_steps@, dirs, steps@, seq![(-1int, 0int)]);
            dirs = dirs + seq![(-1int, 0int)];
        }
        valid_steps.append(&mut steps);
        let mut steps = self.get_slide_steps(&pos, 0, 1, color);
        proof {
            lemma_one_ray(cells, x as int, y as int, *color, steps@, (0int, 1int));
            lemma_join_rays(cells, x as int, y as int, *color, valid_steps@, dirs, steps@, seq![(0int, 1int)]);
            dirs = dirs + seq![(0int, 1int)];
        }
        valid_steps.append(&mut steps);
        let mut steps = self.get_slide_steps(&pos, 0, -1, color);
        proof {
            lemma_one_ray(cells, x as int, y as int, *color, steps@, (0int, -1int));
            lemma_join_rays(cells, x as int, y as int, *color, valid_steps@, dirs, steps@, seq![(0int, -1int)]);
            dirs = dirs + seq![(0int, -1int)];
        }
        valid_steps.append(&mut steps);
        valid_steps
    }
    /// The squares a pawn of `color` on `(x, y)` threatens: one square forward
    /// if empty, two from its base row if both are empty, and a diagonal
    /// forward square if it holds an enemy piece.
    pub fn calc_pawn(&self, x: usize, y: usize, color: &Color) -> (r: Vec<Pos>)
        requires
            self@.len() == 64,
            in_bounds(x as int, y as int),
        ensures
            forall|p: Pos|
                r@.contains(p) <==> pawn_steps_to(
                    self@,
                    x as int,
                    y as int,
                    *color,
                    p.x as int,
                    p.y as int,
                ),
            r@.no_duplicates(),
            r@ == pawn_squares(self@, x as int, y as int, *color),
    {
        if y == 7 || y == 0 {
            return Vec::new();
        }
        let mut valid_steps: Vec<Pos> = Vec::new();

        let ghost cells = self@;
        let ghost (xi, yi) = (x as int, y as int);
        let ghost f = forward(yi, *color);
        let ghost f2 = forward(f, *color);
        let ghost single = if is_empty(cells, xi, f) { seq![square(xi, f)] } else { seq![] };
        let ghost double = if yi == pawn_base(*color) && is_empty(cells, xi, f) && is_empty(cells, xi, f2) {
            seq![square(xi, f2)]
        } else {
            seq![]
        };
        let ghost left = if xi > 0 && is_enemy(cells, xi - 1, f, *color) {
            seq![square(xi - 1, f)]
        } else {
            seq![]
        };
        let ghost right = if xi < 7 && is_enemy(cells, xi + 1, f, *color) {
            seq![square(xi + 1, f)]
        } else {
            seq![]
        };
        assert(pawn_squares(cells, xi, yi, *color) == single + double + left + right);

        let next_y = if *color == Color::White { y - 1 } else { y + 1 };
        self.add_if_empty(&mut valid_steps, Pos::new(x, next_y));
        assert(valid_steps@ =~= single);

        let is_on_base = if *color == Color::White { y == 6 } else { y == 1 };
        if is_on_base && valid_steps.len() == 1 {
            let next_y = if *color == Color::White { next_y - 1 } else { next_y + 1 };
            self.add_if_empty(&mut valid_steps, Pos::new(x, next_y));
        }
        assert(valid_steps@ =~= single + double);

        if x > 0 {
            let next_x = x - 1;
            self.add_if_enemy(&mut valid_steps, Pos::new(next_x, next_y), color);
        }
        assert(valid_steps@ =~= single + double + left);

        if x < 7 {
            let next_x = x + 1;
            self.add_if_enemy(&mut valid_steps, Pos::new(next_x, next_y), color);
        }
        assert(valid_steps@ =~= single + double + left + right);
        valid_steps
    }

    /// Appends `pos` if it is empty.
    pub fn add_if_empty(&self, container: &mut Vec<Pos>, pos: Pos)
        requires
            self@.len() == 64,
            pos.on_board(),
        ensures
            final(container)@ == if is_empty(self@, pos.x as int, pos.y as int) {
                old(container)@.push(pos)
            } else {
                old(container)@
            },
    {
        if self.pieces[pos.y * 8 + pos.x].is_none() {
            container.push(pos);
        }
    }

    /// Appends `pos` if it holds a piece of the color other than `color`.
    pub fn add_if_enemy(&self, container: &mut Vec<Pos>, pos: Pos, color: &Color)
        requires
            self@.len() == 64,
            pos.on_board(),
        ensures
            final(container)@ == if is_enemy(self@, pos.x as int, pos.y as int, *color) {
                old(container)@.push(pos)
            } else {
                old(container)@
            },
    {
        match self.pieces[pos.y * 8 + pos.x] {
            Some(piece) => {
                if piece.color != *color {
                    container.push(pos);
                }
            },
            None => {},
        }
    }
    /// The attacker lists are exact: a square `t` lists `s` under `color`
    /// iff `s` holds a piece of `color` that threatens `t`.
    pub proof fn lemma_attackers_exact(&self)
        requires
            self.wf(),
        ensures
            self@.len() == 64,
            forall|color: Color, t: Pos, s: Pos|
                t.on_board() ==> (#[trigger] self.attackers(color, t).contains(s) <==> {
                    &&& s.on_board()
                    &&& is_friendly(self@, s.x as int, s.y as int, color)
                    &&& attacks(self@, s.x as int, s.y as int, t.x as int, t.y as int)
                }),
            forall|color: Color, t: Pos|
                t.on_board() ==> #[trigger] self.attacker_list(color, t) == attackers_before(self@, color, t, 64),
    {
        assert forall|color: Color, t: Pos|
            t.on_board() implies #[trigger] self.attacker_list(color, t) == attackers_before(
                self@,
                color,
                t,
                64,
            ) by {
            match color {
                Color::White => {},
                Color::Black => {},
            }
        }
        assert forall|color: Color, t: Pos, s: Pos|
            t.on_board() implies (#[trigger] self.attackers(color, t).contains(s) <==> {
                &&& s.on_board()
                &&& is_friendly(self@, s.x as int, s.y as int, color)
                &&& attacks(self@, s.x as int, s.y as int, t.x as int, t.y as int)
            }) by {
            match color {
                Color::White => {
                    assert(self.white_attacks@[t.index()]@.contains(s) ==> s.index() < 64);
                },
                Color::Black => {
                    assert(self.black_attacks@[t.index()]@.contains(s) ==> s.index() < 64);
                },
            }
        }
    }
}

} // verus!
