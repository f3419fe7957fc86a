use chess_board::board::Board;
use chess_board::piece::{Color, Piece, Rank};
use chess_board::pos::Pos;

fn p(x: usize, y: usize) -> Pos {
    Pos::new(x, y)
}

/// Empties every square except those in `keep`, by moving from an empty square.
fn clear_except(board: &mut Board, keep: &[(usize, usize)]) {
    let blank = (0..64)
        .map(|i| (i % 8, i / 8))
        .find(|sq| !keep.contains(sq) && board.get_state()[sq.1][sq.0].is_none())
        .unwrap();
    for y in 0..8 {
        for x in 0..8 {
            if !keep.contains(&(x, y)) {
                board.move_piece(p(blank.0, blank.1), p(x, y));
            }
        }
    }
}

fn sorted(mut v: Vec<(usize, usize)>) -> Vec<Pos> {
    v.sort_by_key(|&(x, y)| (y, x));
    v.into_iter().map(|(x, y)| p(x, y)).collect()
}

fn count_pieces(board: &Board) -> usize {
    board.get_state().iter().flatten().filter(|c| c.is_some()).count()
}

#[test]
fn new_board_has_standard_layout() {
    let board = Board::new();
    let state = board.get_state();
    assert_eq!(state.len(), 8);
    assert_eq!(count_pieces(&board), 32);
    let back = [
        Rank::Rook,
        Rank::Knight,
        Rank::Bishop,
        Rank::Queen,
        Rank::King,
        Rank::Bishop,
        Rank::Knight,
        Rank::Rook,
    ];
    for x in 0..8 {
        assert_eq!(state[0][x], Some(Piece::black(back[x])));
        assert_eq!(state[1][x], Some(Piece::black(Rank::Pawn)));
        assert_eq!(state[6][x], Some(Piece::white(Rank::Pawn)));
        assert_eq!(state[7][x], Some(Piece::white(back[x])));
        for y in 2..6 {
            assert_eq!(state[y][x], None);
        }
    }
}

#[test]
fn empty_square_has_no_steps() {
    let board = Board::new();
    for y in 2..6 {
        for x in 0..8 {
            assert_eq!(board.get_steps(p(x, y)), None);
        }
    }
    assert!(board.get_steps(p(0, 0)).is_some());
}

#[test]
fn starting_position_steps() {
    let board = Board::new();
    assert_eq!(board.get_steps(p(1, 7)), Some(sorted(vec![(0, 5), (2, 5)])));
    assert_eq!(board.get_steps(p(6, 0)), Some(sorted(vec![(5, 2), (7, 2)])));
    assert_eq!(board.get_steps(p(4, 6)), Some(sorted(vec![(4, 5), (4, 4)])));
    assert_eq!(board.get_steps(p(3, 1)), Some(sorted(vec![(3, 2), (3, 3)])));
    assert_eq!(board.get_steps(p(0, 7)), Some(vec![]));
    assert_eq!(board.get_steps(p(3, 7)), Some(vec![]));
    assert_eq!(board.get_steps(p(4, 0)), Some(vec![]));
}

#[test]
fn knight_in_center_of_empty_board() {
    let mut board = Board::new();
    board.move_piece(p(1, 7), p(4, 4));
    clear_except(&mut board, &[(4, 4)]);
    assert_eq!(count_pieces(&board), 1);
    let expected = sorted(vec![(2, 5), (2, 3), (6, 5), (6, 3), (5, 2), (3, 2), (5, 6), (3, 6)]);
    assert_eq!(board.get_steps(p(4, 4)), Some(expected));
}

#[test]
fn knight_skips_own_pieces_and_edges() {
    let board = Board::new();
    let steps = board.calc_knight(0, 7, &Color::White);
    assert_eq!(sorted(steps.iter().map(|q| (q.x, q.y)).collect()), sorted(vec![(1, 5)]));
    let steps = board.calc_knight(0, 7, &Color::Black);
    assert_eq!(sorted(steps.iter().map(|q| (q.x, q.y)).collect()), sorted(vec![(1, 5), (2, 6)]));
}

#[test]
fn rook_in_center_of_empty_board() {
    let mut board = Board::new();
    board.move_piece(p(0, 7), p(4, 4));
    clear_except(&mut board, &[(4, 4)]);
    let mut expected = vec![];
    for i in 0..8 {
        if i != 4 {
            expected.push((i, 4));
            expected.push((4, i));
        }
    }
    let steps = board.get_steps(p(4, 4)).unwrap();
    assert_eq!(steps.len(), 14);
    assert_eq!(steps, sorted(expected));
}

#[test]
fn ray_stops_at_first_piece() {
    let mut board = Board::new();
    // White rook on (4, 4), a black pawn on (4, 2), a white pawn on (6, 4).
    board.move_piece(p(0, 7), p(4, 4));
    board.move_piece(p(4, 1), p(4, 2));
    board.move_piece(p(6, 6), p(6, 4));
    clear_except(&mut board, &[(4, 4), (4, 2), (6, 4)]);
    let expected = sorted(vec![
        (4, 3),
        (4, 2),
        (4, 5),
        (4, 6),
        (4, 7),
        (5, 4),
        (3, 4),
        (2, 4),
        (1, 4),
        (0, 4),
    ]);
    assert_eq!(board.get_steps(p(4, 4)), Some(expected));
}

#[test]
fn slide_steps_along_one_direction() {
    let board = Board::new();
    let up = board.get_slide_steps(&p(3, 4), 0, -1, &Color::White);
    assert_eq!(up, vec![p(3, 3), p(3, 2), p(3, 1)]);
    let up_own = board.get_slide_steps(&p(3, 4), 0, -1, &Color::Black);
    assert_eq!(up_own, vec![p(3, 3), p(3, 2)]);
    let right = board.get_slide_steps(&p(3, 4), 1, 0, &Color::White);
    assert_eq!(right, vec![p(4, 4), p(5, 4), p(6, 4), p(7, 4)]);
}

#[test]
fn bishop_and_queen_steps() {
    let mut board = Board::new();
    board.move_piece(p(2, 7), p(3, 4));
    board.move_piece(p(3, 7), p(4, 4));
    let bishop = board.get_steps(p(3, 4)).unwrap();
    assert_eq!(bishop, sorted(vec![(2, 5), (4, 5), (2, 3), (1, 2), (0, 1), (4, 3), (5, 2), (6, 1)]));
    let queen = board.get_steps(p(4, 4)).unwrap();
    let expected = sorted(vec![
        (4, 5),
        (4, 3),
        (4, 2),
        (4, 1),
        (5, 4),
        (6, 4),
        (7, 4),
        (3, 5),
        (5, 5),
        (3, 3),
        (2, 2),
        (1, 1),
        (5, 3),
        (6, 2),
        (7, 1),
    ]);
    assert_eq!(queen, expected);
}

#[test]
fn white_pawn_double_push_blocked() {
    let mut board = Board::new();
    assert_eq!(board.get_steps(p(2, 6)), Some(sorted(vec![(2, 5), (2, 4)])));
    // A piece right ahead blocks both pushes, whatever lies beyond.
    board.move_piece(p(1, 7), p(2, 5));
    assert_eq!(board.get_steps(p(2, 6)), Some(vec![]));
    // A piece two ahead blocks only the double push.
    board.move_piece(p(2, 5), p(2, 4));
    assert_eq!(board.get_steps(p(2, 6)), Some(vec![p(2, 5)]));
}

#[test]
fn pawn_captures_only_enemies_diagonally() {
    let mut board = Board::new();
    // Black pawns on both diagonals ahead of the White pawn on (4, 6).
    board.move_piece(p(3, 1), p(3, 5));
    board.move_piece(p(5, 1), p(5, 5));
    assert_eq!(board.get_steps(p(4, 6)), Some(sorted(vec![(3, 5), (4, 5), (5, 5), (4, 4)])));
    board.move_piece(p(5, 5), p(5, 3));
    assert_eq!(board.get_steps(p(4, 6)), Some(sorted(vec![(3, 5), (4, 5), (4, 4)])));
    // An own piece on the diagonal is not a destination.
    board.move_piece(p(6, 7), p(3, 5));
    assert_eq!(board.get_steps(p(4, 6)), Some(sorted(vec![(4, 5), (4, 4)])));
    // An empty diagonal is not a destination either.
    assert_eq!(board.get_steps(p(0, 6)), Some(sorted(vec![(0, 5), (0, 4)])));
}

#[test]
fn pawn_on_edge_rows_goes_nowhere() {
    let mut board = Board::new();
    board.move_piece(p(0, 6), p(0, 0));
    assert_eq!(board.get_steps(p(0, 0)), Some(vec![]));
    board.move_piece(p(7, 1), p(7, 7));
    assert_eq!(board.get_steps(p(7, 7)), Some(vec![]));
    assert!(board.calc_pawn(0, 0, &Color::White).is_empty());
    assert!(board.calc_pawn(0, 0, &Color::Black).is_empty());
}

#[test]
fn black_pawn_moves_down() {
    let mut board = Board::new();
    board.move_piece(p(4, 6), p(3, 2));
    assert_eq!(board.get_steps(p(4, 1)), Some(sorted(vec![(4, 2), (4, 3), (3, 2)])));
    assert_eq!(board.get_steps(p(3, 1)), Some(vec![]));
}

#[test]
fn move_relocates_piece() {
    let mut board = Board::new();
    let knight = board.get_state()[7][6];
    board.move_piece(p(6, 7), p(5, 5));
    let state = board.get_state();
    assert_eq!(state[7][6], None);
    assert_eq!(state[5][5], knight);
    assert_eq!(count_pieces(&board), 32);
    // Capturing: the previous occupant is gone.
    board.move_piece(p(5, 5), p(4, 1));
    let state = board.get_state();
    assert_eq!(state[1][4], Some(Piece::white(Rank::Knight)));
    assert_eq!(state[5][5], None);
    assert_eq!(count_pieces(&board), 31);
    // The grids follow the new position.
    assert_eq!(board.get_steps(p(4, 1)), Some(sorted(vec![(2, 0), (6, 0), (2, 2), (6, 2), (3, 3), (5, 3)])));
    assert_eq!(board.get_steps(p(6, 7)), None);
    assert_eq!(board.get_steps(p(7, 6)), Some(sorted(vec![(7, 5), (7, 4)])));
}

#[test]
fn move_from_empty_square_empties_target() {
    let mut board = Board::new();
    board.move_piece(p(3, 3), p(0, 0));
    assert_eq!(board.get_state()[0][0], None);
    assert_eq!(board.get_state()[3][3], None);
    assert_eq!(count_pieces(&board), 31);
}

#[test]
fn move_onto_itself_keeps_piece() {
    let mut board = Board::new();
    board.move_piece(p(2, 7), p(2, 7));
    assert_eq!(board.get_state()[7][2], Some(Piece::white(Rank::Bishop)));
}

#[test]
fn reset_restores_start() {
    let fresh = Board::new();
    let mut board = Board::new();
    board.move_piece(p(4, 6), p(4, 4));
    board.move_piece(p(3, 0), p(7, 4));
    board.move_piece(p(7, 4), p(5, 6));
    board.reset();
    assert_eq!(board.get_state(), fresh.get_state());
    for y in 0..8 {
        for x in 0..8 {
            assert_eq!(board.get_steps(p(x, y)), fresh.get_steps(p(x, y)));
        }
    }
}

#[test]
fn steps_are_stable_without_moves() {
    let mut board = Board::new();
    board.move_piece(p(3, 6), p(3, 4));
    let first: Vec<_> = (0..64).map(|i| board.get_steps(p(i % 8, i / 8))).collect();
    board.move_piece(p(0, 3), p(0, 4));
    let second: Vec<_> = (0..64).map(|i| board.get_steps(p(i % 8, i / 8))).collect();
    assert_eq!(first, second);
}

#[test]
fn king_has_no_steps() {
    let mut board = Board::new();
    board.move_piece(p(4, 7), p(4, 4));
    assert_eq!(board.get_steps(p(4, 4)), Some(vec![]));
}

#[test]
fn add_helpers() {
    let board = Board::new();
    let mut v = vec![];
    board.add_if_empty(&mut v, p(0, 4));
    board.add_if_empty(&mut v, p(0, 0));
    assert_eq!(v, vec![p(0, 4)]);
    board.add_if_enemy(&mut v, p(0, 0), &Color::White);
    board.add_if_enemy(&mut v, p(0, 7), &Color::White);
    board.add_if_enemy(&mut v, p(0, 3), &Color::White);
    assert_eq!(v, vec![p(0, 4), p(0, 0)]);
}

#[test]
fn pos_and_piece_constructors() {
    assert_eq!(Pos::from((3, 5)), Pos { x: 3, y: 5 });
    assert_eq!(Pos::new(2, 6), Pos { x: 2, y: 6 });
    assert_eq!(Piece::white(Rank::Queen), Piece { color: Color::White, rank: Rank::Queen });
    assert_eq!(Piece::black(Rank::Pawn), Piece { color: Color::Black, rank: Rank::Pawn });
}

#[test]
fn generator_orders_are_fixed() {
    let mut board = Board::new();
    board.move_piece(p(3, 7), p(4, 4));
    let straight = board.calc_rook(4, 4, &Color::White);
    let right_left = vec![p(5, 4), p(6, 4), p(7, 4), p(3, 4), p(2, 4), p(1, 4), p(0, 4)];
    let down_up = vec![p(4, 5), p(4, 3), p(4, 2), p(4, 1)];
    assert_eq!(straight, [right_left, down_up].concat());
    let diagonal = board.calc_bishop(4, 4, &Color::White);
    assert_eq!(diagonal, vec![p(5, 3), p(6, 2), p(7, 1), p(5, 5), p(3, 3), p(2, 2), p(1, 1), p(3, 5)]);
    let mut both = straight.clone();
    both.extend(diagonal.iter().copied());
    assert_eq!(board.calc_queen(4, 4, &Color::White), both);
    assert_eq!(board.get_straight_slide_steps(4, 4, &Color::White), straight);
    assert_eq!(board.get_diagonal_slide_steps(4, 4, &Color::White), diagonal);
}

#[test]
fn lone_queen_has_27_squares() {
    let mut board = Board::new();
    board.move_piece(p(3, 7), p(4, 4));
    clear_except(&mut board, &[(4, 4)]);
    let queen = board.calc_queen(4, 4, &Color::White);
    assert_eq!(queen.len(), 27);
    let rook = board.calc_rook(4, 4, &Color::White);
    let bishop = board.calc_bishop(4, 4, &Color::White);
    assert_eq!(queen[..14], rook[..]);
    assert_eq!(queen[14..], bishop[..]);
}

#[test]
fn pawn_step_order() {
    let mut board = Board::new();
    assert_eq!(board.calc_pawn(4, 6, &Color::White), vec![p(4, 5), p(4, 4)]);
    board.move_piece(p(3, 1), p(3, 5));
    board.move_piece(p(5, 1), p(5, 5));
    assert_eq!(board.calc_pawn(4, 6, &Color::White), vec![p(4, 5), p(4, 4), p(3, 5), p(5, 5)]);
}

#[test]
fn board_clone_is_independent() {
    let board = Board::new();
    let mut copy = board.clone();
    copy.move_piece(p(4, 6), p(4, 4));
    assert_eq!(board.get_state()[6][4], Some(Piece::white(Rank::Pawn)));
    assert_eq!(copy.get_state()[4][4], Some(Piece::white(Rank::Pawn)));
    assert_eq!(copy.get_steps(p(4, 4)), Some(vec![p(4, 3)]));
}

#[test]
fn recomputing_attacks_changes_nothing() {
    let mut board = Board::new();
    board.move_piece(p(4, 6), p(4, 4));
    board.move_piece(p(3, 0), p(7, 4));
    let before: Vec<_> = (0..64).map(|i| board.get_steps(p(i % 8, i / 8))).collect();
    board.calc_attacks();
    board.calc_attacks();
    let after: Vec<_> = (0..64).map(|i| board.get_steps(p(i % 8, i / 8))).collect();
    assert_eq!(before, after);
    assert_eq!(board.get_steps(p(7, 4)).map(|s| s.len()), Some(11));
}
