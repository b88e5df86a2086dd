use chez::piece::{Piece, PieceKind, Position};
use chez::{Board, Color};

fn pos(column: i8, row: i8) -> Position {
    Position::new(column, row)
}

fn board_with(pieces: Vec<Piece>) -> Board {
    match Board::from_pieces(pieces) {
        Some(b) => b,
        None => panic!("test fixture is not a valid board"),
    }
}

#[test]
fn on_board_inside_bounds() {
    assert!(pos(0, 0).is_on_board());
    assert!(pos(7, 7).is_on_board());
    assert!(pos(0, 7).is_on_board());
    assert!(pos(7, 0).is_on_board());
    assert!(pos(3, 4).is_on_board());
}

#[test]
fn off_board_outside_bounds() {
    assert!(!pos(-1, 0).is_on_board());
    assert!(!pos(0, -1).is_on_board());
    assert!(!pos(8, 0).is_on_board());
    assert!(!pos(0, 8).is_on_board());
    assert!(!pos(-3, 9).is_on_board());
    assert!(!pos(127, 127).is_on_board());
}

#[test]
fn square_colors_fixed_values() {
    assert_eq!(pos(0, 0).color(), Color::Black);
    assert_eq!(pos(1, 0).color(), Color::White);
    assert_eq!(pos(0, 1).color(), Color::White);
    assert_eq!(pos(7, 7).color(), Color::Black);
}

#[test]
fn square_colors_alternate_along_ranks_and_files() {
    for c in 0..8i8 {
        for r in 0..8i8 {
            if c + 1 < 8 {
                assert_ne!(pos(c, r).color(), pos(c + 1, r).color());
            }
            if r + 1 < 8 {
                assert_ne!(pos(c, r).color(), pos(c, r + 1).color());
            }
        }
    }
}

#[test]
fn square_color_of_negative_coordinates() {
    assert_eq!(pos(-1, 0).color(), Color::White);
    assert_eq!(pos(-1, -1).color(), Color::Black);
}

#[test]
fn invert_swaps_colors() {
    assert_eq!(Color::Black.invert(), Color::White);
    assert_eq!(Color::White.invert(), Color::Black);
}

#[test]
fn position_from_pair() {
    let p: Position = (3i8, 5i8).into();
    assert_eq!(p.column, 3);
    assert_eq!(p.row, 5);
}

#[test]
fn initial_board_counts() {
    let board = Board::new();
    let white = board.get_pieces(Color::White);
    let black = board.get_pieces(Color::Black);
    assert_eq!(white.len(), 16);
    assert_eq!(black.len(), 16);
    for (color, pieces) in [(Color::White, &white), (Color::Black, &black)] {
        let mut kings = 0;
        let mut queens = 0;
        let mut pawns = 0;
        for p in pieces.iter() {
            assert_eq!(p.color, color);
            assert!(!p.has_moved);
            match p.kind {
                PieceKind::King => kings += 1,
                PieceKind::Queen => queens += 1,
                PieceKind::Pawn => pawns += 1,
                _ => {}
            }
        }
        assert_eq!(kings, 1);
        assert_eq!(queens, 1);
        assert_eq!(pawns, 8);
    }
}

#[test]
fn initial_board_starting_squares() {
    let board = Board::new();
    let back_rank = [
        PieceKind::Rook,
        PieceKind::Knight,
        PieceKind::Bishop,
        PieceKind::Queen,
        PieceKind::King,
        PieceKind::Bishop,
        PieceKind::Knight,
        PieceKind::Rook,
    ];
    for c in 0..8i8 {
        let white_back = board.get_piece(&pos(c, 0)).unwrap();
        assert_eq!(white_back.kind, back_rank[c as usize]);
        assert_eq!(white_back.color, Color::White);
        let white_pawn = board.get_piece(&pos(c, 1)).unwrap();
        assert_eq!(white_pawn.kind, PieceKind::Pawn);
        assert_eq!(white_pawn.color, Color::White);
        let black_pawn = board.get_piece(&pos(c, 6)).unwrap();
        assert_eq!(black_pawn.kind, PieceKind::Pawn);
        assert_eq!(black_pawn.color, Color::Black);
        let black_back = board.get_piece(&pos(c, 7)).unwrap();
        assert_eq!(black_back.kind, back_rank[c as usize]);
        assert_eq!(black_back.color, Color::Black);
    }
}

#[test]
fn initial_board_empty_middle() {
    let board = Board::new();
    for c in 0..8i8 {
        for r in 2..6i8 {
            assert!(board.get_piece(&pos(c, r)).is_none());
        }
    }
}

#[test]
fn from_pieces_rejects_shared_square() {
    let pieces = vec![
        Piece::new(PieceKind::Rook, Color::White, pos(3, 3)),
        Piece::new(PieceKind::Knight, Color::Black, pos(3, 3)),
    ];
    assert!(Board::from_pieces(pieces).is_none());
}

#[test]
fn from_pieces_rejects_off_board_piece() {
    let pieces = vec![Piece::new(PieceKind::Rook, Color::White, pos(8, 3))];
    assert!(Board::from_pieces(pieces).is_none());
}

#[test]
fn rook_alone_covers_rank_and_file() {
    let rook = Piece::new(PieceKind::Rook, Color::White, pos(3, 3));
    let board = board_with(vec![rook]);
    let moves = rook.moves(&board);
    assert_eq!(moves.len(), 14);
    for c in 0..8i8 {
        if c != 3 {
            assert!(moves.contains(&pos(c, 3)));
        }
    }
    for r in 0..8i8 {
        if r != 3 {
            assert!(moves.contains(&pos(3, r)));
        }
    }
    assert!(!moves.contains(&pos(3, 3)));
}

#[test]
fn ray_stops_at_and_includes_enemy() {
    let rook = Piece::new(PieceKind::Rook, Color::White, pos(0, 0));
    let enemy = Piece::new(PieceKind::Pawn, Color::Black, pos(0, 3));
    let board = board_with(vec![rook, enemy]);
    let moves = rook.moves(&board);
    assert!(moves.contains(&pos(0, 1)));
    assert!(moves.contains(&pos(0, 2)));
    assert!(moves.contains(&pos(0, 3)));
    assert!(!moves.contains(&pos(0, 4)));
    assert!(!moves.contains(&pos(0, 5)));
}

#[test]
fn ray_stops_before_own_piece() {
    let rook = Piece::new(PieceKind::Rook, Color::White, pos(0, 0));
    let own = Piece::new(PieceKind::Pawn, Color::White, pos(3, 0));
    let board = board_with(vec![rook, own]);
    let moves = rook.moves(&board);
    assert!(moves.contains(&pos(1, 0)));
    assert!(moves.contains(&pos(2, 0)));
    assert!(!moves.contains(&pos(3, 0)));
    assert!(!moves.contains(&pos(4, 0)));
}

#[test]
fn bishop_alone_covers_diagonals() {
    let bishop = Piece::new(PieceKind::Bishop, Color::White, pos(3, 3));
    let board = board_with(vec![bishop]);
    let moves = bishop.moves(&board);
    assert_eq!(moves.len(), 13);
    assert!(moves.contains(&pos(0, 0)));
    assert!(moves.contains(&pos(7, 7)));
    assert!(moves.contains(&pos(0, 6)));
    assert!(moves.contains(&pos(6, 0)));
    assert!(!moves.contains(&pos(3, 4)));
}

#[test]
fn queen_alone_is_rook_plus_bishop() {
    let queen = Piece::new(PieceKind::Queen, Color::White, pos(3, 3));
    let board = board_with(vec![queen]);
    let moves = queen.moves(&board);
    assert_eq!(moves.len(), 27);
}

#[test]
fn knight_in_corner_has_two_moves() {
    let knight = Piece::new(PieceKind::Knight, Color::White, pos(0, 0));
    let board = board_with(vec![knight]);
    let moves = knight.moves(&board);
    assert_eq!(moves.len(), 2);
    assert!(moves.contains(&pos(2, 1)));
    assert!(moves.contains(&pos(1, 2)));
}

#[test]
fn knight_in_center_has_eight_moves() {
    let knight = Piece::new(PieceKind::Knight, Color::White, pos(4, 4));
    let board = board_with(vec![knight]);
    let moves = knight.moves(&board);
    assert_eq!(moves.len(), 8);
}

#[test]
fn knight_jumps_over_and_captures() {
    let knight = Piece::new(PieceKind::Knight, Color::White, pos(0, 0));
    let blocker = Piece::new(PieceKind::Pawn, Color::White, pos(0, 1));
    let own_target = Piece::new(PieceKind::Pawn, Color::White, pos(2, 1));
    let enemy_target = Piece::new(PieceKind::Pawn, Color::Black, pos(1, 2));
    let board = board_with(vec![knight, blocker, own_target, enemy_target]);
    let moves = knight.moves(&board);
    assert_eq!(moves.len(), 1);
    assert!(moves.contains(&pos(1, 2)));
}

#[test]
fn unmoved_pawn_offers_two_forward_squares() {
    let pawn = Piece::new(PieceKind::Pawn, Color::White, pos(4, 1));
    let board = board_with(vec![pawn]);
    let moves = pawn.moves(&board);
    assert_eq!(moves.len(), 2);
    assert!(moves.contains(&pos(4, 2)));
    assert!(moves.contains(&pos(4, 3)));
}

#[test]
fn blocked_pawn_offers_no_forward_square() {
    let pawn = Piece::new(PieceKind::Pawn, Color::White, pos(4, 1));
    let blocker = Piece::new(PieceKind::Rook, Color::Black, pos(4, 2));
    let board = board_with(vec![pawn, blocker]);
    let moves = pawn.moves(&board);
    assert_eq!(moves.len(), 0);
}

#[test]
fn pawn_blocked_on_second_square_offers_one() {
    let pawn = Piece::new(PieceKind::Pawn, Color::White, pos(4, 1));
    let blocker = Piece::new(PieceKind::Rook, Color::White, pos(4, 3));
    let board = board_with(vec![pawn, blocker]);
    let moves = pawn.moves(&board);
    assert_eq!(moves.len(), 1);
    assert!(moves.contains(&pos(4, 2)));
}

#[test]
fn moved_pawn_offers_one_forward_square() {
    let mut pawn = Piece::new(PieceKind::Pawn, Color::White, pos(4, 2));
    pawn.has_moved = true;
    let board = board_with(vec![pawn]);
    let moves = pawn.moves(&board);
    assert_eq!(moves.len(), 1);
    assert!(moves.contains(&pos(4, 3)));
}

#[test]
fn black_pawn_moves_down_the_board() {
    let pawn = Piece::new(PieceKind::Pawn, Color::Black, pos(4, 6));
    let board = board_with(vec![pawn]);
    let moves = pawn.moves(&board);
    assert_eq!(moves.len(), 2);
    assert!(moves.contains(&pos(4, 5)));
    assert!(moves.contains(&pos(4, 4)));
}

#[test]
fn pawn_diagonal_only_against_enemy() {
    let pawn = Piece::new(PieceKind::Pawn, Color::White, pos(4, 1));
    let enemy = Piece::new(PieceKind::Rook, Color::Black, pos(5, 2));
    let own = Piece::new(PieceKind::Rook, Color::White, pos(3, 2));
    let board = board_with(vec![pawn, enemy, own]);
    let moves = pawn.moves(&board);
    assert!(moves.contains(&pos(5, 2)));
    assert!(!moves.contains(&pos(3, 2)));
    assert!(moves.contains(&pos(4, 2)));
    assert!(moves.contains(&pos(4, 3)));
    assert_eq!(moves.len(), 3);
}

#[test]
fn pawn_never_takes_diagonally_onto_empty_square() {
    let pawn = Piece::new(PieceKind::Pawn, Color::White, pos(4, 1));
    let board = board_with(vec![pawn]);
    let moves = pawn.moves(&board);
    assert!(!moves.contains(&pos(5, 2)));
    assert!(!moves.contains(&pos(3, 2)));
}

#[test]
fn move_piece_sets_has_moved() {
    let mut board = Board::new();
    let captured = board.move_piece(&pos(4, 1), &pos(4, 3));
    assert!(captured.is_none());
    let moved = board.get_piece(&pos(4, 3)).unwrap();
    assert!(moved.has_moved);
    assert_eq!(moved.kind, PieceKind::Pawn);
    assert!(board.get_piece(&pos(4, 1)).is_none());
}

#[test]
fn move_piece_returns_and_removes_captured_piece() {
    let rook = Piece::new(PieceKind::Rook, Color::White, pos(0, 0));
    let enemy = Piece::new(PieceKind::Knight, Color::Black, pos(0, 5));
    let mut board = board_with(vec![rook, enemy]);
    let captured = board.move_piece(&pos(0, 0), &pos(0, 5)).unwrap();
    assert_eq!(captured.kind, PieceKind::Knight);
    assert_eq!(captured.color, Color::Black);
    let remaining_white = board.get_pieces(Color::White);
    let remaining_black = board.get_pieces(Color::Black);
    assert_eq!(remaining_white.len(), 1);
    assert_eq!(remaining_black.len(), 0);
}

#[test]
fn pawn_reaching_last_row_becomes_queen() {
    let mut pawn = Piece::new(PieceKind::Pawn, Color::White, pos(0, 6));
    pawn.has_moved = true;
    let mut board = board_with(vec![pawn]);
    let captured = board.move_piece(&pos(0, 6), &pos(0, 7));
    assert!(captured.is_none());
    let promoted = board.get_piece(&pos(0, 7)).unwrap();
    assert_eq!(promoted.kind, PieceKind::Queen);
    assert!(promoted.has_moved);
}

#[test]
fn pawn_reaching_row_zero_becomes_queen() {
    let mut pawn = Piece::new(PieceKind::Pawn, Color::Black, pos(3, 1));
    pawn.has_moved = true;
    let mut board = board_with(vec![pawn]);
    board.move_piece(&pos(3, 1), &pos(3, 0));
    let promoted = board.get_piece(&pos(3, 0)).unwrap();
    assert_eq!(promoted.kind, PieceKind::Queen);
}

#[test]
fn non_pawn_is_not_promoted() {
    let rook = Piece::new(PieceKind::Rook, Color::White, pos(0, 3));
    let mut board = board_with(vec![rook]);
    board.move_piece(&pos(0, 3), &pos(0, 7));
    let moved = board.get_piece(&pos(0, 7)).unwrap();
    assert_eq!(moved.kind, PieceKind::Rook);
}

#[test]
fn all_attacks_of_lone_rook() {
    let rook = Piece::new(PieceKind::Rook, Color::White, pos(3, 3));
    let board = board_with(vec![rook]);
    let attacks = board.all_attacks(Color::White);
    assert!(attacks.contains(&pos(3, 0)));
    assert!(attacks.contains(&pos(0, 3)));
    assert!(attacks.contains(&pos(7, 3)));
    assert!(!attacks.contains(&pos(4, 4)));
    let none = board.all_attacks(Color::Black);
    assert_eq!(none.len(), 0);
}

#[test]
fn attack_set_is_naive_pawn_reach() {
    // The aggregate attack set unions each piece's pseudo-move
    // destinations, so a pawn contributes its forward squares and only
    // occupied diagonals.
    let pawn = Piece::new(PieceKind::Pawn, Color::White, pos(4, 1));
    let board = board_with(vec![pawn]);
    let attacks = board.all_attacks(Color::White);
    assert!(attacks.contains(&pos(4, 2)));
    assert!(attacks.contains(&pos(4, 3)));
    assert!(!attacks.contains(&pos(3, 2)));
    assert!(!attacks.contains(&pos(5, 2)));
}

#[test]
fn king_on_initial_board_cannot_move() {
    let board = Board::new();
    let king = board.get_piece(&pos(4, 0)).unwrap();
    assert_eq!(king.kind, PieceKind::King);
    assert_eq!(king.moves(&board).len(), 0);
}

#[test]
fn king_avoids_attacked_squares() {
    let king = Piece::new(PieceKind::King, Color::Black, pos(7, 7));
    let rook = Piece::new(PieceKind::Rook, Color::White, pos(5, 6));
    let board = board_with(vec![king, rook]);
    let attacks = board.all_attacks(Color::White);
    let moves = king.moves(&board);
    for m in moves.iter() {
        assert!(!attacks.contains(m));
    }
    assert_eq!(moves.len(), 1);
    assert!(moves.contains(&pos(6, 7)));
}

#[test]
fn king_may_capture_unprotected_attacker() {
    let king = Piece::new(PieceKind::King, Color::Black, pos(4, 4));
    let knight = Piece::new(PieceKind::Knight, Color::White, pos(4, 5));
    let board = board_with(vec![king, knight]);
    let moves = king.moves(&board);
    assert!(moves.contains(&pos(4, 5)));
}

#[test]
fn king_does_not_step_onto_own_piece() {
    let king = Piece::new(PieceKind::King, Color::White, pos(0, 0));
    let own = Piece::new(PieceKind::Pawn, Color::White, pos(0, 1));
    let board = board_with(vec![king, own]);
    let moves = king.moves(&board);
    assert!(!moves.contains(&pos(0, 1)));
    assert!(moves.contains(&pos(1, 0)));
    assert!(moves.contains(&pos(1, 1)));
    assert_eq!(moves.len(), 2);
}

#[test]
fn repr_maps_kind_and_color_to_glyph() {
    let board = Board::new();
    assert_eq!(board.get_piece(&pos(4, 0)).unwrap().repr(), "\u{2654}");
    assert_eq!(board.get_piece(&pos(4, 7)).unwrap().repr(), "\u{265a}");
    assert_eq!(board.get_piece(&pos(3, 0)).unwrap().repr(), "\u{2655}");
    assert_eq!(board.get_piece(&pos(0, 1)).unwrap().repr(), "\u{2659}");
    assert_eq!(board.get_piece(&pos(0, 6)).unwrap().repr(), "\u{265f}");
}
