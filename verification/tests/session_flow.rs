use chez::piece::{PieceKind, Position};
use chez::session::{ClickOutcome, GameSession};
use chez::Color;

fn pos(column: i8, row: i8) -> Position {
    Position::new(column, row)
}

#[test]
fn clicking_empty_square_without_selection_is_ignored() {
    let mut session = GameSession::new();
    let outcome = session.square_clicked(pos(4, 4));
    assert_eq!(outcome, ClickOutcome::Ignored);
    assert!(session.selected.is_none());
    assert!(session.possible_moves.is_empty());
}

#[test]
fn clicking_a_piece_selects_it_and_generates_moves() {
    let mut session = GameSession::new();
    let outcome = session.square_clicked(pos(4, 1));
    assert_eq!(outcome, ClickOutcome::Selected);
    assert_eq!(session.selected, Some(pos(4, 1)));
    assert_eq!(session.possible_moves.len(), 2);
    assert!(session.possible_moves.contains(&pos(4, 2)));
    assert!(session.possible_moves.contains(&pos(4, 3)));
}

#[test]
fn clicking_selected_square_again_deselects() {
    let mut session = GameSession::new();
    session.square_clicked(pos(4, 1));
    let outcome = session.square_clicked(pos(4, 1));
    assert_eq!(outcome, ClickOutcome::Deselected);
    assert!(session.selected.is_none());
}

#[test]
fn clicking_a_generated_destination_commits_the_move() {
    let mut session = GameSession::new();
    session.square_clicked(pos(4, 1));
    let outcome = session.square_clicked(pos(4, 3));
    assert_eq!(
        outcome,
        ClickOutcome::Moved { from: pos(4, 1), to: pos(4, 3), captured: None }
    );
    assert!(session.selected.is_none());
    assert!(session.possible_moves.is_empty());
    assert!(session.takes.is_empty());
    let moved = session.board.get_piece(&pos(4, 3)).unwrap();
    assert_eq!(moved.kind, PieceKind::Pawn);
    assert!(moved.has_moved);
    assert!(session.board.get_piece(&pos(4, 1)).is_none());
}

#[test]
fn capture_is_recorded_in_takes() {
    let mut session = GameSession::new();
    session.square_clicked(pos(4, 1));
    session.square_clicked(pos(4, 3));
    session.square_clicked(pos(3, 6));
    session.square_clicked(pos(3, 4));
    session.square_clicked(pos(4, 3));
    let outcome = session.square_clicked(pos(3, 4));
    match outcome {
        ClickOutcome::Moved { from, to, captured } => {
            assert_eq!(from, pos(4, 3));
            assert_eq!(to, pos(3, 4));
            let cap = captured.unwrap();
            assert_eq!(cap.kind, PieceKind::Pawn);
            assert_eq!(cap.color, Color::Black);
        }
        other => panic!("expected a move, got {:?}", other),
    }
    assert_eq!(session.takes.len(), 1);
    assert_eq!(session.takes[0].color, Color::Black);
}

#[test]
fn clicking_a_non_destination_rejects_and_passes_turn() {
    let mut session = GameSession::new();
    assert_eq!(session.to_move, Color::White);
    session.square_clicked(pos(4, 1));
    let outcome = session.square_clicked(pos(0, 5));
    assert_eq!(outcome, ClickOutcome::Rejected);
    assert!(session.selected.is_none());
    assert!(session.possible_moves.is_empty());
    assert_eq!(session.to_move, Color::Black);
}
