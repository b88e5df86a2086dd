//! Per-game session state and the decision logic for a clicked square:
//! selecting a piece, deselecting it, committing one of its generated
//! destinations, or rejecting the click. Rendering and persistence are
//! the surrounding application's concern; it performs them as the
//! returned outcome directs.

use vstd::prelude::*;

use crate::board::{moved_board, Board};
use crate::color::Color;
use crate::piece::{
    at_pos, contains_pos, contains_position, legal_dest, lemma_legal_dest_props, occupied,
    piece_at, Piece, Position,
};

verus! {

/// What a click on a square amounted to.
#[derive(Clone, Copy, Debug, PartialEq, Eq, Structural)]
pub enum ClickOutcome {
    /// The selected square was clicked again: the selection is dropped.
    Deselected,
    /// A generated destination of the selected piece was clicked: the
    /// move was committed, capturing `captured` if it is present.
    Moved { from: Position, to: Position, captured: Option<Piece> },
    /// Some other square was clicked while a piece was selected: the
    /// selection is dropped and the turn passes.
    Rejected,
    /// With nothing selected, an occupied square was clicked: that piece
    /// is now selected and its destinations generated.
    Selected,
    /// With nothing selected, an empty square was clicked.
    Ignored,
}

/// The state of one game: the board, the current selection with its
/// generated destinations, the pieces captured so far, and whose turn it
/// is.
pub struct GameSession {
    pub board: Board,
    pub selected: Option<Position>,
    pub possible_moves: Vec<Position>,
    pub takes: Vec<Piece>,
    pub to_move: Color,
}

impl GameSession {
    /// The session invariant: the board is well-formed, and any selected
    /// square holds a piece whose generated destinations are exactly
    /// `possible_moves`.
    pub open spec fn wf(&self) -> bool {
        &&& self.board.wf()
        &&& match self.selected {
            Some(sel) => occupied(self.board@, sel.column as int, sel.row as int) && (forall|
                c: int,
                r: int,
            |
                #![trigger contains_pos(self.possible_moves@, c, r)]
                contains_pos(self.possible_moves@, c, r) <==> legal_dest(
                    self.board@,
                    piece_at(self.board@, sel.column as int, sel.row as int).unwrap(),
                    c,
                    r,
                )),
            None => true,
        }
    }

    /// A fresh session: the standard starting board, nothing selected,
    /// nothing captured, White to move.
    pub fn new() -> (r: GameSession)
        ensures
            r.wf(),
            r.board@ == crate::board::initial_pieces(),
            r.selected is None,
            r.possible_moves@ == Seq::<Position>::empty(),
            r.takes@ == Seq::<Piece>::empty(),
            r.to_move == Color::White,
    {
        GameSession {
            board: Board::new(),
            selected: None,
            possible_moves: Vec::new(),
            takes: Vec::new(),
            to_move: Color::White,
        }
    }

    /// Decides and applies the effect of a click on `position`.
    pub fn square_clicked(&mut self, position: Position) -> (outcome: ClickOutcome)
        requires
            old(self).wf(),
        ensures
            final(self).wf(),
            old(self).selected matches Some(sel) ==> (sel == position ==> {
                &&& outcome == ClickOutcome::Deselected
                &&& final(self).board@ == old(self).board@
                &&& final(self).selected is None
                &&& final(self).possible_moves@ == old(self).possible_moves@
                &&& final(self).takes@ == old(self).takes@
                &&& final(self).to_move == old(self).to_move
            }),
            old(self).selected matches Some(sel) ==> ((sel != position && contains_pos(
                old(self).possible_moves@,
                position.column as int,
                position.row as int,
            )) ==> {
                &&& outcome == (ClickOutcome::Moved {
                    from: sel,
                    to: position,
                    captured: piece_at(
                        old(self).board@,
                        position.column as int,
                        position.row as int,
                    ),
                })
                &&& moved_board(old(self).board@, final(self).board@, sel, position)
                &&& final(self).selected is None
                &&& final(self).possible_moves@ == Seq::<Position>::empty()
                &&& final(self).to_move == old(self).to_move
                &&& (match piece_at(
                    old(self).board@,
                    position.column as int,
                    position.row as int,
                ) {
                    Some(cap) => final(self).takes@ == old(self).takes@.push(cap),
                    None => final(self).takes@ == old(self).takes@,
                })
            }),
            old(self).selected matches Some(sel) ==> ((sel != position && !contains_pos(
                old(self).possible_moves@,
                position.column as int,
                position.row as int,
            )) ==> {
                &&& outcome == ClickOutcome::Rejected
                &&& final(self).board@ == old(self).board@
                &&& final(self).selected is None
                &&& final(self).possible_moves@ == Seq::<Position>::empty()
                &&& final(self).takes@ == old(self).takes@
                &&& final(self).to_move == crate::color::opposite(old(self).to_move)
            }),
            (old(self).selected is None && occupied(
                old(self).board@,
                position.column as int,
                position.row as int,
            )) ==> ({
                &&& outcome == ClickOutcome::Selected
                &&& final(self).board@ == old(self).board@
                &&& final(self).selected == Some(position)
                &&& final(self).takes@ == old(self).takes@
                &&& final(self).to_move == old(self).to_move
            }),
            (old(self).selected is None && !occupied(
                old(self).board@,
                position.column as int,
                position.row as int,
            )) ==> ({
                &&& outcome == ClickOutcome::Ignored
                &&& final(self).board@ == old(self).board@
                &&& final(self).selected is None
                &&& final(self).possible_moves@ == Seq::<Position>::empty()
                &&& final(self).takes@ == old(self).takes@
                &&& final(self).to_move == old(self).to_move
            }),
    {
        match self.selected {
            Some(sel) => {
                if sel.column == position.column && sel.row == position.row {
                    self.selected = None;
                    ClickOutcome::Deselected
                } else if contains_position(
                    &self.possible_moves,
                    position.column as i16,
                    position.row as i16,
                ) {
                    proof {
                        let s = self.board@;
                        let p = piece_at(s, sel.column as int, sel.row as int).unwrap();
                        assert(legal_dest(s, p, position.column as int, position.row as int));
                        lemma_legal_dest_props(s, p, position.column as int, position.row as int);
                        let w = choose|w: int|
                            0 <= w < s.len() && at_pos(s[w], sel.column as int, sel.row as int);
                        assert(s[w] == p);
                    }
                    let captured = self.board.move_piece(&sel, &position);
                    self.selected = None;
                    self.possible_moves = Vec::new();
                    if let Some(cap) = captured {
                        self.takes.push(cap);
                    }
                    ClickOutcome::Moved { from: sel, to: position, captured }
                } else {
                    self.selected = None;
                    self.possible_moves = Vec::new();
                    self.to_move = self.to_move.invert();
                    ClickOutcome::Rejected
                }
            },
            None => {
                match self.board.get_piece(&position) {
                    Some(piece) => {
                        proof {
                            let s = self.board@;
                            let w = choose|w: int|
                                0 <= w < s.len() && at_pos(
                                    s[w],
                                    position.column as int,
                                    position.row as int,
                                );
                            assert(s[w] == piece);
                        }
                        let mvs = piece.moves(&self.board);
                        self.possible_moves = mvs;
                        self.selected = Some(position);
                        ClickOutcome::Selected
                    },
                    None => {
                        self.possible_moves = Vec::new();
                        ClickOutcome::Ignored
                    },
                }
            },
        }
    }
}

} // verus!
