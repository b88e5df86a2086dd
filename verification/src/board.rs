//! The board: an unordered collection of pieces, with lookup, mutation
//! (move / capture / promote), and the aggregate attack computation.

use vstd::prelude::*;

use crate::color::Color;
use crate::piece::{
    at_pos, attacked, attacked_upto, contains_pos, lemma_contains_pos_add, lemma_piece_at_index,
    occupied, on_board_spec, pcol, piece_at, prow, pseudo_dest, wf_pieces, Piece, PieceKind,
    Position,
};

verus! {

/// The kind a piece has after landing on row `trow`: a pawn reaching
/// either back rank is upgraded to a queen, all else is unchanged.
pub open spec fn promoted_kind(k: PieceKind, trow: int) -> PieceKind {
    if k == PieceKind::Pawn && (trow == 0 || trow == 7) {
        PieceKind::Queen
    } else {
        k
    }
}

/// The piece `p` after being moved to `to`: relocated, flagged as moved,
/// and promoted if it is a pawn reaching a back rank.
pub open spec fn moved_piece(p: Piece, to: Position) -> Piece {
    Piece {
        kind: promoted_kind(p.kind, to.row as int),
        color: p.color,
        position: to,
        has_moved: true,
    }
}

/// How a board changes when the piece on `from` is moved to `to`: the
/// destination square now holds the relocated (and possibly promoted)
/// piece, the source square is free, every other square is unchanged,
/// and the piece count drops by one exactly when the destination was
/// occupied (the capture).
pub open spec fn moved_board(pre: Seq<Piece>, post: Seq<Piece>, from: Position, to: Position) -> bool {
    &&& wf_pieces(post)
    &&& piece_at(post, to.column as int, to.row as int) == Some(
        moved_piece(piece_at(pre, from.column as int, from.row as int).unwrap(), to),
    )
    &&& !occupied(post, from.column as int, from.row as int)
    &&& forall|c2: int, r2: int|
        #![trigger piece_at(post, c2, r2)]
        !(c2 == from.column as int && r2 == from.row as int) && !(c2 == to.column as int && r2
            == to.row as int) ==> piece_at(post, c2, r2) == piece_at(pre, c2, r2)
    &&& post.len() == pre.len() - (if occupied(pre, to.column as int, to.row as int) {
        1int
    } else {
        0int
    })
}

/// Removing an index from a well-formed collection keeps it well-formed,
/// frees the removed square, and leaves every other square unchanged.
proof fn lemma_remove_pointwise(s: Seq<Piece>, i: int)
    requires
        wf_pieces(s),
        0 <= i < s.len(),
    ensures
        wf_pieces(s.remove(i)),
        !occupied(s.remove(i), pcol(s[i]), prow(s[i])),
        forall|c2: int, r2: int|
            #![trigger piece_at(s.remove(i), c2, r2)]
            #![trigger piece_at(s, c2, r2)]
            !(c2 == pcol(s[i]) && r2 == prow(s[i])) ==> piece_at(s.remove(i), c2, r2) == piece_at(
                s,
                c2,
                r2,
            ),
{
    let t = s.remove(i);
    assert(forall|j: int| 0 <= j < i ==> #[trigger] t[j] == s[j]);
    assert(forall|j: int| i <= j < t.len() ==> #[trigger] t[j] == s[j + 1]);
    assert forall|j: int| 0 <= j < t.len() implies !at_pos(#[trigger] t[j], pcol(s[i]), prow(s[i]))
    by {
        if j < i {
            assert(t[j] == s[j]);
        } else {
            assert(t[j] == s[j + 1]);
        }
    }
    assert forall|c2: int, r2: int|
        !(c2 == pcol(s[i]) && r2 == prow(s[i])) implies piece_at(t, c2, r2) == piece_at(
        s,
        c2,
        r2,
    ) by {
        if occupied(s, c2, r2) {
            let j = choose|j: int| 0 <= j < s.len() && at_pos(s[j], c2, r2);
            assert(j != i);
            let jt: int = if j < i {
                j
            } else {
                j - 1
            };
            assert(t[jt] == s[j]);
            assert(occupied(t, c2, r2));
            lemma_piece_at_index(s, j, c2, r2);
            lemma_piece_at_index(t, jt, c2, r2);
        } else {
            if occupied(t, c2, r2) {
                let j = choose|j: int| 0 <= j < t.len() && at_pos(t[j], c2, r2);
                if j < i {
                    assert(at_pos(s[j], c2, r2));
                } else {
                    assert(at_pos(s[j + 1], c2, r2));
                }
                assert(false);
            }
        }
    }
}

/// Pushing a piece onto a free, on-board square of a well-formed
/// collection keeps it well-formed, occupies exactly that square, and
/// leaves every other square unchanged.
proof fn lemma_push_pointwise(s: Seq<Piece>, p: Piece)
    requires
        wf_pieces(s),
        !occupied(s, pcol(p), prow(p)),
        on_board_spec(pcol(p), prow(p)),
    ensures
        wf_pieces(s.push(p)),
        piece_at(s.push(p), pcol(p), prow(p)) == Some(p),
        forall|c2: int, r2: int|
            #![trigger piece_at(s.push(p), c2, r2)]
            #![trigger piece_at(s, c2, r2)]
            !(c2 == pcol(p) && r2 == prow(p)) ==> piece_at(s.push(p), c2, r2) == piece_at(
                s,
                c2,
                r2,
            ),
{
    let t = s.push(p);
    assert(forall|j: int| 0 <= j < s.len() ==> #[trigger] t[j] == s[j]);
    assert(t[s.len() as int] == p);
    assert(wf_pieces(t));
    lemma_piece_at_index(t, s.len() as int, pcol(p), prow(p));
    assert forall|c2: int, r2: int|
        !(c2 == pcol(p) && r2 == prow(p)) implies piece_at(t, c2, r2) == piece_at(s, c2, r2) by {
        if occupied(s, c2, r2) {
            let j = choose|j: int| 0 <= j < s.len() && at_pos(s[j], c2, r2);
            assert(t[j] == s[j]);
            assert(occupied(t, c2, r2));
            lemma_piece_at_index(s, j, c2, r2);
            lemma_piece_at_index(t, j, c2, r2);
        } else {
            if occupied(t, c2, r2) {
                let j = choose|j: int| 0 <= j < t.len() && at_pos(t[j], c2, r2);
                assert(j == s.len());
                assert(false);
            }
        }
    }
}

/// A piece as it stands at the start of the game: not yet moved.
pub open spec fn start_piece(kind: PieceKind, color: Color, column: i8, row: i8) -> Piece {
    Piece { kind, color, position: Position { column, row }, has_moved: false }
}

/// The standard initial 32-piece setup: White on rows 0 and 1, Black on
/// rows 6 and 7.
pub open spec fn initial_pieces() -> Seq<Piece> {
    seq![
        start_piece(PieceKind::Rook, Color::White, 0, 0),
        start_piece(PieceKind::Knight, Color::White, 1, 0),
        start_piece(PieceKind::Bishop, Color::White, 2, 0),
        start_piece(PieceKind::Queen, Color::White, 3, 0),
        start_piece(PieceKind::King, Color::White, 4, 0),
        start_piece(PieceKind::Bishop, Color::White, 5, 0),
        start_piece(PieceKind::Knight, Color::White, 6, 0),
        start_piece(PieceKind::Rook, Color::White, 7, 0),
        start_piece(PieceKind::Pawn, Color::White, 0, 1),
        start_piece(PieceKind::Pawn, Color::White, 1, 1),
        start_piece(PieceKind::Pawn, Color::White, 2, 1),
        start_piece(PieceKind::Pawn, Color::White, 3, 1),
        start_piece(PieceKind::Pawn, Color::White, 4, 1),
        start_piece(PieceKind::Pawn, Color::White, 5, 1),
        start_piece(PieceKind::Pawn, Color::White, 6, 1),
        start_piece(PieceKind::Pawn, Color::White, 7, 1),
        start_piece(PieceKind::Rook, Color::Black, 0, 7),
        start_piece(PieceKind::Knight, Color::Black, 1, 7),
        start_piece(PieceKind::Bishop, Color::Black, 2, 7),
        start_piece(PieceKind::Queen, Color::Black, 3, 7),
        start_piece(PieceKind::King, Color::Black, 4, 7),
        start_piece(PieceKind::Bishop, Color::Black, 5, 7),
        start_piece(PieceKind::Knight, Color::Black, 6, 7),
        start_piece(PieceKind::Rook, Color::Black, 7, 7),
        start_piece(PieceKind::Pawn, Color::Black, 0, 6),
        start_piece(PieceKind::Pawn, Color::Black, 1, 6),
        start_piece(PieceKind::Pawn, Color::Black, 2, 6),
        start_piece(PieceKind::Pawn, Color::Black, 3, 6),
        start_piece(PieceKind::Pawn, Color::Black, 4, 6),
        start_piece(PieceKind::Pawn, Color::Black, 5, 6),
        start_piece(PieceKind::Pawn, Color::Black, 6, 6),
        start_piece(PieceKind::Pawn, Color::Black, 7, 6),
    ]
}

/// A chess board: the pieces currently in play, in no significant order.
pub struct Board {
    pieces: Vec<Piece>,
}

impl View for Board {
    type V = Seq<Piece>;

    closed spec fn view(&self) -> Seq<Piece> {
        self.pieces@
    }
}

impl Board {
    /// The board invariant: no two pieces share a square, and every piece
    /// stands on the board.
    pub open spec fn wf(&self) -> bool {
        wf_pieces(self@)
    }

    /// The index of the piece standing on `position`, if any.
    fn index_at(&self, position: &Position) -> (r: Option<usize>)
        ensures
            match r {
                Some(i) => i < self@.len() && at_pos(
                    self@[i as int],
                    position.column as int,
                    position.row as int,
                ),
                None => !occupied(self@, position.column as int, position.row as int),
            },
    {
        let mut i: usize = 0;
        while i < self.pieces.len()
            invariant
                i <= self.pieces@.len(),
                forall|j: int|
                    0 <= j < i ==> !at_pos(
                        #[trigger] self.pieces@[j],
                        position.column as int,
                        position.row as int,
                    ),
            decreases self.pieces@.len() - i,
        {
            let p = &self.pieces[i];
            if p.position.column == position.column && p.position.row == position.row {
                return Some(i);
            }
            i += 1;
        }
        None
    }

    /// The piece standing on `position`, if any: a linear scan of the
    /// collection.
    pub fn get_piece(&self, position: &Position) -> (r: Option<Piece>)
        requires
            self.wf(),
        ensures
            r == piece_at(self@, position.column as int, position.row as int),
    {
        match self.index_at(position) {
            Some(i) => {
                let p = self.pieces[i];
                proof {
                    lemma_piece_at_index(
                        self@,
                        i as int,
                        position.column as int,
                        position.row as int,
                    );
                }
                Some(p)
            },
            None => None,
        }
    }

    /// The standard starting board.
    #[verifier::rlimit(30)]
    pub fn new() -> (r: Board)
        ensures
            r@ == initial_pieces(),
            r.wf(),
    {
        let mut pieces: Vec<Piece> = Vec::new();
        pieces.push(Piece::new(PieceKind::Rook, Color::White, Position::new(0, 0)));
        pieces.push(Piece::new(PieceKind::Knight, Color::White, Position::new(1, 0)));
        pieces.push(Piece::new(PieceKind::Bishop, Color::White, Position::new(2, 0)));
        pieces.push(Piece::new(PieceKind::Queen, Color::White, Position::new(3, 0)));
        pieces.push(Piece::new(PieceKind::King, Color::White, Position::new(4, 0)));
        pieces.push(Piece::new(PieceKind::Bishop, Color::White, Position::new(5, 0)));
        pieces.push(Piece::new(PieceKind::Knight, Color::White, Position::new(6, 0)));
        pieces.push(Piece::new(PieceKind::Rook, Color::White, Position::new(7, 0)));
        pieces.push(Piece::new(PieceKind::Pawn, Color::White, Position::new(0, 1)));
        pieces.push(Piece::new(PieceKind::Pawn, Color::White, Position::new(1, 1)));
        pieces.push(Piece::new(PieceKind::Pawn, Color::White, Position::new(2, 1)));
        pieces.push(Piece::new(PieceKind::Pawn, Color::White, Position::new(3, 1)));
        pieces.push(Piece::new(PieceKind::Pawn, Color::White, Position::new(4, 1)));
        pieces.push(Piece::new(PieceKind::Pawn, Color::White, Position::new(5, 1)));
        pieces.push(Piece::new(PieceKind::Pawn, Color::White, Position::new(6, 1)));
        pieces.push(Piece::new(PieceKind::Pawn, Color::White, Position::new(7, 1)));
        pieces.push(Piece::new(PieceKind::Rook, Color::Black, Position::new(0, 7)));
        pieces.push(Piece::new(PieceKind::Knight, Color::Black, Position::new(1, 7)));
        pieces.push(Piece::new(PieceKind::Bishop, Color::Black, Position::new(2, 7)));
        pieces.push(Piece::new(PieceKind::Queen, Color::Black, Position::new(3, 7)));
        pieces.push(Piece::new(PieceKind::King, Color::Black, Position::new(4, 7)));
        pieces.push(Piece::new(PieceKind::Bishop, Color::Black, Position::new(5, 7)));
        pieces.push(Piece::new(PieceKind::Knight, Color::Black, Position::new(6, 7)));
        pieces.push(Piece::new(PieceKind::Rook, Color::Black, Position::new(7, 7)));
        pieces.push(Piece::new(PieceKind::Pawn, Color::Black, Position::new(0, 6)));
        pieces.push(Piece::new(PieceKind::Pawn, Color::Black, Position::new(1, 6)));
        pieces.push(Piece::new(PieceKind::Pawn, Color::Black, Position::new(2, 6)));
        pieces.push(Piece::new(PieceKind::Pawn, Color::Black, Position::new(3, 6)));
        pieces.push(Piece::new(PieceKind::Pawn, Color::Black, Position::new(4, 6)));
        pieces.push(Piece::new(PieceKind::Pawn, Color::Black, Position::new(5, 6)));
        pieces.push(Piece::new(PieceKind::Pawn, Color::Black, Position::new(6, 6)));
        pieces.push(Piece::new(PieceKind::Pawn, Color::Black, Position::new(7, 6)));
        let r = Board { pieces };
        proof {
            assert(r@ =~= initial_pieces());
            assert forall|i: int, j: int|
                0 <= i < r@.len() && 0 <= j < r@.len() && i != j implies !(pcol(r@[i]) == pcol(
                r@[j],
            ) && prow(r@[i]) == prow(r@[j])) by {
                assert(r@ == initial_pieces());
            }
            assert(r.wf());
        }
        r
    }

    /// A board holding exactly the given pieces, if they form a valid
    /// board: no two on the same square, all on the board.
    pub fn from_pieces(pieces: Vec<Piece>) -> (r: Option<Board>)
        ensures
            match r {
                Some(b) => b.wf() && b@ == pieces@,
                None => !wf_pieces(pieces@),
            },
    {
        let mut i: usize = 0;
        while i < pieces.len()
            invariant
                i <= pieces@.len(),
                forall|k: int|
                    0 <= k < i ==> on_board_spec(pcol(#[trigger] pieces@[k]), prow(pieces@[k])),
                forall|j: int, k: int|
                    #![trigger pieces@[j], pieces@[k]]
                    0 <= j < k < i ==> !(pcol(pieces@[j]) == pcol(pieces@[k]) && prow(pieces@[j])
                        == prow(pieces@[k])),
            decreases pieces@.len() - i,
        {
            if !pieces[i].position.is_on_board() {
                proof {
                    assert(!wf_pieces(pieces@)) by {
                        assert(!on_board_spec(pcol(pieces@[i as int]), prow(pieces@[i as int])));
                    }
                }
                return None;
            }
            let mut j: usize = 0;
            while j < i
                invariant
                    j <= i < pieces@.len(),
                    forall|k: int|
                        0 <= k < j ==> !(pcol(#[trigger] pieces@[k]) == pcol(pieces@[i as int])
                            && prow(pieces@[k]) == prow(pieces@[i as int])),
                decreases i - j,
            {
                if pieces[j].position.column == pieces[i].position.column && pieces[j].position.row
                    == pieces[i].position.row {
                    proof {
                        assert(!wf_pieces(pieces@)) by {
                            assert(pcol(pieces@[j as int]) == pcol(pieces@[i as int]) && prow(
                                pieces@[j as int],
                            ) == prow(pieces@[i as int]));
                        }
                    }
                    return None;
                }
                j += 1;
            }
            i += 1;
        }
        proof {
            assert(wf_pieces(pieces@));
        }
        Some(Board { pieces })
    }

    /// Removes and returns the piece standing on `position`, if any.
    fn take_piece_at(&mut self, position: &Position) -> (r: Option<Piece>)
        requires
            old(self).wf(),
        ensures
            final(self).wf(),
            r == piece_at(old(self)@, position.column as int, position.row as int),
            !occupied(final(self)@, position.column as int, position.row as int),
            forall|c2: int, r2: int|
                #![trigger piece_at(final(self)@, c2, r2)]
                !(c2 == position.column as int && r2 == position.row as int) ==> piece_at(
                    final(self)@,
                    c2,
                    r2,
                ) == piece_at(old(self)@, c2, r2),
            final(self)@.len() == old(self)@.len() - (if r is Some {
                1int
            } else {
                0int
            }),
    {
        match self.index_at(position) {
            Some(i) => {
                proof {
                    lemma_piece_at_index(self@, i as int, position.column as int,
                        position.row as int);
                    lemma_remove_pointwise(self@, i as int);
                }
                let p = self.pieces.remove(i);
                Some(p)
            },
            None => None,
        }
    }

    /// Executes a single ply: removes and returns any piece standing on
    /// `to` (the capture, if any), relocates the piece standing on `from`
    /// to `to`, flags it as moved, and promotes it to a queen if it is a
    /// pawn reaching row 0 or row 7.
    ///
    /// A piece must stand on `from`, and `to` must be a different,
    /// on-board square: move generators only ever produce such
    /// destinations, and asking for anything else is a caller error.
    pub fn move_piece(&mut self, from: &Position, to: &Position) -> (r: Option<Piece>)
        requires
            old(self).wf(),
            occupied(old(self)@, from.column as int, from.row as int),
            !(from.column == to.column && from.row == to.row),
            on_board_spec(to.column as int, to.row as int),
        ensures
            final(self).wf(),
            r == piece_at(old(self)@, to.column as int, to.row as int),
            moved_board(old(self)@, final(self)@, *from, *to),
    {
        let taken = self.take_piece_at(to);

        let idx = self.index_at(from);
        proof {
            assert(piece_at(self@, from.column as int, from.row as int) == piece_at(
                old(self)@,
                from.column as int,
                from.row as int,
            ));
            assert(occupied(self@, from.column as int, from.row as int));
            assert(idx is Some);
        }
        let i = idx.unwrap();
        proof {
            lemma_piece_at_index(self@, i as int, from.column as int, from.row as int);
            lemma_remove_pointwise(self@, i as int);
        }
        let mut p = self.pieces.remove(i);

        p.position = *to;
        p.has_moved = true;
        if p.kind == PieceKind::Pawn && (to.row == 0 || to.row == 7) {
            p.kind = PieceKind::Queen;
        }

        proof {
            lemma_push_pointwise(self@, p);
        }
        self.pieces.push(p);

        taken
    }

    /// All squares attacked by the given color: the union of the
    /// pseudo-attack destinations of every piece of that color. The
    /// computation is naive by design: it ignores whether an attacking
    /// move would itself be legal to play.
    pub fn all_attacks(&self, color: Color) -> (attacks_list: Vec<Position>)
        requires
            self.wf(),
        ensures
            forall|c: int, r: int|
                contains_pos(attacks_list@, c, r) <==> attacked(self@, color, c, r),
    {
        let mut acc: Vec<Position> = Vec::new();
        let mut i: usize = 0;
        while i < self.pieces.len()
            invariant
                self.wf(),
                i <= self.pieces@.len(),
                forall|c: int, r: int|
                    #![trigger contains_pos(acc@, c, r)]
                    contains_pos(acc@, c, r) <==> attacked_upto(self.pieces@, color, i as int, c, r),
            decreases self.pieces@.len() - i,
        {
            let p = self.pieces[i];
            if p.color == color {
                let ghost before = acc@;
                let mut mvs = p.attacks(self);
                proof {
                    lemma_contains_pos_add(acc@, mvs@);
                }
                let ghost mseq = mvs@;
                acc.append(&mut mvs);
                proof {
                    assert forall|c: int, r: int|
                        #[trigger] contains_pos(acc@, c, r) <==> attacked_upto(
                            self.pieces@,
                            color,
                            i as int + 1,
                            c,
                            r,
                        ) by {
                        assert(contains_pos(acc@, c, r) == contains_pos(before + mseq, c, r));
                        if contains_pos(before, c, r) {
                            let j = choose|j: int|
                                0 <= j < i && j < self.pieces@.len() && (
                                self.pieces@[j]).color == color && pseudo_dest(
                                    self.pieces@,
                                    self.pieces@[j],
                                    c,
                                    r,
                                );
                            assert(attacked_upto(self.pieces@, color, i as int + 1, c, r));
                        }
                        if contains_pos(mseq, c, r) {
                            assert(pseudo_dest(self.pieces@, self.pieces@[i as int], c, r));
                            assert(attacked_upto(self.pieces@, color, i as int + 1, c, r));
                        }
                        if attacked_upto(self.pieces@, color, i as int + 1, c, r) {
                            let j = choose|j: int|
                                0 <= j < i + 1 && j < self.pieces@.len() && (
                                self.pieces@[j]).color == color && pseudo_dest(
                                    self.pieces@,
                                    self.pieces@[j],
                                    c,
                                    r,
                                );
                            if j < i {
                                assert(attacked_upto(self.pieces@, color, i as int, c, r));
                                assert(contains_pos(before, c, r));
                            } else {
                                assert(contains_pos(mseq, c, r));
                            }
                        }
                    }
                }
            } else {
                proof {
                    assert forall|c: int, r: int|
                        #[trigger] contains_pos(acc@, c, r) <==> attacked_upto(
                            self.pieces@,
                            color,
                            i as int + 1,
                            c,
                            r,
                        ) by {
                        if attacked_upto(self.pieces@, color, i as int + 1, c, r) {
                            let j = choose|j: int|
                                0 <= j < i + 1 && j < self.pieces@.len() && (
                                self.pieces@[j]).color == color && pseudo_dest(
                                    self.pieces@,
                                    self.pieces@[j],
                                    c,
                                    r,
                                );
                            assert(j < i);
                            assert(attacked_upto(self.pieces@, color, i as int, c, r));
                        }
                    }
                }
            }
            i += 1;
        }
        acc
    }

    /// All pieces of the given color, in board order.
    pub fn get_pieces(&self, color: Color) -> (r: Vec<Piece>)
        ensures
            r@ == self@.filter(|p: Piece| p.color == color),
    {
        let ghost pred = |p: Piece| p.color == color;
        let mut out: Vec<Piece> = Vec::new();
        let mut i: usize = 0;
        proof {
            assert(self@.subrange(0, 0).filter(pred) =~= Seq::<Piece>::empty());
        }
        while i < self.pieces.len()
            invariant
                i <= self.pieces@.len(),
                out@ == self.pieces@.subrange(0, i as int).filter(pred),
                pred == (|p: Piece| p.color == color),
            decreases self.pieces@.len() - i,
        {
            let p = self.pieces[i];
            proof {
                let pre = self.pieces@.subrange(0, i as int);
                let cur = self.pieces@.subrange(0, i as int + 1);
                assert(cur.drop_last() =~= pre);
                reveal(Seq::filter);
            }
            if p.color == color {
                out.push(p);
            }
            i += 1;
        }
        proof {
            assert(self.pieces@.subrange(0, self.pieces@.len() as int) =~= self.pieces@);
        }
        out
    }
}

} // verus!
