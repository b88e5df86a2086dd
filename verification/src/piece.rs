//! Positions, pieces, and the specification of where each piece kind may
//! move on a given board.
//!
//! The board itself is a sequence of pieces (see `crate::board`); all the
//! predicates here are stated over that sequence, with coordinates widened
//! to mathematical integers.

use vstd::prelude::*;

use crate::board::Board;
use crate::color::{opposite, Color};

verus! {

/// A square of the (possibly extended) board: a pair of integer
/// coordinates. Only coordinates in `[0, 7]` are on the board, but any
/// pair is a valid value; construction never clamps or validates, so that
/// movement algorithms can generate a candidate square first and reject it
/// afterwards.
#[derive(Clone, Copy, Debug, PartialEq, Eq, Structural, Hash)]
pub struct Position {
    pub row: i8,
    pub column: i8,
}

/// True iff the square `(c, r)` lies on the 8x8 board.
pub open spec fn on_board_spec(c: int, r: int) -> bool {
    0 <= c <= 7 && 0 <= r <= 7
}

/// The checkerboard color of the square `(c, r)`: squares whose coordinate
/// sum is even are black, the others white.
pub open spec fn square_color_spec(c: int, r: int) -> Color {
    if (c + r) % 2 == 0 {
        Color::Black
    } else {
        Color::White
    }
}

impl Position {
    /// A position with the given coordinates, unvalidated.
    pub fn new(column: i8, row: i8) -> (r: Position)
        ensures
            r.column == column,
            r.row == row,
    {
        Position { column, row }
    }

    /// True iff both coordinates lie in `[0, 7]`.
    pub fn is_on_board(&self) -> (r: bool)
        ensures
            r == on_board_spec(self.column as int, self.row as int),
    {
        self.column <= 7 && self.column >= 0 && self.row <= 7 && self.row >= 0
    }

    /// The checkerboard color of this square, derived from coordinate
    /// parity; it has no bearing on move legality.
    pub fn color(&self) -> (r: Color)
        ensures
            r == square_color_spec(self.column as int, self.row as int),
    {
        let s: i16 = self.column as i16 + self.row as i16;
        if s % 2 == 0 {
            Color::Black
        } else {
            Color::White
        }
    }
}

impl From<(i8, i8)> for Position {
    /// A position from a `(column, row)` pair, unvalidated.
    fn from(value: (i8, i8)) -> (r: Position) {
        Position { column: value.0, row: value.1 }
    }
}

impl vstd::std_specs::convert::FromSpecImpl<(i8, i8)> for Position {
    open spec fn obeys_from_spec() -> bool {
        true
    }

    open spec fn from_spec(value: (i8, i8)) -> Position {
        Position { column: value.0, row: value.1 }
    }
}

/// The closed set of piece kinds.
#[derive(Clone, Copy, Debug, PartialEq, Eq, Structural, Hash)]
pub enum PieceKind {
    King,
    Queen,
    Rook,
    Bishop,
    Knight,
    Pawn,
}

/// A piece: its kind, its side, the square it stands on, and whether it
/// has moved since the game began.
#[derive(Clone, Copy, Debug, PartialEq, Eq, Structural, Hash)]
pub struct Piece {
    pub kind: PieceKind,
    pub color: Color,
    pub position: Position,
    pub has_moved: bool,
}

impl Piece {
    /// A piece that has not moved yet.
    pub fn new(kind: PieceKind, color: Color, position: Position) -> (r: Piece)
        ensures
            r == (Piece { kind, color, position, has_moved: false }),
    {
        Piece { kind, color, position, has_moved: false }
    }
}

/// The column of `p`'s square, as an integer.
pub open spec fn pcol(p: Piece) -> int {
    p.position.column as int
}

/// The row of `p`'s square, as an integer.
pub open spec fn prow(p: Piece) -> int {
    p.position.row as int
}

/// True iff `p` stands on the square `(c, r)`.
pub open spec fn at_pos(p: Piece, c: int, r: int) -> bool {
    pcol(p) == c && prow(p) == r
}

/// True iff some piece of `s` stands on `(c, r)`.
pub open spec fn occupied(s: Seq<Piece>, c: int, r: int) -> bool {
    exists|i: int| 0 <= i < s.len() && at_pos(#[trigger] s[i], c, r)
}

/// True iff no piece of `s` stands on `(c, r)`.
pub open spec fn empty_at(s: Seq<Piece>, c: int, r: int) -> bool {
    !occupied(s, c, r)
}

/// True iff a piece of color `color` stands on `(c, r)`.
pub open spec fn own_at(s: Seq<Piece>, color: Color, c: int, r: int) -> bool {
    exists|i: int| 0 <= i < s.len() && at_pos(#[trigger] s[i], c, r) && s[i].color == color
}

/// True iff a piece of the color opposing `color` stands on `(c, r)`.
pub open spec fn enemy_at(s: Seq<Piece>, color: Color, c: int, r: int) -> bool {
    exists|i: int| 0 <= i < s.len() && at_pos(#[trigger] s[i], c, r) && s[i].color != color
}

/// A well-formed piece collection: no two pieces share a square, and every
/// piece stands on the board.
pub open spec fn wf_pieces(s: Seq<Piece>) -> bool {
    &&& forall|i: int, j: int|
        #![trigger s[i], s[j]]
        0 <= i < s.len() && 0 <= j < s.len() && i != j ==> !(pcol(s[i]) == pcol(s[j]) && prow(s[i])
            == prow(s[j]))
    &&& forall|i: int| 0 <= i < s.len() ==> on_board_spec(pcol(#[trigger] s[i]), prow(s[i]))
}

/// The piece of `s` standing on `(c, r)`, if any. Under `wf_pieces` there
/// is at most one.
pub open spec fn piece_at(s: Seq<Piece>, c: int, r: int) -> Option<Piece> {
    if occupied(s, c, r) {
        Some(s[choose|i: int| 0 <= i < s.len() && at_pos(s[i], c, r)])
    } else {
        None
    }
}

/// True iff the `j`-th step along the ray from `(pc, pr)` in direction
/// `(dc, dr)` lands on an empty square.
pub open spec fn ray_square_empty(
    s: Seq<Piece>,
    pc: int,
    pr: int,
    dc: int,
    dr: int,
    j: int,
) -> bool {
    empty_at(s, pc + j * dc, pr + j * dr)
}

/// True iff the first `k - 1` steps of the ray are all empty, so that a
/// sliding piece can reach the `k`-th step.
pub open spec fn ray_reaches(s: Seq<Piece>, pc: int, pr: int, dc: int, dr: int, k: int) -> bool {
    forall|j: int| 1 <= j < k ==> #[trigger] ray_square_empty(s, pc, pr, dc, dr, j)
}

/// True iff `(c, r)` is a destination of a sliding piece of color `color`
/// standing on `(pc, pr)` and moving in direction `(dc, dr)`: some step
/// of the ray reaches it, it is on the board, and it does not hold a piece
/// of the mover's own color. (A square holding an opposing piece is
/// reached and ends the ray: every step beyond it fails `ray_reaches`.)
pub open spec fn ray_dest(
    s: Seq<Piece>,
    color: Color,
    pc: int,
    pr: int,
    dc: int,
    dr: int,
    c: int,
    r: int,
) -> bool {
    exists|k: int|
        #![trigger ray_reaches(s, pc, pr, dc, dr, k)]
        1 <= k && c == pc + k * dc && r == pr + k * dr && ray_reaches(s, pc, pr, dc, dr, k)
            && on_board_spec(c, r) && !own_at(s, color, c, r)
}

/// True iff the `m`-th step of the ray from `(pc, pr)` in direction
/// `(dc, dr)` is a destination of a sliding piece of color `color`.
pub open spec fn ray_dest_at_step(
    s: Seq<Piece>,
    color: Color,
    pc: int,
    pr: int,
    dc: int,
    dr: int,
    m: int,
) -> bool {
    ray_dest(s, color, pc, pr, dc, dr, pc + m * dc, pr + m * dr)
}

/// The destinations of a rook: the four orthogonal rays.
pub open spec fn rook_dest(s: Seq<Piece>, color: Color, pc: int, pr: int, c: int, r: int) -> bool {
    ||| ray_dest(s, color, pc, pr, 1, 0, c, r)
    ||| ray_dest(s, color, pc, pr, -1, 0, c, r)
    ||| ray_dest(s, color, pc, pr, 0, 1, c, r)
    ||| ray_dest(s, color, pc, pr, 0, -1, c, r)
}

/// The destinations of a bishop: the four diagonal rays.
pub open spec fn bishop_dest(s: Seq<Piece>, color: Color, pc: int, pr: int, c: int, r: int) -> bool {
    ||| ray_dest(s, color, pc, pr, 1, 1, c, r)
    ||| ray_dest(s, color, pc, pr, 1, -1, c, r)
    ||| ray_dest(s, color, pc, pr, -1, 1, c, r)
    ||| ray_dest(s, color, pc, pr, -1, -1, c, r)
}

/// True iff `(c, r)` is a knight's jump away from `(pc, pr)`.
pub open spec fn knight_jump(pc: int, pr: int, c: int, r: int) -> bool {
    ||| (c == pc + 2 && r == pr + 1)
    ||| (c == pc + 2 && r == pr - 1)
    ||| (c == pc + 1 && r == pr + 2)
    ||| (c == pc + 1 && r == pr - 2)
    ||| (c == pc - 2 && r == pr + 1)
    ||| (c == pc - 2 && r == pr - 1)
    ||| (c == pc - 1 && r == pr + 2)
    ||| (c == pc - 1 && r == pr - 2)
}

/// The destinations of a knight: the eight jumps, kept on the board and
/// off squares held by the mover's own color.
pub open spec fn knight_dest(s: Seq<Piece>, color: Color, pc: int, pr: int, c: int, r: int) -> bool {
    knight_jump(pc, pr, c, r) && on_board_spec(c, r) && !own_at(s, color, c, r)
}

/// True iff `(c, r)` is adjacent to `(pc, pr)` (one king step away).
pub open spec fn king_adjacent(pc: int, pr: int, c: int, r: int) -> bool {
    pc - 1 <= c <= pc + 1 && pr - 1 <= r <= pr + 1 && !(c == pc && r == pr)
}

/// The squares a king threatens: the adjacent squares, kept on the board
/// and off squares held by its own color. This raw reach takes no account
/// of the opposing side's attacks; it is what a king contributes to the
/// aggregate attack set, which breaks the mutual recursion between the
/// two kings' move generation.
pub open spec fn king_raw_dest(
    s: Seq<Piece>,
    color: Color,
    pc: int,
    pr: int,
    c: int,
    r: int,
) -> bool {
    king_adjacent(pc, pr, c, r) && on_board_spec(c, r) && !own_at(s, color, c, r)
}

/// The forward direction of a pawn: White advances up the rows, Black
/// down.
pub open spec fn pawn_dir(color: Color) -> int {
    if color == Color::White {
        1
    } else {
        -1
    }
}

/// The destinations of a pawn: one square straight ahead if empty; two if
/// it has not moved and both squares ahead are empty; and a diagonally
/// forward square exactly when a piece of the opposing color stands on
/// it.
pub open spec fn pawn_dest(
    s: Seq<Piece>,
    color: Color,
    has_moved: bool,
    pc: int,
    pr: int,
    c: int,
    r: int,
) -> bool {
    ||| (c == pc && r == pr + pawn_dir(color) && on_board_spec(c, r) && empty_at(s, c, r))
    ||| (!has_moved && c == pc && r == pr + 2 * pawn_dir(color) && on_board_spec(c, r) && empty_at(
        s,
        pc,
        pr + pawn_dir(color),
    ) && empty_at(s, c, r))
    ||| ((c == pc + 1 || c == pc - 1) && r == pr + pawn_dir(color) && on_board_spec(c, r)
        && enemy_at(s, color, c, r))
}

/// The squares a piece threatens, by kind, with no king-safety filter
/// anywhere: the "pseudo-attack" mode used for aggregate attack
/// computation.
pub open spec fn pseudo_dest(s: Seq<Piece>, p: Piece, c: int, r: int) -> bool {
    match p.kind {
        PieceKind::King => king_raw_dest(s, p.color, pcol(p), prow(p), c, r),
        PieceKind::Queen => rook_dest(s, p.color, pcol(p), prow(p), c, r) || bishop_dest(
            s,
            p.color,
            pcol(p),
            prow(p),
            c,
            r,
        ),
        PieceKind::Rook => rook_dest(s, p.color, pcol(p), prow(p), c, r),
        PieceKind::Bishop => bishop_dest(s, p.color, pcol(p), prow(p), c, r),
        PieceKind::Knight => knight_dest(s, p.color, pcol(p), prow(p), c, r),
        PieceKind::Pawn => pawn_dest(s, p.color, p.has_moved, pcol(p), prow(p), c, r),
    }
}

/// True iff one of the first `n` pieces of `s` has color `color` and
/// threatens `(c, r)` in the pseudo-attack sense.
pub open spec fn attacked_upto(s: Seq<Piece>, color: Color, n: int, c: int, r: int) -> bool {
    exists|i: int| 0 <= i < n && i < s.len() && (#[trigger] s[i]).color == color && pseudo_dest(s, s[i], c, r)
}

/// True iff some piece of color `color` in `s` threatens `(c, r)` in the
/// pseudo-attack sense.
pub open spec fn attacked(s: Seq<Piece>, color: Color, c: int, r: int) -> bool {
    attacked_upto(s, color, s.len() as int, c, r)
}

/// The playable destinations of a piece: as `pseudo_dest`, except that a
/// king may not step onto a square the opposing side threatens.
pub open spec fn legal_dest(s: Seq<Piece>, p: Piece, c: int, r: int) -> bool {
    match p.kind {
        PieceKind::King => king_raw_dest(s, p.color, pcol(p), prow(p), c, r) && !attacked(
            s,
            opposite(p.color),
            c,
            r,
        ),
        _ => pseudo_dest(s, p, c, r),
    }
}

/// True iff `(c, r)` is the square one `(dx, dy)` step from `(pc, pr)`,
/// is on the board, and does not hold a piece of the mover's own color:
/// the acceptance test shared by all single-step candidates.
pub open spec fn offset_dest(
    s: Seq<Piece>,
    color: Color,
    pc: int,
    pr: int,
    dx: int,
    dy: int,
    c: int,
    r: int,
) -> bool {
    c == pc + dx && r == pr + dy && on_board_spec(c, r) && !own_at(s, color, c, r)
}

/// True iff the square `(c, r)` occurs in the destination list `v`.
pub open spec fn contains_pos(v: Seq<Position>, c: int, r: int) -> bool {
    exists|i: int|
        0 <= i < v.len() && (#[trigger] v[i]).column as int == c && v[i].row as int == r
}

/// A step count that lands on the board is at most 7, since the start
/// square is on the board and some coordinate moves by 1 each step.
proof fn lemma_step_bound(pc: int, pr: int, dc: int, dr: int, k: int)
    requires
        -1 <= dc <= 1,
        -1 <= dr <= 1,
        !(dc == 0 && dr == 0),
        on_board_spec(pc, pr),
        1 <= k,
        on_board_spec(pc + k * dc, pr + k * dr),
    ensures
        k <= 7,
{
    if dc == 1 {
        assert(k * dc == k) by (nonlinear_arith)
            requires
                dc == 1,
        ;
    } else if dc == -1 {
        assert(k * dc == -k) by (nonlinear_arith)
            requires
                dc == -1,
        ;
    } else if dr == 1 {
        assert(k * dr == k) by (nonlinear_arith)
            requires
                dr == 1,
        ;
    } else {
        assert(k * dr == -k) by (nonlinear_arith)
            requires
                dr == -1,
        ;
    }
}

/// Along a fixed direction, distinct step counts land on distinct
/// squares.
pub(crate) proof fn lemma_step_injective(pc: int, pr: int, dc: int, dr: int, k1: int, k2: int)
    requires
        -1 <= dc <= 1,
        -1 <= dr <= 1,
        !(dc == 0 && dr == 0),
        pc + k1 * dc == pc + k2 * dc,
        pr + k1 * dr == pr + k2 * dr,
    ensures
        k1 == k2,
{
    if dc != 0 {
        assert(k1 == k2) by (nonlinear_arith)
            requires
                k1 * dc == k2 * dc,
                dc == 1 || dc == -1,
        ;
    } else {
        assert(k1 == k2) by (nonlinear_arith)
            requires
                k1 * dr == k2 * dr,
                dr == 1 || dr == -1,
        ;
    }
}

/// If a later step of a ray is on the board, so is every earlier step:
/// each coordinate moves monotonically away from the start square, which
/// is itself on the board.
proof fn lemma_step_mono_on_board(pc: int, pr: int, dc: int, dr: int, k1: int, k2: int)
    requires
        -1 <= dc <= 1,
        -1 <= dr <= 1,
        on_board_spec(pc, pr),
        1 <= k1 <= k2,
        on_board_spec(pc + k2 * dc, pr + k2 * dr),
    ensures
        on_board_spec(pc + k1 * dc, pr + k1 * dr),
{
    assert(0 <= pc + k1 * dc <= 7) by (nonlinear_arith)
        requires
            -1 <= dc <= 1,
            0 <= pc <= 7,
            1 <= k1 <= k2,
            0 <= pc + k2 * dc <= 7,
    ;
    assert(0 <= pr + k1 * dr <= 7) by (nonlinear_arith)
        requires
            -1 <= dr <= 1,
            0 <= pr <= 7,
            1 <= k1 <= k2,
            0 <= pr + k2 * dr <= 7,
    ;
}

/// A square held by an opposing piece is on the board and holds no piece
/// of the mover's own color.
pub(crate) proof fn lemma_enemy_not_own(s: Seq<Piece>, color: Color, c: int, r: int)
    requires
        wf_pieces(s),
        enemy_at(s, color, c, r),
    ensures
        !own_at(s, color, c, r),
        on_board_spec(c, r),
{
    let i = choose|i: int| 0 <= i < s.len() && at_pos(s[i], c, r) && s[i].color != color;
    assert(on_board_spec(pcol(s[i]), prow(s[i])));
    if own_at(s, color, c, r) {
        let j = choose|j: int| 0 <= j < s.len() && at_pos(s[j], c, r) && s[j].color == color;
        assert(!(pcol(s[i]) == pcol(s[j]) && prow(s[i]) == prow(s[j])));
        assert(false);
    }
}

/// An empty square holds no piece of any color.
proof fn lemma_empty_not_own(s: Seq<Piece>, color: Color, c: int, r: int)
    requires
        empty_at(s, c, r),
    ensures
        !own_at(s, color, c, r),
{
    if own_at(s, color, c, r) {
        let j = choose|j: int| 0 <= j < s.len() && at_pos(s[j], c, r) && s[j].color == color;
        assert(occupied(s, c, r));
    }
}

/// Under well-formedness, any index standing on `(c, r)` holds the piece
/// that `piece_at` denotes.
pub proof fn lemma_piece_at_index(s: Seq<Piece>, i: int, c: int, r: int)
    requires
        wf_pieces(s),
        0 <= i < s.len(),
        at_pos(s[i], c, r),
    ensures
        piece_at(s, c, r) == Some(s[i]),
{
    assert(occupied(s, c, r));
    let j = choose|j: int| 0 <= j < s.len() && at_pos(s[j], c, r);
    if i != j {
        assert(!(pcol(s[i]) == pcol(s[j]) && prow(s[i]) == prow(s[j])));
        assert(false);
    }
}

/// Appending a square not yet present keeps a destination list
/// duplicate-free and extends its square set by exactly that square.
proof fn lemma_push_distinct(v: Seq<Position>, p: Position)
    requires
        v.no_duplicates(),
        !contains_pos(v, p.column as int, p.row as int),
    ensures
        v.push(p).no_duplicates(),
        forall|c: int, r: int|
            #![trigger contains_pos(v.push(p), c, r)]
            contains_pos(v.push(p), c, r) <==> (contains_pos(v, c, r) || (c == p.column as int && r
                == p.row as int)),
{
    let w = v.push(p);
    assert(forall|i: int| 0 <= i < v.len() ==> #[trigger] w[i] == v[i]);
    assert(w[v.len() as int] == p);
    assert forall|c: int, r: int|
        contains_pos(w, c, r) <==> (contains_pos(v, c, r) || (c == p.column as int && r
            == p.row as int)) by {
        if contains_pos(w, c, r) {
            let i = choose|i: int|
                0 <= i < w.len() && (w[i]).column as int == c && w[i].row as int == r;
            if i < v.len() {
                assert(contains_pos(v, c, r));
            }
        }
        if contains_pos(v, c, r) {
            let i = choose|i: int|
                0 <= i < v.len() && (v[i]).column as int == c && v[i].row as int == r;
            assert(w[i] == v[i]);
            assert(contains_pos(w, c, r));
        }
        if c == p.column as int && r == p.row as int {
            assert(contains_pos(w, c, r));
        }
    }
    assert forall|i: int, j: int|
        0 <= i < w.len() && 0 <= j < w.len() && i != j implies w[i] != w[j] by {
        if i < v.len() && j < v.len() {
        } else if j == v.len() && i < v.len() {
            if w[i] == p {
                assert(contains_pos(v, p.column as int, p.row as int));
            }
        } else if i == v.len() && j < v.len() {
            if w[j] == p {
                assert(contains_pos(v, p.column as int, p.row as int));
            }
        }
    }
}

/// A square occurs in a concatenation of destination lists iff it occurs
/// in one of the parts.
pub(crate) proof fn lemma_contains_pos_add(a: Seq<Position>, b: Seq<Position>)
    ensures
        forall|c: int, r: int|
            #![trigger contains_pos(a + b, c, r)]
            contains_pos(a + b, c, r) <==> (contains_pos(a, c, r) || contains_pos(b, c, r)),
{
    assert forall|c: int, r: int|
        contains_pos(a + b, c, r) <==> (contains_pos(a, c, r) || contains_pos(b, c, r)) by {
        if contains_pos(a + b, c, r) {
            let i = choose|i: int|
                0 <= i < (a + b).len() && ((a + b)[i]).column as int == c && (a + b)[i].row as int
                    == r;
            if i < a.len() {
                assert((a + b)[i] == a[i]);
                assert(contains_pos(a, c, r));
            } else {
                assert((a + b)[i] == b[i - a.len()]);
                assert(contains_pos(b, c, r));
            }
        }
        if contains_pos(a, c, r) {
            let i = choose|i: int|
                0 <= i < a.len() && (a[i]).column as int == c && a[i].row as int == r;
            assert((a + b)[i] == a[i]);
            assert(contains_pos(a + b, c, r));
        }
        if contains_pos(b, c, r) {
            let i = choose|i: int|
                0 <= i < b.len() && (b[i]).column as int == c && b[i].row as int == r;
            assert((a + b)[a.len() + i] == b[i]);
            assert(contains_pos(a + b, c, r));
        }
    }
}

/// Concatenating duplicate-free destination lists over disjoint square
/// sets yields a duplicate-free list.
proof fn lemma_no_dups_disjoint_add(a: Seq<Position>, b: Seq<Position>)
    requires
        a.no_duplicates(),
        b.no_duplicates(),
        forall|c: int, r: int| !(contains_pos(a, c, r) && contains_pos(b, c, r)),
    ensures
        (a + b).no_duplicates(),
{
    assert forall|i: int, j: int|
        0 <= i < (a + b).len() && 0 <= j < (a + b).len() && i != j implies (a + b)[i] != (a
        + b)[j] by {
        if i < a.len() && j < a.len() {
            assert((a + b)[i] == a[i] && (a + b)[j] == a[j]);
        } else if i >= a.len() && j >= a.len() {
            assert((a + b)[i] == b[i - a.len()] && (a + b)[j] == b[j - a.len()]);
        } else if i < a.len() && j >= a.len() {
            assert((a + b)[i] == a[i] && (a + b)[j] == b[j - a.len()]);
            if a[i] == b[j - a.len()] {
                let p = a[i];
                assert(contains_pos(a, p.column as int, p.row as int));
                assert(contains_pos(b, p.column as int, p.row as int));
            }
        } else {
            assert((a + b)[i] == b[i - a.len()] && (a + b)[j] == a[j]);
            if a[j] == b[i - a.len()] {
                let p = a[j];
                assert(contains_pos(a, p.column as int, p.row as int));
                assert(contains_pos(b, p.column as int, p.row as int));
            }
        }
    }
}

/// Which side of the start square a ray destination lies on, per
/// coordinate: the sign of the direction's component.
pub(crate) proof fn lemma_ray_dest_shape(
    s: Seq<Piece>,
    color: Color,
    pc: int,
    pr: int,
    dc: int,
    dr: int,
    c: int,
    r: int,
)
    requires
        ray_dest(s, color, pc, pr, dc, dr, c, r),
        -1 <= dc <= 1,
        -1 <= dr <= 1,
        !(dc == 0 && dr == 0),
    ensures
        dc == 0 ==> c == pc,
        dc == 1 ==> c > pc,
        dc == -1 ==> c < pc,
        dr == 0 ==> r == pr,
        dr == 1 ==> r > pr,
        dr == -1 ==> r < pr,
        on_board_spec(c, r),
{
    let k = choose|k: int|
        1 <= k && c == pc + k * dc && r == pr + k * dr && ray_reaches(s, pc, pr, dc, dr, k)
            && on_board_spec(c, r) && !own_at(s, color, c, r);
    assert(dc == 1 ==> k * dc == k) by (nonlinear_arith);
    assert(dc == -1 ==> k * dc == -k) by (nonlinear_arith);
    assert(dc == 0 ==> k * dc == 0) by (nonlinear_arith);
    assert(dr == 1 ==> k * dr == k) by (nonlinear_arith);
    assert(dr == -1 ==> k * dr == -k) by (nonlinear_arith);
    assert(dr == 0 ==> k * dr == 0) by (nonlinear_arith);
}

/// The shared sliding helper for rook, bishop and (through them) queen:
/// walks outward from the piece's square in direction `(dc, dr)`,
/// collecting squares in strict distance order, and stops without a
/// square that is off the board or held by the mover's own color, and at
/// (and including) the first square held by an opposing piece.
#[verifier::rlimit(80)]
fn moves_in_direction(piece: &Piece, board: &Board, dc: i8, dr: i8) -> (moves: Vec<Position>)
    requires
        board.wf(),
        on_board_spec(pcol(*piece), prow(*piece)),
        -1 <= dc <= 1,
        -1 <= dr <= 1,
        !(dc == 0 && dr == 0),
    ensures
        forall|c: int, r: int|
            contains_pos(moves@, c, r) <==> ray_dest(
                board@,
                piece.color,
                pcol(*piece),
                prow(*piece),
                dc as int,
                dr as int,
                c,
                r,
            ),
        forall|i: int|
            0 <= i < moves@.len() ==> (#[trigger] moves@[i]).column as int == pcol(*piece) + (i
                + 1) * (dc as int) && moves@[i].row as int == prow(*piece) + (i + 1) * (dr as int),
        moves@.no_duplicates(),
{
    let ghost s = board@;
    let ghost pc = pcol(*piece);
    let ghost pr = prow(*piece);
    let ghost di = dc as int;
    let ghost dj = dr as int;
    let mut moves: Vec<Position> = Vec::new();
    let mut cc: i16 = piece.position.column as i16;
    let mut rr: i16 = piece.position.row as i16;
    loop
        invariant_except_break
            cc as int == pc + moves@.len() * di,
            rr as int == pr + moves@.len() * dj,
            on_board_spec(cc as int, rr as int),
            forall|j: int|
                1 <= j <= moves@.len() ==> #[trigger] ray_square_empty(s, pc, pr, di, dj, j),
            moves@.len() <= 7,
        invariant
            s == board@,
            wf_pieces(s),
            pc == pcol(*piece),
            pr == prow(*piece),
            di == dc as int,
            dj == dr as int,
            -1 <= di <= 1,
            -1 <= dj <= 1,
            !(di == 0 && dj == 0),
            on_board_spec(pc, pr),
            moves@.len() <= 8,
            forall|i: int|
                0 <= i < moves@.len() ==> (#[trigger] moves@[i]).column as int == pc + (i + 1) * di
                    && moves@[i].row as int == pr + (i + 1) * dj && on_board_spec(
                    moves@[i].column as int,
                    moves@[i].row as int,
                ),
            moves@.no_duplicates(),
        ensures
            forall|c: int, r: int|
                contains_pos(moves@, c, r) <==> ray_dest(s, piece.color, pc, pr, di, dj, c, r),
        decreases 8 - moves@.len(),
    {
        let nc: i16 = cc + dc as i16;
        let nr: i16 = rr + dr as i16;
        let ghost n = moves@.len() as int;
        let ghost k = n + 1;
        proof {
            assert(nc as int == pc + k * di && nr as int == pr + k * dj) by (nonlinear_arith)
                requires
                    cc as int == pc + n * di,
                    rr as int == pr + n * dj,
                    nc as int == cc as int + di,
                    nr as int == rr as int + dj,
                    k == n + 1,
            ;
        }
        if nc < 0 || nc > 7 || nr < 0 || nr > 7 {
            proof {
                assert forall|c: int, r: int|
                    contains_pos(moves@, c, r) <==> ray_dest(
                        s,
                        piece.color,
                        pc,
                        pr,
                        di,
                        dj,
                        c,
                        r,
                    ) by {
                    if contains_pos(moves@, c, r) {
                        let i = choose|i: int|
                            0 <= i < moves@.len() && (moves@[i]).column as int == c
                                && moves@[i].row as int == r;
                        assert(ray_square_empty(s, pc, pr, di, dj, i + 1));
                        lemma_empty_not_own(s, piece.color, c, r);
                        assert(ray_reaches(s, pc, pr, di, dj, i + 1));
                    }
                    if ray_dest(s, piece.color, pc, pr, di, dj, c, r) {
                        let m = choose|m: int|
                            1 <= m && c == pc + m * di && r == pr + m * dj && ray_reaches(
                                s,
                                pc,
                                pr,
                                di,
                                dj,
                                m,
                            ) && on_board_spec(c, r) && !own_at(s, piece.color, c, r);
                        if m >= k {
                            lemma_step_mono_on_board(pc, pr, di, dj, k, m);
                            assert(false);
                        }
                        assert((moves@[m - 1]).column as int == c && moves@[m - 1].row as int
                            == r);
                        assert(contains_pos(moves@, c, r));
                    }
                }
            }
            break;
        }
        let candidate = Position::new(nc as i8, nr as i8);
        match board.get_piece(&candidate) {
            Some(other) => {
                proof {
                    let w = choose|w: int| 0 <= w < s.len() && at_pos(s[w], nc as int, nr as int);
                    assert(s[w] == other);
                }
                if other.color != piece.color {
                    proof {
                        assert(enemy_at(s, piece.color, nc as int, nr as int));
                        assert forall|i: int| 0 <= i < moves@.len() implies !((
                        #[trigger] moves@[i]).column as int == nc as int && moves@[i].row as int
                            == nr as int) by {
                            if (moves@[i]).column as int == nc as int && moves@[i].row as int
                                == nr as int {
                                lemma_step_injective(pc, pr, di, dj, i + 1, k);
                            }
                        }
                    }
                    moves.push(candidate);
                    proof {
                        let ghost v = moves@;
                        assert forall|c: int, r: int|
                            contains_pos(v, c, r) <==> ray_dest(
                                s,
                                piece.color,
                                pc,
                                pr,
                                di,
                                dj,
                                c,
                                r,
                            ) by {
                            if contains_pos(v, c, r) {
                                let i = choose|i: int|
                                    0 <= i < v.len() && (v[i]).column as int == c && v[i].row as int
                                        == r;
                                if i < n {
                                    assert(ray_square_empty(s, pc, pr, di, dj, i + 1));
                                    lemma_empty_not_own(s, piece.color, c, r);
                                    assert(ray_reaches(s, pc, pr, di, dj, i + 1));
                                } else {
                                    assert(c == nc as int && r == nr as int);
                                    lemma_enemy_not_own(s, piece.color, c, r);
                                    assert(ray_reaches(s, pc, pr, di, dj, k));
                                }
                            }
                            if ray_dest(s, piece.color, pc, pr, di, dj, c, r) {
                                let m = choose|m: int|
                                    1 <= m && c == pc + m * di && r == pr + m * dj && ray_reaches(
                                        s,
                                        pc,
                                        pr,
                                        di,
                                        dj,
                                        m,
                                    ) && on_board_spec(c, r) && !own_at(s, piece.color, c, r);
                                if m > k {
                                    assert(ray_square_empty(s, pc, pr, di, dj, k));
                                    assert(false);
                                }
                                assert((v[m - 1]).column as int == c && v[m - 1].row as int == r);
                                assert(contains_pos(v, c, r));
                            }
                        }
                    }
                } else {
                    proof {
                        assert(own_at(s, piece.color, nc as int, nr as int));
                        assert forall|c: int, r: int|
                            contains_pos(moves@, c, r) <==> ray_dest(
                                s,
                                piece.color,
                                pc,
                                pr,
                                di,
                                dj,
                                c,
                                r,
                            ) by {
                            if contains_pos(moves@, c, r) {
                                let i = choose|i: int|
                                    0 <= i < moves@.len() && (moves@[i]).column as int == c
                                        && moves@[i].row as int == r;
                                assert(ray_square_empty(s, pc, pr, di, dj, i + 1));
                                lemma_empty_not_own(s, piece.color, c, r);
                                assert(ray_reaches(s, pc, pr, di, dj, i + 1));
                            }
                            if ray_dest(s, piece.color, pc, pr, di, dj, c, r) {
                                let m = choose|m: int|
                                    1 <= m && c == pc + m * di && r == pr + m * dj && ray_reaches(
                                        s,
                                        pc,
                                        pr,
                                        di,
                                        dj,
                                        m,
                                    ) && on_board_spec(c, r) && !own_at(s, piece.color, c, r);
                                if m == k {
                                    assert(false);
                                }
                                if m > k {
                                    assert(ray_square_empty(s, pc, pr, di, dj, k));
                                    assert(false);
                                }
                                assert((moves@[m - 1]).column as int == c && moves@[m - 1].row as int
                                    == r);
                                assert(contains_pos(moves@, c, r));
                            }
                        }
                    }
                }
                break;
            },
            None => {
                proof {
                    assert(empty_at(s, nc as int, nr as int));
                    assert(ray_square_empty(s, pc, pr, di, dj, k));
                    lemma_step_bound(pc, pr, di, dj, k);
                    assert forall|i: int| 0 <= i < moves@.len() implies !((
                    #[trigger] moves@[i]).column as int == nc as int && moves@[i].row as int
                        == nr as int) by {
                        if (moves@[i]).column as int == nc as int && moves@[i].row as int
                            == nr as int {
                            lemma_step_injective(pc, pr, di, dj, i + 1, k);
                        }
                    }
                }
                moves.push(candidate);
                cc = nc;
                rr = nr;
            },
        }
    }
    moves
}

/// Considers the single-step candidate one `(dx, dy)` step from the
/// piece's square and appends it to `moves` exactly when it is on the
/// board and not held by the mover's own color.
fn try_offset(moves: &mut Vec<Position>, piece: &Piece, board: &Board, dx: i8, dy: i8)
    requires
        board.wf(),
        on_board_spec(pcol(*piece), prow(*piece)),
        -2 <= dx <= 2,
        -2 <= dy <= 2,
        !contains_pos(old(moves)@, pcol(*piece) + dx as int, prow(*piece) + dy as int),
        old(moves)@.no_duplicates(),
    ensures
        forall|c: int, r: int|
            #![trigger contains_pos(final(moves)@, c, r)]
            contains_pos(final(moves)@, c, r) <==> (contains_pos(old(moves)@, c, r) || offset_dest(
                board@,
                piece.color,
                pcol(*piece),
                prow(*piece),
                dx as int,
                dy as int,
                c,
                r,
            )),
        final(moves)@.no_duplicates(),
{
    let ghost s = board@;
    let ghost pc = pcol(*piece);
    let ghost pr = prow(*piece);
    let nc: i16 = piece.position.column as i16 + dx as i16;
    let nr: i16 = piece.position.row as i16 + dy as i16;
    if nc >= 0 && nc <= 7 && nr >= 0 && nr <= 7 {
        let cand = Position::new(nc as i8, nr as i8);
        let keep = match board.get_piece(&cand) {
            Some(other) => {
                proof {
                    let w = choose|w: int| 0 <= w < s.len() && at_pos(s[w], nc as int, nr as int);
                    assert(s[w] == other);
                }
                other.color != piece.color
            },
            None => true,
        };
        if keep {
            proof {
                if empty_at(s, nc as int, nr as int) {
                    lemma_empty_not_own(s, piece.color, nc as int, nr as int);
                } else {
                    lemma_enemy_not_own(s, piece.color, nc as int, nr as int);
                }
                assert(offset_dest(s, piece.color, pc, pr, dx as int, dy as int, nc as int,
                    nr as int));
            }
            let ghost before = moves@;
            moves.push(cand);
            proof {
                assert forall|c: int, r: int|
                    contains_pos(moves@, c, r) <==> (contains_pos(before, c, r) || offset_dest(
                        s,
                        piece.color,
                        pc,
                        pr,
                        dx as int,
                        dy as int,
                        c,
                        r,
                    )) by {
                    if contains_pos(moves@, c, r) {
                        let i = choose|i: int|
                            0 <= i < moves@.len() && (moves@[i]).column as int == c
                                && moves@[i].row as int == r;
                        if i < before.len() {
                            assert(moves@[i] == before[i]);
                            assert(contains_pos(before, c, r));
                        } else {
                            assert(moves@[i] == cand);
                        }
                    }
                    if contains_pos(before, c, r) {
                        let i = choose|i: int|
                            0 <= i < before.len() && (before[i]).column as int == c
                                && before[i].row as int == r;
                        assert(moves@[i] == before[i]);
                        assert(contains_pos(moves@, c, r));
                    }
                    if offset_dest(s, piece.color, pc, pr, dx as int, dy as int, c, r) {
                        assert(moves@[before.len() as int] == cand);
                        assert(contains_pos(moves@, c, r));
                    }
                }
                assert forall|i: int, j: int|
                    0 <= i < moves@.len() && 0 <= j < moves@.len() && i != j implies moves@[i]
                    != moves@[j] by {
                    if i < before.len() && j < before.len() {
                    } else if j == before.len() && i < before.len() {
                        if moves@[i] == cand {
                            assert(contains_pos(before, nc as int, nr as int));
                        }
                    } else if i == before.len() && j < before.len() {
                        if moves@[j] == cand {
                            assert(contains_pos(before, nc as int, nr as int));
                        }
                    }
                }
            }
        } else {
            proof {
                assert(own_at(s, piece.color, nc as int, nr as int));
            }
        }
    }
}

/// The moves of a knight: the eight jumps, each kept only if it lands on
/// the board and off the mover's own pieces; intervening squares are
/// irrelevant.
fn knight_moves(piece: &Piece, board: &Board) -> (moves: Vec<Position>)
    requires
        board.wf(),
        on_board_spec(pcol(*piece), prow(*piece)),
    ensures
        forall|c: int, r: int|
            contains_pos(moves@, c, r) <==> knight_dest(
                board@,
                piece.color,
                pcol(*piece),
                prow(*piece),
                c,
                r,
            ),
        moves@.no_duplicates(),
{
    let mut moves: Vec<Position> = Vec::new();
    try_offset(&mut moves, piece, board, 2, 1);
    try_offset(&mut moves, piece, board, 2, -1);
    try_offset(&mut moves, piece, board, 1, 2);
    try_offset(&mut moves, piece, board, 1, -2);
    try_offset(&mut moves, piece, board, -2, 1);
    try_offset(&mut moves, piece, board, -2, -1);
    try_offset(&mut moves, piece, board, -1, 2);
    try_offset(&mut moves, piece, board, -1, -2);
    moves
}

/// The raw reach of a king: the eight adjacent squares, kept on the board
/// and off the mover's own pieces, with no account of the opposing side's
/// attacks.
fn king_raw_moves(piece: &Piece, board: &Board) -> (moves: Vec<Position>)
    requires
        board.wf(),
        on_board_spec(pcol(*piece), prow(*piece)),
    ensures
        forall|c: int, r: int|
            contains_pos(moves@, c, r) <==> king_raw_dest(
                board@,
                piece.color,
                pcol(*piece),
                prow(*piece),
                c,
                r,
            ),
        moves@.no_duplicates(),
{
    let mut moves: Vec<Position> = Vec::new();
    try_offset(&mut moves, piece, board, 1, 1);
    try_offset(&mut moves, piece, board, 1, 0);
    try_offset(&mut moves, piece, board, 1, -1);
    try_offset(&mut moves, piece, board, 0, 1);
    try_offset(&mut moves, piece, board, 0, -1);
    try_offset(&mut moves, piece, board, -1, 1);
    try_offset(&mut moves, piece, board, -1, 0);
    try_offset(&mut moves, piece, board, -1, -1);
    moves
}

/// The moves of a pawn: one square straight ahead if empty, two if it
/// has not yet moved and both squares ahead are empty (never if the first
/// is occupied), and a diagonally forward square exactly when an opposing
/// piece stands on it. "Forward" is up the rows for White, down for
/// Black.
fn pawn_moves(piece: &Piece, board: &Board) -> (moves: Vec<Position>)
    requires
        board.wf(),
        on_board_spec(pcol(*piece), prow(*piece)),
    ensures
        forall|c: int, r: int|
            contains_pos(moves@, c, r) <==> pawn_dest(
                board@,
                piece.color,
                piece.has_moved,
                pcol(*piece),
                prow(*piece),
                c,
                r,
            ),
        moves@.no_duplicates(),
{
    let ghost s = board@;
    let ghost pc = pcol(*piece);
    let ghost pr = prow(*piece);
    let ghost dir = pawn_dir(piece.color);
    let dirv: i16 = if piece.color == Color::White {
        1
    } else {
        -1
    };
    proof {
        assert(dirv as int == dir);
    }
    let col: i16 = piece.position.column as i16;
    let row: i16 = piece.position.row as i16;
    let mut moves: Vec<Position> = Vec::new();

    let r1: i16 = row + dirv;
    let p1 = Position::new(col as i8, r1 as i8);
    if board.get_piece(&p1).is_none() {
        if r1 >= 0 && r1 <= 7 {
            proof {
                lemma_push_distinct(moves@, p1);
            }
            moves.push(p1);
        }
        if !piece.has_moved {
            let r2: i16 = row + dirv + dirv;
            if r2 >= 0 && r2 <= 7 {
                let p2 = Position::new(col as i8, r2 as i8);
                if board.get_piece(&p2).is_none() {
                    proof {
                        lemma_push_distinct(moves@, p2);
                    }
                    moves.push(p2);
                }
            }
        }
    }
    proof {
        assert forall|c: int, r: int|
            contains_pos(moves@, c, r) <==> ((c == pc && r == pr + dir && on_board_spec(c, r)
                && empty_at(s, c, r)) || (!piece.has_moved && c == pc && r == pr + 2 * dir
                && on_board_spec(c, r) && empty_at(s, pc, pr + dir) && empty_at(s, c, r))) by {}
    }
    let ghost fwd = moves@;

    let cl: i16 = col + 1;
    let pl = Position::new(cl as i8, r1 as i8);
    if let Some(other) = board.get_piece(&pl) {
        proof {
            let w = choose|w: int| 0 <= w < s.len() && at_pos(s[w], cl as int, r1 as int);
            assert(s[w] == other);
        }
        if other.color != piece.color {
            proof {
                assert(enemy_at(s, piece.color, pc + 1, pr + dir));
                lemma_enemy_not_own(s, piece.color, pc + 1, pr + dir);
                assert(!contains_pos(moves@, pc + 1, pr + dir));
                lemma_push_distinct(moves@, pl);
            }
            moves.push(pl);
        }
    }
    proof {
        assert forall|c: int, r: int|
            contains_pos(moves@, c, r) <==> (contains_pos(fwd, c, r) || (c == pc + 1 && r == pr
                + dir && on_board_spec(c, r) && enemy_at(s, piece.color, c, r))) by {}
    }
    let ghost with_left = moves@;

    let cr: i16 = col - 1;
    let pr2 = Position::new(cr as i8, r1 as i8);
    if let Some(other) = board.get_piece(&pr2) {
        proof {
            let w = choose|w: int| 0 <= w < s.len() && at_pos(s[w], cr as int, r1 as int);
            assert(s[w] == other);
        }
        if other.color != piece.color {
            proof {
                assert(enemy_at(s, piece.color, pc - 1, pr + dir));
                lemma_enemy_not_own(s, piece.color, pc - 1, pr + dir);
                assert(!contains_pos(moves@, pc - 1, pr + dir));
                lemma_push_distinct(moves@, pr2);
            }
            moves.push(pr2);
        }
    }
    proof {
        assert forall|c: int, r: int|
            contains_pos(moves@, c, r) <==> (contains_pos(with_left, c, r) || (c == pc - 1 && r
                == pr + dir && on_board_spec(c, r) && enemy_at(s, piece.color, c, r))) by {}
        assert forall|c: int, r: int|
            contains_pos(moves@, c, r) <==> pawn_dest(
                s,
                piece.color,
                piece.has_moved,
                pc,
                pr,
                c,
                r,
            ) by {}
    }
    moves
}

/// The moves of a rook: the four orthogonal rays, each in strict
/// distance order.
fn rook_moves(piece: &Piece, board: &Board) -> (moves: Vec<Position>)
    requires
        board.wf(),
        on_board_spec(pcol(*piece), prow(*piece)),
    ensures
        forall|c: int, r: int|
            contains_pos(moves@, c, r) <==> rook_dest(
                board@,
                piece.color,
                pcol(*piece),
                prow(*piece),
                c,
                r,
            ),
        moves@.no_duplicates(),
{
    let ghost s = board@;
    let ghost pc = pcol(*piece);
    let ghost pr = prow(*piece);
    let mut moves = moves_in_direction(piece, board, 1, 0);
    let mut m2 = moves_in_direction(piece, board, -1, 0);
    let mut m3 = moves_in_direction(piece, board, 0, 1);
    let mut m4 = moves_in_direction(piece, board, 0, -1);
    proof {
        assert forall|c: int, r: int, d1c: int, d1r: int, d2c: int, d2r: int|
            -1 <= d1c <= 1 && -1 <= d1r <= 1 && -1 <= d2c <= 1 && -1 <= d2r <= 1 && !(d1c == 0
                && d1r == 0) && !(d2c == 0 && d2r == 0) && !(d1c == d2c && d1r == d2r) implies !((
        #[trigger] ray_dest(s, piece.color, pc, pr, d1c, d1r, c, r)) && (#[trigger] ray_dest(
            s,
            piece.color,
            pc,
            pr,
            d2c,
            d2r,
            c,
            r,
        ))) by {
            if ray_dest(s, piece.color, pc, pr, d1c, d1r, c, r) && ray_dest(
                s,
                piece.color,
                pc,
                pr,
                d2c,
                d2r,
                c,
                r,
            ) {
                lemma_ray_dest_shape(s, piece.color, pc, pr, d1c, d1r, c, r);
                lemma_ray_dest_shape(s, piece.color, pc, pr, d2c, d2r, c, r);
            }
        }
        lemma_contains_pos_add(moves@, m2@);
        lemma_no_dups_disjoint_add(moves@, m2@);
        lemma_contains_pos_add(moves@ + m2@, m3@);
        lemma_no_dups_disjoint_add(moves@ + m2@, m3@);
        lemma_contains_pos_add(moves@ + m2@ + m3@, m4@);
        lemma_no_dups_disjoint_add(moves@ + m2@ + m3@, m4@);
    }
    moves.append(&mut m2);
    moves.append(&mut m3);
    moves.append(&mut m4);
    moves
}

/// The moves of a bishop: the four diagonal rays, each in strict
/// distance order.
fn bishop_moves(piece: &Piece, board: &Board) -> (moves: Vec<Position>)
    requires
        board.wf(),
        on_board_spec(pcol(*piece), prow(*piece)),
    ensures
        forall|c: int, r: int|
            contains_pos(moves@, c, r) <==> bishop_dest(
                board@,
                piece.color,
                pcol(*piece),
                prow(*piece),
                c,
                r,
            ),
        moves@.no_duplicates(),
{
    let ghost s = board@;
    let ghost pc = pcol(*piece);
    let ghost pr = prow(*piece);
    let mut moves = moves_in_direction(piece, board, 1, 1);
    let mut m2 = moves_in_direction(piece, board, 1, -1);
    let mut m3 = moves_in_direction(piece, board, -1, 1);
    let mut m4 = moves_in_direction(piece, board, -1, -1);
    proof {
        assert forall|c: int, r: int, d1c: int, d1r: int, d2c: int, d2r: int|
            -1 <= d1c <= 1 && -1 <= d1r <= 1 && -1 <= d2c <= 1 && -1 <= d2r <= 1 && !(d1c == 0
                && d1r == 0) && !(d2c == 0 && d2r == 0) && !(d1c == d2c && d1r == d2r) implies !((
        #[trigger] ray_dest(s, piece.color, pc, pr, d1c, d1r, c, r)) && (#[trigger] ray_dest(
            s,
            piece.color,
            pc,
            pr,
            d2c,
            d2r,
            c,
            r,
        ))) by {
            if ray_dest(s, piece.color, pc, pr, d1c, d1r, c, r) && ray_dest(
                s,
                piece.color,
                pc,
                pr,
                d2c,
                d2r,
                c,
                r,
            ) {
                lemma_ray_dest_shape(s, piece.color, pc, pr, d1c, d1r, c, r);
                lemma_ray_dest_shape(s, piece.color, pc, pr, d2c, d2r, c, r);
            }
        }
        lemma_contains_pos_add(moves@, m2@);
        lemma_no_dups_disjoint_add(moves@, m2@);
        lemma_contains_pos_add(moves@ + m2@, m3@);
        lemma_no_dups_disjoint_add(moves@ + m2@, m3@);
        lemma_contains_pos_add(moves@ + m2@ + m3@, m4@);
        lemma_no_dups_disjoint_add(moves@ + m2@ + m3@, m4@);
    }
    moves.append(&mut m2);
    moves.append(&mut m3);
    moves.append(&mut m4);
    moves
}

/// Whether the square `(column, row)` occurs in the destination list
/// `v`: a linear scan.
pub(crate) fn contains_position(v: &Vec<Position>, column: i16, row: i16) -> (found: bool)
    ensures
        found == contains_pos(v@, column as int, row as int),
{
    let mut i: usize = 0;
    while i < v.len()
        invariant
            i <= v@.len(),
            forall|j: int|
                0 <= j < i ==> !((#[trigger] v@[j]).column as int == column as int
                    && v@[j].row as int == row as int),
        decreases v@.len() - i,
    {
        if v[i].column as i16 == column && v[i].row as i16 == row {
            return true;
        }
        i += 1;
    }
    false
}

/// Considers the single-step king candidate one `(dx, dy)` step from the
/// piece's square and appends it to `moves` exactly when it is on the
/// board, not held by the mover's own color, and not among the squares in
/// `attacks`.
fn try_king_offset(
    moves: &mut Vec<Position>,
    piece: &Piece,
    board: &Board,
    attacks: &Vec<Position>,
    dx: i8,
    dy: i8,
)
    requires
        board.wf(),
        on_board_spec(pcol(*piece), prow(*piece)),
        -1 <= dx <= 1,
        -1 <= dy <= 1,
        !contains_pos(old(moves)@, pcol(*piece) + dx as int, prow(*piece) + dy as int),
        old(moves)@.no_duplicates(),
    ensures
        forall|c: int, r: int|
            #![trigger contains_pos(final(moves)@, c, r)]
            contains_pos(final(moves)@, c, r) <==> (contains_pos(old(moves)@, c, r) || (offset_dest(
                board@,
                piece.color,
                pcol(*piece),
                prow(*piece),
                dx as int,
                dy as int,
                c,
                r,
            ) && !contains_pos(attacks@, c, r))),
        final(moves)@.no_duplicates(),
{
    let ghost s = board@;
    let nc: i16 = piece.position.column as i16 + dx as i16;
    let nr: i16 = piece.position.row as i16 + dy as i16;
    if nc >= 0 && nc <= 7 && nr >= 0 && nr <= 7 {
        if !contains_position(attacks, nc, nr) {
            let cand = Position::new(nc as i8, nr as i8);
            let keep = match board.get_piece(&cand) {
                Some(other) => {
                    proof {
                        let w = choose|w: int|
                            0 <= w < s.len() && at_pos(s[w], nc as int, nr as int);
                        assert(s[w] == other);
                    }
                    other.color != piece.color
                },
                None => true,
            };
            if keep {
                proof {
                    if empty_at(s, nc as int, nr as int) {
                        lemma_empty_not_own(s, piece.color, nc as int, nr as int);
                    } else {
                        lemma_enemy_not_own(s, piece.color, nc as int, nr as int);
                    }
                    lemma_push_distinct(moves@, cand);
                }
                moves.push(cand);
            } else {
                proof {
                    assert(own_at(s, piece.color, nc as int, nr as int));
                }
            }
        }
    }
}

/// The moves of a king: the adjacent squares that are on the board, free
/// of its own pieces, and not threatened by the opposing side's pieces
/// in the pseudo-attack sense.
fn king_moves(piece: &Piece, board: &Board) -> (moves: Vec<Position>)
    requires
        board.wf(),
        on_board_spec(pcol(*piece), prow(*piece)),
    ensures
        forall|c: int, r: int|
            contains_pos(moves@, c, r) <==> (king_raw_dest(
                board@,
                piece.color,
                pcol(*piece),
                prow(*piece),
                c,
                r,
            ) && !attacked(board@, opposite(piece.color), c, r)),
        moves@.no_duplicates(),
{
    let enemy_attacks = board.all_attacks(piece.color.invert());
    let mut moves: Vec<Position> = Vec::new();
    try_king_offset(&mut moves, piece, board, &enemy_attacks, 1, 1);
    try_king_offset(&mut moves, piece, board, &enemy_attacks, 1, 0);
    try_king_offset(&mut moves, piece, board, &enemy_attacks, 1, -1);
    try_king_offset(&mut moves, piece, board, &enemy_attacks, 0, 1);
    try_king_offset(&mut moves, piece, board, &enemy_attacks, 0, -1);
    try_king_offset(&mut moves, piece, board, &enemy_attacks, -1, 1);
    try_king_offset(&mut moves, piece, board, &enemy_attacks, -1, 0);
    try_king_offset(&mut moves, piece, board, &enemy_attacks, -1, -1);
    moves
}

/// The moves of a queen: the union of the rook and bishop rays.
fn queen_moves(piece: &Piece, board: &Board) -> (moves: Vec<Position>)
    requires
        board.wf(),
        on_board_spec(pcol(*piece), prow(*piece)),
    ensures
        forall|c: int, r: int|
            contains_pos(moves@, c, r) <==> (rook_dest(
                board@,
                piece.color,
                pcol(*piece),
                prow(*piece),
                c,
                r,
            ) || bishop_dest(board@, piece.color, pcol(*piece), prow(*piece), c, r)),
        moves@.no_duplicates(),
{
    let ghost s = board@;
    let ghost pc = pcol(*piece);
    let ghost pr = prow(*piece);
    let mut moves = rook_moves(piece, board);
    let mut diag = bishop_moves(piece, board);
    proof {
        assert forall|c: int, r: int|
            !(contains_pos(moves@, c, r) && contains_pos(diag@, c, r)) by {
            if contains_pos(moves@, c, r) && contains_pos(diag@, c, r) {
                if ray_dest(s, piece.color, pc, pr, 1, 0, c, r) {
                    lemma_ray_dest_shape(s, piece.color, pc, pr, 1, 0, c, r);
                } else if ray_dest(s, piece.color, pc, pr, -1, 0, c, r) {
                    lemma_ray_dest_shape(s, piece.color, pc, pr, -1, 0, c, r);
                } else if ray_dest(s, piece.color, pc, pr, 0, 1, c, r) {
                    lemma_ray_dest_shape(s, piece.color, pc, pr, 0, 1, c, r);
                } else {
                    lemma_ray_dest_shape(s, piece.color, pc, pr, 0, -1, c, r);
                }
                if ray_dest(s, piece.color, pc, pr, 1, 1, c, r) {
                    lemma_ray_dest_shape(s, piece.color, pc, pr, 1, 1, c, r);
                } else if ray_dest(s, piece.color, pc, pr, 1, -1, c, r) {
                    lemma_ray_dest_shape(s, piece.color, pc, pr, 1, -1, c, r);
                } else if ray_dest(s, piece.color, pc, pr, -1, 1, c, r) {
                    lemma_ray_dest_shape(s, piece.color, pc, pr, -1, 1, c, r);
                } else {
                    lemma_ray_dest_shape(s, piece.color, pc, pr, -1, -1, c, r);
                }
            }
        }
        lemma_contains_pos_add(moves@, diag@);
        lemma_no_dups_disjoint_add(moves@, diag@);
    }
    moves.append(&mut diag);
    moves
}

/// Any playable destination is on the board and differs from the square
/// the piece stands on.
pub proof fn lemma_legal_dest_props(s: Seq<Piece>, p: Piece, c: int, r: int)
    requires
        legal_dest(s, p, c, r),
    ensures
        on_board_spec(c, r),
        !(c == pcol(p) && r == prow(p)),
{
    let pc = pcol(p);
    let pr = prow(p);
    match p.kind {
        PieceKind::King => {},
        PieceKind::Knight => {},
        PieceKind::Pawn => {},
        PieceKind::Rook => {
            lemma_rook_dest_props(s, p.color, pc, pr, c, r);
        },
        PieceKind::Bishop => {
            lemma_bishop_dest_props(s, p.color, pc, pr, c, r);
        },
        PieceKind::Queen => {
            if rook_dest(s, p.color, pc, pr, c, r) {
                lemma_rook_dest_props(s, p.color, pc, pr, c, r);
            } else {
                lemma_bishop_dest_props(s, p.color, pc, pr, c, r);
            }
        },
    }
}

/// A rook destination is on the board and off the start square.
proof fn lemma_rook_dest_props(s: Seq<Piece>, color: Color, pc: int, pr: int, c: int, r: int)
    requires
        rook_dest(s, color, pc, pr, c, r),
    ensures
        on_board_spec(c, r),
        !(c == pc && r == pr),
{
    if ray_dest(s, color, pc, pr, 1, 0, c, r) {
        lemma_ray_dest_shape(s, color, pc, pr, 1, 0, c, r);
    } else if ray_dest(s, color, pc, pr, -1, 0, c, r) {
        lemma_ray_dest_shape(s, color, pc, pr, -1, 0, c, r);
    } else if ray_dest(s, color, pc, pr, 0, 1, c, r) {
        lemma_ray_dest_shape(s, color, pc, pr, 0, 1, c, r);
    } else {
        lemma_ray_dest_shape(s, color, pc, pr, 0, -1, c, r);
    }
}

/// A bishop destination is on the board and off the start square.
proof fn lemma_bishop_dest_props(s: Seq<Piece>, color: Color, pc: int, pr: int, c: int, r: int)
    requires
        bishop_dest(s, color, pc, pr, c, r),
    ensures
        on_board_spec(c, r),
        !(c == pc && r == pr),
{
    if ray_dest(s, color, pc, pr, 1, 1, c, r) {
        lemma_ray_dest_shape(s, color, pc, pr, 1, 1, c, r);
    } else if ray_dest(s, color, pc, pr, 1, -1, c, r) {
        lemma_ray_dest_shape(s, color, pc, pr, 1, -1, c, r);
    } else if ray_dest(s, color, pc, pr, -1, 1, c, r) {
        lemma_ray_dest_shape(s, color, pc, pr, -1, 1, c, r);
    } else {
        lemma_ray_dest_shape(s, color, pc, pr, -1, -1, c, r);
    }
}

impl Piece {
    /// The squares this piece threatens, with no king-safety filter: a
    /// king contributes its raw adjacent reach. Used only for aggregate
    /// attack computation, which breaks the recursion between the two
    /// kings' move generation.
    pub fn attacks(&self, board: &Board) -> (moves: Vec<Position>)
        requires
            board.wf(),
            on_board_spec(pcol(*self), prow(*self)),
        ensures
            forall|c: int, r: int| contains_pos(moves@, c, r) <==> pseudo_dest(board@, *self, c, r),
            moves@.no_duplicates(),
    {
        match self.kind {
            PieceKind::King => king_raw_moves(self, board),
            PieceKind::Queen => queen_moves(self, board),
            PieceKind::Rook => rook_moves(self, board),
            PieceKind::Bishop => bishop_moves(self, board),
            PieceKind::Knight => knight_moves(self, board),
            PieceKind::Pawn => pawn_moves(self, board),
        }
    }

    /// The playable destinations of this piece on the given board:
    /// candidate squares pre-filtered to on-board, non-same-color-occupied
    /// squares, and for a king additionally to squares the opposing side
    /// does not threaten.
    pub fn moves(&self, board: &Board) -> (moves: Vec<Position>)
        requires
            board.wf(),
            on_board_spec(pcol(*self), prow(*self)),
        ensures
            forall|c: int, r: int| contains_pos(moves@, c, r) <==> legal_dest(board@, *self, c, r),
            moves@.no_duplicates(),
    {
        match self.kind {
            PieceKind::King => king_moves(self, board),
            PieceKind::Queen => queen_moves(self, board),
            PieceKind::Rook => rook_moves(self, board),
            PieceKind::Bishop => bishop_moves(self, board),
            PieceKind::Knight => knight_moves(self, board),
            PieceKind::Pawn => pawn_moves(self, board),
        }
    }

    /// The display glyph for this piece, keyed by kind and color.
    pub fn repr(&self) -> (r: &'static str)
        ensures
            self.kind == PieceKind::King && self.color == Color::Black ==> r@ == "♚"@,
            self.kind == PieceKind::King && self.color == Color::White ==> r@ == "♔"@,
            self.kind == PieceKind::Queen && self.color == Color::Black ==> r@ == "♛"@,
            self.kind == PieceKind::Queen && self.color == Color::White ==> r@ == "♕"@,
            self.kind == PieceKind::Rook && self.color == Color::Black ==> r@ == "♜"@,
            self.kind == PieceKind::Rook && self.color == Color::White ==> r@ == "♖"@,
            self.kind == PieceKind::Bishop && self.color == Color::Black ==> r@ == "♝"@,
            self.kind == PieceKind::Bishop && self.color == Color::White ==> r@ == "♗"@,
            self.kind == PieceKind::Knight && self.color == Color::Black ==> r@ == "♞"@,
            self.kind == PieceKind::Knight && self.color == Color::White ==> r@ == "♘"@,
            self.kind == PieceKind::Pawn && self.color == Color::Black ==> r@ == "♟"@,
            self.kind == PieceKind::Pawn && self.color == Color::White ==> r@ == "♙"@,
    {
        match (self.kind, self.color) {
            (PieceKind::King, Color::Black) => "♚",
            (PieceKind::King, Color::White) => "♔",
            (PieceKind::Queen, Color::Black) => "♛",
            (PieceKind::Queen, Color::White) => "♕",
            (PieceKind::Rook, Color::Black) => "♜",
            (PieceKind::Rook, Color::White) => "♖",
            (PieceKind::Bishop, Color::Black) => "♝",
            (PieceKind::Bishop, Color::White) => "♗",
            (PieceKind::Knight, Color::Black) => "♞",
            (PieceKind::Knight, Color::White) => "♘",
            (PieceKind::Pawn, Color::Black) => "♟",
            (PieceKind::Pawn, Color::White) => "♙",
        }
    }
}

} // verus!
