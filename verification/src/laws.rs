//! Engine-wide properties, stated once over the spec predicates and
//! proved for every board and piece.

use vstd::prelude::*;

use crate::color::{opposite, Color};
use crate::piece::{
    at_pos, attacked, empty_at, enemy_at, legal_dest, occupied, on_board_spec, own_at, pawn_dest,
    pawn_dir, ray_dest, ray_dest_at_step, ray_reaches, ray_square_empty, square_color_spec,
    wf_pieces, Piece, PieceKind,
};

verus! {

/// Square colors alternate along every rank and file: two squares that
/// are adjacent in the same row or the same column have different
/// colors.
pub proof fn lemma_square_colors_alternate(c1: int, r1: int, c2: int, r2: int)
    requires
        (c1 == c2 && (r2 == r1 + 1 || r2 == r1 - 1)) || (r1 == r2 && (c2 == c1 + 1 || c2 == c1
            - 1)),
    ensures
        square_color_spec(c1, r1) != square_color_spec(c2, r2),
{
    let s1 = c1 + r1;
    let s2 = c2 + r2;
    assert(s2 == s1 + 1 || s2 == s1 - 1);
    assert((s1 % 2 == 0) != (s2 % 2 == 0)) by (nonlinear_arith)
        requires
            s2 == s1 + 1 || s2 == s1 - 1,
    ;
}

/// A sliding piece's ray stops at, and includes, the first square held
/// by an opposing piece: that square is a destination, and no square
/// further out along the ray is.
pub proof fn lemma_ray_stops_at_enemy(
    s: Seq<Piece>,
    color: Color,
    pc: int,
    pr: int,
    dc: int,
    dr: int,
    k: int,
)
    requires
        wf_pieces(s),
        -1 <= dc <= 1,
        -1 <= dr <= 1,
        !(dc == 0 && dr == 0),
        1 <= k,
        ray_reaches(s, pc, pr, dc, dr, k),
        enemy_at(s, color, pc + k * dc, pr + k * dr),
    ensures
        ray_dest_at_step(s, color, pc, pr, dc, dr, k),
        forall|m: int| m > k ==> !#[trigger] ray_dest_at_step(s, color, pc, pr, dc, dr, m),
{
    crate::piece::lemma_enemy_not_own(s, color, pc + k * dc, pr + k * dr);
    assert forall|m: int| m > k implies !#[trigger] ray_dest_at_step(
        s,
        color,
        pc,
        pr,
        dc,
        dr,
        m,
    ) by {
        let c = pc + m * dc;
        let r = pr + m * dr;
        if ray_dest(s, color, pc, pr, dc, dr, c, r) {
            let k2 = choose|k2: int|
                1 <= k2 && c == pc + k2 * dc && r == pr + k2 * dr && ray_reaches(
                    s,
                    pc,
                    pr,
                    dc,
                    dr,
                    k2,
                ) && on_board_spec(c, r) && !own_at(s, color, c, r);
            crate::piece::lemma_step_injective(pc, pr, dc, dr, k2, m);
            assert(ray_square_empty(s, pc, pr, dc, dr, k));
            assert(occupied(s, pc + k * dc, pr + k * dr));
            assert(false);
        }
    }
}

/// A sliding piece's ray stops before the first square held by a piece
/// of its own color: neither that square nor any square further out
/// along the ray is a destination.
pub proof fn lemma_ray_stops_before_own(
    s: Seq<Piece>,
    color: Color,
    pc: int,
    pr: int,
    dc: int,
    dr: int,
    k: int,
)
    requires
        -1 <= dc <= 1,
        -1 <= dr <= 1,
        !(dc == 0 && dr == 0),
        1 <= k,
        own_at(s, color, pc + k * dc, pr + k * dr),
    ensures
        forall|m: int| m >= k ==> !#[trigger] ray_dest_at_step(s, color, pc, pr, dc, dr, m),
{
    assert forall|m: int| m >= k implies !#[trigger] ray_dest_at_step(
        s,
        color,
        pc,
        pr,
        dc,
        dr,
        m,
    ) by {
        let c = pc + m * dc;
        let r = pr + m * dr;
        if ray_dest(s, color, pc, pr, dc, dr, c, r) {
            let k2 = choose|k2: int|
                1 <= k2 && c == pc + k2 * dc && r == pr + k2 * dr && ray_reaches(
                    s,
                    pc,
                    pr,
                    dc,
                    dr,
                    k2,
                ) && on_board_spec(c, r) && !own_at(s, color, c, r);
            crate::piece::lemma_step_injective(pc, pr, dc, dr, k2, m);
            if m == k {
                assert(false);
            } else {
                assert(ray_square_empty(s, pc, pr, dc, dr, k));
                let w = choose|w: int|
                    0 <= w < s.len() && at_pos(s[w], pc + k * dc, pr + k * dr) && s[w].color
                        == color;
                assert(occupied(s, pc + k * dc, pr + k * dr));
                assert(false);
            }
        }
    }
}

/// A pawn that has not moved, with both squares ahead empty and on the
/// board, offers exactly the two squares straight ahead as its forward
/// destinations.
pub proof fn lemma_pawn_unmoved_two_forward(s: Seq<Piece>, color: Color, pc: int, pr: int)
    requires
        on_board_spec(pc, pr + pawn_dir(color)),
        on_board_spec(pc, pr + 2 * pawn_dir(color)),
        empty_at(s, pc, pr + pawn_dir(color)),
        empty_at(s, pc, pr + 2 * pawn_dir(color)),
    ensures
        pawn_dest(s, color, false, pc, pr, pc, pr + pawn_dir(color)),
        pawn_dest(s, color, false, pc, pr, pc, pr + 2 * pawn_dir(color)),
        forall|c: int, r: int|
            #[trigger] pawn_dest(s, color, false, pc, pr, c, r) && c == pc ==> (r == pr + pawn_dir(
                color,
            ) || r == pr + 2 * pawn_dir(color)),
{
}

/// A pawn whose square straight ahead is occupied, by either color,
/// offers no forward destination at all, whatever stands two squares
/// ahead.
pub proof fn lemma_pawn_blocked_no_forward(
    s: Seq<Piece>,
    color: Color,
    has_moved: bool,
    pc: int,
    pr: int,
)
    requires
        occupied(s, pc, pr + pawn_dir(color)),
    ensures
        forall|c: int, r: int|
            #[trigger] pawn_dest(s, color, has_moved, pc, pr, c, r) ==> c != pc,
{
}

/// A pawn offers a diagonally forward square iff a piece of the opposing
/// color stands on it; it never offers that square when it is empty or
/// held by the pawn's own color.
pub proof fn lemma_pawn_diagonal_iff(
    s: Seq<Piece>,
    color: Color,
    has_moved: bool,
    pc: int,
    pr: int,
    c: int,
    r: int,
)
    requires
        wf_pieces(s),
        c == pc + 1 || c == pc - 1,
        r == pr + pawn_dir(color),
    ensures
        pawn_dest(s, color, has_moved, pc, pr, c, r) <==> enemy_at(s, color, c, r),
{
    if enemy_at(s, color, c, r) {
        crate::piece::lemma_enemy_not_own(s, color, c, r);
    }
}

/// King move generation never yields a square the opposing side
/// threatens in the pseudo-attack sense.
pub proof fn lemma_king_avoids_attacked(s: Seq<Piece>, p: Piece, c: int, r: int)
    requires
        p.kind == PieceKind::King,
        attacked(s, opposite(p.color), c, r),
    ensures
        !legal_dest(s, p, c, r),
{
}

} // verus!
