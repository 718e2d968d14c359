//! What holds of every move the generator produces: legal generation keeps
//! exactly the legal pseudo-legal moves; every generated move starts on a
//! square of the side to move and, unless it castles, does not land on one; no
//! move is generated twice; every quiet check gives check; every legally
//! generated move leaves the king unattacked; and a pseudo-legal move passes
//! the legality test exactly when it leaves the king unattacked. And what
//! generation does not miss: out of check, no step of a piece, no pawn move
//! and no castling that the rules allow; in check, no move of the king or, in
//! single check, of another piece, that leaves the king unattacked, while in
//! double check no move but the king's does; among the captures, no capture
//! or promotion; among the quiet moves, no push; among the quiet checks, no
//! direct check, checking push or promotion, checking castling or uncovering
//! move. Out of check, the flags of generated moves tell what they take.

use vstd::prelude::*;
use crate::attacks::{Reach, reach_bb, reaches, between, path_clear, aligned_pair, on_line, file_of, rank_of, bishop_line, rook_line};
use crate::bitboard::{bit, NO_SQ, sq_bb, without_lowest, lemma_lowest, lemma_bit_ops, lemma_shl_bits, lemma_shr_bits, FILE_A, FILE_H};
use crate::board::Board;
use crate::movegen::{
    keep, legal_pred, per_square, generated_moves, pseudo_legal_moves, move_from_src, move_by_delta,
    move_to_dst, promotions, promotions_by_delta, shift_up_spec, shift_up_left_spec, shift_up_right_spec,
    down_delta, down_right_delta, down_left_delta,
};
use crate::piece_move::{BitMove, MoveFlag, spec_move};
use crate::templates::{Player, Piece, GenTypes};

verus! {

/// Whether every move of `ms` satisfies `p`.
pub open spec fn all_satisfy(ms: Seq<BitMove>, p: spec_fn(BitMove) -> bool) -> bool {
    forall|i: int| 0 <= i < ms.len() ==> #[trigger] p(ms[i])
}

/// Whether `m` starts on a square of the side to move and, unless it castles
/// (which is written as the king taking its own rook), does not land on one.
pub open spec fn well_aimed(board: Board, m: BitMove) -> bool {
    let us_occ = board.occupied_by(board.spec_turn());
    &&& bit(us_occ, m.spec_src())
    &&& (m.spec_flag_bits() == 2 || m.spec_flag_bits() == 3 || !bit(us_occ, m.spec_dst()))
}

/// `well_aimed` on `board` as a predicate on moves.
pub open spec fn well_aimed_pred(board: Board) -> spec_fn(BitMove) -> bool {
    |m: BitMove| well_aimed(board, m)
}

proof fn lemma_all_add(a: Seq<BitMove>, b: Seq<BitMove>, p: spec_fn(BitMove) -> bool)
    requires
        all_satisfy(a, p),
        all_satisfy(b, p),
    ensures
        all_satisfy(a + b, p),
{
    assert forall|i: int| 0 <= i < (a + b).len() implies #[trigger] p((a + b)[i]) by {
        if i < a.len() {
            assert((a + b)[i] == a[i]);
        } else {
            assert((a + b)[i] == b[i - a.len()]);
        }
    }
}

proof fn lemma_all_filter(ms: Seq<BitMove>, q: spec_fn(BitMove) -> bool, p: spec_fn(BitMove) -> bool)
    requires
        all_satisfy(ms, p),
    ensures
        all_satisfy(ms.filter(q), p),
    decreases ms.len(),
{
    reveal(Seq::filter);
    if ms.len() > 0 {
        let init = ms.drop_last();
        assert forall|i: int| 0 <= i < init.len() implies #[trigger] p(init[i]) by {
            assert(init[i] == ms[i]);
        }
        lemma_all_filter(init, q, p);
        if q(ms.last()) {
            let f = init.filter(q);
            assert forall|i: int| 0 <= i < f.push(ms.last()).len() implies #[trigger] p(f.push(ms.last())[i]) by {
                if i < f.len() {
                    assert(f.push(ms.last())[i] == f[i]);
                } else {
                    assert(p(ms[ms.len() - 1]));
                }
            }
        }
    }
}

proof fn lemma_all_keep(legal: bool, board: Board, ms: Seq<BitMove>, p: spec_fn(BitMove) -> bool)
    requires
        all_satisfy(ms, p),
    ensures
        all_satisfy(keep(legal, board, ms), p),
{
    if legal {
        lemma_all_filter(ms, legal_pred(board), p);
    }
}

proof fn lemma_all_per_square(bb: u64, f: spec_fn(int) -> Seq<BitMove>, p: spec_fn(BitMove) -> bool)
    requires
        forall|s: int| #[trigger] bit(bb, s) ==> all_satisfy(f(s), p),
    ensures
        all_satisfy(per_square(bb, f), p),
    decreases bb,
{
    if bb != 0 {
        lemma_lowest(bb);
        crate::bitboard::lemma_without_lowest_smaller(bb);
        let t = vstd::std_specs::bits::u64_trailing_zeros(bb) as int;
        let rest = without_lowest(bb);
        assert forall|s: int| #[trigger] bit(rest, s) implies all_satisfy(f(s), p) by {
            assert(bit(bb, s));
        }
        lemma_all_per_square(rest, f, p);
        assert(bit(bb, t));
        lemma_all_add(f(t), per_square(rest, f), p);
    }
}

/// Moves from a square of the side to move to squares it does not hold are
/// well aimed.
proof fn lemma_from_src(board: Board, src: int, bb: u64, flag: MoveFlag)
    requires
        bit(board.occupied_by(board.spec_turn()), src),
        forall|d: int| #[trigger] bit(bb, d) ==> !bit(board.occupied_by(board.spec_turn()), d),
    ensures
        all_satisfy(per_square(bb, move_from_src(src, flag)), well_aimed_pred(board)),
{
    let f = move_from_src(src, flag);
    assert forall|d: int| #[trigger] bit(bb, d) implies all_satisfy(f(d), well_aimed_pred(board)) by {
        BitMove::lemma_encode(src, d, flag);
        assert(f(d)[0] == spec_move(src, d, flag));
    }
    lemma_all_per_square(bb, f, well_aimed_pred(board));
}

/// Moves from `d + delta` to `d` are well aimed when every `d` of `bb` is a
/// square the side to move does not hold and `d + delta` one it holds.
proof fn lemma_by_delta(board: Board, bb: u64, delta: int, flag: MoveFlag)
    requires
        forall|d: int| #[trigger] bit(bb, d) ==> 0 <= d + delta < 64 && bit(board.occupied_by(board.spec_turn()), d + delta)
            && !bit(board.occupied_by(board.spec_turn()), d),
    ensures
        all_satisfy(per_square(bb, move_by_delta(delta, flag)), well_aimed_pred(board)),
{
    let f = move_by_delta(delta, flag);
    assert forall|d: int| #[trigger] bit(bb, d) implies all_satisfy(f(d), well_aimed_pred(board)) by {
        BitMove::lemma_encode(d + delta, d, flag);
        assert(f(d)[0] == spec_move(d + delta, d, flag));
    }
    lemma_all_per_square(bb, f, well_aimed_pred(board));
}

/// Promotions from `d + delta` to `d` are well aimed under the same conditions.
proof fn lemma_promotions_by_delta(board: Board, bb: u64, delta: int, capture: bool)
    requires
        forall|d: int| #[trigger] bit(bb, d) ==> 0 <= d + delta < 64 && bit(board.occupied_by(board.spec_turn()), d + delta)
            && !bit(board.occupied_by(board.spec_turn()), d),
    ensures
        all_satisfy(per_square(bb, promotions_by_delta(delta, capture)), well_aimed_pred(board)),
{
    let f = promotions_by_delta(delta, capture);
    assert forall|d: int| #[trigger] bit(bb, d) implies all_satisfy(f(d), well_aimed_pred(board)) by {
        BitMove::lemma_encode(d + delta, d, MoveFlag::Promotion { capture, prom: Piece::Q });
        BitMove::lemma_encode(d + delta, d, MoveFlag::Promotion { capture, prom: Piece::N });
        BitMove::lemma_encode(d + delta, d, MoveFlag::Promotion { capture, prom: Piece::R });
        BitMove::lemma_encode(d + delta, d, MoveFlag::Promotion { capture, prom: Piece::B });
        assert(f(d) == promotions(d + delta, d, capture));
    }
    lemma_all_per_square(bb, f, well_aimed_pred(board));
}

/// Moves from squares of the side to move to a square it does not hold are
/// well aimed.
proof fn lemma_to_dst(board: Board, bb: u64, dst: int, flag: MoveFlag)
    requires
        0 <= dst < 64,
        !bit(board.occupied_by(board.spec_turn()), dst),
        forall|s: int| #[trigger] bit(bb, s) ==> bit(board.occupied_by(board.spec_turn()), s),
    ensures
        all_satisfy(per_square(bb, move_to_dst(dst, flag)), well_aimed_pred(board)),
{
    let f = move_to_dst(dst, flag);
    assert forall|s: int| #[trigger] bit(bb, s) implies all_satisfy(f(s), well_aimed_pred(board)) by {
        BitMove::lemma_encode(s, dst, flag);
        assert(f(s)[0] == spec_move(s, dst, flag));
    }
    lemma_all_per_square(bb, f, well_aimed_pred(board));
}

/// Whether `s` and `d` are distinct neighbouring squares (a king's step apart).
pub open spec fn adjacent(s: int, d: int) -> bool {
    &&& 0 <= s < 64
    &&& 0 <= d < 64
    &&& s != d
    &&& crate::attacks::dist(file_of(s), file_of(d)) <= 1
    &&& crate::attacks::dist(rank_of(s), rank_of(d)) <= 1
}

/// Nothing stands between neighbouring squares.
proof fn lemma_adjacent_clear(s: int, d: int, occ: u64)
    requires
        adjacent(s, d),
    ensures
        path_clear(s, d, occ),
{
    assert forall|u: int| #![trigger bit(occ, u)] between(s, d, u) implies !bit(occ, u) by {
        assert(false);
    }
}

/// The squares of the a-file and of the h-file.
proof fn lemma_file_masks()
    ensures
        forall|j: int| #[trigger] bit(FILE_A, j) <==> (0 <= j < 64 && j % 8 == 0),
        forall|j: int| #[trigger] bit(FILE_H, j) <==> (0 <= j < 64 && j % 8 == 7),
{
    assert forall|j: int| #[trigger] bit(FILE_A, j) <==> (0 <= j < 64 && j % 8 == 0) by {
        if 0 <= j < 64 {
            let jj = j as u64;
            assert((0x0101_0101_0101_0101u64 >> jj) & 1u64 == 1u64 <==> jj % 8 == 0) by (bit_vector)
                requires jj < 64;
        }
    }
    assert forall|j: int| #[trigger] bit(FILE_H, j) <==> (0 <= j < 64 && j % 8 == 7) by {
        if 0 <= j < 64 {
            let jj = j as u64;
            assert((0x8080_8080_8080_8080u64 >> jj) & 1u64 == 1u64 <==> jj % 8 == 7) by (bit_vector)
                requires jj < 64;
        }
    }
}

/// A square of `shift_up_spec(p, bb)` is `down_delta(p)` ahead of a square of `bb`.
proof fn lemma_shift_up(p: Player, bb: u64)
    ensures
        forall|d: int| #[trigger] bit(shift_up_spec(p, bb), d) ==> 0 <= d + down_delta(p) < 64 && bit(bb, d + down_delta(p)),
{
    lemma_shl_bits(bb, 8);
    lemma_shr_bits(bb, 8);
}

/// The same for the diagonal shifts.
proof fn lemma_shift_up_sides(p: Player, bb: u64)
    ensures
        forall|d: int| #[trigger] bit(shift_up_left_spec(p, bb), d) ==> 0 <= d + down_right_delta(p) < 64 && bit(bb, d + down_right_delta(p)),
        forall|d: int| #[trigger] bit(shift_up_right_spec(p, bb), d) ==> 0 <= d + down_left_delta(p) < 64 && bit(bb, d + down_left_delta(p)),
{
    lemma_shl_bits(bb & !FILE_A, 7);
    lemma_shr_bits(bb & !FILE_H, 7);
    lemma_shl_bits(bb & !FILE_H, 9);
    lemma_shr_bits(bb & !FILE_A, 9);
    lemma_bit_ops(bb, !FILE_A);
    lemma_bit_ops(bb, !FILE_H);
}

/// A square of a shifted bitboard is next to the square it came from.
proof fn lemma_shifts_adjacent(p: Player, bb: u64)
    ensures
        forall|d: int| #[trigger] bit(shift_up_spec(p, bb), d) ==> adjacent(d + down_delta(p), d),
        forall|d: int| #[trigger] bit(shift_up_left_spec(p, bb), d) ==> adjacent(d + down_right_delta(p), d),
        forall|d: int| #[trigger] bit(shift_up_right_spec(p, bb), d) ==> adjacent(d + down_left_delta(p), d),
{
    lemma_shift_up(p, bb);
    lemma_shl_bits(bb & !FILE_A, 7);
    lemma_shr_bits(bb & !FILE_H, 7);
    lemma_shl_bits(bb & !FILE_H, 9);
    lemma_shr_bits(bb & !FILE_A, 9);
    lemma_bit_ops(bb, !FILE_A);
    lemma_bit_ops(bb, !FILE_H);
    lemma_bit_ops(FILE_A, FILE_A);
    lemma_bit_ops(FILE_H, FILE_H);
    lemma_file_masks();
    assert forall|d: int| #[trigger] bit(shift_up_left_spec(p, bb), d) implies adjacent(d + down_right_delta(p), d) by {
        let s = d + down_right_delta(p);
        match p {
            Player::White => {
                assert(bit(bb & !FILE_A, s));
                assert(bit(!FILE_A, s));
                assert(s % 8 != 0);
            },
            Player::Black => {
                assert(bit(bb & !FILE_H, s));
                assert(bit(!FILE_H, s));
                assert(s % 8 != 7);
            },
        }
    }
    assert forall|d: int| #[trigger] bit(shift_up_right_spec(p, bb), d) implies adjacent(d + down_left_delta(p), d) by {
        let s = d + down_left_delta(p);
        match p {
            Player::White => {
                assert(bit(bb & !FILE_H, s));
                assert(bit(!FILE_H, s));
                assert(s % 8 != 7);
            },
            Player::Black => {
                assert(bit(bb & !FILE_A, s));
                assert(bit(!FILE_A, s));
                assert(s % 8 != 0);
            },
        }
    }
}

/// The occupancies a generator works with on `board`.
pub open spec fn occupancies(board: Board, occ: u64, us_occ: u64, them_occ: u64) -> bool {
    &&& board.sound()
    &&& occ == board.occupied()
    &&& us_occ == board.occupied_by(board.spec_turn())
    &&& them_occ == board.occupied_by(board.spec_turn().spec_other())
}

/// The side to move holds only occupied squares, and none of the enemy's.
proof fn lemma_us_them(board: Board, occ: u64, us_occ: u64, them_occ: u64)
    requires
        occupancies(board, occ, us_occ, them_occ),
    ensures
        forall|s: int| #[trigger] bit(us_occ, s) ==> bit(occ, s),
        forall|s: int| #[trigger] bit(them_occ, s) ==> !bit(us_occ, s),
{
    board.lemma_sides();
    match board.spec_turn() {
        Player::White => {},
        Player::Black => {},
    }
}

proof fn lemma_piece_kind_ok(board: Board, piece: Piece, target: u64, occ: u64, us_occ: u64, them_occ: u64)
    requires
        occupancies(board, occ, us_occ, them_occ),
    ensures
        all_satisfy(per_square(board.spec_piece_bb(board.spec_turn(), piece),
            crate::movegen::piece_moves_fn(piece, target, occ, us_occ, them_occ)), well_aimed_pred(board)),
{
    lemma_bit_ops(board.spec_piece_bb(board.spec_turn(), piece), board.spec_piece_bb(board.spec_turn(), piece));
    lemma_pieces_from_ok(board, piece, board.spec_piece_bb(board.spec_turn(), piece), target, occ, us_occ, them_occ);
}

/// Moves of pieces of kind `piece` standing on some of the side to move's
/// squares of that kind are well aimed.
proof fn lemma_pieces_from_ok(board: Board, piece: Piece, sources: u64, target: u64, occ: u64, us_occ: u64, them_occ: u64)
    requires
        occupancies(board, occ, us_occ, them_occ),
        forall|s: int| #[trigger] bit(sources, s) ==> bit(board.spec_piece_bb(board.spec_turn(), piece), s),
    ensures
        all_satisfy(per_square(sources, crate::movegen::piece_moves_fn(piece, target, occ, us_occ, them_occ)),
            well_aimed_pred(board)),
{
    let us = board.spec_turn();
    let f = crate::movegen::piece_moves_fn(piece, target, occ, us_occ, them_occ);
    let p = well_aimed_pred(board);
    assert forall|src: int| #[trigger] bit(sources, src) implies all_satisfy(f(src), p) by {
        assert(bit(board.spec_piece_bb(us, piece), src));
        board.lemma_piece_occupies(us, piece, src);
        let moves = crate::movegen::piece_moves_bb(piece, src, occ) & !us_occ & target;
        lemma_bit_ops(crate::movegen::piece_moves_bb(piece, src, occ), !us_occ);
        lemma_bit_ops(crate::movegen::piece_moves_bb(piece, src, occ) & !us_occ, target);
        lemma_bit_ops(moves, them_occ);
        lemma_bit_ops(moves, !them_occ);
        lemma_bit_ops(us_occ, us_occ);
        assert forall|d: int| #[trigger] bit(moves, d) implies !bit(us_occ, d) by {
            assert(bit(crate::movegen::piece_moves_bb(piece, src, occ) & !us_occ, d));
            assert(bit(!us_occ, d));
        }
        assert forall|d: int| #[trigger] bit(moves & them_occ, d) implies !bit(us_occ, d) by {
            assert(bit(moves, d));
        }
        assert forall|d: int| #[trigger] bit(moves & !them_occ, d) implies !bit(us_occ, d) by {
            assert(bit(moves, d));
        }
        lemma_from_src(board, src, moves & them_occ, MoveFlag::Capture { ep_capture: false });
        lemma_from_src(board, src, moves & !them_occ, MoveFlag::QuietMove);
        lemma_all_add(per_square(moves & them_occ, move_from_src(src, MoveFlag::Capture { ep_capture: false })),
            per_square(moves & !them_occ, move_from_src(src, MoveFlag::QuietMove)), p);
    }
    lemma_all_per_square(sources, f, p);
}

proof fn lemma_officers_ok(board: Board, target: u64, occ: u64, us_occ: u64, them_occ: u64)
    requires
        occupancies(board, occ, us_occ, them_occ),
    ensures
        all_satisfy(crate::movegen::officer_moves(board, target, occ, us_occ, them_occ), well_aimed_pred(board)),
{
    reveal(crate::movegen::officer_moves);
    let us = board.spec_turn();
    let p = well_aimed_pred(board);
    lemma_piece_kind_ok(board, Piece::N, target, occ, us_occ, them_occ);
    lemma_piece_kind_ok(board, Piece::B, target, occ, us_occ, them_occ);
    lemma_piece_kind_ok(board, Piece::R, target, occ, us_occ, them_occ);
    lemma_piece_kind_ok(board, Piece::Q, target, occ, us_occ, them_occ);
    let n = per_square(board.spec_piece_bb(us, Piece::N), crate::movegen::piece_moves_fn(Piece::N, target, occ, us_occ, them_occ));
    let b = per_square(board.spec_piece_bb(us, Piece::B), crate::movegen::piece_moves_fn(Piece::B, target, occ, us_occ, them_occ));
    let r = per_square(board.spec_piece_bb(us, Piece::R), crate::movegen::piece_moves_fn(Piece::R, target, occ, us_occ, them_occ));
    let q = per_square(board.spec_piece_bb(us, Piece::Q), crate::movegen::piece_moves_fn(Piece::Q, target, occ, us_occ, them_occ));
    lemma_all_add(n, b, p);
    lemma_all_add(n + b, r, p);
    lemma_all_add(n + b + r, q, p);
}

proof fn lemma_castling_ok(board: Board, side: crate::templates::CastleType)
    requires
        board.sound(),
    ensures
        all_satisfy(crate::movegen::castling_moves(board, side), well_aimed_pred(board)),
{
    reveal(crate::movegen::castling_moves);
    let us = board.spec_turn();
    board.lemma_king_on_square(us);
    let r_from = crate::movegen::castle_rook_from(us, side);
    let flag = MoveFlag::Castle { king_side: side == crate::templates::CastleType::KingSide };
    BitMove::lemma_encode(board.king_square(us), r_from, flag);
}


/// Whether no square of `bb` is held by the side to move.
pub open spec fn avoids(bb: u64, us_occ: u64) -> bool {
    forall|d: int| #[trigger] bit(bb, d) ==> !bit(us_occ, d)
}

/// Whether every square `d` of `x` is in `empty` and lies `down` ahead of a
/// square of `base`.
spec fn one_step(x: u64, empty: u64, base: u64, down: int) -> bool {
    forall|d: int| #[trigger] bit(x, d) ==> bit(empty, d) && 0 <= d + down < 64 && bit(base, d + down)
}

/// Whether every square `d` of `x` is in `empty` and lies two steps `down`
/// ahead of a square of `base`.
spec fn two_steps(x: u64, empty: u64, base: u64, down: int) -> bool {
    forall|d: int| #[trigger] bit(x, d) ==> bit(empty, d) && 0 <= d + down < 64 && 0 <= d + 2 * down < 64
        && bit(base, d + 2 * down) && bit(empty, d + down)
}

proof fn lemma_pawn_pushes_ok(board: Board, gen: GenTypes, target: u64, occ: u64, us_occ: u64, them_occ: u64)
    requires
        occupancies(board, occ, us_occ, them_occ),
        gen != GenTypes::Captures,
        (gen == GenTypes::Quiets || gen == GenTypes::QuietChecks) ==> avoids(target, us_occ),
    ensures
        all_satisfy(crate::movegen::pawn_push_moves(board, gen, target, occ), well_aimed_pred(board)),
        one_step(crate::movegen::pawn_pushes(board, gen, target, occ).0, crate::movegen::push_empty(gen, target, occ),
            board.spec_piece_bb(board.spec_turn(), Piece::P) & !crate::movegen::pawn_ranks(board.spec_turn()).1,
            down_delta(board.spec_turn())),
        two_steps(crate::movegen::pawn_pushes(board, gen, target, occ).1, crate::movegen::push_empty(gen, target, occ),
            board.spec_piece_bb(board.spec_turn(), Piece::P) & !crate::movegen::pawn_ranks(board.spec_turn()).1,
            down_delta(board.spec_turn())),
{
    let us = board.spec_turn();
    let them = us.spec_other();
    let (rank_8, rank_7, rank_3) = crate::movegen::pawn_ranks(us);
    let pawns = board.spec_piece_bb(us, Piece::P);
    let not7 = pawns & !rank_7;
    let empty = crate::movegen::push_empty(gen, target, occ);
    let down = down_delta(us);
    lemma_us_them(board, occ, us_occ, them_occ);
    lemma_bit_ops(pawns, !rank_7);
    lemma_bit_ops(occ, occ);
    assert forall|x: int| #[trigger] bit(not7, x) implies bit(us_occ, x) by {
        board.lemma_piece_occupies(us, Piece::P, x);
    }
    assert(avoids(empty, us_occ)) by {
        assert forall|d: int| #[trigger] bit(empty, d) implies !bit(us_occ, d) by {
            if !(gen == GenTypes::Quiets || gen == GenTypes::QuietChecks) {
                assert(bit(!occ, d));
            }
        }
    }
    let one0 = empty & shift_up_spec(us, not7);
    lemma_shift_up(us, not7);
    lemma_bit_ops(empty, shift_up_spec(us, not7));
    assert(one_step(one0, empty, not7, down));
    let two0 = shift_up_spec(us, one0 & rank_3) & empty;
    lemma_shift_up(us, one0 & rank_3);
    lemma_bit_ops(one0, rank_3);
    lemma_bit_ops(shift_up_spec(us, one0 & rank_3), empty);
    assert(two_steps(two0, empty, not7, down)) by {
        assert forall|d: int| #[trigger] bit(two0, d) implies bit(empty, d) && 0 <= d + down < 64 && 0 <= d + 2 * down < 64
            && bit(not7, d + 2 * down) && bit(empty, d + down) by {
            assert(bit(one0 & rank_3, d + down));
            assert(bit(one0, d + down));
            assert(d + down + down == d + 2 * down);
        }
    }
    lemma_bit_ops(one0, target);
    lemma_bit_ops(two0, target);
    let one1 = if gen == GenTypes::Evasions { one0 & target } else { one0 };
    let two1 = if gen == GenTypes::Evasions { two0 & target } else { two0 };
    assert(one_step(one1, empty, not7, down));
    assert(two_steps(two1, empty, not7, down));
    let (one, two) = crate::movegen::pawn_pushes(board, gen, target, occ);
    if gen == GenTypes::QuietChecks {
        let ksq = board.king_square(them);
        let attacks = reach_bb(Reach::Pawn(them), ksq, 0);
        let one2 = one1 & attacks;
        let two2 = two1 & attacks;
        lemma_bit_ops(one1, attacks);
        lemma_bit_ops(two1, attacks);
        assert(one_step(one2, empty, not7, down));
        assert(two_steps(two2, empty, not7, down));
        let dc = board.spec_blockers(them) & board.occupied_by(us);
        if not7 & dc != 0 {
            let fb = crate::movegen::file_bb_spec(ksq);
            let dc1 = shift_up_spec(us, not7 & dc) & empty & !fb;
            lemma_shift_up(us, not7 & dc);
            lemma_bit_ops(not7, dc);
            lemma_bit_ops(shift_up_spec(us, not7 & dc), empty);
            lemma_bit_ops(shift_up_spec(us, not7 & dc) & empty, !fb);
            assert(one_step(dc1, empty, not7, down)) by {
                assert forall|d: int| #[trigger] bit(dc1, d) implies bit(empty, d) && 0 <= d + down < 64 && bit(not7, d + down) by {
                    assert(bit(shift_up_spec(us, not7 & dc) & empty, d));
                    assert(bit(not7 & dc, d + down));
                }
            }
            let dc2 = shift_up_spec(us, rank_3 & dc1) & empty;
            lemma_shift_up(us, rank_3 & dc1);
            lemma_bit_ops(rank_3, dc1);
            lemma_bit_ops(shift_up_spec(us, rank_3 & dc1), empty);
            assert(two_steps(dc2, empty, not7, down)) by {
                assert forall|d: int| #[trigger] bit(dc2, d) implies bit(empty, d) && 0 <= d + down < 64 && 0 <= d + 2 * down < 64
                    && bit(not7, d + 2 * down) && bit(empty, d + down) by {
                    assert(bit(rank_3 & dc1, d + down));
                    assert(bit(dc1, d + down));
                    assert(d + down + down == d + 2 * down);
                }
            }
            lemma_bit_ops(one2, dc1);
            lemma_bit_ops(two2, dc2);
            assert(one == one2 | dc1);
            assert(two == two2 | dc2);
            assert(one_step(one, empty, not7, down));
            assert(two_steps(two, empty, not7, down));
        } else {
            assert(one == one2);
            assert(two == two2);
        }
    } else {
        assert(one == one1);
        assert(two == two1);
    }
    assert(one_step(one, empty, not7, down));
    assert(two_steps(two, empty, not7, down));
    lemma_by_delta(board, one, down, MoveFlag::QuietMove);
    lemma_by_delta(board, two, 2 * down, MoveFlag::DoublePawnPush);
    lemma_all_add(per_square(one, move_by_delta(down, MoveFlag::QuietMove)),
        per_square(two, move_by_delta(2 * down, MoveFlag::DoublePawnPush)), well_aimed_pred(board));
}


/// The squares pawns capture on are never the side to move's own.
proof fn lemma_enemies_avoid(board: Board, gen: GenTypes, target: u64, occ: u64, us_occ: u64, them_occ: u64)
    requires
        occupancies(board, occ, us_occ, them_occ),
        gen == GenTypes::Captures ==> avoids(target, us_occ),
    ensures
        avoids(crate::movegen::pawn_enemies(gen, target, them_occ), us_occ),
{
    lemma_us_them(board, occ, us_occ, them_occ);
    lemma_bit_ops(them_occ, target);
}

/// Pawn moves `delta` from a square of `pawns` to squares of `dsts` avoiding
/// the side to move's squares are well aimed.
proof fn lemma_pawn_side_moves(board: Board, base: u64, shifted: u64, mask: u64, delta: int, us_occ: u64)
    requires
        us_occ == board.occupied_by(board.spec_turn()),
        forall|x: int| #[trigger] bit(base, x) ==> bit(us_occ, x),
        forall|d: int| #[trigger] bit(shifted, d) ==> 0 <= d + delta < 64 && bit(base, d + delta),
        avoids(mask, us_occ),
    ensures
        forall|d: int| #[trigger] bit(shifted & mask, d) ==> 0 <= d + delta < 64 && bit(us_occ, d + delta) && !bit(us_occ, d),
{
    lemma_bit_ops(shifted, mask);
}

proof fn lemma_pawn_promotions_ok(board: Board, gen: GenTypes, target: u64, occ: u64, us_occ: u64, them_occ: u64)
    requires
        occupancies(board, occ, us_occ, them_occ),
        (gen == GenTypes::Quiets || gen == GenTypes::QuietChecks || gen == GenTypes::Captures) ==> avoids(target, us_occ),
    ensures
        all_satisfy(crate::movegen::pawn_promo_moves(board, gen, target, occ, them_occ), well_aimed_pred(board)),
{
    let us = board.spec_turn();
    let (rank_8, rank_7, rank_3) = crate::movegen::pawn_ranks(us);
    let pawns = board.spec_piece_bb(us, Piece::P);
    let p7 = pawns & rank_7;
    let p = well_aimed_pred(board);
    if p7 != 0 && (gen != GenTypes::Evasions || target & rank_8 != 0) {
        lemma_us_them(board, occ, us_occ, them_occ);
        lemma_bit_ops(pawns, rank_7);
        lemma_bit_ops(occ, occ);
        assert forall|x: int| #[trigger] bit(p7, x) implies bit(us_occ, x) by {
            board.lemma_piece_occupies(us, Piece::P, x);
        }
        let push = crate::movegen::push_empty(gen, target, occ);
        let empty = crate::movegen::promo_empty(gen, target, occ);
        lemma_bit_ops(push, target);
        assert(avoids(empty, us_occ)) by {
            assert forall|d: int| #[trigger] bit(empty, d) implies !bit(us_occ, d) by {
                if gen == GenTypes::Captures {
                    assert(bit(!occ, d));
                } else if gen == GenTypes::Evasions {
                    assert(bit(push, d));
                    assert(bit(!occ, d));
                } else if !(gen == GenTypes::Quiets || gen == GenTypes::QuietChecks) {
                    assert(bit(!occ, d));
                }
            }
        }
        let enemies = crate::movegen::pawn_enemies(gen, target, them_occ);
        lemma_enemies_avoid(board, gen, target, occ, us_occ, them_occ);
        lemma_shift_up(us, p7);
        lemma_shift_up_sides(us, p7);
        lemma_pawn_side_moves(board, p7, shift_up_spec(us, p7), empty, down_delta(us), us_occ);
        lemma_pawn_side_moves(board, p7, shift_up_left_spec(us, p7), enemies, down_right_delta(us), us_occ);
        lemma_pawn_side_moves(board, p7, shift_up_right_spec(us, p7), enemies, down_left_delta(us), us_occ);
        lemma_promotions_by_delta(board, shift_up_spec(us, p7) & empty, down_delta(us), false);
        lemma_promotions_by_delta(board, shift_up_left_spec(us, p7) & enemies, down_right_delta(us), true);
        lemma_promotions_by_delta(board, shift_up_right_spec(us, p7) & enemies, down_left_delta(us), true);
        let a = per_square(shift_up_spec(us, p7) & empty, promotions_by_delta(down_delta(us), false));
        let b = per_square(shift_up_left_spec(us, p7) & enemies, promotions_by_delta(down_right_delta(us), true));
        let c = per_square(shift_up_right_spec(us, p7) & enemies, promotions_by_delta(down_left_delta(us), true));
        lemma_all_add(a, b, p);
        lemma_all_add(a + b, c, p);
    }
}

proof fn lemma_pawn_captures_ok(board: Board, gen: GenTypes, target: u64, occ: u64, us_occ: u64, them_occ: u64)
    requires
        occupancies(board, occ, us_occ, them_occ),
        gen == GenTypes::Captures ==> avoids(target, us_occ),
    ensures
        all_satisfy(crate::movegen::pawn_capture_moves(board, gen, target, them_occ), well_aimed_pred(board)),
{
    let us = board.spec_turn();
    let them = us.spec_other();
    let (rank_8, rank_7, rank_3) = crate::movegen::pawn_ranks(us);
    let pawns = board.spec_piece_bb(us, Piece::P);
    let not7 = pawns & !rank_7;
    let p = well_aimed_pred(board);
    if crate::movegen::gen_has_captures(gen) {
        lemma_us_them(board, occ, us_occ, them_occ);
        lemma_bit_ops(pawns, !rank_7);
        assert forall|x: int| #[trigger] bit(not7, x) implies bit(us_occ, x) by {
            board.lemma_piece_occupies(us, Piece::P, x);
        }
        let enemies = crate::movegen::pawn_enemies(gen, target, them_occ);
        lemma_enemies_avoid(board, gen, target, occ, us_occ, them_occ);
        lemma_shift_up_sides(us, not7);
        lemma_pawn_side_moves(board, not7, shift_up_left_spec(us, not7), enemies, down_right_delta(us), us_occ);
        lemma_pawn_side_moves(board, not7, shift_up_right_spec(us, not7), enemies, down_left_delta(us), us_occ);
        let cap = MoveFlag::Capture { ep_capture: false };
        lemma_by_delta(board, shift_up_left_spec(us, not7) & enemies, down_right_delta(us), cap);
        lemma_by_delta(board, shift_up_right_spec(us, not7) & enemies, down_left_delta(us), cap);
        let a = per_square(shift_up_left_spec(us, not7) & enemies, move_by_delta(down_right_delta(us), cap));
        let b = per_square(shift_up_right_spec(us, not7) & enemies, move_by_delta(down_left_delta(us), cap));
        let c = crate::movegen::ep_capture_moves(board, gen, target);
        assert(all_satisfy(c, p)) by {
            let ep = board.spec_ep_square() as int;
            if ep != NO_SQ && (gen != GenTypes::Evasions || target & sq_bb(ep + down_delta(us)) != 0) {
                board.lemma_ep_empty();
                let from = not7 & reach_bb(Reach::Pawn(them), ep, 0);
                lemma_bit_ops(not7, reach_bb(Reach::Pawn(them), ep, 0));
                lemma_to_dst(board, from, ep, MoveFlag::Capture { ep_capture: true });
            }
        }
        lemma_all_add(a, b, p);
        lemma_all_add(a + b, c, p);
    }
}

proof fn lemma_pawns_ok(board: Board, gen: GenTypes, target: u64, occ: u64, us_occ: u64, them_occ: u64)
    requires
        occupancies(board, occ, us_occ, them_occ),
        (gen == GenTypes::Quiets || gen == GenTypes::QuietChecks || gen == GenTypes::Captures) ==> avoids(target, us_occ),
    ensures
        all_satisfy(crate::movegen::pawn_moves(board, gen, target, occ, them_occ), well_aimed_pred(board)),
{
    reveal(crate::movegen::pawn_moves);
    let p = well_aimed_pred(board);
    let a = crate::movegen::pawn_push_moves(board, gen, target, occ);
    if gen != GenTypes::Captures {
        lemma_pawn_pushes_ok(board, gen, target, occ, us_occ, them_occ);
    }
    lemma_pawn_promotions_ok(board, gen, target, occ, us_occ, them_occ);
    lemma_pawn_captures_ok(board, gen, target, occ, us_occ, them_occ);
    let b = crate::movegen::pawn_promo_moves(board, gen, target, occ, them_occ);
    let c = crate::movegen::pawn_capture_moves(board, gen, target, them_occ);
    lemma_all_add(a, b, p);
    lemma_all_add(a + b, c, p);
}


proof fn lemma_all_moves_ok(board: Board, gen: GenTypes, target: u64, occ: u64, us_occ: u64, them_occ: u64)
    requires
        occupancies(board, occ, us_occ, them_occ),
        (gen == GenTypes::Quiets || gen == GenTypes::QuietChecks || gen == GenTypes::Captures) ==> avoids(target, us_occ),
    ensures
        all_satisfy(crate::movegen::all_moves(board, gen, target, occ, us_occ, them_occ), well_aimed_pred(board)),
{
    reveal(crate::movegen::all_moves);
    let us = board.spec_turn();
    let p = well_aimed_pred(board);
    lemma_pawns_ok(board, gen, target, occ, us_occ, them_occ);
    lemma_officers_ok(board, target, occ, us_occ, them_occ);
    let a = crate::movegen::pawn_moves(board, gen, target, occ, them_occ);
    let b = crate::movegen::officer_moves(board, target, occ, us_occ, them_occ);
    lemma_all_add(a, b, p);
    let c: Seq<BitMove> = if gen != GenTypes::QuietChecks && gen != GenTypes::Evasions {
        per_square(board.spec_piece_bb(us, Piece::K), crate::movegen::piece_moves_fn(Piece::K, target, occ, us_occ, them_occ))
    } else {
        Seq::empty()
    };
    lemma_piece_kind_ok(board, Piece::K, target, occ, us_occ, them_occ);
    lemma_all_add(a + b, c, p);
    let d: Seq<BitMove> = if gen != GenTypes::Captures && gen != GenTypes::Evasions {
        crate::movegen::castling_moves(board, crate::templates::CastleType::QueenSide)
            + crate::movegen::castling_moves(board, crate::templates::CastleType::KingSide)
    } else {
        Seq::empty()
    };
    lemma_castling_ok(board, crate::templates::CastleType::QueenSide);
    lemma_castling_ok(board, crate::templates::CastleType::KingSide);
    lemma_all_add(crate::movegen::castling_moves(board, crate::templates::CastleType::QueenSide),
        crate::movegen::castling_moves(board, crate::templates::CastleType::KingSide), p);
    lemma_all_add(a + b + c, d, p);
}

proof fn lemma_direct_checks_ok(board: Board, piece: Piece)
    requires
        board.sound(),
        piece != Piece::P,
    ensures
        all_satisfy(crate::movegen::direct_checks_of(board, piece), well_aimed_pred(board)),
{
    let us = board.spec_turn();
    let them = us.spec_other();
    let occ = board.occupied();
    let us_occ = board.occupied_by(us);
    let them_occ = board.occupied_by(them);
    lemma_us_them(board, occ, us_occ, them_occ);
    let dc = board.spec_blockers(them) & us_occ;
    let src = board.spec_piece_bb(us, piece) & !dc;
    lemma_bit_ops(board.spec_piece_bb(us, piece), !dc);
    let target = crate::movegen::check_squares(piece, board.king_square(them), occ) & !occ;
    lemma_pieces_from_ok(board, piece, src, target, occ, us_occ, them_occ);
}

proof fn lemma_quiet_checks_ok(board: Board)
    requires
        board.sound(),
    ensures
        all_satisfy(crate::movegen::quiet_check_moves(board), well_aimed_pred(board)),
{
    reveal(crate::movegen::quiet_check_moves);
    let us = board.spec_turn();
    let them = us.spec_other();
    let occ = board.occupied();
    let us_occ = board.occupied_by(us);
    let them_occ = board.occupied_by(them);
    let p = well_aimed_pred(board);
    lemma_us_them(board, occ, us_occ, them_occ);
    lemma_bit_ops(occ, occ);
    let dc = board.spec_blockers(them) & us_occ;
    lemma_bit_ops(board.spec_blockers(them), us_occ);
    let f = crate::movegen::discovery_fn(board, occ);
    assert forall|from: int| #[trigger] bit(dc, from) implies all_satisfy(f(from), p) by {
        match board.piece_on(from) {
            Some(piece) => {
                if piece != Piece::P {
                    let eksq = board.king_square(them);
                    let b = crate::movegen::piece_moves_bb(piece, from, occ) & !occ;
                    let m = !reach_bb(Reach::Line(eksq as u8), from, 0) | crate::movegen::check_squares(piece, eksq, occ);
                    let b2 = b & m;
                    lemma_bit_ops(crate::movegen::piece_moves_bb(piece, from, occ), !occ);
                    lemma_bit_ops(b, m);
                    assert forall|d: int| #[trigger] bit(b2, d) implies !bit(us_occ, d) by {
                        assert(bit(b, d));
                        assert(bit(!occ, d));
                    }
                    lemma_from_src(board, from, b2, MoveFlag::QuietMove);
                }
            },
            None => {},
        }
    }
    lemma_all_per_square(dc, f, p);
    assert(avoids(!occ, us_occ)) by {
        assert forall|d: int| #[trigger] bit(!occ, d) implies !bit(us_occ, d) by {}
    }
    lemma_pawns_ok(board, GenTypes::QuietChecks, !occ, occ, us_occ, them_occ);
    let a = per_square(dc, f);
    let pm = crate::movegen::pawn_moves(board, GenTypes::QuietChecks, !occ, occ, them_occ);
    lemma_direct_checks_ok(board, Piece::N);
    lemma_direct_checks_ok(board, Piece::B);
    lemma_direct_checks_ok(board, Piece::R);
    lemma_direct_checks_ok(board, Piece::Q);
    let n = crate::movegen::direct_checks_of(board, Piece::N);
    let b = crate::movegen::direct_checks_of(board, Piece::B);
    let r = crate::movegen::direct_checks_of(board, Piece::R);
    let q = crate::movegen::direct_checks_of(board, Piece::Q);
    lemma_checking_promotions_ok(board);
    lemma_checking_castles_ok(board);
    let pr = crate::movegen::checking_promotions_of(board);
    let cq = crate::movegen::checking_castles(board, crate::templates::CastleType::QueenSide);
    let ck = crate::movegen::checking_castles(board, crate::templates::CastleType::KingSide);
    lemma_all_add(a, pm, p);
    lemma_all_add(a + pm, pr, p);
    lemma_all_add(a + pm + pr, n, p);
    lemma_all_add(a + pm + pr + n, b, p);
    lemma_all_add(a + pm + pr + n + b, r, p);
    lemma_all_add(a + pm + pr + n + b + r, q, p);
    lemma_all_add(a + pm + pr + n + b + r + q, cq, p);
    lemma_all_add(a + pm + pr + n + b + r + q + cq, ck, p);
}

proof fn lemma_checking_promotions_ok(board: Board)
    requires
        board.sound(),
    ensures
        all_satisfy(crate::movegen::checking_promotions_of(board), well_aimed_pred(board)),
{
    let us = board.spec_turn();
    let them = us.spec_other();
    let occ = board.occupied();
    let us_occ = board.occupied_by(us);
    lemma_us_them(board, occ, us_occ, board.occupied_by(them));
    lemma_promotion_squares(board);
    let p7 = board.spec_piece_bb(us, Piece::P) & crate::movegen::pawn_ranks(us).1;
    let bb = shift_up_spec(us, p7) & !occ;
    let delta = down_delta(us);
    let eksq = board.king_square(them);
    assert forall|d: int, prom: Piece| #[trigger] bit(bb, d) && prom != Piece::P && prom != Piece::K
        && bit(crate::movegen::piece_moves_bb(prom, d, occ), eksq)
        implies well_aimed_pred(board)(#[trigger] spec_move(d + delta, d, MoveFlag::Promotion { capture: false, prom })) by {
        BitMove::lemma_encode(d + delta, d, MoveFlag::Promotion { capture: false, prom });
        board.lemma_piece_occupies(us, Piece::P, d + delta);
    }
    lemma_checking_promotions_pred(bb, delta, eksq, occ, well_aimed_pred(board));
}

proof fn lemma_checking_castles_ok(board: Board)
    requires
        board.sound(),
    ensures
        all_satisfy(crate::movegen::checking_castles(board, crate::templates::CastleType::QueenSide), well_aimed_pred(board)),
        all_satisfy(crate::movegen::checking_castles(board, crate::templates::CastleType::KingSide), well_aimed_pred(board)),
{
    lemma_castling_ok(board, crate::templates::CastleType::QueenSide);
    lemma_castling_ok(board, crate::templates::CastleType::KingSide);
}

proof fn lemma_evasions_ok(board: Board)
    requires
        board.sound(),
    ensures
        all_satisfy(crate::movegen::evasion_moves(board), well_aimed_pred(board)),
{
    reveal(crate::movegen::evasion_moves);
    let us = board.spec_turn();
    let them = us.spec_other();
    let occ = board.occupied();
    let us_occ = board.occupied_by(us);
    let them_occ = board.occupied_by(them);
    let p = well_aimed_pred(board);
    let ksq = board.king_square(us);
    board.lemma_king_on_square(us);
    let checkers = board.spec_checkers();
    let pawns_knights = (board.spec_piece_bb(Player::White, Piece::P) | board.spec_piece_bb(Player::Black, Piece::P))
        | (board.spec_piece_bb(Player::White, Piece::N) | board.spec_piece_bb(Player::Black, Piece::N));
    let slider_attacks = crate::movegen::slider_lines(checkers & !pawns_knights, ksq);
    let k_moves = reach_bb(Reach::King, ksq, 0) & !slider_attacks & !us_occ;
    lemma_bit_ops(reach_bb(Reach::King, ksq, 0) & !slider_attacks, !us_occ);
    lemma_bit_ops(k_moves, them_occ);
    lemma_bit_ops(k_moves, !them_occ);
    assert forall|d: int| #[trigger] bit(k_moves, d) implies !bit(us_occ, d) by {
        assert(bit(!us_occ, d));
        lemma_bit_ops(us_occ, us_occ);
    }
    assert forall|d: int| #[trigger] bit(k_moves & them_occ, d) implies !bit(us_occ, d) by {
        assert(bit(k_moves, d));
    }
    assert forall|d: int| #[trigger] bit(k_moves & !them_occ, d) implies !bit(us_occ, d) by {
        assert(bit(k_moves, d));
    }
    let cap = MoveFlag::Capture { ep_capture: false };
    lemma_from_src(board, ksq, k_moves & them_occ, cap);
    lemma_from_src(board, ksq, k_moves & !them_occ, MoveFlag::QuietMove);
    let a = per_square(k_moves & them_occ, move_from_src(ksq, cap));
    let b = per_square(k_moves & !them_occ, move_from_src(ksq, MoveFlag::QuietMove));
    lemma_all_add(a, b, p);
    if without_lowest(checkers) == 0 {
        let c = vstd::std_specs::bits::u64_trailing_zeros(checkers) as int;
        let target = reach_bb(Reach::Between(ksq as u8), c, 0) | sq_bb(c);
        lemma_all_moves_ok(board, GenTypes::Evasions, target, occ, us_occ, them_occ);
        lemma_all_add(a + b, crate::movegen::all_moves(board, GenTypes::Evasions, target, occ, us_occ, them_occ), p);
    }
}

proof fn lemma_non_evasions_ok(board: Board, gen: GenTypes)
    requires
        board.sound(),
    ensures
        all_satisfy(crate::movegen::non_evasion_moves(board, gen), well_aimed_pred(board)),
{
    let us = board.spec_turn();
    let them = us.spec_other();
    let occ = board.occupied();
    let us_occ = board.occupied_by(us);
    let them_occ = board.occupied_by(them);
    lemma_us_them(board, occ, us_occ, them_occ);
    let target = crate::movegen::non_evasion_target(gen, us_occ, them_occ);
    lemma_bit_ops(us_occ, them_occ);
    lemma_bit_ops(us_occ, us_occ);
    assert(avoids(target, us_occ)) by {
        assert forall|d: int| #[trigger] bit(target, d) implies !bit(us_occ, d) by {
            if gen == GenTypes::NonEvasions {
                assert(bit(!us_occ, d));
            } else if gen == GenTypes::Captures {
            } else {
                assert(bit(!(us_occ | them_occ), d));
                lemma_bit_ops(us_occ | them_occ, 0);
                assert(!bit(us_occ | them_occ, d));
            }
        }
    }
    lemma_all_moves_ok(board, gen, target, occ, us_occ, them_occ);
}

/// Every pseudo-legal move starts on a square of the side to move and, unless
/// it castles, does not land on one; the same holds of legal moves.
pub proof fn lemma_generated_moves_well_aimed(board: Board, legal: bool, gen: GenTypes)
    requires
        board.wf(),
    ensures
        forall|i: int| 0 <= i < generated_moves(board, legal, gen).len() ==>
            #[trigger] well_aimed(board, generated_moves(board, legal, gen)[i]),
{
    let p = well_aimed_pred(board);
    if gen == GenTypes::Evasions {
        lemma_evasions_ok(board);
    } else if gen == GenTypes::QuietChecks {
        lemma_quiet_checks_ok(board);
    } else if gen == GenTypes::All {
        if board.spec_checkers() != 0 {
            lemma_evasions_ok(board);
        } else {
            lemma_non_evasions_ok(board, GenTypes::NonEvasions);
        }
    } else {
        lemma_non_evasions_ok(board, gen);
    }
    lemma_all_keep(legal, board, pseudo_legal_moves(board, gen), p);
    let g = generated_moves(board, legal, gen);
    assert forall|i: int| 0 <= i < g.len() implies #[trigger] well_aimed(board, g[i]) by {
        assert(p(g[i]));
    }
}

/// Legal generation keeps exactly the pseudo-legal moves that are legal, in
/// their order.
pub proof fn lemma_legal_is_filtered_pseudo_legal(board: Board, gen: GenTypes)
    ensures
        generated_moves(board, true, gen) == generated_moves(board, false, gen).filter(legal_pred(board)),
{
}

/// Every legally generated move is legal on the board.
pub proof fn lemma_legal_moves_are_legal(board: Board, gen: GenTypes)
    ensures
        forall|i: int| 0 <= i < generated_moves(board, true, gen).len() ==>
            board.is_legal(#[trigger] generated_moves(board, true, gen)[i]),
{
    let ms = pseudo_legal_moves(board, gen);
    assert forall|i: int| 0 <= i < generated_moves(board, true, gen).len() implies
        board.is_legal(#[trigger] generated_moves(board, true, gen)[i]) by {
        ms.lemma_filter_pred(legal_pred(board), i);
    }
}

/// A pseudo-legal move that is legal is generated by legal generation.
pub proof fn lemma_legal_pseudo_legal_moves_kept(board: Board, gen: GenTypes, i: int)
    requires
        0 <= i < generated_moves(board, false, gen).len(),
        board.is_legal(generated_moves(board, false, gen)[i]),
    ensures
        generated_moves(board, true, gen).contains(generated_moves(board, false, gen)[i]),
{
    pseudo_legal_moves(board, gen).lemma_filter_contains(legal_pred(board), i);
}

/// Whether a piece of kind `piece` of `player` on `s` attacks `t` when the
/// squares of `occ` are occupied.
pub open spec fn attacks_from(player: Player, piece: Piece, s: int, occ: u64, t: int) -> bool {
    match piece {
        Piece::P => reaches(Reach::Pawn(player), s, occ, t),
        Piece::N => reaches(Reach::Knight, s, occ, t),
        Piece::B => reaches(Reach::Bishop, s, occ, t),
        Piece::R => reaches(Reach::Rook, s, occ, t),
        Piece::Q => reaches(Reach::Queen, s, occ, t),
        Piece::K => reaches(Reach::King, s, occ, t),
    }
}

/// The piece a promotion with flag bits `fl` promotes to.
pub open spec fn promoted_piece(fl: int) -> Piece {
    if fl % 4 == 0 {
        Piece::N
    } else if fl % 4 == 1 {
        Piece::B
    } else if fl % 4 == 2 {
        Piece::R
    } else {
        Piece::Q
    }
}

/// Whether `m` is a quiet move that checks the enemy king, with the board's
/// other pieces where they stand: a plain move or double pawn push onto an
/// empty square after which the moved piece, not a king, attacks the king from
/// its destination, or which takes a piece standing between that king and a
/// piece of ours off their line; a promotion by pushing onto an empty square
/// whose new piece attacks the king from there; or castling whose rook
/// attacks the king from its castled square.
pub open spec fn gives_quiet_check(board: Board, m: BitMove) -> bool {
    let us = board.spec_turn();
    let them = us.spec_other();
    let occ = board.occupied();
    let eksq = board.king_square(them);
    let src = m.spec_src();
    let dst = m.spec_dst();
    let fl = m.spec_flag_bits();
    &&& bit(board.occupied_by(us), src)
    &&& if is_castle_flag(fl) {
        &&& src == board.king_square(us)
        &&& attacks_from(us, Piece::R, crate::movegen::castle_rook_to(us, castle_side(fl)), occ, eksq)
    } else if 8 <= fl < 12 {
        &&& 0 <= dst < 64
        &&& !bit(occ, dst)
        &&& board.piece_on(src) == Some(Piece::P)
        &&& attacks_from(us, promoted_piece(fl), dst, occ, eksq)
    } else {
        &&& (fl == 0 || fl == 1)
        &&& 0 <= dst < 64
        &&& !bit(occ, dst)
        &&& ({
            ||| (match board.piece_on(src) {
                Some(piece) => piece != Piece::K && attacks_from(us, piece, dst, occ, eksq),
                None => false,
            })
            ||| (bit(board.spec_blockers(them), src) && !bit(reach_bb(Reach::Line(eksq as u8), src, 0), dst))
        })
    }
}

/// `gives_quiet_check` on `board` as a predicate on moves.
pub open spec fn gives_quiet_check_pred(board: Board) -> spec_fn(BitMove) -> bool {
    |m: BitMove| gives_quiet_check(board, m)
}

/// A knight, bishop, rook or queen on `s` reaches `t` exactly when one on `t`
/// reaches `s`.
proof fn lemma_reaches_sym(kind: Reach, s: int, t: int, occ: u64)
    requires
        kind is Knight || kind is Bishop || kind is Rook || kind is Queen,
    ensures
        reaches(kind, s, occ, t) == reaches(kind, t, occ, s),
{
    assert forall|u: int| between(s, t, u) == between(t, s, u) by {}
    assert(path_clear(s, t, occ) == path_clear(t, s, occ));
}

/// A square of one of `player`'s bitboards holds that kind of piece.
proof fn lemma_piece_on_kind(board: Board, player: Player, piece: Piece, s: int)
    requires
        board.sound(),
        bit(board.spec_piece_bb(player, piece), s),
    ensures
        board.piece_on(s) == Some(piece),
{
    let bbs = board.spec_bbs();
    reveal_with_fuel(crate::board::piece_on_from, 7);
    assert(bbs.len() == 12);
    assert(forall|i: int, j: int, x: int| 0 <= i < j < 12 ==> !(#[trigger] bit(bbs[i], x) && #[trigger] bit(bbs[j], x)));
    assert(bit(bbs[crate::board::bb_index(player, piece)], s));
}

/// Moves from `src` to the squares of `bb` satisfy `p` when each one does.
proof fn lemma_src_moves(bb: u64, src: int, flag: MoveFlag, p: spec_fn(BitMove) -> bool)
    requires
        forall|d: int| #[trigger] bit(bb, d) ==> p(spec_move(src, d, flag)),
    ensures
        all_satisfy(per_square(bb, move_from_src(src, flag)), p),
{
    let f = move_from_src(src, flag);
    assert forall|d: int| #[trigger] bit(bb, d) implies all_satisfy(f(d), p) by {
        assert(f(d)[0] == spec_move(src, d, flag));
    }
    lemma_all_per_square(bb, f, p);
}

/// Moves from `d + delta` to the squares `d` of `bb` satisfy `p` when each one does.
proof fn lemma_delta_moves(bb: u64, delta: int, flag: MoveFlag, p: spec_fn(BitMove) -> bool)
    requires
        forall|d: int| #[trigger] bit(bb, d) ==> p(spec_move(d + delta, d, flag)),
    ensures
        all_satisfy(per_square(bb, move_by_delta(delta, flag)), p),
{
    let f = move_by_delta(delta, flag);
    assert forall|d: int| #[trigger] bit(bb, d) implies all_satisfy(f(d), p) by {
        assert(f(d)[0] == spec_move(d + delta, d, flag));
    }
    lemma_all_per_square(bb, f, p);
}

/// What a piece other than a pawn reaches, by its bitboard.
proof fn lemma_piece_moves_bb(piece: Piece, s: int, occ: u64, t: int)
    requires
        piece != Piece::P,
        bit(crate::movegen::piece_moves_bb(piece, s, occ), t),
    ensures
        0 <= t < 64,
        piece == Piece::K || reaches(match piece {
            Piece::N => Reach::Knight,
            Piece::B => Reach::Bishop,
            Piece::R => Reach::Rook,
            _ => Reach::Queen,
        }, s, occ, t),
{
    match piece {
        Piece::N => crate::attacks::lemma_reach_bb(Reach::Knight, s, 0),
        Piece::B => crate::attacks::lemma_reach_bb(Reach::Bishop, s, occ),
        Piece::R => crate::attacks::lemma_reach_bb(Reach::Rook, s, occ),
        Piece::Q => crate::attacks::lemma_reach_bb(Reach::Queen, s, occ),
        _ => crate::attacks::lemma_reach_bb(Reach::King, s, 0),
    }
}

/// A quiet move of a knight, bishop, rook or queen from `src` onto an empty
/// square that it checks the enemy king from gives check.
proof fn lemma_direct_check_move(board: Board, piece: Piece, src: int, d: int)
    requires
        board.sound(),
        piece != Piece::P,
        piece != Piece::K,
        0 <= src < 64,
        bit(board.spec_piece_bb(board.spec_turn(), piece), src),
        bit(crate::movegen::check_squares(piece, board.king_square(board.spec_turn().spec_other()), board.occupied()), d),
        !bit(board.occupied(), d),
    ensures
        gives_quiet_check(board, spec_move(src, d, MoveFlag::QuietMove)),
{
    let us = board.spec_turn();
    let them = us.spec_other();
    let occ = board.occupied();
    let eksq = board.king_square(them);
    board.lemma_king_on_square(them);
    lemma_piece_moves_bb(piece, eksq, occ, d);
    let kind = match piece {
        Piece::N => Reach::Knight,
        Piece::B => Reach::Bishop,
        Piece::R => Reach::Rook,
        _ => Reach::Queen,
    };
    lemma_reaches_sym(kind, eksq, d, occ);
    if piece == Piece::N {
        assert(reaches(Reach::Knight, d, 0, eksq) == reaches(Reach::Knight, d, occ, eksq));
    }
    lemma_piece_on_kind(board, us, piece, src);
    board.lemma_piece_occupies(us, piece, src);
    BitMove::lemma_encode(src, d, MoveFlag::QuietMove);
}

proof fn lemma_direct_checks_give_check(board: Board, piece: Piece)
    requires
        board.sound(),
        piece != Piece::P,
        piece != Piece::K,
    ensures
        all_satisfy(crate::movegen::direct_checks_of(board, piece), gives_quiet_check_pred(board)),
{
    let us = board.spec_turn();
    let them = us.spec_other();
    let occ = board.occupied();
    let us_occ = board.occupied_by(us);
    let them_occ = board.occupied_by(them);
    let p = gives_quiet_check_pred(board);
    lemma_us_them(board, occ, us_occ, them_occ);
    board.lemma_sides();
    let dc = board.spec_blockers(them) & us_occ;
    let srcs = board.spec_piece_bb(us, piece) & !dc;
    lemma_bit_ops(board.spec_piece_bb(us, piece), !dc);
    let cs = crate::movegen::check_squares(piece, board.king_square(them), occ);
    let target = cs & !occ;
    lemma_bit_ops(cs, !occ);
    let f = crate::movegen::piece_moves_fn(piece, target, occ, us_occ, them_occ);
    assert forall|src: int| #[trigger] bit(srcs, src) implies all_satisfy(f(src), p) by {
        let pm = crate::movegen::piece_moves_bb(piece, src, occ);
        let moves = pm & !us_occ & target;
        lemma_bit_ops(pm, !us_occ);
        lemma_bit_ops(pm & !us_occ, target);
        lemma_bit_ops(moves, them_occ);
        lemma_bit_ops(moves, !them_occ);
        lemma_bit_ops(occ, occ);
        assert forall|d: int| #[trigger] bit(moves & them_occ, d) implies
            p(spec_move(src, d, MoveFlag::Capture { ep_capture: false })) by {
            assert(bit(moves, d));
            assert(bit(target, d));
            assert(bit(!occ, d));
            assert(bit(them_occ, d));
            assert(false);
        }
        assert forall|d: int| #[trigger] bit(moves & !them_occ, d) implies p(spec_move(src, d, MoveFlag::QuietMove)) by {
            assert(bit(moves, d));
            assert(bit(target, d));
            assert(bit(!occ, d));
            assert(bit(cs, d));
            lemma_direct_check_move(board, piece, src, d);
        }
        lemma_src_moves(moves & them_occ, src, MoveFlag::Capture { ep_capture: false }, p);
        lemma_src_moves(moves & !them_occ, src, MoveFlag::QuietMove, p);
        lemma_all_add(per_square(moves & them_occ, move_from_src(src, MoveFlag::Capture { ep_capture: false })),
            per_square(moves & !them_occ, move_from_src(src, MoveFlag::QuietMove)), p);
    }
    lemma_all_per_square(srcs, f, p);
}

proof fn lemma_discoveries_give_check(board: Board)
    requires
        board.sound(),
    ensures
        all_satisfy(per_square(board.spec_blockers(board.spec_turn().spec_other()) & board.occupied_by(board.spec_turn()),
            crate::movegen::discovery_fn(board, board.occupied())), gives_quiet_check_pred(board)),
{
    let us = board.spec_turn();
    let them = us.spec_other();
    let occ = board.occupied();
    let us_occ = board.occupied_by(us);
    let eksq = board.king_square(them);
    let p = gives_quiet_check_pred(board);
    let dc = board.spec_blockers(them) & us_occ;
    lemma_bit_ops(board.spec_blockers(them), us_occ);
    lemma_bit_ops(occ, occ);
    board.lemma_king_on_square(them);
    let f = crate::movegen::discovery_fn(board, occ);
    assert forall|from: int| #[trigger] bit(dc, from) implies all_satisfy(f(from), p) by {
        match board.piece_on(from) {
            Some(piece) => {
                if piece != Piece::P {
                    let pm = crate::movegen::piece_moves_bb(piece, from, occ);
                    let b = pm & !occ;
                    let line = reach_bb(Reach::Line(eksq as u8), from, 0);
                    let cs = crate::movegen::check_squares(piece, eksq, occ);
                    let m = !line | cs;
                    lemma_bit_ops(pm, !occ);
                    lemma_bit_ops(b, m);
                    lemma_bit_ops(!line, cs);
                    lemma_bit_ops(line, line);
                    assert forall|d: int| #[trigger] bit(b & m, d) implies p(spec_move(from, d, MoveFlag::QuietMove)) by {
                        assert(bit(b, d));
                        assert(bit(!occ, d));
                        lemma_piece_moves_bb(piece, from, occ, d);
                        BitMove::lemma_encode(from, d, MoveFlag::QuietMove);
                        if !bit(line, d) {
                        } else {
                            assert(bit(cs, d));
                            crate::bitboard::lemma_empty_bits();
                            assert(piece != Piece::K);
                            lemma_piece_moves_bb(piece, eksq, occ, d);
                            let kind = match piece {
                                Piece::N => Reach::Knight,
                                Piece::B => Reach::Bishop,
                                Piece::R => Reach::Rook,
                                _ => Reach::Queen,
                            };
                            lemma_reaches_sym(kind, eksq, d, occ);
                        }
                    }
                    lemma_src_moves(b & m, from, MoveFlag::QuietMove, p);
                } else {
                    assert(f(from) =~= Seq::<BitMove>::empty());
                }
            },
            None => {
                assert(f(from) =~= Seq::<BitMove>::empty());
            },
        }
    }
    lemma_all_per_square(dc, f, p);
}


/// The squares of `file_bb_spec(k)` are those of the file of `k`.
proof fn lemma_file_bb(k: int)
    requires
        0 <= k < 64,
    ensures
        forall|d: int| #[trigger] bit(crate::movegen::file_bb_spec(k), d) <==> (0 <= d < 64 && d % 8 == k % 8),
{
    let n = (k % 8) as u64;
    lemma_shl_bits(FILE_A, n);
    assert forall|j: int| #[trigger] bit(FILE_A, j) <==> (0 <= j < 64 && j % 8 == 0) by {
        if 0 <= j < 64 {
            let jj = j as u64;
            assert((0x0101_0101_0101_0101u64 >> jj) & 1u64 == 1u64 <==> jj % 8 == 0) by (bit_vector)
                requires jj < 64;
        }
    }
    assert forall|d: int| #[trigger] bit(crate::movegen::file_bb_spec(k), d) <==> (0 <= d < 64 && d % 8 == k % 8) by {
        assert(crate::movegen::file_bb_spec(k) == FILE_A << n);
        if 0 <= d < 64 && d >= n {
            assert(bit(FILE_A, d - n) <==> (d - n) % 8 == 0);
        }
    }
}

/// A pawn push of `us` from `src` to `d`, `steps` ranks forward, onto an empty
/// square that a pawn checks the enemy king from, or from a square between the
/// enemy king and a piece of ours onto a square off the king's file, gives
/// check.
proof fn lemma_push_check(board: Board, src: int, d: int, steps: int, flag: MoveFlag)
    requires
        board.sound(),
        steps == 1 || steps == 2,
        flag == (if steps == 1 { MoveFlag::QuietMove } else { MoveFlag::DoublePawnPush }),
        src == d + steps * down_delta(board.spec_turn()),
        0 <= src < 64,
        0 <= d < 64,
        bit(board.spec_piece_bb(board.spec_turn(), Piece::P), src),
        !bit(board.occupied(), d),
        bit(reach_bb(Reach::Pawn(board.spec_turn().spec_other()), board.king_square(board.spec_turn().spec_other()), 0), d)
            || (bit(board.spec_blockers(board.spec_turn().spec_other()), src)
                && d % 8 != board.king_square(board.spec_turn().spec_other()) % 8),
    ensures
        gives_quiet_check(board, spec_move(src, d, flag)),
{
    let us = board.spec_turn();
    let them = us.spec_other();
    let eksq = board.king_square(them);
    board.lemma_king_on_square(them);
    lemma_piece_on_kind(board, us, Piece::P, src);
    board.lemma_piece_occupies(us, Piece::P, src);
    BitMove::lemma_encode(src, d, flag);
    crate::attacks::lemma_reach_bb(Reach::Pawn(them), eksq, 0);
    crate::attacks::lemma_reach_bb(Reach::Line(eksq as u8), src, 0);
    assert(src % 8 == d % 8);
    assert(src / 8 == d / 8 + steps || src / 8 == d / 8 - steps);
}

/// Where the quiet-check pawn pushes go: each single push lands on an empty
/// square one step ahead of a pawn of ours, each double push two steps ahead,
/// and each lands where a pawn checks the enemy king or comes from a square
/// between that king and a piece of ours and leaves the king's file.
proof fn lemma_quiet_push_squares(board: Board)
    requires
        board.sound(),
    ensures
        ({
            let us = board.spec_turn();
            let them = us.spec_other();
            let occ = board.occupied();
            let down = down_delta(us);
            let eksq = board.king_square(them);
            let (one, two) = crate::movegen::pawn_pushes(board, GenTypes::QuietChecks, !occ, occ);
            let checks = |d: int, src: int| bit(reach_bb(Reach::Pawn(them), eksq, 0), d)
                || (bit(board.spec_blockers(them), src) && d % 8 != eksq % 8);
            &&& forall|d: int| #[trigger] bit(one, d) ==> 0 <= d < 64 && 0 <= d + down < 64
                && bit(board.spec_piece_bb(us, Piece::P), d + down) && !bit(occ, d) && checks(d, d + down)
            &&& forall|d: int| #[trigger] bit(two, d) ==> 0 <= d < 64 && 0 <= d + 2 * down < 64
                && bit(board.spec_piece_bb(us, Piece::P), d + 2 * down) && !bit(occ, d) && checks(d, d + 2 * down)
                && !bit(occ, d + down)
        }),
{
    let us = board.spec_turn();
    let them = us.spec_other();
    let occ = board.occupied();
    let us_occ = board.occupied_by(us);
    let (rank_8, rank_7, rank_3) = crate::movegen::pawn_ranks(us);
    let pawns = board.spec_piece_bb(us, Piece::P);
    let not7 = pawns & !rank_7;
    let empty = !occ;
    let down = down_delta(us);
    let eksq = board.king_square(them);
    board.lemma_king_on_square(them);
    lemma_bit_ops(pawns, !rank_7);
    lemma_bit_ops(occ, occ);
    let one0 = empty & shift_up_spec(us, not7);
    lemma_shift_up(us, not7);
    lemma_bit_ops(empty, shift_up_spec(us, not7));
    let two0 = shift_up_spec(us, one0 & rank_3) & empty;
    lemma_shift_up(us, one0 & rank_3);
    lemma_bit_ops(one0, rank_3);
    lemma_bit_ops(shift_up_spec(us, one0 & rank_3), empty);
    let attacks = reach_bb(Reach::Pawn(them), eksq, 0);
    let one2 = one0 & attacks;
    let two2 = two0 & attacks;
    lemma_bit_ops(one0, attacks);
    lemma_bit_ops(two0, attacks);
    let dc = board.spec_blockers(them) & us_occ;
    lemma_bit_ops(board.spec_blockers(them), us_occ);
    let fb = crate::movegen::file_bb_spec(eksq);
    lemma_file_bb(eksq);
    lemma_bit_ops(fb, fb);
    let dc1 = shift_up_spec(us, not7 & dc) & empty & !fb;
    lemma_shift_up(us, not7 & dc);
    lemma_bit_ops(not7, dc);
    lemma_bit_ops(shift_up_spec(us, not7 & dc), empty);
    lemma_bit_ops(shift_up_spec(us, not7 & dc) & empty, !fb);
    let dc2 = shift_up_spec(us, rank_3 & dc1) & empty;
    lemma_shift_up(us, rank_3 & dc1);
    lemma_bit_ops(rank_3, dc1);
    lemma_bit_ops(shift_up_spec(us, rank_3 & dc1), empty);
    lemma_bit_ops(one2, dc1);
    lemma_bit_ops(two2, dc2);
    let (one, two) = crate::movegen::pawn_pushes(board, GenTypes::QuietChecks, !occ, occ);
    assert(one == one2 || one == one2 | dc1);
    assert(two == two2 || two == two2 | dc2);
    assert forall|d: int| #[trigger] bit(one, d) implies 0 <= d < 64 && 0 <= d + down < 64 && bit(pawns, d + down)
        && !bit(occ, d) && (bit(attacks, d) || (bit(board.spec_blockers(them), d + down) && d % 8 != eksq % 8)) by {
        if bit(one2, d) {
            assert(bit(one0, d));
            assert(bit(not7, d + down));
        } else {
            assert(bit(dc1, d));
            assert(bit(not7 & dc, d + down));
            assert(bit(!fb, d));
            assert(!bit(fb, d));
        }
    }
    assert forall|d: int| #[trigger] bit(two, d) implies 0 <= d < 64 && 0 <= d + 2 * down < 64 && bit(pawns, d + 2 * down)
        && !bit(occ, d) && (bit(attacks, d) || (bit(board.spec_blockers(them), d + 2 * down) && d % 8 != eksq % 8))
        && !bit(occ, d + down) by {
        if bit(two2, d) {
            assert(bit(two0, d));
            assert(bit(one0 & rank_3, d + down));
            assert(bit(one0, d + down));
            assert(bit(not7, d + down + down));
            assert(d + down + down == d + 2 * down);
        } else {
            assert(bit(dc2, d));
            assert(bit(rank_3 & dc1, d + down));
            assert(bit(dc1, d + down));
            assert(bit(not7 & dc, d + down + down));
            assert(d + down + down == d + 2 * down);
            assert((d + down) % 8 == d % 8);
            assert(bit(!fb, d + down));
            assert(!bit(fb, d + down));
        }
    }
}

/// The quiet-check pawn moves are its pushes: single, then double.
proof fn lemma_quiet_check_pawn_moves(board: Board)
    ensures
        ({
            let occ = board.occupied();
            let down = down_delta(board.spec_turn());
            let (one, two) = crate::movegen::pawn_pushes(board, GenTypes::QuietChecks, !occ, occ);
            crate::movegen::pawn_moves(board, GenTypes::QuietChecks, !occ, occ, board.occupied_by(board.spec_turn().spec_other()))
                == per_square(one, move_by_delta(down, MoveFlag::QuietMove))
                    + per_square(two, move_by_delta(2 * down, MoveFlag::DoublePawnPush))
        }),
{
    reveal(crate::movegen::pawn_moves);
    let occ = board.occupied();
    let down = down_delta(board.spec_turn());
    let (one, two) = crate::movegen::pawn_pushes(board, GenTypes::QuietChecks, !occ, occ);
    let a = per_square(one, move_by_delta(down, MoveFlag::QuietMove))
        + per_square(two, move_by_delta(2 * down, MoveFlag::DoublePawnPush));
    assert(crate::movegen::pawn_push_moves(board, GenTypes::QuietChecks, !occ, occ) == a);
    assert(crate::movegen::pawn_moves(board, GenTypes::QuietChecks, !occ, occ, board.occupied_by(board.spec_turn().spec_other())) =~= a);
}

proof fn lemma_pawn_pushes_give_check(board: Board)
    requires
        board.sound(),
    ensures
        all_satisfy(crate::movegen::pawn_moves(board, GenTypes::QuietChecks, !board.occupied(), board.occupied(),
            board.occupied_by(board.spec_turn().spec_other())), gives_quiet_check_pred(board)),
{
    let us = board.spec_turn();
    let occ = board.occupied();
    let p = gives_quiet_check_pred(board);
    let down = down_delta(us);
    lemma_quiet_push_squares(board);
    lemma_quiet_check_pawn_moves(board);
    let (one, two) = crate::movegen::pawn_pushes(board, GenTypes::QuietChecks, !occ, occ);
    assert forall|d: int| #[trigger] bit(one, d) implies p(spec_move(d + down, d, MoveFlag::QuietMove)) by {
        lemma_push_check(board, d + down, d, 1, MoveFlag::QuietMove);
    }
    assert forall|d: int| #[trigger] bit(two, d) implies p(spec_move(d + 2 * down, d, MoveFlag::DoublePawnPush)) by {
        lemma_push_check(board, d + 2 * down, d, 2, MoveFlag::DoublePawnPush);
    }
    lemma_delta_moves(one, down, MoveFlag::QuietMove, p);
    lemma_delta_moves(two, 2 * down, MoveFlag::DoublePawnPush, p);
    lemma_all_add(per_square(one, move_by_delta(down, MoveFlag::QuietMove)),
        per_square(two, move_by_delta(2 * down, MoveFlag::DoublePawnPush)), p);
}

proof fn lemma_checking_promotions_give_check(board: Board)
    requires
        board.sound(),
    ensures
        all_satisfy(crate::movegen::checking_promotions_of(board), gives_quiet_check_pred(board)),
{
    let us = board.spec_turn();
    let them = us.spec_other();
    let occ = board.occupied();
    lemma_promotion_squares(board);
    let p7 = board.spec_piece_bb(us, Piece::P) & crate::movegen::pawn_ranks(us).1;
    let bb = shift_up_spec(us, p7) & !occ;
    let delta = down_delta(us);
    let eksq = board.king_square(them);
    assert forall|d: int, prom: Piece| #[trigger] bit(bb, d) && prom != Piece::P && prom != Piece::K
        && bit(crate::movegen::piece_moves_bb(prom, d, occ), eksq)
        implies gives_quiet_check_pred(board)(#[trigger] spec_move(d + delta, d, MoveFlag::Promotion { capture: false, prom })) by {
        BitMove::lemma_encode(d + delta, d, MoveFlag::Promotion { capture: false, prom });
        board.lemma_piece_occupies(us, Piece::P, d + delta);
        lemma_piece_on_kind(board, us, Piece::P, d + delta);
        lemma_piece_moves_bb(prom, d, occ, eksq);
    }
    lemma_checking_promotions_pred(bb, delta, eksq, occ, gives_quiet_check_pred(board));
}

proof fn lemma_checking_castles_give_check(board: Board, side: crate::templates::CastleType)
    requires
        board.sound(),
    ensures
        all_satisfy(crate::movegen::checking_castles(board, side), gives_quiet_check_pred(board)),
{
    reveal(crate::movegen::castling_moves);
    let us = board.spec_turn();
    let them = us.spec_other();
    let occ = board.occupied();
    let r_to = crate::movegen::castle_rook_to(us, side);
    if bit(reach_bb(Reach::Rook, r_to, occ), board.king_square(them)) {
        board.lemma_king_on_square(us);
        let r_from = crate::movegen::castle_rook_from(us, side);
        let flag = MoveFlag::Castle { king_side: side == crate::templates::CastleType::KingSide };
        BitMove::lemma_encode(board.king_square(us), r_from, flag);
        crate::attacks::lemma_reach_bb(Reach::Rook, r_to, occ);
    }
}

/// Every quiet check the generator produces is a quiet move that gives check:
/// the moved piece (or the piece a pawn promotes to, or the castled rook)
/// attacks the enemy king from where it lands, or it uncovers a check by a
/// piece of ours.
pub proof fn lemma_quiet_checks_give_check(board: Board, legal: bool)
    requires
        board.wf(),
    ensures
        forall|i: int| 0 <= i < generated_moves(board, legal, GenTypes::QuietChecks).len() ==>
            #[trigger] gives_quiet_check(board, generated_moves(board, legal, GenTypes::QuietChecks)[i]),
{
    reveal(crate::movegen::quiet_check_moves);
    let us = board.spec_turn();
    let them = us.spec_other();
    let occ = board.occupied();
    let p = gives_quiet_check_pred(board);
    lemma_discoveries_give_check(board);
    lemma_pawn_pushes_give_check(board);
    lemma_direct_checks_give_check(board, Piece::N);
    lemma_direct_checks_give_check(board, Piece::B);
    lemma_direct_checks_give_check(board, Piece::R);
    lemma_direct_checks_give_check(board, Piece::Q);
    lemma_checking_promotions_give_check(board);
    lemma_checking_castles_give_check(board, crate::templates::CastleType::QueenSide);
    lemma_checking_castles_give_check(board, crate::templates::CastleType::KingSide);
    let a = per_square(board.spec_blockers(them) & board.occupied_by(us), crate::movegen::discovery_fn(board, occ));
    let pm = crate::movegen::pawn_moves(board, GenTypes::QuietChecks, !occ, occ, board.occupied_by(them));
    let pr = crate::movegen::checking_promotions_of(board);
    let n = crate::movegen::direct_checks_of(board, Piece::N);
    let b = crate::movegen::direct_checks_of(board, Piece::B);
    let r = crate::movegen::direct_checks_of(board, Piece::R);
    let q = crate::movegen::direct_checks_of(board, Piece::Q);
    let cq = crate::movegen::checking_castles(board, crate::templates::CastleType::QueenSide);
    let ck = crate::movegen::checking_castles(board, crate::templates::CastleType::KingSide);
    lemma_all_add(a, pm, p);
    lemma_all_add(a + pm, pr, p);
    lemma_all_add(a + pm + pr, n, p);
    lemma_all_add(a + pm + pr + n, b, p);
    lemma_all_add(a + pm + pr + n + b, r, p);
    lemma_all_add(a + pm + pr + n + b + r, q, p);
    lemma_all_add(a + pm + pr + n + b + r + q, cq, p);
    lemma_all_add(a + pm + pr + n + b + r + q + cq, ck, p);
    lemma_all_keep(legal, board, pseudo_legal_moves(board, GenTypes::QuietChecks), p);
    let g = generated_moves(board, legal, GenTypes::QuietChecks);
    assert forall|i: int| 0 <= i < g.len() implies #[trigger] gives_quiet_check(board, g[i]) by {
        assert(p(g[i]));
    }
}


/// Generating all moves gives, move for move and in the same order, the
/// evasions when the side to move is in check and the non-evasions otherwise.
pub proof fn lemma_all_is_evasions_or_non_evasions(board: Board, legal: bool)
    ensures
        generated_moves(board, legal, GenTypes::All) == (if board.spec_checkers() != 0 {
            generated_moves(board, legal, GenTypes::Evasions)
        } else {
            generated_moves(board, legal, GenTypes::NonEvasions)
        }),
{
}

/// Which part of the quiet checks a move belongs to, by the piece on its
/// source square and its flags: uncovering moves of pieces other than pawns
/// (0), single and double pawn pushes (1, 2), promotions (3), direct checks of
/// knights, bishops, rooks and queens (4 to 7), and castling on the queen's
/// and on the king's side (8, 9).
pub open spec fn quiet_check_part(board: Board, m: BitMove) -> int {
    let us = board.spec_turn();
    let them = us.spec_other();
    let dc = board.spec_blockers(them) & board.occupied_by(us);
    let src = m.spec_src();
    let fl = m.spec_flag_bits();
    match board.piece_on(src) {
        Some(Piece::P) => if fl == 0 { 1 } else if fl == 1 { 2 } else { 3 },
        Some(piece) => if piece == Piece::K && is_castle_flag(fl) {
            if fl == 3 { 8 } else { 9 }
        } else if bit(dc, src) {
            0
        } else {
            match piece {
                Piece::N => 4,
                Piece::B => 5,
                Piece::R => 6,
                _ => 7,
            }
        },
        None => -1,
    }
}

/// Moves from `src` to the squares of `bb` are distinct and land on `bb`.
proof fn lemma_from_src_once(bb: u64, src: int, flag: MoveFlag)
    requires
        0 <= src < 64,
    ensures
        per_square(bb, move_from_src(src, flag)).no_duplicates(),
        forall|i: int| 0 <= i < per_square(bb, move_from_src(src, flag)).len() ==> {
            let m = #[trigger] per_square(bb, move_from_src(src, flag))[i];
            &&& m.spec_src() == src
            &&& bit(bb, m.spec_dst())
            &&& m.spec_flag_bits() == crate::piece_move::flag_bits(flag)
        },
{
    let f = move_from_src(src, flag);
    let tag = |m: BitMove| m.spec_dst();
    assert forall|d: int| #[trigger] bit(bb, d) implies f(d).no_duplicates()
        && (forall|i: int| 0 <= i < f(d).len() ==> tag(#[trigger] f(d)[i]) == d && (f(d)[i]).spec_src() == src
            && (f(d)[i]).spec_flag_bits() == crate::piece_move::flag_bits(flag)) by {
        BitMove::lemma_encode(src, d, flag);
        assert(f(d)[0] == spec_move(src, d, flag));
    }
    lemma_per_square_once(bb, f, tag, |m: BitMove| m.spec_src() == src
        && m.spec_flag_bits() == crate::piece_move::flag_bits(flag));
}

/// Moves from `d + delta` to the squares `d` of `bb` are distinct.
proof fn lemma_by_delta_once(bb: u64, delta: int, flag: MoveFlag)
    requires
        forall|d: int| #[trigger] bit(bb, d) ==> 0 <= d + delta < 64,
    ensures
        per_square(bb, move_by_delta(delta, flag)).no_duplicates(),
        forall|i: int| 0 <= i < per_square(bb, move_by_delta(delta, flag)).len() ==> {
            let m = #[trigger] per_square(bb, move_by_delta(delta, flag))[i];
            &&& bit(bb, m.spec_dst())
            &&& m.spec_src() == m.spec_dst() + delta
            &&& m.spec_flag_bits() == crate::piece_move::flag_bits(flag)
        },
{
    let f = move_by_delta(delta, flag);
    let tag = |m: BitMove| m.spec_dst();
    let q = |m: BitMove| m.spec_src() == m.spec_dst() + delta && m.spec_flag_bits() == crate::piece_move::flag_bits(flag);
    assert forall|d: int| #[trigger] bit(bb, d) implies f(d).no_duplicates()
        && (forall|i: int| 0 <= i < f(d).len() ==> tag(#[trigger] f(d)[i]) == d && q(f(d)[i])) by {
        BitMove::lemma_encode(d + delta, d, flag);
        assert(f(d)[0] == spec_move(d + delta, d, flag));
    }
    lemma_per_square_once(bb, f, tag, q);
}

/// The moves of `per_square(bb, f)` are distinct when each square's moves
/// are distinct and carry that square as their tag.
proof fn lemma_per_square_once(bb: u64, f: spec_fn(int) -> Seq<BitMove>, tag: spec_fn(BitMove) -> int,
    q: spec_fn(BitMove) -> bool)
    requires
        forall|s: int| #[trigger] bit(bb, s) ==> f(s).no_duplicates()
            && (forall|i: int| 0 <= i < f(s).len() ==> tag(#[trigger] f(s)[i]) == s && q(f(s)[i])),
    ensures
        per_square(bb, f).no_duplicates(),
        forall|i: int| 0 <= i < per_square(bb, f).len() ==> bit(bb, tag(#[trigger] per_square(bb, f)[i]))
            && q(per_square(bb, f)[i]),
    decreases bb,
{
    if bb != 0 {
        lemma_lowest(bb);
        crate::bitboard::lemma_without_lowest_smaller(bb);
        let t = vstd::std_specs::bits::u64_trailing_zeros(bb) as int;
        let rest = without_lowest(bb);
        assert forall|s: int| #[trigger] bit(rest, s) implies f(s).no_duplicates()
            && (forall|i: int| 0 <= i < f(s).len() ==> tag(#[trigger] f(s)[i]) == s && q(f(s)[i])) by {
            assert(bit(bb, s));
        }
        lemma_per_square_once(rest, f, tag, q);
        assert(bit(bb, t));
        assert(!bit(rest, t));
        let a = f(t);
        let b = per_square(rest, f);
        assert forall|i: int, j: int| 0 <= i < a.len() && 0 <= j < b.len() implies a[i] != b[j] by {
            assert(tag(a[i]) == t);
            assert(bit(rest, tag(b[j])));
        }
        vstd::seq_lib::lemma_no_dup_in_concat(a, b);
        assert forall|i: int| 0 <= i < (a + b).len() implies bit(bb, tag(#[trigger] (a + b)[i])) && q((a + b)[i]) by {
            if i < a.len() {
                assert((a + b)[i] == a[i]);
            } else {
                assert((a + b)[i] == b[i - a.len()]);
                assert(bit(rest, tag(b[i - a.len()])));
            }
        }
    }
}

/// Appending moves of later parts to distinct moves of earlier parts keeps
/// them distinct.
proof fn lemma_append_once(a: Seq<BitMove>, b: Seq<BitMove>, part: spec_fn(BitMove) -> int, lo: int, hi: int)
    requires
        lo <= hi,
        a.no_duplicates(),
        b.no_duplicates(),
        forall|i: int| 0 <= i < a.len() ==> part(#[trigger] a[i]) < lo,
        forall|i: int| 0 <= i < b.len() ==> lo <= part(#[trigger] b[i]) <= hi,
    ensures
        (a + b).no_duplicates(),
        forall|i: int| 0 <= i < (a + b).len() ==> part(#[trigger] (a + b)[i]) <= hi,
{
    assert forall|i: int, j: int| 0 <= i < a.len() && 0 <= j < b.len() implies a[i] != b[j] by {
        assert(part(a[i]) < lo);
        assert(lo <= part(b[j]));
    }
    vstd::seq_lib::lemma_no_dup_in_concat(a, b);
    assert forall|i: int| 0 <= i < (a + b).len() implies part(#[trigger] (a + b)[i]) <= hi by {
        if i < a.len() {
            assert((a + b)[i] == a[i]);
        } else {
            assert((a + b)[i] == b[i - a.len()]);
        }
    }
}

/// Keeping some of distinct moves keeps them distinct.
proof fn lemma_filter_once(ms: Seq<BitMove>, q: spec_fn(BitMove) -> bool)
    requires
        ms.no_duplicates(),
    ensures
        ms.filter(q).no_duplicates(),
    decreases ms.len(),
{
    reveal(Seq::filter);
    if ms.len() > 0 {
        let init = ms.drop_last();
        assert forall|i: int, j: int| 0 <= i < init.len() && 0 <= j < init.len() && i != j implies init[i] != init[j] by {
            assert(init[i] == ms[i] && init[j] == ms[j]);
        }
        lemma_filter_once(init, q);
        if q(ms.last()) {
            if init.filter(q).contains(ms.last()) {
                init.lemma_filter_contains_rev(q, ms.last());
                let k = choose|k: int| 0 <= k < init.len() && init[k] == ms.last();
                assert(ms[k] == ms[ms.len() - 1]);
                assert(false);
            }
            assert(ms.filter(q) == init.filter(q).push(ms.last()));
        } else {
            assert(ms.filter(q) == init.filter(q));
        }
    }
}


proof fn lemma_direct_checks_once(board: Board, piece: Piece, k: int)
    requires
        board.sound(),
        k == (match piece {
            Piece::N => 4int,
            Piece::B => 5,
            Piece::R => 6,
            _ => 7,
        }),
        piece != Piece::P,
        piece != Piece::K,
    ensures
        crate::movegen::direct_checks_of(board, piece).no_duplicates(),
        forall|i: int| 0 <= i < crate::movegen::direct_checks_of(board, piece).len() ==>
            quiet_check_part(board, #[trigger] crate::movegen::direct_checks_of(board, piece)[i]) == k,
{
    let us = board.spec_turn();
    let them = us.spec_other();
    let occ = board.occupied();
    let us_occ = board.occupied_by(us);
    let them_occ = board.occupied_by(them);
    let dc = board.spec_blockers(them) & us_occ;
    let srcs = board.spec_piece_bb(us, piece) & !dc;
    lemma_bit_ops(board.spec_piece_bb(us, piece), !dc);
    lemma_bit_ops(board.spec_blockers(them), us_occ);
    lemma_bit_ops(dc, dc);
    let target = crate::movegen::check_squares(piece, board.king_square(them), occ) & !occ;
    let f = crate::movegen::piece_moves_fn(piece, target, occ, us_occ, them_occ);
    let part = |m: BitMove| quiet_check_part(board, m);
    let tag = |m: BitMove| m.spec_src();
    let q = |m: BitMove| part(m) == k;
    assert forall|src: int| #[trigger] bit(srcs, src) implies f(src).no_duplicates()
        && (forall|i: int| 0 <= i < f(src).len() ==> tag(#[trigger] f(src)[i]) == src && q(f(src)[i])) by {
        let moves = crate::movegen::piece_moves_bb(piece, src, occ) & !us_occ & target;
        let cap = MoveFlag::Capture { ep_capture: false };
        let a = per_square(moves & them_occ, move_from_src(src, cap));
        let b = per_square(moves & !them_occ, move_from_src(src, MoveFlag::QuietMove));
        lemma_from_src_once(moves & them_occ, src, cap);
        lemma_from_src_once(moves & !them_occ, src, MoveFlag::QuietMove);
        assert forall|i: int, j: int| 0 <= i < a.len() && 0 <= j < b.len() implies a[i] != b[j] by {
            assert(a[i].spec_flag_bits() == 4);
            assert(b[j].spec_flag_bits() == 0);
        }
        vstd::seq_lib::lemma_no_dup_in_concat(a, b);
        assert(bit(board.spec_piece_bb(us, piece), src));
        assert(!bit(dc, src));
        lemma_piece_on_kind(board, us, piece, src);
        assert forall|i: int| 0 <= i < f(src).len() implies tag(#[trigger] f(src)[i]) == src && q(f(src)[i]) by {
            if i < a.len() {
                assert(f(src)[i] == a[i]);
            } else {
                assert(f(src)[i] == b[i - a.len()]);
            }
        }
    }
    lemma_per_square_once(srcs, f, tag, q);
}

/// A checking castle is a single move, in the part of its side.
proof fn lemma_checking_castles_part(board: Board, side: crate::templates::CastleType)
    requires
        board.sound(),
    ensures
        crate::movegen::checking_castles(board, side).no_duplicates(),
        forall|i: int| 0 <= i < crate::movegen::checking_castles(board, side).len() ==>
            quiet_check_part(board, #[trigger] crate::movegen::checking_castles(board, side)[i])
                == (if side == crate::templates::CastleType::QueenSide { 8int } else { 9 }),
{
    reveal(crate::movegen::castling_moves);
    let us = board.spec_turn();
    board.lemma_king_on_square(us);
    lemma_piece_on_kind(board, us, Piece::K, board.king_square(us));
    let r_from = crate::movegen::castle_rook_from(us, side);
    let flag = MoveFlag::Castle { king_side: side == crate::templates::CastleType::KingSide };
    BitMove::lemma_encode(board.king_square(us), r_from, flag);
}

/// No quiet check is generated twice.
pub proof fn lemma_quiet_checks_once(board: Board, legal: bool)
    requires
        board.wf(),
    ensures
        generated_moves(board, legal, GenTypes::QuietChecks).no_duplicates(),
{
    reveal(crate::movegen::quiet_check_moves);
    let us = board.spec_turn();
    let them = us.spec_other();
    let occ = board.occupied();
    let us_occ = board.occupied_by(us);
    let dc = board.spec_blockers(them) & us_occ;
    let part = |m: BitMove| quiet_check_part(board, m);
    lemma_bit_ops(board.spec_blockers(them), us_occ);
    let f = crate::movegen::discovery_fn(board, occ);
    let tag = |m: BitMove| m.spec_src();
    let q0 = |m: BitMove| part(m) == 0;
    assert forall|from: int| #[trigger] bit(dc, from) implies f(from).no_duplicates()
        && (forall|i: int| 0 <= i < f(from).len() ==> tag(#[trigger] f(from)[i]) == from && q0(f(from)[i])) by {
        match board.piece_on(from) {
            Some(piece) => {
                if piece != Piece::P {
                    let eksq = board.king_square(them);
                    let b = crate::movegen::piece_moves_bb(piece, from, occ) & !occ;
                    let b2 = b & (!reach_bb(Reach::Line(eksq as u8), from, 0) | crate::movegen::check_squares(piece, eksq, occ));
                    lemma_from_src_once(b2, from, MoveFlag::QuietMove);
                } else {
                    assert(f(from) =~= Seq::<BitMove>::empty());
                }
            },
            None => {
                assert(f(from) =~= Seq::<BitMove>::empty());
            },
        }
    }
    lemma_per_square_once(dc, f, tag, q0);
    let a = per_square(dc, f);
    // pawn pushes
    let down = down_delta(us);
    lemma_quiet_push_squares(board);
    lemma_quiet_check_pawn_moves(board);
    let (one, two) = crate::movegen::pawn_pushes(board, GenTypes::QuietChecks, !occ, occ);
    lemma_by_delta_once(one, down, MoveFlag::QuietMove);
    lemma_by_delta_once(two, 2 * down, MoveFlag::DoublePawnPush);
    let singles = per_square(one, move_by_delta(down, MoveFlag::QuietMove));
    let doubles = per_square(two, move_by_delta(2 * down, MoveFlag::DoublePawnPush));
    assert forall|i: int| 0 <= i < singles.len() implies part(#[trigger] singles[i]) == 1 by {
        lemma_piece_on_kind(board, us, Piece::P, singles[i].spec_src());
    }
    assert forall|i: int| 0 <= i < doubles.len() implies part(#[trigger] doubles[i]) == 2 by {
        lemma_piece_on_kind(board, us, Piece::P, doubles[i].spec_src());
    }
    lemma_append_once(singles, doubles, part, 2, 2);
    assert forall|i: int| 0 <= i < (singles + doubles).len() implies 1 <= part(#[trigger] (singles + doubles)[i]) <= 2 by {
        if i < singles.len() {
            assert((singles + doubles)[i] == singles[i]);
        } else {
            assert((singles + doubles)[i] == doubles[i - singles.len()]);
        }
    }
    let pm = crate::movegen::pawn_moves(board, GenTypes::QuietChecks, !occ, occ, board.occupied_by(them));
    assert(pm == singles + doubles);
    lemma_append_once(a, pm, part, 1, 2);
    // promotions by pushing
    lemma_promotion_squares(board);
    let p7 = board.spec_piece_bb(us, Piece::P) & crate::movegen::pawn_ranks(us).1;
    let pbb = shift_up_spec(us, p7) & !occ;
    let eksq = board.king_square(them);
    lemma_checking_promotions_once(pbb, down, eksq, occ);
    let pr = crate::movegen::checking_promotions_of(board);
    assert forall|i: int| 0 <= i < pr.len() implies part(#[trigger] pr[i]) == 3 by {
        lemma_piece_on_kind(board, us, Piece::P, pr[i].spec_src());
    }
    lemma_append_once(a + pm, pr, part, 3, 3);
    lemma_direct_checks_once(board, Piece::N, 4);
    lemma_direct_checks_once(board, Piece::B, 5);
    lemma_direct_checks_once(board, Piece::R, 6);
    lemma_direct_checks_once(board, Piece::Q, 7);
    let n = crate::movegen::direct_checks_of(board, Piece::N);
    let b = crate::movegen::direct_checks_of(board, Piece::B);
    let r = crate::movegen::direct_checks_of(board, Piece::R);
    let q = crate::movegen::direct_checks_of(board, Piece::Q);
    lemma_append_once(a + pm + pr, n, part, 4, 4);
    lemma_append_once(a + pm + pr + n, b, part, 5, 5);
    lemma_append_once(a + pm + pr + n + b, r, part, 6, 6);
    lemma_append_once(a + pm + pr + n + b + r, q, part, 7, 7);
    // castling
    let cq = crate::movegen::checking_castles(board, crate::templates::CastleType::QueenSide);
    let ck = crate::movegen::checking_castles(board, crate::templates::CastleType::KingSide);
    lemma_checking_castles_part(board, crate::templates::CastleType::QueenSide);
    lemma_checking_castles_part(board, crate::templates::CastleType::KingSide);
    lemma_append_once(a + pm + pr + n + b + r + q, cq, part, 8, 8);
    lemma_append_once(a + pm + pr + n + b + r + q + cq, ck, part, 9, 9);
    assert(crate::movegen::quiet_check_moves(board) == a + pm + pr + n + b + r + q + cq + ck);
    if legal {
        lemma_filter_once(crate::movegen::quiet_check_moves(board), legal_pred(board));
    }
}


/// Which part of a generated list a move belongs to, by the piece on its
/// source square and its flags, numbered in the order in which moves other
/// than evasions are generated: single and double pawn pushes (1, 2),
/// promotions by pushing, capturing to the left and to the right (3 to 5),
/// pawn captures to the left and to the right and en passant (6 to 8), moves
/// of knights, bishops, rooks and queens (9 to 12), king moves (13) and
/// castling on the queen's and on the king's side (14, 15).
pub open spec fn move_part(board: Board, m: BitMove) -> int {
    let us = board.spec_turn();
    let src = m.spec_src();
    let dst = m.spec_dst();
    let fl = m.spec_flag_bits();
    match board.piece_on(src) {
        Some(Piece::P) => if fl == 0 {
            1
        } else if fl == 1 {
            2
        } else if 8 <= fl < 12 {
            3
        } else if fl >= 12 {
            if src - dst == down_right_delta(us) { 4 } else { 5 }
        } else if fl == 4 {
            if src - dst == down_right_delta(us) { 6 } else { 7 }
        } else {
            8
        },
        Some(Piece::N) => 9,
        Some(Piece::B) => 10,
        Some(Piece::R) => 11,
        Some(Piece::Q) => 12,
        Some(Piece::K) => if fl == 3 { 14 } else if fl == 2 { 15 } else { 13 },
        None => -1,
    }
}

/// The parts of evasions, king moves first.
pub open spec fn evasion_part(board: Board, m: BitMove) -> int {
    if move_part(board, m) == 13 { 0 } else { move_part(board, m) }
}

/// Moves from the squares of `bb` to `dst` are distinct.
proof fn lemma_to_dst_once(bb: u64, dst: int, flag: MoveFlag)
    requires
        0 <= dst < 64,
    ensures
        per_square(bb, move_to_dst(dst, flag)).no_duplicates(),
        forall|i: int| 0 <= i < per_square(bb, move_to_dst(dst, flag)).len() ==> {
            let m = #[trigger] per_square(bb, move_to_dst(dst, flag))[i];
            &&& bit(bb, m.spec_src())
            &&& m.spec_dst() == dst
            &&& m.spec_flag_bits() == crate::piece_move::flag_bits(flag)
        },
{
    let f = move_to_dst(dst, flag);
    let tag = |m: BitMove| m.spec_src();
    let q = |m: BitMove| m.spec_dst() == dst && m.spec_flag_bits() == crate::piece_move::flag_bits(flag);
    assert forall|s: int| #[trigger] bit(bb, s) implies f(s).no_duplicates()
        && (forall|i: int| 0 <= i < f(s).len() ==> tag(#[trigger] f(s)[i]) == s && q(f(s)[i])) by {
        BitMove::lemma_encode(s, dst, flag);
        assert(f(s)[0] == spec_move(s, dst, flag));
    }
    lemma_per_square_once(bb, f, tag, q);
}

/// Promotions from `d + delta` to the squares `d` of `bb` are distinct.
proof fn lemma_promotions_once(bb: u64, delta: int, capture: bool)
    requires
        forall|d: int| #[trigger] bit(bb, d) ==> 0 <= d + delta < 64,
    ensures
        per_square(bb, promotions_by_delta(delta, capture)).no_duplicates(),
        forall|i: int| 0 <= i < per_square(bb, promotions_by_delta(delta, capture)).len() ==> {
            let m = #[trigger] per_square(bb, promotions_by_delta(delta, capture))[i];
            &&& bit(bb, m.spec_dst())
            &&& m.spec_src() == m.spec_dst() + delta
            &&& (if capture { 12 <= m.spec_flag_bits() < 16 } else { 8 <= m.spec_flag_bits() < 12 })
        },
{
    let f = promotions_by_delta(delta, capture);
    let tag = |m: BitMove| m.spec_dst();
    let q = |m: BitMove| m.spec_src() == m.spec_dst() + delta
        && (if capture { 12 <= m.spec_flag_bits() < 16 } else { 8 <= m.spec_flag_bits() < 12 });
    assert forall|d: int| #[trigger] bit(bb, d) implies f(d).no_duplicates()
        && (forall|i: int| 0 <= i < f(d).len() ==> tag(#[trigger] f(d)[i]) == d && q(f(d)[i])) by {
        BitMove::lemma_encode(d + delta, d, MoveFlag::Promotion { capture, prom: Piece::Q });
        BitMove::lemma_encode(d + delta, d, MoveFlag::Promotion { capture, prom: Piece::N });
        BitMove::lemma_encode(d + delta, d, MoveFlag::Promotion { capture, prom: Piece::R });
        BitMove::lemma_encode(d + delta, d, MoveFlag::Promotion { capture, prom: Piece::B });
        let s = f(d);
        assert(s == promotions(d + delta, d, capture));
        assert forall|i: int, j: int| 0 <= i < s.len() && 0 <= j < s.len() && i != j implies s[i] != s[j] by {
            assert(s[i].spec_flag_bits() != s[j].spec_flag_bits());
        }
    }
    lemma_per_square_once(bb, f, tag, q);
}

/// The moves of pieces of kind `piece` (not a pawn) from the squares of
/// `srcs` onto `target` are distinct, and all in part `k` when every plain
/// move or capture from `srcs` is.
proof fn lemma_pieces_once(piece: Piece, srcs: u64, target: u64, occ: u64, us_occ: u64, them_occ: u64,
    part: spec_fn(BitMove) -> int, k: int)
    requires
        forall|m: BitMove| bit(srcs, m.spec_src()) && (m.spec_flag_bits() == 0 || m.spec_flag_bits() == 4)
            ==> #[trigger] part(m) == k,
    ensures
        per_square(srcs, crate::movegen::piece_moves_fn(piece, target, occ, us_occ, them_occ)).no_duplicates(),
        forall|i: int| 0 <= i < per_square(srcs, crate::movegen::piece_moves_fn(piece, target, occ, us_occ, them_occ)).len()
            ==> part(#[trigger] per_square(srcs, crate::movegen::piece_moves_fn(piece, target, occ, us_occ, them_occ))[i]) == k,
{
    let f = crate::movegen::piece_moves_fn(piece, target, occ, us_occ, them_occ);
    let tag = |m: BitMove| m.spec_src();
    let q = |m: BitMove| part(m) == k;
    assert forall|src: int| #[trigger] bit(srcs, src) implies f(src).no_duplicates()
        && (forall|i: int| 0 <= i < f(src).len() ==> tag(#[trigger] f(src)[i]) == src && q(f(src)[i])) by {
        let moves = crate::movegen::piece_moves_bb(piece, src, occ) & !us_occ & target;
        let cap = MoveFlag::Capture { ep_capture: false };
        let a = per_square(moves & them_occ, move_from_src(src, cap));
        let b = per_square(moves & !them_occ, move_from_src(src, MoveFlag::QuietMove));
        lemma_from_src_once(moves & them_occ, src, cap);
        lemma_from_src_once(moves & !them_occ, src, MoveFlag::QuietMove);
        assert forall|i: int, j: int| 0 <= i < a.len() && 0 <= j < b.len() implies a[i] != b[j] by {
            assert(a[i].spec_flag_bits() == 4);
            assert(b[j].spec_flag_bits() == 0);
        }
        vstd::seq_lib::lemma_no_dup_in_concat(a, b);
        assert forall|i: int| 0 <= i < f(src).len() implies tag(#[trigger] f(src)[i]) == src && q(f(src)[i]) by {
            if i < a.len() {
                assert(f(src)[i] == a[i]);
            } else {
                assert(f(src)[i] == b[i - a.len()]);
            }
        }
    }
    lemma_per_square_once(srcs, f, tag, q);
}

/// Moves from a pawn of the side to move belong to the pawn parts.
proof fn lemma_pawn_part(board: Board, m: BitMove)
    requires
        board.sound(),
        bit(board.spec_piece_bb(board.spec_turn(), Piece::P), m.spec_src()),
    ensures
        board.piece_on(m.spec_src()) == Some(Piece::P),
{
    lemma_piece_on_kind(board, board.spec_turn(), Piece::P, m.spec_src());
}

#[verifier::spinoff_prover]
#[verifier::rlimit(40)]
proof fn lemma_pawn_moves_once(board: Board, gen: GenTypes, target: u64, occ: u64, us_occ: u64, them_occ: u64)
    requires
        occupancies(board, occ, us_occ, them_occ),
        (gen == GenTypes::Quiets || gen == GenTypes::QuietChecks || gen == GenTypes::Captures) ==> avoids(target, us_occ),
    ensures
        crate::movegen::pawn_moves(board, gen, target, occ, them_occ).no_duplicates(),
        forall|i: int| 0 <= i < crate::movegen::pawn_moves(board, gen, target, occ, them_occ).len() ==>
            1 <= move_part(board, #[trigger] crate::movegen::pawn_moves(board, gen, target, occ, them_occ)[i]) <= 8,
{
    reveal(crate::movegen::pawn_moves);
    let us = board.spec_turn();
    let them = us.spec_other();
    let (rank_8, rank_7, rank_3) = crate::movegen::pawn_ranks(us);
    let pawns = board.spec_piece_bb(us, Piece::P);
    let not7 = pawns & !rank_7;
    let p7 = pawns & rank_7;
    let down = down_delta(us);
    let part = |m: BitMove| move_part(board, m);
    lemma_bit_ops(pawns, !rank_7);
    lemma_bit_ops(pawns, rank_7);
    // pushes: parts 1 and 2
    let a = crate::movegen::pawn_push_moves(board, gen, target, occ);
    if gen != GenTypes::Captures {
        lemma_pawn_pushes_ok(board, gen, target, occ, us_occ, them_occ);
        let (one, two) = crate::movegen::pawn_pushes(board, gen, target, occ);
        lemma_by_delta_once(one, down, MoveFlag::QuietMove);
        lemma_by_delta_once(two, 2 * down, MoveFlag::DoublePawnPush);
        let singles = per_square(one, move_by_delta(down, MoveFlag::QuietMove));
        let doubles = per_square(two, move_by_delta(2 * down, MoveFlag::DoublePawnPush));
        assert forall|i: int| 0 <= i < singles.len() implies part(#[trigger] singles[i]) == 1 by {
            assert(bit(one, singles[i].spec_dst()));
            lemma_pawn_part(board, singles[i]);
        }
        assert forall|i: int| 0 <= i < doubles.len() implies part(#[trigger] doubles[i]) == 2 by {
            assert(bit(two, doubles[i].spec_dst()));
            lemma_pawn_part(board, doubles[i]);
        }
        lemma_append_once(singles, doubles, part, 2, 2);
        assert forall|i: int| 0 <= i < a.len() implies 1 <= part(#[trigger] a[i]) <= 2 by {
            if i < singles.len() {
                assert(a[i] == singles[i]);
            } else {
                assert(a[i] == doubles[i - singles.len()]);
            }
        }
    }
    // promotions: parts 3 to 5
    let b = crate::movegen::pawn_promo_moves(board, gen, target, occ, them_occ);
    if gen != GenTypes::QuietChecks && p7 != 0 && (gen != GenTypes::Evasions || target & rank_8 != 0) {
        let empty = crate::movegen::promo_empty(gen, target, occ);
        let enemies = crate::movegen::pawn_enemies(gen, target, them_occ);
        lemma_shift_up(us, p7);
        lemma_shift_up_sides(us, p7);
        let pu = shift_up_spec(us, p7) & empty;
        let pl = shift_up_left_spec(us, p7) & enemies;
        let pr = shift_up_right_spec(us, p7) & enemies;
        lemma_bit_ops(shift_up_spec(us, p7), empty);
        lemma_bit_ops(shift_up_left_spec(us, p7), enemies);
        lemma_bit_ops(shift_up_right_spec(us, p7), enemies);
        lemma_promotions_once(pu, down, false);
        lemma_promotions_once(pl, down_right_delta(us), true);
        lemma_promotions_once(pr, down_left_delta(us), true);
        let b1 = per_square(pu, promotions_by_delta(down, false));
        let b2 = per_square(pl, promotions_by_delta(down_right_delta(us), true));
        let b3 = per_square(pr, promotions_by_delta(down_left_delta(us), true));
        assert forall|i: int| 0 <= i < b1.len() implies part(#[trigger] b1[i]) == 3 by {
            assert(bit(pu, b1[i].spec_dst()));
            lemma_pawn_part(board, b1[i]);
        }
        assert forall|i: int| 0 <= i < b2.len() implies part(#[trigger] b2[i]) == 4 by {
            assert(bit(pl, b2[i].spec_dst()));
            lemma_pawn_part(board, b2[i]);
        }
        assert forall|i: int| 0 <= i < b3.len() implies part(#[trigger] b3[i]) == 5 by {
            assert(bit(pr, b3[i].spec_dst()));
            lemma_pawn_part(board, b3[i]);
        }
        lemma_append_once(b1, b2, part, 4, 4);
        lemma_append_once(b1 + b2, b3, part, 5, 5);
        assert forall|i: int| 0 <= i < b.len() implies 3 <= part(#[trigger] b[i]) <= 5 by {
            if i < b1.len() {
                assert(b[i] == b1[i]);
            } else if i < b1.len() + b2.len() {
                assert(b[i] == b2[i - b1.len()]);
            } else {
                assert(b[i] == b3[i - b1.len() - b2.len()]);
            }
        }
    }
    // captures: parts 6 to 8
    let c = crate::movegen::pawn_capture_moves(board, gen, target, them_occ);
    if crate::movegen::gen_has_captures(gen) {
        let enemies = crate::movegen::pawn_enemies(gen, target, them_occ);
        lemma_shift_up_sides(us, not7);
        let cl = shift_up_left_spec(us, not7) & enemies;
        let cr = shift_up_right_spec(us, not7) & enemies;
        lemma_bit_ops(shift_up_left_spec(us, not7), enemies);
        lemma_bit_ops(shift_up_right_spec(us, not7), enemies);
        let cap = MoveFlag::Capture { ep_capture: false };
        lemma_by_delta_once(cl, down_right_delta(us), cap);
        lemma_by_delta_once(cr, down_left_delta(us), cap);
        let c1 = per_square(cl, move_by_delta(down_right_delta(us), cap));
        let c2 = per_square(cr, move_by_delta(down_left_delta(us), cap));
        let c3 = crate::movegen::ep_capture_moves(board, gen, target);
        assert forall|i: int| 0 <= i < c1.len() implies part(#[trigger] c1[i]) == 6 by {
            assert(bit(cl, c1[i].spec_dst()));
            lemma_pawn_part(board, c1[i]);
        }
        assert forall|i: int| 0 <= i < c2.len() implies part(#[trigger] c2[i]) == 7 by {
            assert(bit(cr, c2[i].spec_dst()));
            lemma_pawn_part(board, c2[i]);
        }
        let ep = board.spec_ep_square() as int;
        if ep != NO_SQ && (gen != GenTypes::Evasions || target & sq_bb(ep + down_delta(us)) != 0) {
            board.lemma_ep_square();
            let from = not7 & reach_bb(Reach::Pawn(them), ep, 0);
            lemma_bit_ops(not7, reach_bb(Reach::Pawn(them), ep, 0));
            lemma_to_dst_once(from, ep, MoveFlag::Capture { ep_capture: true });
            assert forall|i: int| 0 <= i < c3.len() implies part(#[trigger] c3[i]) == 8 by {
                assert(bit(from, c3[i].spec_src()));
                lemma_pawn_part(board, c3[i]);
            }
        }
        lemma_append_once(c1, c2, part, 7, 7);
        lemma_append_once(c1 + c2, c3, part, 8, 8);
        assert forall|i: int| 0 <= i < c.len() implies 6 <= part(#[trigger] c[i]) <= 8 by {
            if i < c1.len() {
                assert(c[i] == c1[i]);
            } else if i < c1.len() + c2.len() {
                assert(c[i] == c2[i - c1.len()]);
            } else {
                assert(c[i] == c3[i - c1.len() - c2.len()]);
            }
        }
    }
    lemma_append_once(a, b, part, 3, 5);
    lemma_append_once(a + b, c, part, 6, 8);
    assert forall|i: int| 0 <= i < (a + b + c).len() implies 1 <= part(#[trigger] (a + b + c)[i]) by {
        if i < a.len() {
            assert((a + b + c)[i] == a[i]);
        } else if i < a.len() + b.len() {
            assert((a + b + c)[i] == b[i - a.len()]);
        } else {
            assert((a + b + c)[i] == c[i - a.len() - b.len()]);
        }
    }
}


proof fn lemma_piece_kind_once(board: Board, piece: Piece, target: u64, occ: u64, us_occ: u64, them_occ: u64, k: int)
    requires
        board.sound(),
        piece != Piece::P,
        k == (match piece {
            Piece::N => 9int,
            Piece::B => 10,
            Piece::R => 11,
            Piece::Q => 12,
            _ => 13,
        }),
    ensures
        per_square(board.spec_piece_bb(board.spec_turn(), piece),
            crate::movegen::piece_moves_fn(piece, target, occ, us_occ, them_occ)).no_duplicates(),
        forall|i: int| 0 <= i < per_square(board.spec_piece_bb(board.spec_turn(), piece),
            crate::movegen::piece_moves_fn(piece, target, occ, us_occ, them_occ)).len() ==>
            move_part(board, #[trigger] per_square(board.spec_piece_bb(board.spec_turn(), piece),
                crate::movegen::piece_moves_fn(piece, target, occ, us_occ, them_occ))[i]) == k,
{
    let us = board.spec_turn();
    let srcs = board.spec_piece_bb(us, piece);
    let part = |m: BitMove| move_part(board, m);
    assert forall|m: BitMove| bit(srcs, m.spec_src()) && (m.spec_flag_bits() == 0 || m.spec_flag_bits() == 4)
        implies #[trigger] part(m) == k by {
        lemma_piece_on_kind(board, us, piece, m.spec_src());
    }
    lemma_pieces_once(piece, srcs, target, occ, us_occ, them_occ, part, k);
}

proof fn lemma_castling_once(board: Board, side: crate::templates::CastleType)
    requires
        board.sound(),
    ensures
        crate::movegen::castling_moves(board, side).no_duplicates(),
        forall|i: int| 0 <= i < crate::movegen::castling_moves(board, side).len() ==>
            move_part(board, #[trigger] crate::movegen::castling_moves(board, side)[i])
                == (if side == crate::templates::CastleType::QueenSide { 14int } else { 15 }),
{
    reveal(crate::movegen::castling_moves);
    let us = board.spec_turn();
    board.lemma_king_on_square(us);
    lemma_piece_on_kind(board, us, Piece::K, board.king_square(us));
    let r_from = crate::movegen::castle_rook_from(us, side);
    let flag = MoveFlag::Castle { king_side: side == crate::templates::CastleType::KingSide };
    BitMove::lemma_encode(board.king_square(us), r_from, flag);
}

proof fn lemma_all_moves_once(board: Board, gen: GenTypes, target: u64, occ: u64, us_occ: u64, them_occ: u64)
    requires
        occupancies(board, occ, us_occ, them_occ),
        (gen == GenTypes::Quiets || gen == GenTypes::QuietChecks || gen == GenTypes::Captures) ==> avoids(target, us_occ),
    ensures
        crate::movegen::all_moves(board, gen, target, occ, us_occ, them_occ).no_duplicates(),
        forall|i: int| 0 <= i < crate::movegen::all_moves(board, gen, target, occ, us_occ, them_occ).len() ==> {
            let p = move_part(board, #[trigger] crate::movegen::all_moves(board, gen, target, occ, us_occ, them_occ)[i]);
            1 <= p <= 15 && (gen == GenTypes::Evasions ==> p <= 12)
        },
{
    reveal(crate::movegen::all_moves);
    reveal(crate::movegen::officer_moves);
    let us = board.spec_turn();
    let part = |m: BitMove| move_part(board, m);
    lemma_pawn_moves_once(board, gen, target, occ, us_occ, them_occ);
    let pm = crate::movegen::pawn_moves(board, gen, target, occ, them_occ);
    let n = per_square(board.spec_piece_bb(us, Piece::N), crate::movegen::piece_moves_fn(Piece::N, target, occ, us_occ, them_occ));
    let b = per_square(board.spec_piece_bb(us, Piece::B), crate::movegen::piece_moves_fn(Piece::B, target, occ, us_occ, them_occ));
    let r = per_square(board.spec_piece_bb(us, Piece::R), crate::movegen::piece_moves_fn(Piece::R, target, occ, us_occ, them_occ));
    let q = per_square(board.spec_piece_bb(us, Piece::Q), crate::movegen::piece_moves_fn(Piece::Q, target, occ, us_occ, them_occ));
    lemma_piece_kind_once(board, Piece::N, target, occ, us_occ, them_occ, 9);
    lemma_piece_kind_once(board, Piece::B, target, occ, us_occ, them_occ, 10);
    lemma_piece_kind_once(board, Piece::R, target, occ, us_occ, them_occ, 11);
    lemma_piece_kind_once(board, Piece::Q, target, occ, us_occ, them_occ, 12);
    lemma_append_once(pm, n, part, 9, 9);
    lemma_append_once(pm + n, b, part, 10, 10);
    lemma_append_once(pm + n + b, r, part, 11, 11);
    lemma_append_once(pm + n + b + r, q, part, 12, 12);
    let o = n + b + r + q;
    assert(crate::movegen::officer_moves(board, target, occ, us_occ, them_occ) == o);
    assert(pm + o =~= pm + n + b + r + q);
    let c: Seq<BitMove> = if gen != GenTypes::QuietChecks && gen != GenTypes::Evasions {
        per_square(board.spec_piece_bb(us, Piece::K), crate::movegen::piece_moves_fn(Piece::K, target, occ, us_occ, them_occ))
    } else {
        Seq::empty()
    };
    lemma_piece_kind_once(board, Piece::K, target, occ, us_occ, them_occ, 13);
    lemma_append_once(pm + o, c, part, 13, 13);
    lemma_castling_once(board, crate::templates::CastleType::QueenSide);
    lemma_castling_once(board, crate::templates::CastleType::KingSide);
    let cq = crate::movegen::castling_moves(board, crate::templates::CastleType::QueenSide);
    let ck = crate::movegen::castling_moves(board, crate::templates::CastleType::KingSide);
    let d: Seq<BitMove> = if gen != GenTypes::Captures && gen != GenTypes::Evasions {
        cq + ck
    } else {
        Seq::empty()
    };
    lemma_append_once(cq, ck, part, 15, 15);
    assert forall|i: int| 0 <= i < d.len() implies 14 <= part(#[trigger] d[i]) <= 15 by {
        if i < cq.len() {
            assert(d[i] == cq[i]);
        } else {
            assert(d[i] == ck[i - cq.len()]);
        }
    }
    lemma_append_once(pm + o + c, d, part, 14, 15);
    let all = pm + o + c + d;
    assert(crate::movegen::all_moves(board, gen, target, occ, us_occ, them_occ) == all);
    assert forall|i: int| 0 <= i < all.len() implies {
        let p = part(#[trigger] all[i]);
        1 <= p <= 15 && (gen == GenTypes::Evasions ==> p <= 12)
    } by {
        let l1 = pm.len();
        let l2 = l1 + n.len();
        let l3 = l2 + b.len();
        let l4 = l3 + r.len();
        let l5 = l4 + q.len();
        let l6 = l5 + c.len();
        if i < l1 {
            assert(all[i] == pm[i]);
        } else if i < l2 {
            assert(all[i] == n[i - l1]);
        } else if i < l3 {
            assert(all[i] == b[i - l2]);
        } else if i < l4 {
            assert(all[i] == r[i - l3]);
        } else if i < l5 {
            assert(all[i] == q[i - l4]);
        } else if i < l6 {
            assert(all[i] == c[i - l5]);
        } else {
            assert(all[i] == d[i - l6]);
        }
    }
}


proof fn lemma_evasions_once(board: Board)
    requires
        board.sound(),
    ensures
        crate::movegen::evasion_moves(board).no_duplicates(),
{
    reveal(crate::movegen::evasion_moves);
    let us = board.spec_turn();
    let them = us.spec_other();
    let occ = board.occupied();
    let us_occ = board.occupied_by(us);
    let them_occ = board.occupied_by(them);
    let ksq = board.king_square(us);
    board.lemma_king_on_square(us);
    lemma_piece_on_kind(board, us, Piece::K, ksq);
    let part = |m: BitMove| evasion_part(board, m);
    let checkers = board.spec_checkers();
    let pawns_knights = (board.spec_piece_bb(Player::White, Piece::P) | board.spec_piece_bb(Player::Black, Piece::P))
        | (board.spec_piece_bb(Player::White, Piece::N) | board.spec_piece_bb(Player::Black, Piece::N));
    let slider_attacks = crate::movegen::slider_lines(checkers & !pawns_knights, ksq);
    let k_moves = reach_bb(Reach::King, ksq, 0) & !slider_attacks & !us_occ;
    let cap = MoveFlag::Capture { ep_capture: false };
    lemma_from_src_once(k_moves & them_occ, ksq, cap);
    lemma_from_src_once(k_moves & !them_occ, ksq, MoveFlag::QuietMove);
    let a = per_square(k_moves & them_occ, move_from_src(ksq, cap));
    let b = per_square(k_moves & !them_occ, move_from_src(ksq, MoveFlag::QuietMove));
    assert forall|i: int, j: int| 0 <= i < a.len() && 0 <= j < b.len() implies a[i] != b[j] by {
        assert(a[i].spec_flag_bits() == 4);
        assert(b[j].spec_flag_bits() == 0);
    }
    vstd::seq_lib::lemma_no_dup_in_concat(a, b);
    assert forall|i: int| 0 <= i < (a + b).len() implies part(#[trigger] (a + b)[i]) == 0 by {
        if i < a.len() {
            assert((a + b)[i] == a[i]);
        } else {
            assert((a + b)[i] == b[i - a.len()]);
        }
    }
    if without_lowest(checkers) == 0 {
        let c = vstd::std_specs::bits::u64_trailing_zeros(checkers) as int;
        let target = reach_bb(Reach::Between(ksq as u8), c, 0) | sq_bb(c);
        lemma_all_moves_once(board, GenTypes::Evasions, target, occ, us_occ, them_occ);
        let rest = crate::movegen::all_moves(board, GenTypes::Evasions, target, occ, us_occ, them_occ);
        assert forall|i: int| 0 <= i < rest.len() implies 1 <= part(#[trigger] rest[i]) <= 12 by {
            assert(1 <= move_part(board, rest[i]) <= 12);
        }
        lemma_append_once(a + b, rest, part, 1, 12);
    }
}

proof fn lemma_non_evasions_once(board: Board, gen: GenTypes)
    requires
        board.sound(),
    ensures
        crate::movegen::non_evasion_moves(board, gen).no_duplicates(),
{
    let us = board.spec_turn();
    let them = us.spec_other();
    let occ = board.occupied();
    let us_occ = board.occupied_by(us);
    let them_occ = board.occupied_by(them);
    lemma_us_them(board, occ, us_occ, them_occ);
    let target = crate::movegen::non_evasion_target(gen, us_occ, them_occ);
    lemma_bit_ops(us_occ, them_occ);
    lemma_bit_ops(us_occ, us_occ);
    assert(avoids(target, us_occ)) by {
        assert forall|d: int| #[trigger] bit(target, d) implies !bit(us_occ, d) by {
            if gen == GenTypes::NonEvasions {
                assert(bit(!us_occ, d));
            } else if gen == GenTypes::Captures {
            } else {
                assert(bit(!(us_occ | them_occ), d));
                lemma_bit_ops(us_occ | them_occ, 0);
                assert(!bit(us_occ | them_occ, d));
            }
        }
    }
    lemma_all_moves_once(board, gen, target, occ, us_occ, them_occ);
}

/// No move is generated twice, whatever is generated.
pub proof fn lemma_generated_moves_once(board: Board, legal: bool, gen: GenTypes)
    requires
        board.wf(),
    ensures
        generated_moves(board, legal, gen).no_duplicates(),
{
    if gen == GenTypes::QuietChecks {
        lemma_quiet_checks_once(board, legal);
    } else {
        if gen == GenTypes::Evasions {
            lemma_evasions_once(board);
        } else if gen == GenTypes::All {
            if board.spec_checkers() != 0 {
                lemma_evasions_once(board);
            } else {
                lemma_non_evasions_once(board, GenTypes::NonEvasions);
            }
        } else {
            lemma_non_evasions_once(board, gen);
        }
        if legal {
            lemma_filter_once(pseudo_legal_moves(board, gen), legal_pred(board));
        }
    }
}


/// On a line, a square outside the segment from `k` to `t` cannot be reached
/// from a square inside it without passing `k` or `t`: if `src` lies strictly
/// between `k` and `t`, and `dst` lies on the same line, is neither `k` nor `t`
/// and is not between them, then `k` or `t` lies strictly between `src` and
/// `dst`.
proof fn lemma_leaving_segment(k: int, t: int, src: int, dst: int)
    requires
        0 <= k < 64,
        0 <= t < 64,
        0 <= dst < 64,
        between(k, t, src),
        aligned_pair(src, dst),
        on_line(src, dst, k),
        dst != k,
        dst != t,
        !between(k, t, dst),
    ensures
        between(src, dst, k) || between(src, dst, t),
{
    let (fk, rk) = (file_of(k), rank_of(k));
    let (ft, rt) = (file_of(t), rank_of(t));
    let (fs, rs) = (file_of(src), rank_of(src));
    let (fd, rd) = (file_of(dst), rank_of(dst));
    assert(k == 8 * rk + fk && 0 <= fk < 8 && 0 <= rk < 8);
    assert(t == 8 * rt + ft && 0 <= ft < 8 && 0 <= rt < 8);
    assert(src == 8 * rs + fs && 0 <= fs < 8 && 0 <= rs < 8);
    assert(dst == 8 * rd + fd && 0 <= fd < 8 && 0 <= rd < 8);
}

/// The side a castling move with flag bits `fl` castles on.
pub open spec fn castle_side(fl: int) -> crate::templates::CastleType {
    if fl == 2 { crate::templates::CastleType::KingSide } else { crate::templates::CastleType::QueenSide }
}

/// Whether flag bits `fl` mark castling.
pub open spec fn is_castle_flag(fl: int) -> bool {
    fl == 2 || fl == 3
}


/// The square of the piece that `m` takes, if any: the en-passant victim's
/// square for an en-passant capture, none (-1) for castling, else the
/// destination.
pub open spec fn captured_square(board: Board, m: BitMove) -> int {
    if m.spec_flag_bits() == 5 {
        crate::board::ep_captured_sq(board.spec_turn(), m.spec_dst())
    } else if is_castle_flag(m.spec_flag_bits()) {
        -1
    } else {
        m.spec_dst()
    }
}

/// The squares occupied after `m` moves the piece on its source square to its
/// destination, taking whatever stood there (or, en passant, the pawn behind
/// it); castling moves the king and the rook to their castled squares.
pub open spec fn occupied_after(board: Board, m: BitMove) -> u64 {
    let us = board.spec_turn();
    if m.spec_flag_bits() == 5 {
        (board.occupied() ^ sq_bb(m.spec_src()) ^ sq_bb(captured_square(board, m))) | sq_bb(m.spec_dst())
    } else if is_castle_flag(m.spec_flag_bits()) {
        let side = castle_side(m.spec_flag_bits());
        (((board.occupied() & !sq_bb(m.spec_src())) & !sq_bb(m.spec_dst()))
            | sq_bb(crate::movegen::castle_king_to(us, side))) | sq_bb(crate::movegen::castle_rook_to(us, side))
    } else {
        (board.occupied() & !sq_bb(m.spec_src())) | sq_bb(m.spec_dst())
    }
}

/// Where the side to move's king stands after `m`: on its castled square if
/// `m` castles, on the destination if `m` moves the king, else where it stood.
pub open spec fn king_square_after(board: Board, m: BitMove) -> int {
    if is_castle_flag(m.spec_flag_bits()) {
        crate::movegen::castle_king_to(board.spec_turn(), castle_side(m.spec_flag_bits()))
    } else if board.piece_on(m.spec_src()) == Some(Piece::K) {
        m.spec_dst()
    } else {
        board.king_square(board.spec_turn())
    }
}

/// Whether, after `m` moves a piece of the side to move (taking at most the
/// piece on its destination), no enemy piece left on the board attacks that
/// side's king.
pub open spec fn king_safe_after(board: Board, m: BitMove) -> bool {
    let us = board.spec_turn();
    let them = us.spec_other();
    forall|piece: Piece, t: int| #![trigger bit(board.spec_piece_bb(them, piece), t)]
        bit(board.spec_piece_bb(them, piece), t) && t != captured_square(board, m)
            ==> !attacks_from(them, piece, t, occupied_after(board, m), king_square_after(board, m))
}

/// What a legal move of a piece other than the king must satisfy to keep the
/// king safe: `is_legal` accepts it, it is not en passant, it leaves a square
/// of the side to move for a square the side does not hold, and along a line
/// it passes no occupied square.
pub open spec fn plain_legal_move(board: Board, m: BitMove) -> bool {
    let us = board.spec_turn();
    &&& m.spec_flag_bits() != 5
    &&& !is_castle_flag(m.spec_flag_bits())
    &&& board.is_legal(m)
    &&& board.piece_on(m.spec_src()) != Some(Piece::K)
    &&& bit(board.occupied_by(us), m.spec_src())
    &&& 0 <= m.spec_dst() < 64
    &&& !bit(board.occupied_by(us), m.spec_dst())
    &&& (aligned_pair(m.spec_src(), m.spec_dst()) ==> path_clear(m.spec_src(), m.spec_dst(), board.occupied()))
}

/// A slider of the enemy on `t` that the board blocks from the king stays
/// blocked after a plain legal move: were it uncovered, the moved piece would
/// have been its only blocker, so pinned, so moving along the line of the pin,
/// and it could not have left the stretch between the king and the slider.
proof fn lemma_pin_holds(board: Board, m: BitMove, t: int)
    requires
        board.wf(),
        plain_legal_move(board, m),
        0 <= t < 64,
        t != m.spec_dst(),
        crate::board::snipes_in(board.spec_bbs(), board.spec_turn().spec_other(), board.king_square(board.spec_turn()), t),
        bit(board.occupied(), t),
        !path_clear(board.king_square(board.spec_turn()), t, board.occupied()),
        forall|u: int| 0 <= u < 64 ==> (#[trigger] bit(occupied_after(board, m), u)
            <==> ((bit(board.occupied(), u) && u != m.spec_src()) || u == m.spec_dst())),
    ensures
        !path_clear(board.king_square(board.spec_turn()), t, occupied_after(board, m)),
{
    let us = board.spec_turn();
    let them = us.spec_other();
    let bbs = board.spec_bbs();
    let k = board.king_square(us);
    let src = m.spec_src();
    let dst = m.spec_dst();
    let occ = board.occupied();
    let occ2 = occupied_after(board, m);
    let us_occ = board.occupied_by(us);
    board.lemma_king_on_square(us);
    board.lemma_sides();
    if path_clear(k, t, occ2) {
        let u = choose|u: int| between(k, t, u) && bit(occ, u);
        assert(0 <= u < 64);
        assert(!bit(occ2, u));
        assert(u == src);
        assert forall|v: int| #![trigger bit(crate::board::all_occupied_in(bbs), v)]
            between(k, t, v) && bit(crate::board::all_occupied_in(bbs), v) implies v == src by {
            assert(bit(occ, v));
            assert(!bit(occ2, v));
        }
        assert(crate::board::shields_in(bbs, k, t, src));
        assert(crate::board::sole_blocker_in(bbs, us, src));
        crate::bitboard::lemma_bits_where(board.sole_blocker_pred(us));
        assert(bit(board.king_blockers(us), src));
        assert(board.piece_on(src).is_some()) by {
            board.lemma_occupied_piece(src);
        }
        crate::bitboard::lemma_single_bit(src as u64);
        lemma_bit_ops(board.spec_blockers(us), us_occ);
        lemma_bit_ops(board.spec_blockers(us) & us_occ, sq_bb(src));
        crate::bitboard::lemma_empty_bits();
        assert(bit((board.spec_blockers(us) & us_occ) & sq_bb(src), src));
        assert(aligned_pair(src, dst) && on_line(src, dst, k));
        assert(bit(occ2, dst));
        assert(!between(k, t, dst)) by {
            if between(k, t, dst) {
                assert(!bit(occ2, dst));
            }
        }
        lemma_leaving_segment(k, t, src, dst);
        assert(!path_clear(src, dst, occ));
    }
}

/// A plain legal move of a piece other than the king leaves the king
/// unattacked when it takes or blocks every piece giving check (out of check,
/// there is none).
pub proof fn lemma_legal_piece_move_keeps_king_safe(board: Board, m: BitMove)
    requires
        board.wf(),
        plain_legal_move(board, m),
        forall|t: int| #[trigger] bit(board.spec_checkers(), t) ==> t == m.spec_dst()
            || between(board.king_square(board.spec_turn()), t, m.spec_dst()),
    ensures
        king_safe_after(board, m),
{
    let us = board.spec_turn();
    let them = us.spec_other();
    let bbs = board.spec_bbs();
    let k = board.king_square(us);
    let src = m.spec_src();
    let dst = m.spec_dst();
    let occ = board.occupied();
    let occ2 = occupied_after(board, m);
    board.lemma_king_on_square(us);
    board.lemma_sides();
    crate::board::lemma_occupied_in_bits(bbs, Player::White);
    crate::board::lemma_occupied_in_bits(bbs, Player::Black);
    crate::bitboard::lemma_single_bit(src as u64);
    crate::bitboard::lemma_single_bit(dst as u64);
    lemma_bit_ops(occ, !sq_bb(src));
    lemma_bit_ops(occ & !sq_bb(src), sq_bb(dst));
    lemma_bit_ops(sq_bb(src), sq_bb(src));
    assert forall|u: int| 0 <= u < 64 implies (#[trigger] bit(occ2, u) <==> ((bit(occ, u) && u != src) || u == dst)) by {}
    let att = board.attackers(k, occ);
    let them_occ = board.occupied_by(them);
    lemma_bit_ops(att, them_occ);
    assert forall|piece: Piece, t: int| #[trigger] bit(board.spec_piece_bb(them, piece), t) && t != dst
        implies !attacks_from(them, piece, t, occ2, k) by {
        board.lemma_piece_occupies(them, piece, t);
        assert(0 <= t < 64);
        if bit(att, t) {
            // a piece giving check: the move blocks it
            assert(bit(att & them_occ, t));
            assert(bit(board.spec_checkers(), t));
            assert(between(k, t, dst));
            lemma_between_sym(k, t, dst);
            assert(bit(occ2, dst));
            if attacks_from(them, piece, t, occ2, k) {
                match piece {
                    Piece::N => {},
                    Piece::P => {
                        assert(adjacent(t, k));
                        lemma_adjacent_no_between(t, k, dst);
                    },
                    Piece::K => {
                        assert(adjacent(t, k));
                        lemma_adjacent_no_between(t, k, dst);
                    },
                    _ => {
                        assert(!bit(occ2, dst));
                    },
                }
            }
        } else {
            lemma_attackers_bits(board, k, occ, piece, t);
            lemma_bit_ops(crate::board::piece_in(bbs, them, Piece::R), crate::board::piece_in(bbs, them, Piece::Q));
            lemma_bit_ops(crate::board::piece_in(bbs, them, Piece::B), crate::board::piece_in(bbs, them, Piece::Q));
            match piece {
                Piece::B => {
                    if attacks_from(them, piece, t, occ2, k) {
                        lemma_reaches_sym(Reach::Bishop, k, t, occ);
                        lemma_reaches_sym(Reach::Bishop, k, t, occ2);
                        assert(crate::board::snipes_in(bbs, them, k, t));
                        lemma_pin_holds(board, m, t);
                    }
                },
                Piece::R => {
                    if attacks_from(them, piece, t, occ2, k) {
                        lemma_reaches_sym(Reach::Rook, k, t, occ);
                        lemma_reaches_sym(Reach::Rook, k, t, occ2);
                        assert(crate::board::snipes_in(bbs, them, k, t));
                        lemma_pin_holds(board, m, t);
                    }
                },
                Piece::Q => {
                    if attacks_from(them, piece, t, occ2, k) {
                        lemma_reaches_sym(Reach::Queen, k, t, occ);
                        lemma_reaches_sym(Reach::Queen, k, t, occ2);
                        crate::board::lemma_occupied_in_bits(bbs, them);
                        lemma_bit_ops(crate::board::piece_in(bbs, them, Piece::R), crate::board::piece_in(bbs, them, Piece::Q));
                        lemma_bit_ops(crate::board::piece_in(bbs, them, Piece::B), crate::board::piece_in(bbs, them, Piece::Q));
                        assert(crate::board::snipes_in(bbs, them, k, t));
                        lemma_pin_holds(board, m, t);
                    }
                },
                _ => {},
            }
        }
    }
}

/// `between` does not depend on the order of its ends.
proof fn lemma_between_sym(s: int, t: int, u: int)
    ensures
        between(s, t, u) == between(t, s, u),
{
}

/// Nothing lies strictly between neighbouring squares.
proof fn lemma_adjacent_no_between(s: int, d: int, u: int)
    requires
        adjacent(s, d),
    ensures
        !between(s, d, u),
{
}

/// Whether `m`, unless it castles or takes en passant, leaves a square of the
/// side to move for one the side does not hold, passing no occupied square
/// along a line; an en-passant capture is made by a pawn of the side to move
/// onto the en-passant square;
/// castling meets what generation checks for it.
pub open spec fn moves_cleanly(board: Board, m: BitMove) -> bool {
    let us = board.spec_turn();
    let fl = m.spec_flag_bits();
    &&& (fl != 2 && fl != 3 && fl != 5) ==> {
        &&& bit(board.occupied_by(us), m.spec_src())
        &&& 0 <= m.spec_dst() < 64
        &&& !bit(board.occupied_by(us), m.spec_dst())
        &&& (aligned_pair(m.spec_src(), m.spec_dst()) ==> path_clear(m.spec_src(), m.spec_dst(), board.occupied()))
    }
    &&& fl == 5 ==> bit(board.spec_piece_bb(us, Piece::P), m.spec_src())
        && board.spec_ep_square() != NO_SQ && m.spec_dst() == board.spec_ep_square() as int
    &&& is_castle_flag(fl) ==> castle_conditions(board, m)
}

/// What generation checks before castling: the move goes from the king to
/// the rook of its side, the way between them is empty, the side may castle
/// there, and the king crosses no attacked square.
pub open spec fn castle_conditions(board: Board, m: BitMove) -> bool {
    let us = board.spec_turn();
    let side = castle_side(m.spec_flag_bits());
    &&& m.spec_src() == board.king_square(us)
    &&& m.spec_dst() == crate::movegen::castle_rook_from(us, side)
    &&& board.occupied() & crate::board::castle_path(us, side) == 0
    &&& board.spec_can_castle(us, side)
    &&& crate::movegen::castle_path_safe(board, side)
}

/// `moves_cleanly` on `board` as a predicate on moves.
pub open spec fn moves_cleanly_pred(board: Board) -> spec_fn(BitMove) -> bool {
    |m: BitMove| moves_cleanly(board, m)
}

/// A pawn's single step forward, from `s` to `d`, passes nothing.
proof fn lemma_step_clear(s: int, d: int, occ: u64)
    requires
        0 <= s < 64,
        0 <= d < 64,
        s == d + 8 || s == d - 8,
    ensures
        path_clear(s, d, occ),
{
    assert(adjacent(s, d));
    lemma_adjacent_clear(s, d, occ);
}

/// A pawn's double step forward, from `s` to `d`, passes only the square in
/// between.
proof fn lemma_double_step_clear(s: int, d: int, down: int, occ: u64)
    requires
        0 <= s < 64,
        0 <= d < 64,
        down == 8 || down == -8,
        s == d + 2 * down,
        !bit(occ, d + down),
    ensures
        path_clear(s, d, occ),
{
    assert forall|u: int| #![trigger bit(occ, u)] between(s, d, u) implies !bit(occ, u) by {
        assert(u == d + down);
    }
}

/// Moves of a piece of kind `piece` (not a pawn) from squares of the side to
/// move holding that kind move cleanly.
proof fn lemma_pieces_clean(board: Board, piece: Piece, srcs: u64, target: u64, occ: u64, us_occ: u64, them_occ: u64)
    requires
        occupancies(board, occ, us_occ, them_occ),
        piece != Piece::P,
        forall|s: int| #[trigger] bit(srcs, s) ==> bit(board.spec_piece_bb(board.spec_turn(), piece), s),
    ensures
        all_satisfy(per_square(srcs, crate::movegen::piece_moves_fn(piece, target, occ, us_occ, them_occ)),
            moves_cleanly_pred(board)),
{
    let us = board.spec_turn();
    let f = crate::movegen::piece_moves_fn(piece, target, occ, us_occ, them_occ);
    let p = moves_cleanly_pred(board);
    assert forall|src: int| #[trigger] bit(srcs, src) implies all_satisfy(f(src), p) by {
        assert(bit(board.spec_piece_bb(us, piece), src));
        lemma_piece_on_kind(board, us, piece, src);
        board.lemma_piece_occupies(us, piece, src);
        let pm = crate::movegen::piece_moves_bb(piece, src, occ);
        let moves = pm & !us_occ & target;
        lemma_bit_ops(pm, !us_occ);
        lemma_bit_ops(pm & !us_occ, target);
        lemma_bit_ops(moves, them_occ);
        lemma_bit_ops(moves, !them_occ);
        lemma_bit_ops(us_occ, us_occ);
        let cap = MoveFlag::Capture { ep_capture: false };
        assert forall|d: int| #[trigger] bit(moves & them_occ, d) implies p(spec_move(src, d, cap)) by {
            BitMove::lemma_encode(src, d, cap);
            assert(bit(moves, d));
            assert(bit(!us_occ, d));
            lemma_piece_moves_bb(piece, src, occ, d);
            if piece == Piece::K {
                crate::attacks::lemma_reach_bb(Reach::King, src, 0);
                assert(adjacent(src, d));
                lemma_adjacent_clear(src, d, occ);
            }
        }
        assert forall|d: int| #[trigger] bit(moves & !them_occ, d) implies p(spec_move(src, d, MoveFlag::QuietMove)) by {
            BitMove::lemma_encode(src, d, MoveFlag::QuietMove);
            assert(bit(moves, d));
            assert(bit(!us_occ, d));
            lemma_piece_moves_bb(piece, src, occ, d);
            if piece == Piece::K {
                crate::attacks::lemma_reach_bb(Reach::King, src, 0);
                assert(adjacent(src, d));
                lemma_adjacent_clear(src, d, occ);
            }
        }
        lemma_src_moves(moves & them_occ, src, cap, p);
        lemma_src_moves(moves & !them_occ, src, MoveFlag::QuietMove, p);
        lemma_all_add(per_square(moves & them_occ, move_from_src(src, cap)),
            per_square(moves & !them_occ, move_from_src(src, MoveFlag::QuietMove)), p);
    }
    lemma_all_per_square(srcs, f, p);
}

/// Promotions from `d + delta` to the squares `d` of `bb` satisfy `p` when
/// each one does.
proof fn lemma_promotions_pred(bb: u64, delta: int, capture: bool, p: spec_fn(BitMove) -> bool)
    requires
        forall|d: int, prom: Piece| #[trigger] bit(bb, d) ==> p(#[trigger] spec_move(d + delta, d, MoveFlag::Promotion { capture, prom })),
    ensures
        all_satisfy(per_square(bb, promotions_by_delta(delta, capture)), p),
{
    let f = promotions_by_delta(delta, capture);
    assert forall|d: int| #[trigger] bit(bb, d) implies all_satisfy(f(d), p) by {
        assert(p(spec_move(d + delta, d, MoveFlag::Promotion { capture, prom: Piece::Q })));
        assert(p(spec_move(d + delta, d, MoveFlag::Promotion { capture, prom: Piece::N })));
        assert(p(spec_move(d + delta, d, MoveFlag::Promotion { capture, prom: Piece::R })));
        assert(p(spec_move(d + delta, d, MoveFlag::Promotion { capture, prom: Piece::B })));
    }
    lemma_all_per_square(bb, f, p);
}

/// A pawn move from `s` to `d` next to it, onto a square the side to move
/// does not hold, moves cleanly.
proof fn lemma_pawn_step_clean(board: Board, s: int, d: int, flag: MoveFlag)
    requires
        board.sound(),
        !(flag is Castle),
        flag != (MoveFlag::Capture { ep_capture: true }),
        adjacent(s, d),
        bit(board.spec_piece_bb(board.spec_turn(), Piece::P), s),
        !bit(board.occupied_by(board.spec_turn()), d),
    ensures
        moves_cleanly(board, spec_move(s, d, flag)),
{
    BitMove::lemma_encode(s, d, flag);
    board.lemma_piece_occupies(board.spec_turn(), Piece::P, s);
    lemma_adjacent_clear(s, d, board.occupied());
}

#[verifier::spinoff_prover]
#[verifier::rlimit(40)]
proof fn lemma_pawn_moves_clean(board: Board, gen: GenTypes, target: u64, occ: u64, us_occ: u64, them_occ: u64)
    requires
        occupancies(board, occ, us_occ, them_occ),
        (gen == GenTypes::Quiets || gen == GenTypes::QuietChecks || gen == GenTypes::Captures) ==> avoids(target, us_occ),
        (gen == GenTypes::Quiets || gen == GenTypes::QuietChecks) ==> forall|d: int| #[trigger] bit(target, d) ==> !bit(occ, d),
    ensures
        all_satisfy(crate::movegen::pawn_moves(board, gen, target, occ, them_occ), moves_cleanly_pred(board)),
{
    reveal(crate::movegen::pawn_moves);
    let us = board.spec_turn();
    let them = us.spec_other();
    let (rank_8, rank_7, rank_3) = crate::movegen::pawn_ranks(us);
    let pawns = board.spec_piece_bb(us, Piece::P);
    let not7 = pawns & !rank_7;
    let p7 = pawns & rank_7;
    let down = down_delta(us);
    let p = moves_cleanly_pred(board);
    lemma_bit_ops(pawns, !rank_7);
    lemma_bit_ops(pawns, rank_7);
    lemma_bit_ops(occ, occ);
    lemma_us_them(board, occ, us_occ, them_occ);
    let push = crate::movegen::push_empty(gen, target, occ);
    assert forall|d: int| #[trigger] bit(push, d) implies !bit(occ, d) by {
        if !(gen == GenTypes::Quiets || gen == GenTypes::QuietChecks) {
            assert(bit(!occ, d));
        }
    }
    // pushes
    let a = crate::movegen::pawn_push_moves(board, gen, target, occ);
    if gen != GenTypes::Captures {
        lemma_pawn_pushes_ok(board, gen, target, occ, us_occ, them_occ);
        let (one, two) = crate::movegen::pawn_pushes(board, gen, target, occ);
        assert forall|d: int| #[trigger] bit(one, d) implies p(spec_move(d + down, d, MoveFlag::QuietMove)) by {
            assert(bit(push, d));
            assert(bit(not7, d + down));
            lemma_step_clear(d + down, d, occ);
            BitMove::lemma_encode(d + down, d, MoveFlag::QuietMove);
            board.lemma_piece_occupies(us, Piece::P, d + down);
        }
        assert forall|d: int| #[trigger] bit(two, d) implies p(spec_move(d + 2 * down, d, MoveFlag::DoublePawnPush)) by {
            assert(bit(push, d));
            assert(bit(push, d + down));
            assert(bit(not7, d + 2 * down));
            lemma_double_step_clear(d + 2 * down, d, down, occ);
            BitMove::lemma_encode(d + 2 * down, d, MoveFlag::DoublePawnPush);
            board.lemma_piece_occupies(us, Piece::P, d + 2 * down);
        }
        lemma_delta_moves(one, down, MoveFlag::QuietMove, p);
        lemma_delta_moves(two, 2 * down, MoveFlag::DoublePawnPush, p);
        lemma_all_add(per_square(one, move_by_delta(down, MoveFlag::QuietMove)),
            per_square(two, move_by_delta(2 * down, MoveFlag::DoublePawnPush)), p);
    }
    // promotions
    let b = crate::movegen::pawn_promo_moves(board, gen, target, occ, them_occ);
    if gen != GenTypes::QuietChecks && p7 != 0 && (gen != GenTypes::Evasions || target & rank_8 != 0) {
        let empty = crate::movegen::promo_empty(gen, target, occ);
        let enemies = crate::movegen::pawn_enemies(gen, target, them_occ);
        lemma_enemies_avoid(board, gen, target, occ, us_occ, them_occ);
        lemma_bit_ops(push, target);
        assert forall|d: int| #[trigger] bit(empty, d) implies !bit(occ, d) by {
            if gen == GenTypes::Captures {
                assert(bit(!occ, d));
            } else if gen == GenTypes::Evasions {
                assert(bit(push, d));
            } else {
                assert(bit(push, d));
            }
        }
        lemma_shift_up(us, p7);
        lemma_shift_up_sides(us, p7);
        lemma_shifts_adjacent(us, p7);
        let pu = shift_up_spec(us, p7) & empty;
        let pl = shift_up_left_spec(us, p7) & enemies;
        let pr = shift_up_right_spec(us, p7) & enemies;
        lemma_bit_ops(shift_up_spec(us, p7), empty);
        lemma_bit_ops(shift_up_left_spec(us, p7), enemies);
        lemma_bit_ops(shift_up_right_spec(us, p7), enemies);
        assert forall|d: int, prom: Piece| #[trigger] bit(pu, d)
            implies p(#[trigger] spec_move(d + down, d, MoveFlag::Promotion { capture: false, prom })) by {
            assert(bit(empty, d));
            lemma_pawn_step_clean(board, d + down, d, MoveFlag::Promotion { capture: false, prom });
        }
        assert forall|d: int, prom: Piece| #[trigger] bit(pl, d)
            implies p(#[trigger] spec_move(d + down_right_delta(us), d, MoveFlag::Promotion { capture: true, prom })) by {
            assert(bit(enemies, d));
            lemma_pawn_step_clean(board, d + down_right_delta(us), d, MoveFlag::Promotion { capture: true, prom });
        }
        assert forall|d: int, prom: Piece| #[trigger] bit(pr, d)
            implies p(#[trigger] spec_move(d + down_left_delta(us), d, MoveFlag::Promotion { capture: true, prom })) by {
            assert(bit(enemies, d));
            lemma_pawn_step_clean(board, d + down_left_delta(us), d, MoveFlag::Promotion { capture: true, prom });
        }
        lemma_promotions_pred(pu, down, false, p);
        lemma_promotions_pred(pl, down_right_delta(us), true, p);
        lemma_promotions_pred(pr, down_left_delta(us), true, p);
        let b1 = per_square(pu, promotions_by_delta(down, false));
        let b2 = per_square(pl, promotions_by_delta(down_right_delta(us), true));
        let b3 = per_square(pr, promotions_by_delta(down_left_delta(us), true));
        lemma_all_add(b1, b2, p);
        lemma_all_add(b1 + b2, b3, p);
    }
    // captures
    let c = crate::movegen::pawn_capture_moves(board, gen, target, them_occ);
    if crate::movegen::gen_has_captures(gen) {
        let enemies = crate::movegen::pawn_enemies(gen, target, them_occ);
        lemma_enemies_avoid(board, gen, target, occ, us_occ, them_occ);
        lemma_shift_up_sides(us, not7);
        lemma_shifts_adjacent(us, not7);
        let cl = shift_up_left_spec(us, not7) & enemies;
        let cr = shift_up_right_spec(us, not7) & enemies;
        lemma_bit_ops(shift_up_left_spec(us, not7), enemies);
        lemma_bit_ops(shift_up_right_spec(us, not7), enemies);
        let cap = MoveFlag::Capture { ep_capture: false };
        assert forall|d: int| #[trigger] bit(cl, d) implies p(spec_move(d + down_right_delta(us), d, cap)) by {
            assert(bit(enemies, d));
            lemma_pawn_step_clean(board, d + down_right_delta(us), d, cap);
        }
        assert forall|d: int| #[trigger] bit(cr, d) implies p(spec_move(d + down_left_delta(us), d, cap)) by {
            assert(bit(enemies, d));
            lemma_pawn_step_clean(board, d + down_left_delta(us), d, cap);
        }
        lemma_delta_moves(cl, down_right_delta(us), cap, p);
        lemma_delta_moves(cr, down_left_delta(us), cap, p);
        let c1 = per_square(cl, move_by_delta(down_right_delta(us), cap));
        let c2 = per_square(cr, move_by_delta(down_left_delta(us), cap));
        let c3 = crate::movegen::ep_capture_moves(board, gen, target);
        let ep = board.spec_ep_square() as int;
        if ep != NO_SQ && (gen != GenTypes::Evasions || target & sq_bb(ep + down_delta(us)) != 0) {
            board.lemma_ep_square();
            let from = not7 & reach_bb(Reach::Pawn(them), ep, 0);
            let epf = MoveFlag::Capture { ep_capture: true };
            lemma_bit_ops(not7, reach_bb(Reach::Pawn(them), ep, 0));
            assert forall|s: int| #[trigger] bit(from, s) implies p(spec_move(s, ep, epf)) by {
                BitMove::lemma_encode(s, ep, epf);
                assert(bit(not7, s));
            }
            let f = move_to_dst(ep, epf);
            assert forall|s: int| #[trigger] bit(from, s) implies all_satisfy(f(s), p) by {
                assert(f(s)[0] == spec_move(s, ep, epf));
            }
            lemma_all_per_square(from, f, p);
        }
        lemma_all_add(c1, c2, p);
        lemma_all_add(c1 + c2, c3, p);
    }
    lemma_all_add(a, b, p);
    lemma_all_add(a + b, c, p);
}

proof fn lemma_all_moves_clean(board: Board, gen: GenTypes, target: u64, occ: u64, us_occ: u64, them_occ: u64)
    requires
        occupancies(board, occ, us_occ, them_occ),
        (gen == GenTypes::Quiets || gen == GenTypes::QuietChecks || gen == GenTypes::Captures) ==> avoids(target, us_occ),
        (gen == GenTypes::Quiets || gen == GenTypes::QuietChecks) ==> forall|d: int| #[trigger] bit(target, d) ==> !bit(occ, d),
    ensures
        all_satisfy(crate::movegen::all_moves(board, gen, target, occ, us_occ, them_occ), moves_cleanly_pred(board)),
{
    reveal(crate::movegen::all_moves);
    reveal(crate::movegen::officer_moves);
    let us = board.spec_turn();
    let p = moves_cleanly_pred(board);
    lemma_pawn_moves_clean(board, gen, target, occ, us_occ, them_occ);
    lemma_pieces_clean(board, Piece::N, board.spec_piece_bb(us, Piece::N), target, occ, us_occ, them_occ);
    lemma_pieces_clean(board, Piece::B, board.spec_piece_bb(us, Piece::B), target, occ, us_occ, them_occ);
    lemma_pieces_clean(board, Piece::R, board.spec_piece_bb(us, Piece::R), target, occ, us_occ, them_occ);
    lemma_pieces_clean(board, Piece::Q, board.spec_piece_bb(us, Piece::Q), target, occ, us_occ, them_occ);
    lemma_pieces_clean(board, Piece::K, board.spec_piece_bb(us, Piece::K), target, occ, us_occ, them_occ);
    let pm = crate::movegen::pawn_moves(board, gen, target, occ, them_occ);
    let n = per_square(board.spec_piece_bb(us, Piece::N), crate::movegen::piece_moves_fn(Piece::N, target, occ, us_occ, them_occ));
    let b = per_square(board.spec_piece_bb(us, Piece::B), crate::movegen::piece_moves_fn(Piece::B, target, occ, us_occ, them_occ));
    let r = per_square(board.spec_piece_bb(us, Piece::R), crate::movegen::piece_moves_fn(Piece::R, target, occ, us_occ, them_occ));
    let q = per_square(board.spec_piece_bb(us, Piece::Q), crate::movegen::piece_moves_fn(Piece::Q, target, occ, us_occ, them_occ));
    lemma_all_add(n, b, p);
    lemma_all_add(n + b, r, p);
    lemma_all_add(n + b + r, q, p);
    lemma_all_add(pm, n + b + r + q, p);
    let c: Seq<BitMove> = if gen != GenTypes::QuietChecks && gen != GenTypes::Evasions {
        per_square(board.spec_piece_bb(us, Piece::K), crate::movegen::piece_moves_fn(Piece::K, target, occ, us_occ, them_occ))
    } else {
        Seq::empty()
    };
    lemma_all_add(pm + (n + b + r + q), c, p);
    board.lemma_king_on_square(us);
    lemma_piece_on_kind(board, us, Piece::K, board.king_square(us));
    let cq = crate::movegen::castling_moves(board, crate::templates::CastleType::QueenSide);
    let ck = crate::movegen::castling_moves(board, crate::templates::CastleType::KingSide);
    assert(all_satisfy(cq, p) && all_satisfy(ck, p)) by {
        reveal(crate::movegen::castling_moves);
        let fq = MoveFlag::Castle { king_side: false };
        let fk = MoveFlag::Castle { king_side: true };
        BitMove::lemma_encode(board.king_square(us), crate::movegen::castle_rook_from(us, crate::templates::CastleType::QueenSide), fq);
        BitMove::lemma_encode(board.king_square(us), crate::movegen::castle_rook_from(us, crate::templates::CastleType::KingSide), fk);
    }
    lemma_all_add(cq, ck, p);
    let d: Seq<BitMove> = if gen != GenTypes::Captures && gen != GenTypes::Evasions { cq + ck } else { Seq::empty() };
    lemma_all_add(pm + (n + b + r + q) + c, d, p);
    assert(crate::movegen::officer_moves(board, target, occ, us_occ, them_occ) == n + b + r + q);
}

proof fn lemma_evasions_clean(board: Board)
    requires
        board.sound(),
    ensures
        all_satisfy(crate::movegen::evasion_moves(board), moves_cleanly_pred(board)),
{
    reveal(crate::movegen::evasion_moves);
    let us = board.spec_turn();
    let them = us.spec_other();
    let occ = board.occupied();
    let us_occ = board.occupied_by(us);
    let them_occ = board.occupied_by(them);
    let p = moves_cleanly_pred(board);
    let ksq = board.king_square(us);
    board.lemma_king_on_square(us);
    lemma_piece_on_kind(board, us, Piece::K, ksq);
    let checkers = board.spec_checkers();
    let pawns_knights = (board.spec_piece_bb(Player::White, Piece::P) | board.spec_piece_bb(Player::Black, Piece::P))
        | (board.spec_piece_bb(Player::White, Piece::N) | board.spec_piece_bb(Player::Black, Piece::N));
    let slider_attacks = crate::movegen::slider_lines(checkers & !pawns_knights, ksq);
    let k_moves = reach_bb(Reach::King, ksq, 0) & !slider_attacks & !us_occ;
    let cap = MoveFlag::Capture { ep_capture: false };
    let kr = reach_bb(Reach::King, ksq, 0);
    crate::attacks::lemma_reach_bb(Reach::King, ksq, 0);
    lemma_bit_ops(kr, !slider_attacks);
    lemma_bit_ops(kr & !slider_attacks, !us_occ);
    lemma_bit_ops(k_moves, them_occ);
    lemma_bit_ops(k_moves, !them_occ);
    lemma_bit_ops(us_occ, us_occ);
    assert forall|d: int| #[trigger] bit(k_moves, d) implies adjacent(ksq, d) && !bit(us_occ, d) by {
        assert(bit(kr, d));
        assert(bit(!us_occ, d));
    }
    assert forall|d: int| #[trigger] bit(k_moves & them_occ, d) implies p(spec_move(ksq, d, cap)) by {
        BitMove::lemma_encode(ksq, d, cap);
        assert(bit(k_moves, d));
        lemma_adjacent_clear(ksq, d, occ);
    }
    assert forall|d: int| #[trigger] bit(k_moves & !them_occ, d) implies p(spec_move(ksq, d, MoveFlag::QuietMove)) by {
        BitMove::lemma_encode(ksq, d, MoveFlag::QuietMove);
        assert(bit(k_moves, d));
        lemma_adjacent_clear(ksq, d, occ);
    }
    lemma_src_moves(k_moves & them_occ, ksq, cap, p);
    lemma_src_moves(k_moves & !them_occ, ksq, MoveFlag::QuietMove, p);
    let a = per_square(k_moves & them_occ, move_from_src(ksq, cap));
    let b = per_square(k_moves & !them_occ, move_from_src(ksq, MoveFlag::QuietMove));
    lemma_all_add(a, b, p);
    if without_lowest(checkers) == 0 {
        let c = vstd::std_specs::bits::u64_trailing_zeros(checkers) as int;
        let target = reach_bb(Reach::Between(ksq as u8), c, 0) | sq_bb(c);
        lemma_all_moves_clean(board, GenTypes::Evasions, target, occ, us_occ, them_occ);
        lemma_all_add(a + b, crate::movegen::all_moves(board, GenTypes::Evasions, target, occ, us_occ, them_occ), p);
    }
}

proof fn lemma_non_evasions_clean(board: Board, gen: GenTypes)
    requires
        board.sound(),
    ensures
        all_satisfy(crate::movegen::non_evasion_moves(board, gen), moves_cleanly_pred(board)),
{
    let us = board.spec_turn();
    let them = us.spec_other();
    let occ = board.occupied();
    let us_occ = board.occupied_by(us);
    let them_occ = board.occupied_by(them);
    lemma_us_them(board, occ, us_occ, them_occ);
    board.lemma_sides();
    crate::board::lemma_occupied_in_bits(board.spec_bbs(), Player::White);
    let target = crate::movegen::non_evasion_target(gen, us_occ, them_occ);
    lemma_bit_ops(us_occ, them_occ);
    lemma_bit_ops(us_occ, us_occ);
    lemma_bit_ops(us_occ | them_occ, 0);
    assert(avoids(target, us_occ)) by {
        assert forall|d: int| #[trigger] bit(target, d) implies !bit(us_occ, d) by {
            if gen == GenTypes::NonEvasions {
                assert(bit(!us_occ, d));
            } else if gen == GenTypes::Captures {
            } else {
                assert(bit(!(us_occ | them_occ), d));
                assert(!bit(us_occ | them_occ, d));
            }
        }
    }
    assert((gen == GenTypes::Quiets || gen == GenTypes::QuietChecks) ==> forall|d: int| #[trigger] bit(target, d) ==> !bit(occ, d)) by {
        if gen == GenTypes::Quiets || gen == GenTypes::QuietChecks {
            assert forall|d: int| #[trigger] bit(target, d) implies !bit(occ, d) by {
                assert(bit(!(us_occ | them_occ), d));
                assert(!bit(us_occ | them_occ, d));
                match us {
                    Player::White => {},
                    Player::Black => {},
                }
            }
        }
    }
    lemma_all_moves_clean(board, gen, target, occ, us_occ, them_occ);
}

proof fn lemma_quiet_checks_clean(board: Board)
    requires
        board.sound(),
    ensures
        all_satisfy(crate::movegen::quiet_check_moves(board), moves_cleanly_pred(board)),
{
    reveal(crate::movegen::quiet_check_moves);
    let us = board.spec_turn();
    let them = us.spec_other();
    let occ = board.occupied();
    let us_occ = board.occupied_by(us);
    let them_occ = board.occupied_by(them);
    let p = moves_cleanly_pred(board);
    lemma_us_them(board, occ, us_occ, them_occ);
    lemma_bit_ops(occ, occ);
    let dc = board.spec_blockers(them) & us_occ;
    lemma_bit_ops(board.spec_blockers(them), us_occ);
    let f = crate::movegen::discovery_fn(board, occ);
    assert forall|from: int| #[trigger] bit(dc, from) implies all_satisfy(f(from), p) by {
        match board.piece_on(from) {
            Some(piece) => {
                if piece != Piece::P {
                    let eksq = board.king_square(them);
                    let pm = crate::movegen::piece_moves_bb(piece, from, occ);
                    let b = pm & !occ;
                    let m = !reach_bb(Reach::Line(eksq as u8), from, 0) | crate::movegen::check_squares(piece, eksq, occ);
                    lemma_bit_ops(pm, !occ);
                    lemma_bit_ops(b, m);
                    assert forall|d: int| #[trigger] bit(b & m, d) implies p(spec_move(from, d, MoveFlag::QuietMove)) by {
                        BitMove::lemma_encode(from, d, MoveFlag::QuietMove);
                        assert(bit(b, d));
                        assert(bit(!occ, d));
                        lemma_piece_moves_bb(piece, from, occ, d);
                        if piece == Piece::K {
                            crate::attacks::lemma_reach_bb(Reach::King, from, 0);
                            assert(adjacent(from, d));
                            lemma_adjacent_clear(from, d, occ);
                        }
                    }
                    lemma_src_moves(b & m, from, MoveFlag::QuietMove, p);
                } else {
                    assert(f(from) =~= Seq::<BitMove>::empty());
                }
            },
            None => {
                assert(f(from) =~= Seq::<BitMove>::empty());
            },
        }
    }
    lemma_all_per_square(dc, f, p);
    let a = per_square(dc, f);
    // pawn pushes
    let down = down_delta(us);
    lemma_quiet_push_squares(board);
    lemma_quiet_check_pawn_moves(board);
    let (one, two) = crate::movegen::pawn_pushes(board, GenTypes::QuietChecks, !occ, occ);
    assert forall|d: int| #[trigger] bit(one, d) implies p(spec_move(d + down, d, MoveFlag::QuietMove)) by {
        lemma_step_clear(d + down, d, occ);
        BitMove::lemma_encode(d + down, d, MoveFlag::QuietMove);
        board.lemma_piece_occupies(us, Piece::P, d + down);
    }
    assert forall|d: int| #[trigger] bit(two, d) implies p(spec_move(d + 2 * down, d, MoveFlag::DoublePawnPush)) by {
        lemma_double_step_clear(d + 2 * down, d, down, occ);
        BitMove::lemma_encode(d + 2 * down, d, MoveFlag::DoublePawnPush);
        board.lemma_piece_occupies(us, Piece::P, d + 2 * down);
    }
    lemma_delta_moves(one, down, MoveFlag::QuietMove, p);
    lemma_delta_moves(two, 2 * down, MoveFlag::DoublePawnPush, p);
    let pm = crate::movegen::pawn_moves(board, GenTypes::QuietChecks, !occ, occ, them_occ);
    lemma_all_add(per_square(one, move_by_delta(down, MoveFlag::QuietMove)),
        per_square(two, move_by_delta(2 * down, MoveFlag::DoublePawnPush)), p);
    // direct checks
    lemma_all_add(a, pm, p);
    let n = crate::movegen::direct_checks_of(board, Piece::N);
    let b = crate::movegen::direct_checks_of(board, Piece::B);
    let r = crate::movegen::direct_checks_of(board, Piece::R);
    let q = crate::movegen::direct_checks_of(board, Piece::Q);
    assert(all_satisfy(n, p) && all_satisfy(b, p) && all_satisfy(r, p) && all_satisfy(q, p)) by {
        let eksq = board.king_square(them);
        lemma_bit_ops(board.spec_piece_bb(us, Piece::N), !dc);
        lemma_bit_ops(board.spec_piece_bb(us, Piece::B), !dc);
        lemma_bit_ops(board.spec_piece_bb(us, Piece::R), !dc);
        lemma_bit_ops(board.spec_piece_bb(us, Piece::Q), !dc);
        lemma_pieces_clean(board, Piece::N, board.spec_piece_bb(us, Piece::N) & !dc,
            crate::movegen::check_squares(Piece::N, eksq, occ) & !occ, occ, us_occ, them_occ);
        lemma_pieces_clean(board, Piece::B, board.spec_piece_bb(us, Piece::B) & !dc,
            crate::movegen::check_squares(Piece::B, eksq, occ) & !occ, occ, us_occ, them_occ);
        lemma_pieces_clean(board, Piece::R, board.spec_piece_bb(us, Piece::R) & !dc,
            crate::movegen::check_squares(Piece::R, eksq, occ) & !occ, occ, us_occ, them_occ);
        lemma_pieces_clean(board, Piece::Q, board.spec_piece_bb(us, Piece::Q) & !dc,
            crate::movegen::check_squares(Piece::Q, eksq, occ) & !occ, occ, us_occ, them_occ);
    }
    // promotions by pushing
    lemma_promotion_squares(board);
    let p7 = board.spec_piece_bb(us, Piece::P) & crate::movegen::pawn_ranks(us).1;
    let pbb = shift_up_spec(us, p7) & !occ;
    let eksq = board.king_square(them);
    assert forall|d: int, prom: Piece| #[trigger] bit(pbb, d) && prom != Piece::P && prom != Piece::K
        && bit(crate::movegen::piece_moves_bb(prom, d, occ), eksq)
        implies p(#[trigger] spec_move(d + down, d, MoveFlag::Promotion { capture: false, prom })) by {
        BitMove::lemma_encode(d + down, d, MoveFlag::Promotion { capture: false, prom });
        board.lemma_piece_occupies(us, Piece::P, d + down);
        lemma_adjacent_clear(d + down, d, occ);
    }
    lemma_checking_promotions_pred(pbb, down, eksq, occ, p);
    let pr = crate::movegen::checking_promotions_of(board);
    // castling
    let cq = crate::movegen::checking_castles(board, crate::templates::CastleType::QueenSide);
    let ck = crate::movegen::checking_castles(board, crate::templates::CastleType::KingSide);
    assert(all_satisfy(cq, p) && all_satisfy(ck, p)) by {
        reveal(crate::movegen::castling_moves);
        board.lemma_king_on_square(us);
        let fq = MoveFlag::Castle { king_side: false };
        let fk = MoveFlag::Castle { king_side: true };
        BitMove::lemma_encode(board.king_square(us), crate::movegen::castle_rook_from(us, crate::templates::CastleType::QueenSide), fq);
        BitMove::lemma_encode(board.king_square(us), crate::movegen::castle_rook_from(us, crate::templates::CastleType::KingSide), fk);
    }
    lemma_all_add(a + pm, pr, p);
    lemma_all_add(a + pm + pr, n, p);
    lemma_all_add(a + pm + pr + n, b, p);
    lemma_all_add(a + pm + pr + n + b, r, p);
    lemma_all_add(a + pm + pr + n + b + r, q, p);
    lemma_all_add(a + pm + pr + n + b + r + q, cq, p);
    lemma_all_add(a + pm + pr + n + b + r + q + cq, ck, p);
}


/// Squares between `s` and `t`, where `s` lies between `a` and `t`, lie
/// between `a` and `t`; and `s` and `t` lie on the same kind of line as `a`
/// and `t`.
proof fn lemma_between_inner(a: int, t: int, s: int, v: int)
    requires
        0 <= a < 64,
        0 <= t < 64,
        between(a, t, s),
    ensures
        between(s, t, v) ==> between(a, t, v),
        crate::attacks::bishop_line(a, t) ==> crate::attacks::bishop_line(s, t),
        crate::attacks::rook_line(a, t) ==> crate::attacks::rook_line(s, t),
{
    let (fa, ra) = (file_of(a), rank_of(a));
    let (ft, rt) = (file_of(t), rank_of(t));
    let (fs, rs) = (file_of(s), rank_of(s));
    let (fv, rv) = (file_of(v), rank_of(v));
    assert(a == 8 * ra + fa && 0 <= fa < 8 && 0 <= ra < 8);
    assert(t == 8 * rt + ft && 0 <= ft < 8 && 0 <= rt < 8);
    assert(s == 8 * rs + fs && 0 <= fs < 8 && 0 <= rs < 8);
    if 0 <= v < 64 {
        assert(v == 8 * rv + fv && 0 <= fv < 8 && 0 <= rv < 8);
    }
}

/// The king of the side to move is the only king on its squares.
proof fn lemma_king_src(board: Board, s: int)
    requires
        board.sound(),
        board.piece_on(s) == Some(Piece::K),
        bit(board.occupied_by(board.spec_turn()), s),
    ensures
        s == board.king_square(board.spec_turn()),
{
    let us = board.spec_turn();
    let bbs = board.spec_bbs();
    reveal_with_fuel(crate::board::piece_on_from, 7);
    crate::board::lemma_occupied_in_bits(bbs, us);
    assert(forall|i: int, j: int, x: int| 0 <= i < j < 12 ==> !(#[trigger] bit(bbs[i], x) && #[trigger] bit(bbs[j], x)));
    assert(bit(board.spec_piece_bb(us, Piece::K), s));
    crate::board::lemma_single(board.spec_piece_bb(us, Piece::K));
}

/// A king move that `is_legal` accepts, other than castling and onto a square
/// the side to move does not hold, leaves the king unattacked on its new
/// square when it does not step along the line of a checking slider away from
/// it (out of check, there is none).
pub proof fn lemma_legal_king_move_keeps_king_safe(board: Board, m: BitMove)
    requires
        board.wf(),
        board.is_legal(m),
        board.piece_on(m.spec_src()) == Some(Piece::K),
        m.spec_flag_bits() != 2 && m.spec_flag_bits() != 3 && m.spec_flag_bits() != 5,
        bit(board.occupied_by(board.spec_turn()), m.spec_src()),
        0 <= m.spec_dst() < 64,
        !bit(board.occupied_by(board.spec_turn()), m.spec_dst()),
        forall|t: int| #[trigger] bit(board.spec_checkers(), t)
            && bit(board.diagonal_sliders(board.spec_turn().spec_other()) | board.straight_sliders(board.spec_turn().spec_other()), t)
            ==> !between(m.spec_dst(), t, board.king_square(board.spec_turn())),
    ensures
        king_safe_after(board, m),
{
    let us = board.spec_turn();
    let them = us.spec_other();
    let bbs = board.spec_bbs();
    let k = board.king_square(us);
    let src = m.spec_src();
    let dst = m.spec_dst();
    let occ = board.occupied();
    let occ2 = occupied_after(board, m);
    lemma_king_src(board, src);
    board.lemma_king_on_square(us);
    board.lemma_sides();
    crate::board::lemma_occupied_in_bits(bbs, Player::White);
    crate::board::lemma_occupied_in_bits(bbs, Player::Black);
    crate::bitboard::lemma_single_bit(src as u64);
    crate::bitboard::lemma_single_bit(dst as u64);
    lemma_bit_ops(occ, !sq_bb(src));
    lemma_bit_ops(occ & !sq_bb(src), sq_bb(dst));
    lemma_bit_ops(sq_bb(src), sq_bb(src));
    assert forall|u: int| 0 <= u < 64 implies (#[trigger] bit(occ2, u) <==> ((bit(occ, u) && u != src) || u == dst)) by {}
    let them_occ = board.occupied_by(them);
    crate::bitboard::lemma_empty_bits();
    let attk = board.attackers(k, occ);
    let attd = board.attackers(dst, occ);
    let sliders = board.diagonal_sliders(them) | board.straight_sliders(them);
    lemma_bit_ops(attk, them_occ);
    lemma_bit_ops(attd, them_occ);
    lemma_bit_ops(board.diagonal_sliders(them), board.straight_sliders(them));
    lemma_bit_ops(crate::board::piece_in(bbs, them, Piece::R), crate::board::piece_in(bbs, them, Piece::Q));
    lemma_bit_ops(crate::board::piece_in(bbs, them, Piece::B), crate::board::piece_in(bbs, them, Piece::Q));
    assert forall|piece: Piece, t: int| #[trigger] bit(board.spec_piece_bb(them, piece), t) && t != dst
        implies !attacks_from(them, piece, t, occ2, dst) by {
        board.lemma_piece_occupies(them, piece, t);
        assert(attd & them_occ == 0);
        assert(!bit(attd & them_occ, t));
        assert(!bit(attd, t));
        lemma_attackers_bits(board, dst, occ, piece, t);
        let kind = match piece {
            Piece::B => Reach::Bishop,
            Piece::R => Reach::Rook,
            _ => Reach::Queen,
        };
        if (piece == Piece::B || piece == Piece::R || piece == Piece::Q) && attacks_from(them, piece, t, occ2, dst) {
            lemma_reaches_sym(kind, dst, t, occ);
            lemma_reaches_sym(kind, dst, t, occ2);
            lemma_xray(board, m, t);
            lemma_reaches_sym(kind, k, t, occ);
            assert(bit(sliders, t));
            if bit(attk, t) {
                assert(bit(attk & them_occ, t));
                assert(bit(board.spec_checkers(), t));
            } else {
                lemma_attackers_bits(board, k, occ, piece, t);
            }
        }
    }
}

/// Whether an enemy piece of kind `piece` on `t` attacks `sq` with the squares
/// of `occ` occupied, as the board's attackers see it.
proof fn lemma_attackers_bits(board: Board, sq: int, occ: u64, piece: Piece, t: int)
    requires
        board.sound(),
        0 <= sq < 64,
        bit(board.spec_piece_bb(board.spec_turn().spec_other(), piece), t),
        !bit(board.attackers(sq, occ), t),
    ensures
        !attacks_from(board.spec_turn().spec_other(), piece, t, occ, sq),
{
    let them = board.spec_turn().spec_other();
    let bbs = board.spec_bbs();
    let wp = crate::board::piece_in(bbs, Player::White, Piece::P);
    let bp = crate::board::piece_in(bbs, Player::Black, Piece::P);
    let a1 = reach_bb(Reach::Pawn(Player::White), sq, 0) & bp;
    let a2 = reach_bb(Reach::Pawn(Player::Black), sq, 0) & wp;
    let kn = crate::board::piece_in(bbs, Player::White, Piece::N) | crate::board::piece_in(bbs, Player::Black, Piece::N);
    let a3 = reach_bb(Reach::Knight, sq, 0) & kn;
    let st = crate::board::straight_in(bbs, Player::White) | crate::board::straight_in(bbs, Player::Black);
    let a4 = reach_bb(Reach::Rook, sq, occ) & st;
    let dg = crate::board::diagonal_in(bbs, Player::White) | crate::board::diagonal_in(bbs, Player::Black);
    let a5 = reach_bb(Reach::Bishop, sq, occ) & dg;
    let kk = crate::board::piece_in(bbs, Player::White, Piece::K) | crate::board::piece_in(bbs, Player::Black, Piece::K);
    let a6 = reach_bb(Reach::King, sq, 0) & kk;
    lemma_bit_ops(a1, a2);
    lemma_bit_ops(a1 | a2, a3);
    lemma_bit_ops(a1 | a2 | a3, a4);
    lemma_bit_ops(a1 | a2 | a3 | a4, a5);
    lemma_bit_ops(a1 | a2 | a3 | a4 | a5, a6);
    lemma_bit_ops(reach_bb(Reach::Pawn(Player::White), sq, 0), bp);
    lemma_bit_ops(reach_bb(Reach::Pawn(Player::Black), sq, 0), wp);
    lemma_bit_ops(reach_bb(Reach::Knight, sq, 0), kn);
    lemma_bit_ops(reach_bb(Reach::Rook, sq, occ), st);
    lemma_bit_ops(reach_bb(Reach::Bishop, sq, occ), dg);
    lemma_bit_ops(reach_bb(Reach::King, sq, 0), kk);
    lemma_bit_ops(crate::board::piece_in(bbs, Player::White, Piece::N), crate::board::piece_in(bbs, Player::Black, Piece::N));
    lemma_bit_ops(crate::board::piece_in(bbs, Player::White, Piece::K), crate::board::piece_in(bbs, Player::Black, Piece::K));
    lemma_bit_ops(crate::board::straight_in(bbs, Player::White), crate::board::straight_in(bbs, Player::Black));
    lemma_bit_ops(crate::board::diagonal_in(bbs, Player::White), crate::board::diagonal_in(bbs, Player::Black));
    lemma_bit_ops(crate::board::piece_in(bbs, them, Piece::R), crate::board::piece_in(bbs, them, Piece::Q));
    lemma_bit_ops(crate::board::piece_in(bbs, them, Piece::B), crate::board::piece_in(bbs, them, Piece::Q));
    crate::attacks::lemma_reach_bb(Reach::Pawn(Player::White), sq, 0);
    crate::attacks::lemma_reach_bb(Reach::Pawn(Player::Black), sq, 0);
    crate::attacks::lemma_reach_bb(Reach::Knight, sq, 0);
    crate::attacks::lemma_reach_bb(Reach::Rook, sq, occ);
    crate::attacks::lemma_reach_bb(Reach::Bishop, sq, occ);
    crate::attacks::lemma_reach_bb(Reach::King, sq, 0);
    assert(0 <= t < 64);
    match piece {
        Piece::B => {
            assert(bit(dg, t));
            lemma_reaches_sym(Reach::Bishop, sq, t, occ);
        },
        Piece::R => {
            assert(bit(st, t));
            lemma_reaches_sym(Reach::Rook, sq, t, occ);
        },
        Piece::Q => {
            assert(bit(dg, t));
            assert(bit(st, t));
            lemma_reaches_sym(Reach::Bishop, sq, t, occ);
            lemma_reaches_sym(Reach::Rook, sq, t, occ);
        },
        Piece::N => {
            assert(bit(kn, t));
            lemma_reaches_sym(Reach::Knight, sq, t, 0);
        },
        Piece::K => {
            assert(bit(kk, t));
        },
        Piece::P => {
            match them {
                Player::White => { assert(bit(wp, t)); },
                Player::Black => { assert(bit(bp, t)); },
            }
        },
    }
}

/// A slider that reaches the king's new square once the king has left would
/// have reached the king where it stood: the king itself was what blocked it.
proof fn lemma_xray(board: Board, m: BitMove, t: int)
    requires
        board.sound(),
        m.spec_src() == board.king_square(board.spec_turn()),
        0 <= m.spec_dst() < 64,
        0 <= t < 64,
        t != m.spec_dst(),
        !path_clear(m.spec_dst(), t, board.occupied()),
        path_clear(m.spec_dst(), t, occupied_after(board, m)),
        forall|u: int| 0 <= u < 64 ==> (#[trigger] bit(occupied_after(board, m), u)
            <==> ((bit(board.occupied(), u) && u != m.spec_src()) || u == m.spec_dst())),
    ensures
        path_clear(m.spec_src(), t, board.occupied()),
        between(m.spec_dst(), t, m.spec_src()),
        crate::attacks::bishop_line(m.spec_dst(), t) ==> crate::attacks::bishop_line(m.spec_src(), t),
        crate::attacks::rook_line(m.spec_dst(), t) ==> crate::attacks::rook_line(m.spec_src(), t),
{
    let src = m.spec_src();
    let dst = m.spec_dst();
    let occ = board.occupied();
    let occ2 = occupied_after(board, m);
    let u = choose|u: int| between(dst, t, u) && bit(occ, u);
    assert(0 <= u < 64);
    assert(!bit(occ2, u));
    assert(u == src);
    lemma_between_inner(dst, t, src, 0);
    assert forall|v: int| #![trigger bit(occ, v)] between(src, t, v) implies !bit(occ, v) by {
        lemma_between_inner(dst, t, src, v);
        assert(between(dst, t, v));
        assert(!bit(occ2, v));
        assert(v != src);
    }
}


/// A square on the line through `c` and `ksq`, other than `c`, is on the
/// slider lines of any set holding `c`.
proof fn lemma_slider_lines_member(bb: u64, ksq: int, c: int, d: int)
    requires
        0 <= ksq < 64,
        bit(bb, c),
        0 <= d < 64,
        reaches(Reach::Line(ksq as u8), c, 0, d),
        d != c,
    ensures
        bit(crate::movegen::slider_lines(bb, ksq), d),
    decreases bb,
{
    crate::bitboard::lemma_empty_bits();
    lemma_lowest(bb);
    crate::bitboard::lemma_without_lowest_smaller(bb);
    let t = vstd::std_specs::bits::u64_trailing_zeros(bb) as int;
    let rest = without_lowest(bb);
    let line = reach_bb(Reach::Line(ksq as u8), t, 0);
    lemma_bit_ops(line ^ sq_bb(t), crate::movegen::slider_lines(rest, ksq));
    lemma_bit_ops(line, sq_bb(t));
    crate::bitboard::lemma_single_bit(t as u64);
    if c == t {
        crate::attacks::lemma_reach_bb(Reach::Line(ksq as u8), t, 0);
    } else {
        assert(bit(rest, c));
        lemma_slider_lines_member(rest, ksq, c, d);
    }
}

/// If `k` lies strictly between `d` and `t`, then `d` lies on the line through
/// `t` and `k`.
proof fn lemma_between_line(d: int, t: int, k: int)
    requires
        0 <= d < 64,
        0 <= t < 64,
        0 <= k < 64,
        between(d, t, k),
    ensures
        reaches(Reach::Line(k as u8), t, 0, d),
        d != t,
{
    let (fd, rd) = (file_of(d), rank_of(d));
    let (ft, rt) = (file_of(t), rank_of(t));
    let (fk, rk) = (file_of(k), rank_of(k));
    assert(d == 8 * rd + fd && 0 <= fd < 8 && 0 <= rd < 8);
    assert(t == 8 * rt + ft && 0 <= ft < 8 && 0 <= rt < 8);
    assert(k == 8 * rk + fk && 0 <= fk < 8 && 0 <= rk < 8);
    assert((k as u8) as int == k);
}

/// What an evasion does against the pieces giving check: a king move does not
/// step along the line of a checking slider away from it; any other move takes
/// or blocks every piece giving check.
pub open spec fn meets_check(board: Board, m: BitMove) -> bool {
    let us = board.spec_turn();
    let them = us.spec_other();
    let k = board.king_square(us);
    let fl = m.spec_flag_bits();
    let dst = m.spec_dst();
    let cap = captured_square(board, m);
    &&& (fl != 2 && fl != 3 && fl != 5 && board.piece_on(m.spec_src()) == Some(Piece::K)) ==>
        forall|t: int| #[trigger] bit(board.spec_checkers(), t)
            && bit(board.diagonal_sliders(them) | board.straight_sliders(them), t) ==> !between(dst, t, k)
    &&& (fl != 2 && fl != 3 && board.piece_on(m.spec_src()) != Some(Piece::K)) ==>
        forall|t: int| #[trigger] bit(board.spec_checkers(), t) ==> t == cap || between(k, t, cap)
}

/// `meets_check` on `board` as a predicate on moves.
pub open spec fn meets_check_pred(board: Board) -> spec_fn(BitMove) -> bool {
    |m: BitMove| meets_check(board, m)
}

/// Whether `m` moves a piece other than the king onto a square of `target`,
/// or, en passant, takes a pawn standing on a square of `target`.
pub open spec fn lands_in_pred(board: Board, target: u64) -> spec_fn(BitMove) -> bool {
    |m: BitMove| {
        &&& m.spec_flag_bits() != 5 ==> bit(target, m.spec_dst())
        &&& m.spec_flag_bits() == 5 ==> bit(target, captured_square(board, m))
        &&& !is_castle_flag(m.spec_flag_bits())
        &&& board.piece_on(m.spec_src()) != Some(Piece::K)
    }
}

#[verifier::spinoff_prover]
#[verifier::rlimit(40)]
proof fn lemma_evasion_targets(board: Board, target: u64, occ: u64, us_occ: u64, them_occ: u64)
    requires
        occupancies(board, occ, us_occ, them_occ),
    ensures
        all_satisfy(crate::movegen::all_moves(board, GenTypes::Evasions, target, occ, us_occ, them_occ), lands_in_pred(board, target)),
{
    reveal(crate::movegen::all_moves);
    reveal(crate::movegen::officer_moves);
    reveal(crate::movegen::pawn_moves);
    let gen = GenTypes::Evasions;
    let us = board.spec_turn();
    let them = us.spec_other();
    let p = lands_in_pred(board, target);
    lemma_bit_ops(board.spec_piece_bb(us, Piece::P), !crate::movegen::pawn_ranks(us).1);
    lemma_bit_ops(board.spec_piece_bb(us, Piece::P), crate::movegen::pawn_ranks(us).1);
    let (rank_8, rank_7, rank_3) = crate::movegen::pawn_ranks(us);
    let pawns = board.spec_piece_bb(us, Piece::P);
    let not7 = pawns & !rank_7;
    let p7 = pawns & rank_7;
    let down = down_delta(us);
    // pushes
    lemma_pawn_pushes_ok(board, gen, target, occ, us_occ, them_occ);
    let empty = crate::movegen::push_empty(gen, target, occ);
    let one0 = empty & shift_up_spec(us, not7);
    let two0 = shift_up_spec(us, one0 & rank_3) & empty;
    lemma_bit_ops(one0, target);
    lemma_bit_ops(two0, target);
    let (one, two) = crate::movegen::pawn_pushes(board, gen, target, occ);
    assert forall|d: int| #[trigger] bit(one, d) implies p(spec_move(d + down, d, MoveFlag::QuietMove)) by {
        BitMove::lemma_encode(d + down, d, MoveFlag::QuietMove);
        lemma_piece_on_kind(board, us, Piece::P, d + down);
    }
    assert forall|d: int| #[trigger] bit(two, d) implies p(spec_move(d + 2 * down, d, MoveFlag::DoublePawnPush)) by {
        BitMove::lemma_encode(d + 2 * down, d, MoveFlag::DoublePawnPush);
        lemma_piece_on_kind(board, us, Piece::P, d + 2 * down);
    }
    lemma_delta_moves(one, down, MoveFlag::QuietMove, p);
    lemma_delta_moves(two, 2 * down, MoveFlag::DoublePawnPush, p);
    let a = per_square(one, move_by_delta(down, MoveFlag::QuietMove))
        + per_square(two, move_by_delta(2 * down, MoveFlag::DoublePawnPush));
    lemma_all_add(per_square(one, move_by_delta(down, MoveFlag::QuietMove)),
        per_square(two, move_by_delta(2 * down, MoveFlag::DoublePawnPush)), p);
    // promotions
    let b = crate::movegen::pawn_promo_moves(board, gen, target, occ, them_occ);
    if p7 != 0 && target & rank_8 != 0 {
        let pe = crate::movegen::promo_empty(gen, target, occ);
        let enemies = crate::movegen::pawn_enemies(gen, target, them_occ);
        lemma_bit_ops(empty, target);
        lemma_bit_ops(them_occ, target);
        lemma_shift_up(us, p7);
        lemma_shift_up_sides(us, p7);
        let pu = shift_up_spec(us, p7) & pe;
        let pl = shift_up_left_spec(us, p7) & enemies;
        let pr = shift_up_right_spec(us, p7) & enemies;
        lemma_bit_ops(shift_up_spec(us, p7), pe);
        lemma_bit_ops(shift_up_left_spec(us, p7), enemies);
        lemma_bit_ops(shift_up_right_spec(us, p7), enemies);
        assert forall|d: int, prom: Piece| #[trigger] bit(pu, d)
            implies p(#[trigger] spec_move(d + down, d, MoveFlag::Promotion { capture: false, prom })) by {
            BitMove::lemma_encode(d + down, d, MoveFlag::Promotion { capture: false, prom });
            lemma_piece_on_kind(board, us, Piece::P, d + down);
        }
        assert forall|d: int, prom: Piece| #[trigger] bit(pl, d)
            implies p(#[trigger] spec_move(d + down_right_delta(us), d, MoveFlag::Promotion { capture: true, prom })) by {
            BitMove::lemma_encode(d + down_right_delta(us), d, MoveFlag::Promotion { capture: true, prom });
            lemma_piece_on_kind(board, us, Piece::P, d + down_right_delta(us));
        }
        assert forall|d: int, prom: Piece| #[trigger] bit(pr, d)
            implies p(#[trigger] spec_move(d + down_left_delta(us), d, MoveFlag::Promotion { capture: true, prom })) by {
            BitMove::lemma_encode(d + down_left_delta(us), d, MoveFlag::Promotion { capture: true, prom });
            lemma_piece_on_kind(board, us, Piece::P, d + down_left_delta(us));
        }
        lemma_promotions_pred(pu, down, false, p);
        lemma_promotions_pred(pl, down_right_delta(us), true, p);
        lemma_promotions_pred(pr, down_left_delta(us), true, p);
        let b1 = per_square(pu, promotions_by_delta(down, false));
        let b2 = per_square(pl, promotions_by_delta(down_right_delta(us), true));
        let b3 = per_square(pr, promotions_by_delta(down_left_delta(us), true));
        lemma_all_add(b1, b2, p);
        lemma_all_add(b1 + b2, b3, p);
    }
    // captures
    let c = crate::movegen::pawn_capture_moves(board, gen, target, them_occ);
    {
        let enemies = crate::movegen::pawn_enemies(gen, target, them_occ);
        lemma_bit_ops(them_occ, target);
        lemma_shift_up_sides(us, not7);
        let cl = shift_up_left_spec(us, not7) & enemies;
        let cr = shift_up_right_spec(us, not7) & enemies;
        lemma_bit_ops(shift_up_left_spec(us, not7), enemies);
        lemma_bit_ops(shift_up_right_spec(us, not7), enemies);
        let cap = MoveFlag::Capture { ep_capture: false };
        assert forall|d: int| #[trigger] bit(cl, d) implies p(spec_move(d + down_right_delta(us), d, cap)) by {
            BitMove::lemma_encode(d + down_right_delta(us), d, cap);
            lemma_piece_on_kind(board, us, Piece::P, d + down_right_delta(us));
        }
        assert forall|d: int| #[trigger] bit(cr, d) implies p(spec_move(d + down_left_delta(us), d, cap)) by {
            BitMove::lemma_encode(d + down_left_delta(us), d, cap);
            lemma_piece_on_kind(board, us, Piece::P, d + down_left_delta(us));
        }
        lemma_delta_moves(cl, down_right_delta(us), cap, p);
        lemma_delta_moves(cr, down_left_delta(us), cap, p);
        let c1 = per_square(cl, move_by_delta(down_right_delta(us), cap));
        let c2 = per_square(cr, move_by_delta(down_left_delta(us), cap));
        let c3 = crate::movegen::ep_capture_moves(board, gen, target);
        let ep = board.spec_ep_square() as int;
        if ep != NO_SQ && target & sq_bb(ep + down_delta(us)) != 0 {
            board.lemma_ep_square();
            let from = not7 & reach_bb(Reach::Pawn(them), ep, 0);
            let epf = MoveFlag::Capture { ep_capture: true };
            let f = move_to_dst(ep, epf);
            let x = ep + down_delta(us);
            assert(bit(target, x)) by {
                crate::bitboard::lemma_single_bit(x as u64);
                lemma_bit_ops(target, sq_bb(x));
                crate::bitboard::lemma_empty_bits();
                if !bit(target, x) {
                    crate::bitboard::lemma_bits_ext(target & sq_bb(x), 0);
                }
            }
            lemma_bit_ops(not7, reach_bb(Reach::Pawn(them), ep, 0));
            assert forall|s: int| #[trigger] bit(from, s) implies all_satisfy(f(s), p) by {
                BitMove::lemma_encode(s, ep, epf);
                assert(f(s)[0] == spec_move(s, ep, epf));
                assert(bit(not7, s));
                lemma_piece_on_kind(board, us, Piece::P, s);
            }
            lemma_all_per_square(from, f, p);
        }
        lemma_all_add(c1, c2, p);
        lemma_all_add(c1 + c2, c3, p);
    }
    lemma_all_add(a, b, p);
    lemma_all_add(a + b, c, p);
    // officers
    let pieces = |piece: Piece| per_square(board.spec_piece_bb(us, piece),
        crate::movegen::piece_moves_fn(piece, target, occ, us_occ, them_occ));
    assert forall|piece: Piece| piece != Piece::P && piece != Piece::K implies all_satisfy(#[trigger] pieces(piece), p) by {
        let f = crate::movegen::piece_moves_fn(piece, target, occ, us_occ, them_occ);
        assert forall|src: int| #[trigger] bit(board.spec_piece_bb(us, piece), src) implies all_satisfy(f(src), p) by {
            lemma_piece_on_kind(board, us, piece, src);
            let pm = crate::movegen::piece_moves_bb(piece, src, occ);
            let moves = pm & !us_occ & target;
            lemma_bit_ops(pm & !us_occ, target);
            lemma_bit_ops(moves, them_occ);
            lemma_bit_ops(moves, !them_occ);
            let cap = MoveFlag::Capture { ep_capture: false };
            assert forall|d: int| #[trigger] bit(moves & them_occ, d) implies p(spec_move(src, d, cap)) by {
                BitMove::lemma_encode(src, d, cap);
            }
            assert forall|d: int| #[trigger] bit(moves & !them_occ, d) implies p(spec_move(src, d, MoveFlag::QuietMove)) by {
                BitMove::lemma_encode(src, d, MoveFlag::QuietMove);
            }
            lemma_src_moves(moves & them_occ, src, cap, p);
            lemma_src_moves(moves & !them_occ, src, MoveFlag::QuietMove, p);
            lemma_all_add(per_square(moves & them_occ, move_from_src(src, cap)),
                per_square(moves & !them_occ, move_from_src(src, MoveFlag::QuietMove)), p);
        }
        lemma_all_per_square(board.spec_piece_bb(us, piece), f, p);
    }
    let n = pieces(Piece::N);
    let bb = pieces(Piece::B);
    let r = pieces(Piece::R);
    let q = pieces(Piece::Q);
    assert(all_satisfy(n, p) && all_satisfy(bb, p) && all_satisfy(r, p) && all_satisfy(q, p));
    lemma_all_add(n, bb, p);
    lemma_all_add(n + bb, r, p);
    lemma_all_add(n + bb + r, q, p);
    assert(crate::movegen::officer_moves(board, target, occ, us_occ, them_occ) == n + bb + r + q);
    lemma_all_add(a + b + c, n + bb + r + q, p);
    assert(crate::movegen::all_moves(board, gen, target, occ, us_occ, them_occ) =~= (a + b + c) + (n + bb + r + q));
}

/// Out of check, every move meets the (absent) checks.
proof fn lemma_no_check_met(board: Board, m: BitMove)
    requires
        board.spec_checkers() == 0,
    ensures
        meets_check(board, m),
{
    crate::bitboard::lemma_empty_bits();
}

/// Every evasion meets the check: king moves keep off the lines of checking
/// sliders, other moves take or block the only piece giving check.
proof fn lemma_evasions_meet_check(board: Board)
    requires
        board.wf(),
        board.spec_checkers() != 0,
    ensures
        all_satisfy(crate::movegen::evasion_moves(board), meets_check_pred(board)),
{
    reveal(crate::movegen::evasion_moves);
    let us = board.spec_turn();
    let them = us.spec_other();
    let bbs = board.spec_bbs();
    let occ = board.occupied();
    let us_occ = board.occupied_by(us);
    let them_occ = board.occupied_by(them);
    let p = meets_check_pred(board);
    let ksq = board.king_square(us);
    board.lemma_king_on_square(us);
    lemma_piece_on_kind(board, us, Piece::K, ksq);
    let checkers = board.spec_checkers();
    let sliders = board.diagonal_sliders(them) | board.straight_sliders(them);
    let pawns_knights = (board.spec_piece_bb(Player::White, Piece::P) | board.spec_piece_bb(Player::Black, Piece::P))
        | (board.spec_piece_bb(Player::White, Piece::N) | board.spec_piece_bb(Player::Black, Piece::N));
    let slider_attacks = crate::movegen::slider_lines(checkers & !pawns_knights, ksq);
    let k_moves = reach_bb(Reach::King, ksq, 0) & !slider_attacks & !us_occ;
    lemma_bit_ops(reach_bb(Reach::King, ksq, 0), !slider_attacks);
    lemma_bit_ops(reach_bb(Reach::King, ksq, 0) & !slider_attacks, !us_occ);
    lemma_bit_ops(k_moves, them_occ);
    lemma_bit_ops(k_moves, !them_occ);
    lemma_bit_ops(slider_attacks, slider_attacks);
    lemma_bit_ops(checkers, !pawns_knights);
    lemma_bit_ops(pawns_knights, pawns_knights);
    lemma_bit_ops(board.spec_piece_bb(Player::White, Piece::P) | board.spec_piece_bb(Player::Black, Piece::P),
        board.spec_piece_bb(Player::White, Piece::N) | board.spec_piece_bb(Player::Black, Piece::N));
    lemma_bit_ops(board.spec_piece_bb(Player::White, Piece::P), board.spec_piece_bb(Player::Black, Piece::P));
    lemma_bit_ops(board.spec_piece_bb(Player::White, Piece::N), board.spec_piece_bb(Player::Black, Piece::N));
    lemma_bit_ops(board.diagonal_sliders(them), board.straight_sliders(them));
    lemma_bit_ops(crate::board::piece_in(bbs, them, Piece::R), crate::board::piece_in(bbs, them, Piece::Q));
    lemma_bit_ops(crate::board::piece_in(bbs, them, Piece::B), crate::board::piece_in(bbs, them, Piece::Q));
    assert(forall|i: int, j: int, x: int| 0 <= i < j < 12 ==> !(#[trigger] bit(bbs[i], x) && #[trigger] bit(bbs[j], x)));
    assert forall|d: int| #[trigger] bit(k_moves, d) implies (forall|t: int| #[trigger] bit(checkers, t) && bit(sliders, t)
        ==> !between(d, t, ksq)) by {
        assert forall|t: int| #[trigger] bit(checkers, t) && bit(sliders, t) implies !between(d, t, ksq) by {
            if between(d, t, ksq) {
                assert(0 <= d < 64 && 0 <= t < 64);
                lemma_between_line(d, t, ksq);
                assert(!bit(pawns_knights, t));
                assert(bit(checkers & !pawns_knights, t));
                lemma_slider_lines_member(checkers & !pawns_knights, ksq, t, d);
                assert(bit(k_moves, d));
                assert(!bit(slider_attacks, d));
            }
        }
    }
    let cap = MoveFlag::Capture { ep_capture: false };
    assert forall|d: int| #[trigger] bit(k_moves & them_occ, d) implies p(spec_move(ksq, d, cap)) by {
        BitMove::lemma_encode(ksq, d, cap);
        assert(bit(k_moves, d));
    }
    assert forall|d: int| #[trigger] bit(k_moves & !them_occ, d) implies p(spec_move(ksq, d, MoveFlag::QuietMove)) by {
        BitMove::lemma_encode(ksq, d, MoveFlag::QuietMove);
        assert(bit(k_moves, d));
    }
    lemma_src_moves(k_moves & them_occ, ksq, cap, p);
    lemma_src_moves(k_moves & !them_occ, ksq, MoveFlag::QuietMove, p);
    let a = per_square(k_moves & them_occ, move_from_src(ksq, cap));
    let b = per_square(k_moves & !them_occ, move_from_src(ksq, MoveFlag::QuietMove));
    lemma_all_add(a, b, p);
    if without_lowest(checkers) == 0 {
        let c = vstd::std_specs::bits::u64_trailing_zeros(checkers) as int;
        lemma_lowest(checkers);
        crate::board::lemma_single(checkers);
        assert(crate::board::single(checkers));
        let betw = reach_bb(Reach::Between(ksq as u8), c, 0);
        let target = betw | sq_bb(c);
        lemma_bit_ops(betw, sq_bb(c));
        crate::attacks::lemma_reach_bb(Reach::Between(ksq as u8), c, 0);
        crate::bitboard::lemma_single_bit(c as u64);
        lemma_evasion_targets(board, target, occ, us_occ, them_occ);
        let rest = crate::movegen::all_moves(board, GenTypes::Evasions, target, occ, us_occ, them_occ);
        let q = lands_in_pred(board, target);
        assert forall|i: int| 0 <= i < rest.len() implies #[trigger] p(rest[i]) by {
            let m = rest[i];
            assert(q(m));
            let cap = captured_square(board, m);
            assert(bit(target, cap));
            assert forall|t: int| #[trigger] bit(checkers, t) implies t == cap || between(ksq, t, cap) by {
                assert(t == c);
                if bit(betw, cap) {
                    assert((ksq as u8) as int == ksq);
                    lemma_between_sym(c, ksq, cap);
                }
            }
        }
        lemma_all_add(a + b, rest, p);
    }
}

/// Every move that legal generation produces, of a kind that may be generated
/// on the board, leaves the king unattacked: no enemy piece left on the board
/// attacks the king once the move is made.
pub proof fn lemma_legal_moves_keep_king_safe(board: Board, gen: GenTypes)
    requires
        board.wf(),
        crate::movegen::gen_allowed(board, gen),
    ensures
        forall|i: int| 0 <= i < generated_moves(board, true, gen).len() ==> ({
            let m = #[trigger] generated_moves(board, true, gen)[i];
            let fl = m.spec_flag_bits();
            king_safe_after(board, m)
        }),
{
    let p = moves_cleanly_pred(board);
    let mc = meets_check_pred(board);
    let ms = pseudo_legal_moves(board, gen);
    if gen == GenTypes::Evasions {
        lemma_evasions_clean(board);
    } else if gen == GenTypes::QuietChecks {
        lemma_quiet_checks_clean(board);
    } else if gen == GenTypes::All {
        if board.spec_checkers() != 0 {
            lemma_evasions_clean(board);
        } else {
            lemma_non_evasions_clean(board, GenTypes::NonEvasions);
        }
    } else {
        lemma_non_evasions_clean(board, gen);
    }
    if board.spec_checkers() != 0 {
        lemma_evasions_meet_check(board);
        assert(ms == crate::movegen::evasion_moves(board));
    } else {
        assert forall|i: int| 0 <= i < ms.len() implies #[trigger] mc(ms[i]) by {
            lemma_no_check_met(board, ms[i]);
        }
    }
    lemma_all_keep(true, board, ms, p);
    lemma_all_keep(true, board, ms, mc);
    lemma_legal_moves_are_legal(board, gen);
    let g = generated_moves(board, true, gen);
    assert forall|i: int| 0 <= i < g.len() implies ({
        let m = #[trigger] g[i];
        king_safe_after(board, m)
    }) by {
        let m = g[i];
        assert(p(m));
        assert(mc(m));
        assert(board.is_legal(m));
        let fl = m.spec_flag_bits();
        if is_castle_flag(fl) {
            lemma_castling_keeps_king_safe(board, m);
        } else if fl == 5 {
            lemma_piece_on_kind(board, board.spec_turn(), Piece::P, m.spec_src());
            lemma_legal_ep_keeps_king_safe(board, m);
        } else if fl != 2 && fl != 3 {
            if board.piece_on(m.spec_src()) == Some(Piece::K) {
                lemma_legal_king_move_keeps_king_safe(board, m);
            } else {
                lemma_legal_piece_move_keeps_king_safe(board, m);
            }
        }
    }
}

/// An en-passant capture that `is_legal` accepts, made by a pawn of the side
/// to move, leaves the king unattacked when it takes or blocks every piece
/// giving check with the pawn it takes (out of check, there is none).
pub proof fn lemma_legal_ep_keeps_king_safe(board: Board, m: BitMove)
    requires
        board.wf(),
        board.is_legal(m),
        m.spec_flag_bits() == 5,
        bit(board.spec_piece_bb(board.spec_turn(), Piece::P), m.spec_src()),
        forall|t: int| #[trigger] bit(board.spec_checkers(), t) ==> t == captured_square(board, m)
            || between(board.king_square(board.spec_turn()), t, captured_square(board, m)),
    ensures
        king_safe_after(board, m),
{
    let us = board.spec_turn();
    let them = us.spec_other();
    let bbs = board.spec_bbs();
    let k = board.king_square(us);
    let cap = captured_square(board, m);
    let occ = board.occupied();
    let occ2 = occupied_after(board, m);
    lemma_piece_on_kind(board, us, Piece::P, m.spec_src());
    board.lemma_king_on_square(us);
    let att = board.attackers(k, occ);
    let them_occ = board.occupied_by(them);
    lemma_bit_ops(att, them_occ);
    let st = board.straight_sliders(them);
    let dg = board.diagonal_sliders(them);
    let rr = reach_bb(Reach::Rook, k, occ2);
    let br = reach_bb(Reach::Bishop, k, occ2);
    lemma_bit_ops(rr, st);
    lemma_bit_ops(br, dg);
    crate::bitboard::lemma_empty_bits();
    crate::attacks::lemma_reach_bb(Reach::Rook, k, occ2);
    crate::attacks::lemma_reach_bb(Reach::Bishop, k, occ2);
    lemma_bit_ops(crate::board::piece_in(bbs, them, Piece::R), crate::board::piece_in(bbs, them, Piece::Q));
    lemma_bit_ops(crate::board::piece_in(bbs, them, Piece::B), crate::board::piece_in(bbs, them, Piece::Q));
    assert(rr & st == 0 && br & dg == 0);
    assert forall|piece: Piece, t: int| #[trigger] bit(board.spec_piece_bb(them, piece), t) && t != cap
        implies !attacks_from(them, piece, t, occ2, k) by {
        board.lemma_piece_occupies(them, piece, t);
        assert(0 <= t < 64);
        match piece {
            Piece::B => {
                assert(!bit(rr & st, t) && !bit(br & dg, t));
                lemma_reaches_sym(Reach::Bishop, k, t, occ2);
            },
            Piece::R => {
                assert(!bit(rr & st, t) && !bit(br & dg, t));
                lemma_reaches_sym(Reach::Rook, k, t, occ2);
            },
            Piece::Q => {
                assert(!bit(rr & st, t) && !bit(br & dg, t));
                lemma_reaches_sym(Reach::Rook, k, t, occ2);
                lemma_reaches_sym(Reach::Bishop, k, t, occ2);
            },
            _ => {
                if attacks_from(them, piece, t, occ2, k) {
                    if !bit(att, t) {
                        lemma_attackers_bits(board, k, occ, piece, t);
                    } else {
                        assert(bit(att & them_occ, t));
                        assert(bit(board.spec_checkers(), t));
                        assert(between(k, t, cap));
                        lemma_between_sym(k, t, cap);
                        if piece != Piece::N {
                            assert(adjacent(t, k));
                            lemma_adjacent_no_between(t, k, cap);
                        }
                    }
                }
            },
        }
    }
}

/// Around a castled king, only the square the rook lands on can stand between
/// it and a piece whose way the castling king or rook opened: nothing lies
/// beyond the rook's corner, and the king's old square lies beyond the rook's
/// new one.
proof fn lemma_castle_lines(us: Player, side: crate::templates::CastleType, t: int)
    requires
        0 <= t < 64,
    ensures
        !between(t, crate::movegen::castle_king_to(us, side), crate::movegen::castle_rook_from(us, side)),
        between(t, crate::movegen::castle_king_to(us, side), crate::board::relative_sq(us, 4))
            ==> between(t, crate::movegen::castle_king_to(us, side), crate::movegen::castle_rook_to(us, side)),
{
    let (ft, rt) = (file_of(t), rank_of(t));
    assert(t == 8 * rt + ft && 0 <= ft < 8 && 0 <= rt < 8);
    assert(rank_of(4) == 0 && rank_of(5) == 0 && rank_of(6) == 0 && rank_of(7) == 0);
    assert(rank_of(0) == 0 && rank_of(2) == 0 && rank_of(3) == 0);
}

/// Castling as generated leaves the king unattacked on its castled square.
pub proof fn lemma_castling_keeps_king_safe(board: Board, m: BitMove)
    requires
        board.wf(),
        is_castle_flag(m.spec_flag_bits()),
        castle_conditions(board, m),
    ensures
        king_safe_after(board, m),
{
    let us = board.spec_turn();
    let them = us.spec_other();
    let side = castle_side(m.spec_flag_bits());
    let k = board.king_square(us);
    let r = crate::movegen::castle_rook_from(us, side);
    let kto = crate::movegen::castle_king_to(us, side);
    let rto = crate::movegen::castle_rook_to(us, side);
    let occ = board.occupied();
    let occ2 = occupied_after(board, m);
    board.lemma_castle_king(us, side);
    assert(k == crate::board::relative_sq(us, 4));
    assert(0 <= kto < 64 && 0 <= rto < 64 && 0 <= r < 64 && 0 <= k < 64);
    assert(kto != k && (k < kto || kto < k));
    crate::bitboard::lemma_single_bit(k as u64);
    crate::bitboard::lemma_single_bit(r as u64);
    crate::bitboard::lemma_single_bit(kto as u64);
    crate::bitboard::lemma_single_bit(rto as u64);
    lemma_bit_ops(occ, !sq_bb(k));
    lemma_bit_ops(occ & !sq_bb(k), !sq_bb(r));
    lemma_bit_ops((occ & !sq_bb(k)) & !sq_bb(r), sq_bb(kto));
    lemma_bit_ops(((occ & !sq_bb(k)) & !sq_bb(r)) | sq_bb(kto), sq_bb(rto));
    lemma_bit_ops(sq_bb(k), sq_bb(k));
    lemma_bit_ops(sq_bb(r), sq_bb(r));
    assert forall|u: int| 0 <= u < 64 implies (#[trigger] bit(occ2, u)
        <==> ((bit(occ, u) && u != k && u != r) || u == kto || u == rto)) by {}
    let them_occ = board.occupied_by(them);
    let att = board.attackers(kto, occ);
    lemma_bit_ops(att, them_occ);
    crate::bitboard::lemma_empty_bits();
    assert(att & them_occ == 0);
    assert forall|piece: Piece, t: int| #[trigger] bit(board.spec_piece_bb(them, piece), t) && t != captured_square(board, m)
        implies !attacks_from(them, piece, t, occ2, kto) by {
        board.lemma_piece_occupies(them, piece, t);
        assert(0 <= t < 64);
        assert(!bit(att & them_occ, t));
        lemma_attackers_bits(board, kto, occ, piece, t);
        if attacks_from(them, piece, t, occ2, kto) && (piece == Piece::B || piece == Piece::R || piece == Piece::Q) {
            assert(path_clear(t, kto, occ2));
            assert(!path_clear(t, kto, occ));
            let u = choose|u: int| between(t, kto, u) && bit(occ, u);
            assert(0 <= u < 64);
            assert(!bit(occ2, u));
            lemma_castle_lines(us, side, t);
            assert(u == k);
            assert(between(t, kto, rto));
            assert(bit(occ2, rto));
        }
    }
}

/// Squares on the stretch between `k` and `t` lie on one line with `k`.
proof fn lemma_between_collinear(k: int, t: int, s: int, d: int)
    requires
        0 <= k < 64,
        0 <= t < 64,
        between(k, t, s),
        0 <= d < 64,
        d != s,
        d == t || between(k, t, d),
    ensures
        aligned_pair(s, d) && on_line(s, d, k),
{
    let (fk, rk) = (file_of(k), rank_of(k));
    let (ft, rt) = (file_of(t), rank_of(t));
    let (fs, rs) = (file_of(s), rank_of(s));
    let (fd, rd) = (file_of(d), rank_of(d));
    assert(k == 8 * rk + fk && 0 <= fk < 8 && 0 <= rk < 8);
    assert(t == 8 * rt + ft && 0 <= ft < 8 && 0 <= rt < 8);
    assert(s == 8 * rs + fs && 0 <= fs < 8 && 0 <= rs < 8);
    assert(d == 8 * rd + fd && 0 <= fd < 8 && 0 <= rd < 8);
}

/// An enemy piece the board counts among the attackers of `sq` attacks it.
proof fn lemma_attacker_attacks(board: Board, sq: int, occ: u64, t: int) -> (piece: Piece)
    requires
        board.sound(),
        0 <= sq < 64,
        bit(board.attackers(sq, occ), t),
        bit(board.occupied_by(board.spec_turn().spec_other()), t),
    ensures
        bit(board.spec_piece_bb(board.spec_turn().spec_other(), piece), t),
        attacks_from(board.spec_turn().spec_other(), piece, t, occ, sq),
{
    let them = board.spec_turn().spec_other();
    let bbs = board.spec_bbs();
    crate::board::lemma_occupied_in_bits(bbs, them);
    assert(forall|i: int, j: int, x: int| 0 <= i < j < 12 ==> !(#[trigger] bit(bbs[i], x) && #[trigger] bit(bbs[j], x)));
    let piece = if bit(board.spec_piece_bb(them, Piece::P), t) {
        Piece::P
    } else if bit(board.spec_piece_bb(them, Piece::N), t) {
        Piece::N
    } else if bit(board.spec_piece_bb(them, Piece::B), t) {
        Piece::B
    } else if bit(board.spec_piece_bb(them, Piece::R), t) {
        Piece::R
    } else if bit(board.spec_piece_bb(them, Piece::Q), t) {
        Piece::Q
    } else {
        Piece::K
    };
    if !attacks_from(them, piece, t, occ, sq) {
        lemma_attackers_bits_converse(board, sq, occ, piece, t);
    }
    piece
}

/// The converse direction of `lemma_attackers_bits`, by contradiction.
proof fn lemma_attackers_bits_converse(board: Board, sq: int, occ: u64, piece: Piece, t: int)
    requires
        board.sound(),
        0 <= sq < 64,
        bit(board.spec_piece_bb(board.spec_turn().spec_other(), piece), t),
        !attacks_from(board.spec_turn().spec_other(), piece, t, occ, sq),
    ensures
        !bit(board.attackers(sq, occ), t),
{
    let them = board.spec_turn().spec_other();
    let bbs = board.spec_bbs();
    let wp = crate::board::piece_in(bbs, Player::White, Piece::P);
    let bp = crate::board::piece_in(bbs, Player::Black, Piece::P);
    let a1 = reach_bb(Reach::Pawn(Player::White), sq, 0) & bp;
    let a2 = reach_bb(Reach::Pawn(Player::Black), sq, 0) & wp;
    let kn = crate::board::piece_in(bbs, Player::White, Piece::N) | crate::board::piece_in(bbs, Player::Black, Piece::N);
    let a3 = reach_bb(Reach::Knight, sq, 0) & kn;
    let st = crate::board::straight_in(bbs, Player::White) | crate::board::straight_in(bbs, Player::Black);
    let a4 = reach_bb(Reach::Rook, sq, occ) & st;
    let dg = crate::board::diagonal_in(bbs, Player::White) | crate::board::diagonal_in(bbs, Player::Black);
    let a5 = reach_bb(Reach::Bishop, sq, occ) & dg;
    let kk = crate::board::piece_in(bbs, Player::White, Piece::K) | crate::board::piece_in(bbs, Player::Black, Piece::K);
    let a6 = reach_bb(Reach::King, sq, 0) & kk;
    lemma_bit_ops(a1, a2);
    lemma_bit_ops(a1 | a2, a3);
    lemma_bit_ops(a1 | a2 | a3, a4);
    lemma_bit_ops(a1 | a2 | a3 | a4, a5);
    lemma_bit_ops(a1 | a2 | a3 | a4 | a5, a6);
    lemma_bit_ops(reach_bb(Reach::Pawn(Player::White), sq, 0), bp);
    lemma_bit_ops(reach_bb(Reach::Pawn(Player::Black), sq, 0), wp);
    lemma_bit_ops(reach_bb(Reach::Knight, sq, 0), kn);
    lemma_bit_ops(reach_bb(Reach::Rook, sq, occ), st);
    lemma_bit_ops(reach_bb(Reach::Bishop, sq, occ), dg);
    lemma_bit_ops(reach_bb(Reach::King, sq, 0), kk);
    lemma_bit_ops(crate::board::piece_in(bbs, Player::White, Piece::N), crate::board::piece_in(bbs, Player::Black, Piece::N));
    lemma_bit_ops(crate::board::piece_in(bbs, Player::White, Piece::K), crate::board::piece_in(bbs, Player::Black, Piece::K));
    lemma_bit_ops(crate::board::straight_in(bbs, Player::White), crate::board::straight_in(bbs, Player::Black));
    lemma_bit_ops(crate::board::diagonal_in(bbs, Player::White), crate::board::diagonal_in(bbs, Player::Black));
    lemma_bit_ops(crate::board::piece_in(bbs, Player::White, Piece::R), crate::board::piece_in(bbs, Player::White, Piece::Q));
    lemma_bit_ops(crate::board::piece_in(bbs, Player::White, Piece::B), crate::board::piece_in(bbs, Player::White, Piece::Q));
    lemma_bit_ops(crate::board::piece_in(bbs, Player::Black, Piece::R), crate::board::piece_in(bbs, Player::Black, Piece::Q));
    lemma_bit_ops(crate::board::piece_in(bbs, Player::Black, Piece::B), crate::board::piece_in(bbs, Player::Black, Piece::Q));
    crate::attacks::lemma_reach_bb(Reach::Pawn(Player::White), sq, 0);
    crate::attacks::lemma_reach_bb(Reach::Pawn(Player::Black), sq, 0);
    crate::attacks::lemma_reach_bb(Reach::Knight, sq, 0);
    crate::attacks::lemma_reach_bb(Reach::Rook, sq, occ);
    crate::attacks::lemma_reach_bb(Reach::Bishop, sq, occ);
    crate::attacks::lemma_reach_bb(Reach::King, sq, 0);
    assert(forall|i: int, j: int, x: int| 0 <= i < j < 12 ==> !(#[trigger] bit(bbs[i], x) && #[trigger] bit(bbs[j], x)));
    lemma_reaches_sym(Reach::Bishop, sq, t, occ);
    lemma_reaches_sym(Reach::Rook, sq, t, occ);
    lemma_reaches_sym(Reach::Queen, sq, t, occ);
    lemma_reaches_sym(Reach::Knight, sq, t, 0);
}

/// A move of a piece other than the king, not castling nor en passant, that
/// leaves the king unattacked is one `is_legal` accepts.
proof fn lemma_safe_piece_move_is_legal(board: Board, m: BitMove)
    requires
        board.wf(),
        m.spec_flag_bits() != 5,
        !is_castle_flag(m.spec_flag_bits()),
        board.piece_on(m.spec_src()).is_some(),
        board.piece_on(m.spec_src()) != Some(Piece::K),
        bit(board.occupied_by(board.spec_turn()), m.spec_src()),
        0 <= m.spec_dst() < 64,
        !bit(board.occupied_by(board.spec_turn()), m.spec_dst()),
        king_safe_after(board, m),
    ensures
        board.is_legal(m),
{
    let us = board.spec_turn();
    let them = us.spec_other();
    let bbs = board.spec_bbs();
    let k = board.king_square(us);
    let src = m.spec_src();
    let dst = m.spec_dst();
    let occ = board.occupied();
    let occ2 = occupied_after(board, m);
    let us_occ = board.occupied_by(us);
    board.lemma_king_on_square(us);
    if !board.is_legal(m) {
        let bl = board.spec_blockers(us);
        crate::bitboard::lemma_single_bit(src as u64);
        lemma_bit_ops(bl, us_occ);
        lemma_bit_ops(bl & us_occ, sq_bb(src));
        crate::bitboard::lemma_empty_bits();
        assert(bit(bl, src)) by {
            if !bit(bl, src) {
                crate::bitboard::lemma_bits_ext((bl & us_occ) & sq_bb(src), 0);
            }
        }
        crate::bitboard::lemma_bits_where(board.sole_blocker_pred(us));
        assert(crate::board::sole_blocker_in(bbs, us, src));
        let t = choose|t: int| 0 <= t < 64 && crate::board::snipes_in(bbs, them, k, t) && crate::board::shields_in(bbs, k, t, src);
        assert(!(aligned_pair(src, dst) && on_line(src, dst, k)));
        if dst == t {
            lemma_between_collinear(k, t, src, dst);
        }
        if between(k, t, dst) {
            lemma_between_collinear(k, t, src, dst);
        }
        crate::bitboard::lemma_single_bit(dst as u64);
        lemma_bit_ops(occ, !sq_bb(src));
        lemma_bit_ops(occ & !sq_bb(src), sq_bb(dst));
        lemma_bit_ops(sq_bb(src), sq_bb(src));
        assert forall|v: int| #![trigger bit(occ2, v)] between(k, t, v) implies !bit(occ2, v) by {
            if bit(occ, v) {
                assert(bit(crate::board::all_occupied_in(bbs), v));
            }
        }
        assert(path_clear(k, t, occ2));
        lemma_bit_ops(crate::board::piece_in(bbs, them, Piece::R), crate::board::piece_in(bbs, them, Piece::Q));
        lemma_bit_ops(crate::board::piece_in(bbs, them, Piece::B), crate::board::piece_in(bbs, them, Piece::Q));
        let piece = if crate::attacks::bishop_line(k, t) && bit(crate::board::diagonal_in(bbs, them), t) {
            if bit(board.spec_piece_bb(them, Piece::B), t) { Piece::B } else { Piece::Q }
        } else {
            if bit(board.spec_piece_bb(them, Piece::R), t) { Piece::R } else { Piece::Q }
        };
        lemma_reaches_sym(Reach::Bishop, k, t, occ2);
        lemma_reaches_sym(Reach::Rook, k, t, occ2);
        lemma_reaches_sym(Reach::Queen, k, t, occ2);
        assert(attacks_from(them, piece, t, occ2, k));
        assert(bit(board.spec_piece_bb(them, piece), t));
    }
}

/// A king move, not castling, that leaves the king unattacked is one
/// `is_legal` accepts.
proof fn lemma_safe_king_move_is_legal(board: Board, m: BitMove)
    requires
        board.wf(),
        m.spec_flag_bits() != 5,
        !is_castle_flag(m.spec_flag_bits()),
        board.piece_on(m.spec_src()) == Some(Piece::K),
        bit(board.occupied_by(board.spec_turn()), m.spec_src()),
        0 <= m.spec_dst() < 64,
        !bit(board.occupied_by(board.spec_turn()), m.spec_dst()),
        king_safe_after(board, m),
    ensures
        board.is_legal(m),
{
    let us = board.spec_turn();
    let them = us.spec_other();
    let src = m.spec_src();
    let dst = m.spec_dst();
    let occ = board.occupied();
    let occ2 = occupied_after(board, m);
    let them_occ = board.occupied_by(them);
    let x = board.attackers(dst, occ) & them_occ;
    if x != 0 {
        crate::bitboard::lemma_empty_bits();
        lemma_bit_ops(board.attackers(dst, occ), them_occ);
        assert(exists|t: int| 0 <= t < 64 && bit(x, t)) by {
            if !(exists|t: int| 0 <= t < 64 && bit(x, t)) {
                crate::bitboard::lemma_bits_ext(x, 0);
            }
        }
        let t = choose|t: int| 0 <= t < 64 && bit(x, t);
        let piece = lemma_attacker_attacks(board, dst, occ, t);
        crate::bitboard::lemma_single_bit(src as u64);
        crate::bitboard::lemma_single_bit(dst as u64);
        lemma_bit_ops(occ, !sq_bb(src));
        lemma_bit_ops(occ & !sq_bb(src), sq_bb(dst));
        lemma_bit_ops(sq_bb(src), sq_bb(src));
        assert(t != dst);
        assert forall|v: int| #![trigger bit(occ2, v)] between(t, dst, v) implies !bit(occ2, v) by {
            assert(v != dst);
            if bit(occ2, v) {
                assert(bit(occ, v));
            }
        }
        assert(attacks_from(them, piece, t, occ2, dst));
    }
}

/// Legal generation keeps exactly the pseudo-legal moves after which the king
/// is not attacked: among the moves generated without the legality test, of a
/// kind that may be generated on the board, `is_legal` accepts a move exactly
/// when no enemy piece attacks the king once it is made.
pub proof fn lemma_legal_iff_king_safe(board: Board, gen: GenTypes)
    requires
        board.wf(),
        crate::movegen::gen_allowed(board, gen),
    ensures
        forall|i: int| 0 <= i < generated_moves(board, false, gen).len() ==> ({
            let m = #[trigger] generated_moves(board, false, gen)[i];
            board.is_legal(m) <==> king_safe_after(board, m)
        }),
{
    let p = moves_cleanly_pred(board);
    let mc = meets_check_pred(board);
    let ms = pseudo_legal_moves(board, gen);
    if gen == GenTypes::Evasions {
        lemma_evasions_clean(board);
    } else if gen == GenTypes::QuietChecks {
        lemma_quiet_checks_clean(board);
    } else if gen == GenTypes::All {
        if board.spec_checkers() != 0 {
            lemma_evasions_clean(board);
        } else {
            lemma_non_evasions_clean(board, GenTypes::NonEvasions);
        }
    } else {
        lemma_non_evasions_clean(board, gen);
    }
    if board.spec_checkers() != 0 {
        lemma_evasions_meet_check(board);
        assert(ms == crate::movegen::evasion_moves(board));
    } else {
        assert forall|i: int| 0 <= i < ms.len() implies #[trigger] mc(ms[i]) by {
            lemma_no_check_met(board, ms[i]);
        }
    }
    assert forall|i: int| 0 <= i < ms.len() implies ({
        let m = #[trigger] ms[i];
        board.is_legal(m) <==> king_safe_after(board, m)
    }) by {
        let m = ms[i];
        assert(p(m));
        assert(mc(m));
        let fl = m.spec_flag_bits();
        if is_castle_flag(fl) {
            board.lemma_king_on_square(board.spec_turn());
            lemma_piece_on_kind(board, board.spec_turn(), Piece::K, m.spec_src());
            lemma_castling_keeps_king_safe(board, m);
        } else if fl == 5 {
            if board.is_legal(m) {
                lemma_legal_ep_keeps_king_safe(board, m);
            }
            if king_safe_after(board, m) {
                lemma_safe_ep_is_legal(board, m);
            }
        } else {
            board.lemma_sides();
            board.lemma_occupied_piece(m.spec_src());
            if board.piece_on(m.spec_src()) == Some(Piece::K) {
                if board.is_legal(m) {
                    lemma_legal_king_move_keeps_king_safe(board, m);
                }
                if king_safe_after(board, m) {
                    lemma_safe_king_move_is_legal(board, m);
                }
            } else {
                if board.is_legal(m) {
                    lemma_legal_piece_move_keeps_king_safe(board, m);
                }
                if king_safe_after(board, m) {
                    lemma_safe_piece_move_is_legal(board, m);
                }
            }
        }
    }
}

/// An en-passant capture by a pawn of the side to move onto the en-passant
/// square that leaves the king unattacked is one `is_legal` accepts.
proof fn lemma_safe_ep_is_legal(board: Board, m: BitMove)
    requires
        board.wf(),
        m.spec_flag_bits() == 5,
        bit(board.spec_piece_bb(board.spec_turn(), Piece::P), m.spec_src()),
        board.spec_ep_square() != NO_SQ,
        m.spec_dst() == board.spec_ep_square() as int,
        king_safe_after(board, m),
    ensures
        board.is_legal(m),
{
    let us = board.spec_turn();
    let them = us.spec_other();
    let bbs = board.spec_bbs();
    let k = board.king_square(us);
    let cap = captured_square(board, m);
    let occ2 = occupied_after(board, m);
    board.lemma_ep_square();
    board.lemma_king_on_square(us);
    lemma_piece_on_kind(board, us, Piece::P, m.spec_src());
    assert(0 <= cap < 64);
    assert(bit(board.spec_piece_bb(them, Piece::P), cap));
    assert(forall|i: int, j: int, x: int| 0 <= i < j < 12 ==> !(#[trigger] bit(bbs[i], x) && #[trigger] bit(bbs[j], x)));
    let st = board.straight_sliders(them);
    let dg = board.diagonal_sliders(them);
    let rr = reach_bb(Reach::Rook, k, occ2);
    let br = reach_bb(Reach::Bishop, k, occ2);
    lemma_bit_ops(rr, st);
    lemma_bit_ops(br, dg);
    lemma_bit_ops(crate::board::piece_in(bbs, them, Piece::R), crate::board::piece_in(bbs, them, Piece::Q));
    lemma_bit_ops(crate::board::piece_in(bbs, them, Piece::B), crate::board::piece_in(bbs, them, Piece::Q));
    crate::attacks::lemma_reach_bb(Reach::Rook, k, occ2);
    crate::attacks::lemma_reach_bb(Reach::Bishop, k, occ2);
    crate::bitboard::lemma_empty_bits();
    if rr & st != 0 {
        assert(exists|t: int| 0 <= t < 64 && bit(rr & st, t)) by {
            if !(exists|t: int| 0 <= t < 64 && bit(rr & st, t)) {
                crate::bitboard::lemma_bits_ext(rr & st, 0);
            }
        }
        let t = choose|t: int| 0 <= t < 64 && bit(rr & st, t);
        lemma_reaches_sym(Reach::Rook, k, t, occ2);
        lemma_reaches_sym(Reach::Queen, k, t, occ2);
        let piece = if bit(board.spec_piece_bb(them, Piece::R), t) { Piece::R } else { Piece::Q };
        assert(t != cap);
        assert(attacks_from(them, piece, t, occ2, k));
        assert(bit(board.spec_piece_bb(them, piece), t));
        assert(king_square_after(board, m) == k);
        assert(false);
    }
    if br & dg != 0 {
        assert(exists|t: int| 0 <= t < 64 && bit(br & dg, t)) by {
            if !(exists|t: int| 0 <= t < 64 && bit(br & dg, t)) {
                crate::bitboard::lemma_bits_ext(br & dg, 0);
            }
        }
        let t = choose|t: int| 0 <= t < 64 && bit(br & dg, t);
        lemma_reaches_sym(Reach::Bishop, k, t, occ2);
        lemma_reaches_sym(Reach::Queen, k, t, occ2);
        let piece = if bit(board.spec_piece_bb(them, Piece::B), t) { Piece::B } else { Piece::Q };
        assert(t != cap);
        assert(attacks_from(them, piece, t, occ2, k));
        assert(bit(board.spec_piece_bb(them, piece), t));
        assert(king_square_after(board, m) == k);
        assert(false);
    }
    assert(rr & st == 0 && br & dg == 0);
}

/// Checking promotions from `d + delta` to the squares `d` of `bb` satisfy `p`
/// when each promotion whose new piece checks does.
proof fn lemma_checking_promotions_pred(bb: u64, delta: int, eksq: int, occ: u64, p: spec_fn(BitMove) -> bool)
    requires
        forall|d: int, prom: Piece| #[trigger] bit(bb, d) && prom != Piece::P && prom != Piece::K
            && bit(crate::movegen::piece_moves_bb(prom, d, occ), eksq)
            ==> p(#[trigger] spec_move(d + delta, d, MoveFlag::Promotion { capture: false, prom })),
    ensures
        all_satisfy(per_square(bb, crate::movegen::checking_promotions_by_delta(delta, eksq, occ)), p),
{
    let f = crate::movegen::checking_promotions_by_delta(delta, eksq, occ);
    assert forall|d: int| #[trigger] bit(bb, d) implies all_satisfy(f(d), p) by {
        let q = crate::movegen::promotion_if_check(d + delta, d, Piece::Q, eksq, occ);
        let n = crate::movegen::promotion_if_check(d + delta, d, Piece::N, eksq, occ);
        let r = crate::movegen::promotion_if_check(d + delta, d, Piece::R, eksq, occ);
        let b = crate::movegen::promotion_if_check(d + delta, d, Piece::B, eksq, occ);
        assert(all_satisfy(q, p) && all_satisfy(n, p) && all_satisfy(r, p) && all_satisfy(b, p)) by {
            if bit(crate::movegen::piece_moves_bb(Piece::Q, d, occ), eksq) {
                assert(p(spec_move(d + delta, d, MoveFlag::Promotion { capture: false, prom: Piece::Q })));
            }
            if bit(crate::movegen::piece_moves_bb(Piece::N, d, occ), eksq) {
                assert(p(spec_move(d + delta, d, MoveFlag::Promotion { capture: false, prom: Piece::N })));
            }
            if bit(crate::movegen::piece_moves_bb(Piece::R, d, occ), eksq) {
                assert(p(spec_move(d + delta, d, MoveFlag::Promotion { capture: false, prom: Piece::R })));
            }
            if bit(crate::movegen::piece_moves_bb(Piece::B, d, occ), eksq) {
                assert(p(spec_move(d + delta, d, MoveFlag::Promotion { capture: false, prom: Piece::B })));
            }
        }
        lemma_all_add(q, n, p);
        lemma_all_add(q + n, r, p);
        lemma_all_add(q + n + r, b, p);
    }
    lemma_all_per_square(bb, f, p);
}

/// Checking promotions from `d + delta` to the squares `d` of `bb` are
/// distinct.
proof fn lemma_checking_promotions_once(bb: u64, delta: int, eksq: int, occ: u64)
    requires
        forall|d: int| #[trigger] bit(bb, d) ==> 0 <= d + delta < 64,
    ensures
        per_square(bb, crate::movegen::checking_promotions_by_delta(delta, eksq, occ)).no_duplicates(),
        forall|i: int| 0 <= i < per_square(bb, crate::movegen::checking_promotions_by_delta(delta, eksq, occ)).len() ==> {
            let m = #[trigger] per_square(bb, crate::movegen::checking_promotions_by_delta(delta, eksq, occ))[i];
            &&& bit(bb, m.spec_dst())
            &&& m.spec_src() == m.spec_dst() + delta
            &&& 8 <= m.spec_flag_bits() < 12
        },
{
    let f = crate::movegen::checking_promotions_by_delta(delta, eksq, occ);
    let tag = |m: BitMove| m.spec_dst();
    let q = |m: BitMove| m.spec_src() == m.spec_dst() + delta && 8 <= m.spec_flag_bits() < 12;
    assert forall|d: int| #[trigger] bit(bb, d) implies f(d).no_duplicates()
        && (forall|i: int| 0 <= i < f(d).len() ==> tag(#[trigger] f(d)[i]) == d && q(f(d)[i])) by {
        BitMove::lemma_encode(d + delta, d, MoveFlag::Promotion { capture: false, prom: Piece::Q });
        BitMove::lemma_encode(d + delta, d, MoveFlag::Promotion { capture: false, prom: Piece::N });
        BitMove::lemma_encode(d + delta, d, MoveFlag::Promotion { capture: false, prom: Piece::R });
        BitMove::lemma_encode(d + delta, d, MoveFlag::Promotion { capture: false, prom: Piece::B });
        let s = f(d);
        assert forall|i: int, j: int| 0 <= i < s.len() && 0 <= j < s.len() && i != j implies s[i] != s[j] by {
            assert(s[i].spec_flag_bits() != s[j].spec_flag_bits());
        }
    }
    lemma_per_square_once(bb, f, tag, q);
}

/// The squares pawns promote onto by pushing, and where they come from.
proof fn lemma_promotion_squares(board: Board)
    requires
        board.sound(),
    ensures
        ({
            let us = board.spec_turn();
            let p7 = board.spec_piece_bb(us, Piece::P) & crate::movegen::pawn_ranks(us).1;
            let bb = shift_up_spec(us, p7) & !board.occupied();
            forall|d: int| #[trigger] bit(bb, d) ==> 0 <= d < 64 && 0 <= d + down_delta(us) < 64
                && bit(board.spec_piece_bb(us, Piece::P), d + down_delta(us)) && !bit(board.occupied(), d)
                && adjacent(d + down_delta(us), d)
        }),
{
    let us = board.spec_turn();
    let pawns = board.spec_piece_bb(us, Piece::P);
    let p7 = pawns & crate::movegen::pawn_ranks(us).1;
    let occ = board.occupied();
    lemma_bit_ops(pawns, crate::movegen::pawn_ranks(us).1);
    lemma_bit_ops(shift_up_spec(us, p7), !occ);
    lemma_bit_ops(occ, occ);
    lemma_shift_up(us, p7);
    lemma_shifts_adjacent(us, p7);
}


/// A sequence contains what either part of it contains.
proof fn lemma_contains_add(a: Seq<BitMove>, b: Seq<BitMove>, m: BitMove)
    requires
        a.contains(m) || b.contains(m),
    ensures
        (a + b).contains(m),
{
    if a.contains(m) {
        let i = choose|i: int| 0 <= i < a.len() && a[i] == m;
        assert((a + b)[i] == m);
    } else {
        let i = choose|i: int| 0 <= i < b.len() && b[i] == m;
        assert((a + b)[a.len() + i] == m);
    }
}

/// The moves made per square contain those made for any square of the set.
proof fn lemma_per_square_has(bb: u64, f: spec_fn(int) -> Seq<BitMove>, s: int, m: BitMove)
    requires
        bit(bb, s),
        f(s).contains(m),
    ensures
        per_square(bb, f).contains(m),
    decreases bb,
{
    crate::bitboard::lemma_empty_bits();
    lemma_lowest(bb);
    crate::bitboard::lemma_without_lowest_smaller(bb);
    let t = vstd::std_specs::bits::u64_trailing_zeros(bb) as int;
    let rest = without_lowest(bb);
    if s == t {
        lemma_contains_add(f(t), per_square(rest, f), m);
    } else {
        assert(bit(rest, s));
        lemma_per_square_has(rest, f, s, m);
        lemma_contains_add(f(t), per_square(rest, f), m);
    }
}

/// Whether a piece of kind `piece` (not a pawn) of the side to move stands on
/// `src` and may step to `dst` by the way it moves: `dst` is on the board,
/// holds none of the side's pieces, and the piece reaches it past the pieces
/// where they stand.
pub open spec fn piece_can_step(board: Board, piece: Piece, src: int, dst: int) -> bool {
    let us = board.spec_turn();
    &&& piece != Piece::P
    &&& bit(board.spec_piece_bb(us, piece), src)
    &&& 0 <= dst < 64
    &&& !bit(board.occupied_by(us), dst)
    &&& attacks_from(us, piece, src, board.occupied(), dst)
}

/// The move of a step from `src` to `dst`: a capture when an enemy piece
/// stands on `dst`, a quiet move otherwise.
pub open spec fn step_move(board: Board, src: int, dst: int) -> BitMove {
    if bit(board.occupied_by(board.spec_turn().spec_other()), dst) {
        spec_move(src, dst, MoveFlag::Capture { ep_capture: false })
    } else {
        spec_move(src, dst, MoveFlag::QuietMove)
    }
}

/// A step aimed at a square of `target` is among the moves of the piece from
/// its square.
proof fn lemma_piece_fn_has(piece: Piece, target: u64, occ: u64, us_occ: u64, them_occ: u64, src: int, d: int, m: BitMove)
    requires
        bit(crate::movegen::piece_moves_bb(piece, src, occ), d),
        !bit(us_occ, d),
        bit(target, d),
        m == (if bit(them_occ, d) {
            spec_move(src, d, MoveFlag::Capture { ep_capture: false })
        } else {
            spec_move(src, d, MoveFlag::QuietMove)
        }),
    ensures
        crate::movegen::piece_moves_fn(piece, target, occ, us_occ, them_occ)(src).contains(m),
{
    let pmb = crate::movegen::piece_moves_bb(piece, src, occ);
    let moves = pmb & !us_occ & target;
    lemma_bit_ops(pmb, !us_occ);
    lemma_bit_ops(pmb & !us_occ, target);
    lemma_bit_ops(moves, them_occ);
    lemma_bit_ops(moves, !them_occ);
    lemma_bit_ops(them_occ, them_occ);
    lemma_bit_ops(us_occ, us_occ);
    assert(0 <= d < 64);
    let cap = MoveFlag::Capture { ep_capture: false };
    let a = per_square(moves & them_occ, move_from_src(src, cap));
    let b = per_square(moves & !them_occ, move_from_src(src, MoveFlag::QuietMove));
    if bit(them_occ, d) {
        assert(move_from_src(src, cap)(d)[0] == m);
        lemma_per_square_has(moves & them_occ, move_from_src(src, cap), d, m);
    } else {
        assert(move_from_src(src, MoveFlag::QuietMove)(d)[0] == m);
        lemma_per_square_has(moves & !them_occ, move_from_src(src, MoveFlag::QuietMove), d, m);
    }
    lemma_contains_add(a, b, m);
}

/// The generator misses no step of a piece when aimed at its square: the
/// moves of the kind `gen` (non-evasions, captures or quiet moves) aimed at
/// `target` contain every step onto a square of `target`.
proof fn lemma_all_moves_have_step(board: Board, gen: GenTypes, piece: Piece, src: int, dst: int)
    requires
        board.sound(),
        gen == GenTypes::NonEvasions || gen == GenTypes::Captures || gen == GenTypes::Quiets,
        piece_can_step(board, piece, src, dst),
        bit(crate::movegen::non_evasion_target(gen, board.occupied_by(board.spec_turn()),
            board.occupied_by(board.spec_turn().spec_other())), dst),
    ensures
        crate::movegen::non_evasion_moves(board, gen).contains(step_move(board, src, dst)),
{
    reveal(crate::movegen::all_moves);
    reveal(crate::movegen::officer_moves);
    let us = board.spec_turn();
    let them = us.spec_other();
    let occ = board.occupied();
    let us_occ = board.occupied_by(us);
    let them_occ = board.occupied_by(them);
    let target = crate::movegen::non_evasion_target(gen, us_occ, them_occ);
    let m = step_move(board, src, dst);
    // the piece reaches `dst` on its bitboard of moves
    match piece {
        Piece::N => crate::attacks::lemma_reach_bb(Reach::Knight, src, 0),
        Piece::B => crate::attacks::lemma_reach_bb(Reach::Bishop, src, occ),
        Piece::R => crate::attacks::lemma_reach_bb(Reach::Rook, src, occ),
        Piece::Q => crate::attacks::lemma_reach_bb(Reach::Queen, src, occ),
        _ => crate::attacks::lemma_reach_bb(Reach::King, src, 0),
    }
    assert(bit(crate::movegen::piece_moves_bb(piece, src, occ), dst));
    lemma_piece_fn_has(piece, target, occ, us_occ, them_occ, src, dst, m);
    let f = crate::movegen::piece_moves_fn(piece, target, occ, us_occ, them_occ);
    lemma_per_square_has(board.spec_piece_bb(us, piece), f, src, m);
    let pm = crate::movegen::pawn_moves(board, gen, target, occ, them_occ);
    let n = per_square(board.spec_piece_bb(us, Piece::N), crate::movegen::piece_moves_fn(Piece::N, target, occ, us_occ, them_occ));
    let b = per_square(board.spec_piece_bb(us, Piece::B), crate::movegen::piece_moves_fn(Piece::B, target, occ, us_occ, them_occ));
    let r = per_square(board.spec_piece_bb(us, Piece::R), crate::movegen::piece_moves_fn(Piece::R, target, occ, us_occ, them_occ));
    let q = per_square(board.spec_piece_bb(us, Piece::Q), crate::movegen::piece_moves_fn(Piece::Q, target, occ, us_occ, them_occ));
    let k = per_square(board.spec_piece_bb(us, Piece::K), crate::movegen::piece_moves_fn(Piece::K, target, occ, us_occ, them_occ));
    let c: Seq<BitMove> = if gen != GenTypes::Captures {
        crate::movegen::castling_moves(board, crate::templates::CastleType::QueenSide)
            + crate::movegen::castling_moves(board, crate::templates::CastleType::KingSide)
    } else {
        Seq::empty()
    };
    let o = crate::movegen::officer_moves(board, target, occ, us_occ, them_occ);
    assert(o == n + b + r + q);
    if piece == Piece::K {
        lemma_contains_add(pm + o, k, m);
    } else {
        if piece == Piece::N || piece == Piece::B {
            lemma_contains_add(n, b, m);
        }
        if piece != Piece::Q {
            lemma_contains_add(n + b, r, m);
        }
        lemma_contains_add(n + b + r, q, m);
        lemma_contains_add(pm, o, m);
        lemma_contains_add(pm + o, k, m);
    }
    lemma_contains_add(pm + o + k, c, m);
    assert(crate::movegen::non_evasion_moves(board, gen) == pm + o + k + c);
}

/// A move found among those of the kind `gen` generated without the legality
/// test that leaves the king unattacked is also generated with it.
proof fn lemma_safe_step_kept(board: Board, gen: GenTypes, m: BitMove)
    requires
        board.wf(),
        crate::movegen::gen_allowed(board, gen),
        generated_moves(board, false, gen).contains(m),
        king_safe_after(board, m),
    ensures
        generated_moves(board, true, gen).contains(m),
{
    let ms = generated_moves(board, false, gen);
    let i = choose|i: int| 0 <= i < ms.len() && ms[i] == m;
    lemma_legal_iff_king_safe(board, gen);
    assert(board.is_legal(ms[i]));
    ms.lemma_filter_contains(legal_pred(board), i);
}

/// Out of check, generation misses no step of a knight, bishop, rook, queen
/// or king: every step the piece may make by the way it moves is among all
/// moves and the non-evasions, a step onto an enemy piece among the captures,
/// and one onto an empty square among the quiet moves, when generated without
/// the legality test; when generated with it, so is every such step after
/// which no enemy piece attacks the king.
pub proof fn lemma_piece_steps_generated(board: Board, piece: Piece, src: int, dst: int)
    requires
        board.wf(),
        board.spec_checkers() == 0,
        piece_can_step(board, piece, src, dst),
    ensures
        ({
            let m = step_move(board, src, dst);
            let on_enemy = bit(board.occupied_by(board.spec_turn().spec_other()), dst);
            &&& generated_moves(board, false, GenTypes::All).contains(m)
            &&& generated_moves(board, false, GenTypes::NonEvasions).contains(m)
            &&& on_enemy ==> generated_moves(board, false, GenTypes::Captures).contains(m)
            &&& !on_enemy ==> generated_moves(board, false, GenTypes::Quiets).contains(m)
            &&& king_safe_after(board, m) ==> {
                &&& generated_moves(board, true, GenTypes::All).contains(m)
                &&& generated_moves(board, true, GenTypes::NonEvasions).contains(m)
                &&& on_enemy ==> generated_moves(board, true, GenTypes::Captures).contains(m)
                &&& !on_enemy ==> generated_moves(board, true, GenTypes::Quiets).contains(m)
            }
        }),
{
    let us = board.spec_turn();
    let them = us.spec_other();
    let us_occ = board.occupied_by(us);
    let them_occ = board.occupied_by(them);
    let m = step_move(board, src, dst);
    lemma_bit_ops(us_occ, us_occ);
    lemma_bit_ops(us_occ, them_occ);
    lemma_bit_ops(us_occ | them_occ, us_occ | them_occ);
    lemma_all_moves_have_step(board, GenTypes::NonEvasions, piece, src, dst);
    if bit(them_occ, dst) {
        lemma_all_moves_have_step(board, GenTypes::Captures, piece, src, dst);
    } else {
        lemma_all_moves_have_step(board, GenTypes::Quiets, piece, src, dst);
    }
    if king_safe_after(board, m) {
        lemma_safe_step_kept(board, GenTypes::All, m);
        lemma_safe_step_kept(board, GenTypes::NonEvasions, m);
        if bit(them_occ, dst) {
            lemma_safe_step_kept(board, GenTypes::Captures, m);
        } else {
            lemma_safe_step_kept(board, GenTypes::Quiets, m);
        }
    }
}

/// The squares of the rank masks.
proof fn lemma_rank_masks()
    ensures
        forall|j: int| #[trigger] bit(crate::board::RANK_1, j) <==> (0 <= j < 64 && j / 8 == 0),
        forall|j: int| #[trigger] bit(crate::board::RANK_2, j) <==> (0 <= j < 64 && j / 8 == 1),
        forall|j: int| #[trigger] bit(crate::board::RANK_3, j) <==> (0 <= j < 64 && j / 8 == 2),
        forall|j: int| #[trigger] bit(crate::board::RANK_6, j) <==> (0 <= j < 64 && j / 8 == 5),
        forall|j: int| #[trigger] bit(crate::board::RANK_7, j) <==> (0 <= j < 64 && j / 8 == 6),
        forall|j: int| #[trigger] bit(crate::board::RANK_8, j) <==> (0 <= j < 64 && j / 8 == 7),
{
    assert forall|j: int| 0 <= j < 64 implies {
        &&& bit(crate::board::RANK_1, j) <==> j / 8 == 0
        &&& bit(crate::board::RANK_2, j) <==> j / 8 == 1
        &&& bit(crate::board::RANK_3, j) <==> j / 8 == 2
        &&& bit(crate::board::RANK_6, j) <==> j / 8 == 5
        &&& bit(crate::board::RANK_7, j) <==> j / 8 == 6
        &&& bit(crate::board::RANK_8, j) <==> j / 8 == 7
    } by {
        let jj = j as u64;
        assert((0x0000_0000_0000_00FFu64 >> jj) & 1u64 == 1u64 <==> jj / 8 == 0) by (bit_vector) requires jj < 64;
        assert((0x0000_0000_0000_FF00u64 >> jj) & 1u64 == 1u64 <==> jj / 8 == 1) by (bit_vector) requires jj < 64;
        assert((0x0000_0000_00FF_0000u64 >> jj) & 1u64 == 1u64 <==> jj / 8 == 2) by (bit_vector) requires jj < 64;
        assert((0x0000_FF00_0000_0000u64 >> jj) & 1u64 == 1u64 <==> jj / 8 == 5) by (bit_vector) requires jj < 64;
        assert((0x00FF_0000_0000_0000u64 >> jj) & 1u64 == 1u64 <==> jj / 8 == 6) by (bit_vector) requires jj < 64;
        assert((0xFF00_0000_0000_0000u64 >> jj) & 1u64 == 1u64 <==> jj / 8 == 7) by (bit_vector) requires jj < 64;
    }
}

/// The rank of `s` counted from `player`'s side (0 to 7).
pub open spec fn rel_rank(player: Player, s: int) -> int {
    match player {
        Player::White => rank_of(s),
        Player::Black => 7 - rank_of(s),
    }
}

/// Pawns stand neither on the first nor on the last rank.
proof fn lemma_pawn_rank(board: Board, player: Player, s: int)
    requires
        board.sound(),
        bit(board.spec_piece_bb(player, Piece::P), s),
    ensures
        0 <= s < 64,
        1 <= rank_of(s) <= 6,
{
    let pawns = board.spec_piece_bb(player, Piece::P);
    let m = crate::board::RANK_1 | crate::board::RANK_8;
    lemma_rank_masks();
    lemma_bit_ops(crate::board::RANK_1, crate::board::RANK_8);
    lemma_bit_ops(pawns, m);
    crate::bitboard::lemma_empty_bits();
    assert(pawns & m == 0);
    assert(!bit(pawns & m, s));
}

/// The pawn moves of the non-evasions are among the non-evasions.
proof fn lemma_pawn_moves_lift(board: Board, gen: GenTypes, m: BitMove)
    requires
        gen == GenTypes::NonEvasions || gen == GenTypes::Captures || gen == GenTypes::Quiets,
        crate::movegen::pawn_moves(board, gen, crate::movegen::non_evasion_target(gen, board.occupied_by(board.spec_turn()),
            board.occupied_by(board.spec_turn().spec_other())), board.occupied(),
            board.occupied_by(board.spec_turn().spec_other())).contains(m),
    ensures
        crate::movegen::non_evasion_moves(board, gen).contains(m),
{
    reveal(crate::movegen::all_moves);
    let us = board.spec_turn();
    let occ = board.occupied();
    let us_occ = board.occupied_by(us);
    let them_occ = board.occupied_by(us.spec_other());
    let target = crate::movegen::non_evasion_target(gen, us_occ, them_occ);
    let pm = crate::movegen::pawn_moves(board, gen, target, occ, them_occ);
    let o = crate::movegen::officer_moves(board, target, occ, us_occ, them_occ);
    let k = per_square(board.spec_piece_bb(us, Piece::K), crate::movegen::piece_moves_fn(Piece::K, target, occ, us_occ, them_occ));
    let c: Seq<BitMove> = if gen != GenTypes::Captures {
        crate::movegen::castling_moves(board, crate::templates::CastleType::QueenSide)
            + crate::movegen::castling_moves(board, crate::templates::CastleType::KingSide)
    } else {
        Seq::empty()
    };
    lemma_contains_add(pm, o, m);
    lemma_contains_add(pm + o, k, m);
    lemma_contains_add(pm + o + k, c, m);
    assert(crate::movegen::non_evasion_moves(board, gen) == pm + o + k + c);
}

/// The occupied squares are those of one side or the other.
proof fn lemma_occupied_sides(board: Board)
    ensures
        forall|d: int| #[trigger] bit(board.occupied(), d) <==>
            (bit(board.occupied_by(Player::White), d) || bit(board.occupied_by(Player::Black), d)),
{
    lemma_bit_ops(board.occupied_by(Player::White), board.occupied_by(Player::Black));
}

/// The pieces a pawn may promote to.
pub open spec fn promotion_piece(prom: Piece) -> bool {
    prom == Piece::Q || prom == Piece::N || prom == Piece::R || prom == Piece::B
}

/// Whether `m` is a move that a pawn of the side to move on `src` may make to
/// `dst` by the way pawns move: one step ahead onto an empty square; two steps
/// ahead from its starting rank over an empty square onto an empty one; one
/// step diagonally ahead onto an enemy piece; or one step diagonally ahead onto
/// the en-passant square. A step onto the last rank promotes, to `prom`.
pub open spec fn pawn_can_move(board: Board, src: int, dst: int, prom: Piece, m: BitMove) -> bool {
    let us = board.spec_turn();
    let up = -down_delta(us);
    let occ = board.occupied();
    let last = rel_rank(us, dst) == 7;
    &&& bit(board.spec_piece_bb(us, Piece::P), src)
    &&& 0 <= dst < 64
    &&& {
        ||| dst == src + up && !bit(occ, dst) && (if last {
                promotion_piece(prom) && m == spec_move(src, dst, MoveFlag::Promotion { capture: false, prom })
            } else {
                m == spec_move(src, dst, MoveFlag::QuietMove)
            })
        ||| dst == src + 2 * up && rel_rank(us, src) == 1 && !bit(occ, src + up) && !bit(occ, dst)
                && m == spec_move(src, dst, MoveFlag::DoublePawnPush)
        ||| crate::attacks::pawn_step(us, src, dst) && bit(board.occupied_by(us.spec_other()), dst) && (if last {
                promotion_piece(prom) && m == spec_move(src, dst, MoveFlag::Promotion { capture: true, prom })
            } else {
                m == spec_move(src, dst, MoveFlag::Capture { ep_capture: false })
            })
        ||| board.spec_ep_square() != NO_SQ && dst == board.spec_ep_square() as int && crate::attacks::pawn_step(us, src, dst)
                && m == spec_move(src, dst, MoveFlag::Capture { ep_capture: true })
    }
}

/// Whether pawn move `m` to `dst` is aimed at what generation of the kind
/// `gen` looks for: any square not the side's own for non-evasions; for
/// evasions, a square of `target`, or, en passant, a pawn taken on one; for
/// captures, an enemy piece, en passant or a promotion; for quiet moves, an
/// empty square, not en passant.
pub open spec fn pawn_aim(board: Board, gen: GenTypes, target: u64, dst: int, m: BitMove) -> bool {
    let us_occ = board.occupied_by(board.spec_turn());
    let them_occ = board.occupied_by(board.spec_turn().spec_other());
    ||| gen == GenTypes::NonEvasions && target == !us_occ
    ||| gen == GenTypes::Evasions
        && (m.spec_flag_bits() != 5 ==> bit(target, dst))
        && (m.spec_flag_bits() == 5 ==> bit(target, crate::board::ep_captured_sq(board.spec_turn(), dst)))
    ||| gen == GenTypes::Captures && target == them_occ
        && (bit(them_occ, dst) || m.spec_flag_bits() == 5 || rel_rank(board.spec_turn(), dst) == 7)
    ||| gen == GenTypes::Quiets && target == !(us_occ | them_occ) && !bit(them_occ, dst) && m.spec_flag_bits() != 5
}

/// The flag bits of the moves a pawn makes: only en passant has those of
/// en passant.
proof fn lemma_pawn_flags(src: int, dst: int, prom: Piece)
    requires
        0 <= src < 64,
        0 <= dst < 64,
    ensures
        spec_move(src, dst, MoveFlag::QuietMove).spec_flag_bits() != 5,
        spec_move(src, dst, MoveFlag::DoublePawnPush).spec_flag_bits() != 5,
        spec_move(src, dst, MoveFlag::Capture { ep_capture: false }).spec_flag_bits() != 5,
        spec_move(src, dst, MoveFlag::Capture { ep_capture: true }).spec_flag_bits() == 5,
        spec_move(src, dst, MoveFlag::Promotion { capture: false, prom }).spec_flag_bits() != 5,
        spec_move(src, dst, MoveFlag::Promotion { capture: true, prom }).spec_flag_bits() != 5,
        !is_castle_flag(spec_move(src, dst, MoveFlag::QuietMove).spec_flag_bits()),
        !is_castle_flag(spec_move(src, dst, MoveFlag::DoublePawnPush).spec_flag_bits()),
        !is_castle_flag(spec_move(src, dst, MoveFlag::Capture { ep_capture: false }).spec_flag_bits()),
        !is_castle_flag(spec_move(src, dst, MoveFlag::Capture { ep_capture: true }).spec_flag_bits()),
        !is_castle_flag(spec_move(src, dst, MoveFlag::Promotion { capture: false, prom }).spec_flag_bits()),
        !is_castle_flag(spec_move(src, dst, MoveFlag::Promotion { capture: true, prom }).spec_flag_bits()),
{
    BitMove::lemma_encode(src, dst, MoveFlag::QuietMove);
    BitMove::lemma_encode(src, dst, MoveFlag::DoublePawnPush);
    BitMove::lemma_encode(src, dst, MoveFlag::Capture { ep_capture: false });
    BitMove::lemma_encode(src, dst, MoveFlag::Capture { ep_capture: true });
    BitMove::lemma_encode(src, dst, MoveFlag::Promotion { capture: false, prom });
    BitMove::lemma_encode(src, dst, MoveFlag::Promotion { capture: true, prom });
}

/// Promotions from `src` to `dst` contain the promotion to each piece.
proof fn lemma_promotions_have(src: int, dst: int, capture: bool, prom: Piece)
    requires
        promotion_piece(prom),
    ensures
        promotions(src, dst, capture).contains(spec_move(src, dst, MoveFlag::Promotion { capture, prom })),
{
    let ps = promotions(src, dst, capture);
    if prom == Piece::Q {
        assert(ps[0] == spec_move(src, dst, MoveFlag::Promotion { capture, prom }));
    } else if prom == Piece::N {
        assert(ps[1] == spec_move(src, dst, MoveFlag::Promotion { capture, prom }));
    } else if prom == Piece::R {
        assert(ps[2] == spec_move(src, dst, MoveFlag::Promotion { capture, prom }));
    } else {
        assert(ps[3] == spec_move(src, dst, MoveFlag::Promotion { capture, prom }));
    }
}

/// Every move a pawn may make is among the pawn moves of the non-evasions.
#[verifier::spinoff_prover]
#[verifier::rlimit(40)]
proof fn lemma_pawn_move_generated(board: Board, gen: GenTypes, target: u64, src: int, dst: int, prom: Piece, m: BitMove)
    requires
        board.sound(),
        pawn_can_move(board, src, dst, prom, m),
        pawn_aim(board, gen, target, dst, m),
    ensures
        crate::movegen::pawn_moves(board, gen, target, board.occupied(),
            board.occupied_by(board.spec_turn().spec_other())).contains(m),
{
    reveal(crate::movegen::pawn_moves);
    let us = board.spec_turn();
    let them = us.spec_other();
    let occ = board.occupied();
    let us_occ = board.occupied_by(us);
    let them_occ = board.occupied_by(them);
    let pawns = board.spec_piece_bb(us, Piece::P);
    let (rank_8, rank_7, rank_3) = crate::movegen::pawn_ranks(us);
    let not7 = pawns & !rank_7;
    let p7 = pawns & rank_7;
    let down = down_delta(us);
    let up = -down;
    let last = rel_rank(us, dst) == 7;
    lemma_pawn_rank(board, us, src);
    lemma_rank_masks();
    lemma_file_masks();
    lemma_bit_ops(pawns, !rank_7);
    lemma_bit_ops(pawns, rank_7);
    lemma_bit_ops(rank_7, rank_7);
    lemma_bit_ops(occ, occ);
    lemma_pawn_flags(src, dst, prom);
    assert(bit(not7, src) <==> rel_rank(us, src) != 6);
    assert(bit(p7, src) <==> rel_rank(us, src) == 6);
    let a = crate::movegen::pawn_push_moves(board, gen, target, occ);
    let b = crate::movegen::pawn_promo_moves(board, gen, target, occ, them_occ);
    let c = crate::movegen::pawn_capture_moves(board, gen, target, them_occ);
    assert(c.contains(m) ==> (a + b + c).contains(m)) by {
        if c.contains(m) {
            lemma_contains_add(a + b, c, m);
        }
    }
    assert(b.contains(m) ==> (a + b + c).contains(m)) by {
        if b.contains(m) {
            lemma_contains_add(a, b, m);
            lemma_contains_add(a + b, c, m);
        }
    }
    assert(a.contains(m) ==> (a + b + c).contains(m)) by {
        if a.contains(m) {
            lemma_contains_add(a, b, m);
            lemma_contains_add(a + b, c, m);
        }
    }
    lemma_shl_bits(not7, 8);
    lemma_shr_bits(not7, 8);
    lemma_shl_bits(p7, 8);
    lemma_shr_bits(p7, 8);
    let empty = crate::movegen::push_empty(gen, target, occ);
    lemma_us_them(board, occ, us_occ, them_occ);
    lemma_occupied_sides(board);
    lemma_bit_ops(us_occ, them_occ);
    lemma_bit_ops(us_occ | them_occ, us_occ | them_occ);
    lemma_bit_ops(them_occ, them_occ);
    assert(gen != GenTypes::Captures ==> forall|d: int| 0 <= d < 64 ==> (#[trigger] bit(empty, d) <==> !bit(occ, d)));
    let one0 = empty & shift_up_spec(us, not7);
    lemma_bit_ops(empty, shift_up_spec(us, not7));
    let two0 = shift_up_spec(us, one0 & rank_3) & empty;
    lemma_bit_ops(one0, rank_3);
    lemma_shl_bits(one0 & rank_3, 8);
    lemma_shr_bits(one0 & rank_3, 8);
    lemma_bit_ops(shift_up_spec(us, one0 & rank_3), empty);
    let one = if gen == GenTypes::Evasions { one0 & target } else { one0 };
    let two = if gen == GenTypes::Evasions { two0 & target } else { two0 };
    lemma_bit_ops(one0, target);
    lemma_bit_ops(two0, target);
    let singles = per_square(one, move_by_delta(down, MoveFlag::QuietMove));
    let doubles = per_square(two, move_by_delta(2 * down, MoveFlag::DoublePawnPush));
    assert(gen != GenTypes::Captures ==> a == singles + doubles);
    if dst == src + up && !bit(occ, dst) && !last {
        assert(gen != GenTypes::Captures);
        assert(bit(one, dst));
        assert(move_by_delta(down, MoveFlag::QuietMove)(dst)[0] == m);
        lemma_per_square_has(one, move_by_delta(down, MoveFlag::QuietMove), dst, m);
        lemma_contains_add(singles, doubles, m);
    } else if dst == src + up && !bit(occ, dst) && last {
        let pe = crate::movegen::promo_empty(gen, target, occ);
        let pbb = shift_up_spec(us, p7) & pe;
        lemma_bit_ops(shift_up_spec(us, p7), pe);
        lemma_bit_ops(empty, target);
        lemma_bit_ops(occ, occ);
        assert(bit(pbb, dst));
        assert(p7 != 0) by {
            crate::bitboard::lemma_empty_bits();
        }
        assert(gen == GenTypes::Evasions ==> target & rank_8 != 0) by {
            if gen == GenTypes::Evasions {
                lemma_bit_ops(target, rank_8);
                crate::bitboard::lemma_empty_bits();
                assert(bit(target & rank_8, dst));
            }
        }
        lemma_promotions_have(src, dst, false, prom);
        assert(promotions_by_delta(down, false)(dst) == promotions(src, dst, false));
        lemma_per_square_has(pbb, promotions_by_delta(down, false), dst, m);
        let enemies = crate::movegen::pawn_enemies(gen, target, them_occ);
        let l = per_square(shift_up_left_spec(us, p7) & enemies, promotions_by_delta(down_right_delta(us), true));
        let r = per_square(shift_up_right_spec(us, p7) & enemies, promotions_by_delta(down_left_delta(us), true));
        lemma_contains_add(per_square(pbb, promotions_by_delta(down, false)), l, m);
        lemma_contains_add(per_square(pbb, promotions_by_delta(down, false)) + l, r, m);
        assert(b == per_square(pbb, promotions_by_delta(down, false)) + l + r);
    } else if dst == src + 2 * up && rel_rank(us, src) == 1 && !bit(occ, src + up) && !bit(occ, dst) {
        assert(gen != GenTypes::Captures);
        assert(bit(one0, src + up));
        assert(bit(one0 & rank_3, src + up));
        assert(bit(two, dst));
        assert(move_by_delta(2 * down, MoveFlag::DoublePawnPush)(dst)[0] == m);
        lemma_per_square_has(two, move_by_delta(2 * down, MoveFlag::DoublePawnPush), dst, m);
        lemma_contains_add(singles, doubles, m);
    } else {
        assert(gen != GenTypes::Quiets);
        lemma_pawn_capture_generated(board, gen, target, src, dst, prom, m);
    }
}

/// Every capture a pawn may make, en passant included, is among the pawn
/// moves of the non-evasions.
#[verifier::spinoff_prover]
#[verifier::rlimit(40)]
proof fn lemma_pawn_capture_generated(board: Board, gen: GenTypes, target: u64, src: int, dst: int, prom: Piece, m: BitMove)
    requires
        board.sound(),
        pawn_can_move(board, src, dst, prom, m),
        pawn_aim(board, gen, target, dst, m),
        crate::attacks::pawn_step(board.spec_turn(), src, dst),
        bit(board.occupied_by(board.spec_turn().spec_other()), dst) || (board.spec_ep_square() != NO_SQ
            && dst == board.spec_ep_square() as int && m == spec_move(src, dst, MoveFlag::Capture { ep_capture: true })),
    ensures
        crate::movegen::pawn_moves(board, gen, target, board.occupied(),
            board.occupied_by(board.spec_turn().spec_other())).contains(m),
{
    reveal(crate::movegen::pawn_moves);
    let us = board.spec_turn();
    let them = us.spec_other();
    let occ = board.occupied();
    let us_occ = board.occupied_by(us);
    let them_occ = board.occupied_by(them);
    let pawns = board.spec_piece_bb(us, Piece::P);
    let (rank_8, rank_7, rank_3) = crate::movegen::pawn_ranks(us);
    let not7 = pawns & !rank_7;
    let p7 = pawns & rank_7;
    let last = rel_rank(us, dst) == 7;
    lemma_pawn_rank(board, us, src);
    lemma_rank_masks();
    lemma_file_masks();
    lemma_bit_ops(pawns, !rank_7);
    lemma_bit_ops(pawns, rank_7);
    lemma_bit_ops(rank_7, rank_7);
    lemma_us_them(board, occ, us_occ, them_occ);
    lemma_pawn_flags(src, dst, prom);
    assert(bit(not7, src) <==> rel_rank(us, src) != 6);
    assert(bit(p7, src) <==> rel_rank(us, src) == 6);
    let a = crate::movegen::pawn_push_moves(board, gen, target, occ);
    let b = crate::movegen::pawn_promo_moves(board, gen, target, occ, them_occ);
    let c = crate::movegen::pawn_capture_moves(board, gen, target, them_occ);
    let cap = MoveFlag::Capture { ep_capture: false };
    let capep = MoveFlag::Capture { ep_capture: true };
    let ep = board.spec_ep_square() as int;
    let enemies = crate::movegen::pawn_enemies(gen, target, them_occ);
    lemma_bit_ops(them_occ, target);
    let lc = per_square(shift_up_left_spec(us, not7) & enemies, move_by_delta(down_right_delta(us), cap));
    let rc = per_square(shift_up_right_spec(us, not7) & enemies, move_by_delta(down_left_delta(us), cap));
    let ec = crate::movegen::ep_capture_moves(board, gen, target);
    assert(c == lc + rc + ec);
    if !bit(them_occ, dst) {
        // en passant
        board.lemma_ep_square();
        assert(ep != NO_SQ);
        crate::attacks::lemma_reach_bb(Reach::Pawn(them), ep, 0);
        assert(bit(reach_bb(Reach::Pawn(them), ep, 0), src));
        lemma_bit_ops(not7, reach_bb(Reach::Pawn(them), ep, 0));
        assert(bit(not7 & reach_bb(Reach::Pawn(them), ep, 0), src));
        assert(move_to_dst(ep, capep)(src)[0] == m);
        lemma_per_square_has(not7 & reach_bb(Reach::Pawn(them), ep, 0), move_to_dst(ep, capep), src, m);
        assert(gen == GenTypes::Evasions ==> target & sq_bb(ep + down_delta(us)) != 0) by {
            if gen == GenTypes::Evasions {
                BitMove::lemma_encode(src, dst, capep);
                assert(m.spec_flag_bits() == 5);
                lemma_bit_ops(target, sq_bb(ep + down_delta(us)));
                crate::bitboard::lemma_single_bit((ep + down_delta(us)) as u64);
                crate::bitboard::lemma_empty_bits();
                assert(bit(target & sq_bb(ep + down_delta(us)), ep + down_delta(us)));
            }
        }
        assert(ec == per_square(not7 & reach_bb(Reach::Pawn(them), ep, 0), move_to_dst(ep, capep)));
        lemma_contains_add(lc + rc, ec, m);
        lemma_contains_add(a + b, c, m);
    } else {
        let leftward = match us {
            Player::White => dst == src + 7,
            Player::Black => dst == src - 7,
        };
        lemma_shl_bits(not7 & !FILE_A, 7);
        lemma_shr_bits(not7 & !FILE_H, 7);
        lemma_shl_bits(not7 & !FILE_H, 9);
        lemma_shr_bits(not7 & !FILE_A, 9);
        lemma_bit_ops(not7, !FILE_A);
        lemma_bit_ops(not7, !FILE_H);
        lemma_shl_bits(p7 & !FILE_A, 7);
        lemma_shr_bits(p7 & !FILE_H, 7);
        lemma_shl_bits(p7 & !FILE_H, 9);
        lemma_shr_bits(p7 & !FILE_A, 9);
        lemma_bit_ops(p7, !FILE_A);
        lemma_bit_ops(p7, !FILE_H);
        lemma_bit_ops(FILE_A, FILE_A);
        lemma_bit_ops(FILE_H, FILE_H);
        lemma_bit_ops(shift_up_left_spec(us, not7), enemies);
        lemma_bit_ops(shift_up_right_spec(us, not7), enemies);
        lemma_bit_ops(shift_up_left_spec(us, p7), enemies);
        lemma_bit_ops(shift_up_right_spec(us, p7), enemies);
        assert(leftward ==> dst + down_right_delta(us) == src);
        assert(!leftward ==> dst + down_left_delta(us) == src);
        if !last {
            board.lemma_ep_empty();
            board.lemma_sides();
            assert(bit(occ, dst));
            assert(m == spec_move(src, dst, cap));
            if leftward {
                assert(bit(shift_up_left_spec(us, not7), dst));
                assert(move_by_delta(down_right_delta(us), cap)(dst)[0] == m);
                lemma_per_square_has(shift_up_left_spec(us, not7) & enemies, move_by_delta(down_right_delta(us), cap), dst, m);
                lemma_contains_add(lc, rc, m);
            } else {
                assert(bit(shift_up_right_spec(us, not7), dst));
                assert(move_by_delta(down_left_delta(us), cap)(dst)[0] == m);
                lemma_per_square_has(shift_up_right_spec(us, not7) & enemies, move_by_delta(down_left_delta(us), cap), dst, m);
                lemma_contains_add(lc, rc, m);
            }
            lemma_contains_add(lc + rc, ec, m);
            lemma_contains_add(a + b, c, m);
        } else {
            assert(p7 != 0) by {
                crate::bitboard::lemma_empty_bits();
            }
            lemma_promotions_have(src, dst, true, prom);
            let pp = per_square(shift_up_spec(us, p7) & crate::movegen::promo_empty(gen, target, occ), promotions_by_delta(down_delta(us), false));
            assert(gen == GenTypes::Evasions ==> target & rank_8 != 0) by {
                if gen == GenTypes::Evasions {
                    lemma_bit_ops(target, rank_8);
                    crate::bitboard::lemma_empty_bits();
                    assert(bit(target & rank_8, dst));
                }
            }
            let lp = per_square(shift_up_left_spec(us, p7) & enemies, promotions_by_delta(down_right_delta(us), true));
            let rp = per_square(shift_up_right_spec(us, p7) & enemies, promotions_by_delta(down_left_delta(us), true));
            assert(b == pp + lp + rp);
            if leftward {
                assert(bit(shift_up_left_spec(us, p7), dst));
                assert(promotions_by_delta(down_right_delta(us), true)(dst) == promotions(src, dst, true));
                lemma_per_square_has(shift_up_left_spec(us, p7) & enemies, promotions_by_delta(down_right_delta(us), true), dst, m);
                lemma_contains_add(pp, lp, m);
                lemma_contains_add(pp + lp, rp, m);
            } else {
                assert(bit(shift_up_right_spec(us, p7), dst));
                assert(promotions_by_delta(down_left_delta(us), true)(dst) == promotions(src, dst, true));
                lemma_per_square_has(shift_up_right_spec(us, p7) & enemies, promotions_by_delta(down_left_delta(us), true), dst, m);
                lemma_contains_add(pp + lp, rp, m);
            }
            lemma_contains_add(a, b, m);
            lemma_contains_add(a + b, c, m);
        }
    }
}

/// Out of check, generation misses no pawn move: every move a pawn may make
/// by the way pawns move is among all moves and the non-evasions generated
/// without the legality test; when generated with it, so is every such move
/// after which no enemy piece attacks the king.
pub proof fn lemma_pawn_moves_generated(board: Board, src: int, dst: int, prom: Piece, m: BitMove)
    requires
        board.wf(),
        board.spec_checkers() == 0,
        pawn_can_move(board, src, dst, prom, m),
    ensures
        generated_moves(board, false, GenTypes::All).contains(m),
        generated_moves(board, false, GenTypes::NonEvasions).contains(m),
        king_safe_after(board, m) ==> generated_moves(board, true, GenTypes::All).contains(m)
            && generated_moves(board, true, GenTypes::NonEvasions).contains(m),
{
    lemma_pawn_move_generated(board, GenTypes::NonEvasions, !board.occupied_by(board.spec_turn()), src, dst, prom, m);
    lemma_pawn_moves_lift(board, GenTypes::NonEvasions, m);
    if king_safe_after(board, m) {
        lemma_safe_step_kept(board, GenTypes::All, m);
        lemma_safe_step_kept(board, GenTypes::NonEvasions, m);
    }
}

/// A castling move generated without the legality test is also generated
/// with it.
proof fn lemma_castles_kept(board: Board, gen: GenTypes, m: BitMove)
    requires
        board.sound(),
        generated_moves(board, false, gen).contains(m),
        m == spec_move(board.king_square(board.spec_turn()), m.spec_dst(), MoveFlag::Castle { king_side: m.spec_flag_bits() == 2 }),
        0 <= m.spec_dst() < 64,
    ensures
        generated_moves(board, true, gen).contains(m),
{
    let us = board.spec_turn();
    board.lemma_king_on_square(us);
    lemma_piece_on_kind(board, us, Piece::K, board.king_square(us));
    BitMove::lemma_encode(board.king_square(us), m.spec_dst(), MoveFlag::Castle { king_side: m.spec_flag_bits() == 2 });
    assert(board.is_legal(m));
    let ms = generated_moves(board, false, gen);
    let i = choose|i: int| 0 <= i < ms.len() && ms[i] == m;
    ms.lemma_filter_contains(legal_pred(board), i);
}

/// Out of check, generation misses no castling: when the way between king and
/// rook is empty, the side may castle there, its rook stands at home and the
/// king crosses no attacked square, castling is among all moves, the
/// non-evasions and the quiet moves, with or without the legality test.
pub proof fn lemma_castling_generated(board: Board, side: crate::templates::CastleType)
    requires
        board.wf(),
        board.spec_checkers() == 0,
        board.occupied() & crate::board::castle_path(board.spec_turn(), side) == 0,
        board.spec_can_castle(board.spec_turn(), side),
        board.piece_on(crate::movegen::castle_rook_from(board.spec_turn(), side)) == Some(Piece::R),
        crate::movegen::castle_path_safe(board, side),
    ensures
        ({
            let us = board.spec_turn();
            let m = spec_move(board.king_square(us), crate::movegen::castle_rook_from(us, side),
                MoveFlag::Castle { king_side: side == crate::templates::CastleType::KingSide });
            &&& generated_moves(board, false, GenTypes::All).contains(m)
            &&& generated_moves(board, false, GenTypes::NonEvasions).contains(m)
            &&& generated_moves(board, false, GenTypes::Quiets).contains(m)
            &&& generated_moves(board, true, GenTypes::All).contains(m)
            &&& generated_moves(board, true, GenTypes::NonEvasions).contains(m)
            &&& generated_moves(board, true, GenTypes::Quiets).contains(m)
        }),
{
    reveal(crate::movegen::castling_moves);
    reveal(crate::movegen::all_moves);
    let us = board.spec_turn();
    let m = spec_move(board.king_square(us), crate::movegen::castle_rook_from(us, side),
        MoveFlag::Castle { king_side: side == crate::templates::CastleType::KingSide });
    let cq = crate::movegen::castling_moves(board, crate::templates::CastleType::QueenSide);
    let ck = crate::movegen::castling_moves(board, crate::templates::CastleType::KingSide);
    if side == crate::templates::CastleType::QueenSide {
        assert(cq[0] == m);
    } else {
        assert(ck[0] == m);
    }
    lemma_contains_add(cq, ck, m);
    let occ = board.occupied();
    let us_occ = board.occupied_by(us);
    let them_occ = board.occupied_by(us.spec_other());
    assert forall|gen: GenTypes| gen == GenTypes::NonEvasions || gen == GenTypes::Quiets implies
        #[trigger] crate::movegen::non_evasion_moves(board, gen).contains(m) by {
        let target = crate::movegen::non_evasion_target(gen, us_occ, them_occ);
        let pm = crate::movegen::pawn_moves(board, gen, target, occ, them_occ);
        let o = crate::movegen::officer_moves(board, target, occ, us_occ, them_occ);
        let k = per_square(board.spec_piece_bb(us, Piece::K), crate::movegen::piece_moves_fn(Piece::K, target, occ, us_occ, them_occ));
        lemma_contains_add(pm + o + k, cq + ck, m);
        assert(crate::movegen::non_evasion_moves(board, gen) == pm + o + k + (cq + ck));
    }
    assert(crate::movegen::non_evasion_moves(board, GenTypes::NonEvasions).contains(m));
    assert(crate::movegen::non_evasion_moves(board, GenTypes::Quiets).contains(m));
    board.lemma_king_on_square(us);
    BitMove::lemma_encode(board.king_square(us), crate::movegen::castle_rook_from(us, side),
        MoveFlag::Castle { king_side: side == crate::templates::CastleType::KingSide });
    lemma_castles_kept(board, GenTypes::All, m);
    lemma_castles_kept(board, GenTypes::NonEvasions, m);
    lemma_castles_kept(board, GenTypes::Quiets, m);
}

/// A slider on `c` aiming at `k` also aims at a neighbour `d` of `k` on the
/// same line: `d` lies on the same kind of line from `c`, and what lies
/// strictly between `c` and `d` is `k` or lies strictly between `c` and `k`.
proof fn lemma_line_past_king(c: int, k: int, d: int, u: int)
    requires
        0 <= c < 64,
        0 <= k < 64,
        0 <= d < 64,
        aligned_pair(c, k),
        on_line(c, k, d),
        d != c,
        crate::attacks::king_step(k, d),
    ensures
        rook_line(c, k) ==> rook_line(c, d),
        bishop_line(c, k) ==> bishop_line(c, d),
        between(c, d, u) ==> u == k || between(c, k, u),
{
    let (fc, rc) = (file_of(c), rank_of(c));
    let (fk, rk) = (file_of(k), rank_of(k));
    let (fd, rd) = (file_of(d), rank_of(d));
    let (fu, ru) = (file_of(u), rank_of(u));
    assert(c == 8 * rc + fc && 0 <= fc < 8 && 0 <= rc < 8);
    assert(k == 8 * rk + fk && 0 <= fk < 8 && 0 <= rk < 8);
    assert(d == 8 * rd + fd && 0 <= fd < 8 && 0 <= rd < 8);
    if 0 <= u < 64 {
        assert(u == 8 * ru + fu && 0 <= fu < 8 && 0 <= ru < 8);
    }
}

/// A square of the slider lines of a set lies on the line through one of its
/// squares and `ksq`, other than that square.
proof fn lemma_slider_lines_witness(bb: u64, ksq: int, d: int) -> (c: int)
    requires
        0 <= ksq < 64,
        bit(crate::movegen::slider_lines(bb, ksq), d),
        forall|s: int| #[trigger] bit(bb, s) ==> aligned_pair(s, ksq),
    ensures
        bit(bb, c),
        reaches(Reach::Line(ksq as u8), c, 0, d),
        d != c,
    decreases bb,
{
    crate::bitboard::lemma_empty_bits();
    if bb == 0 {
        assert(false);
        0
    } else {
        lemma_lowest(bb);
        crate::bitboard::lemma_without_lowest_smaller(bb);
        let t = vstd::std_specs::bits::u64_trailing_zeros(bb) as int;
        let rest = without_lowest(bb);
        let line = reach_bb(Reach::Line(ksq as u8), t, 0);
        lemma_bit_ops(line ^ sq_bb(t), crate::movegen::slider_lines(rest, ksq));
        lemma_bit_ops(line, sq_bb(t));
        crate::bitboard::lemma_single_bit(t as u64);
        crate::attacks::lemma_reach_bb(Reach::Line(ksq as u8), t, 0);
        assert((ksq as u8) as int == ksq);
        assert(aligned_pair(t, ksq));
        assert(reaches(Reach::Line(ksq as u8), t, 0, t));
        assert(bit(line, t));
        assert(bit(sq_bb(t), t));
        if bit(line ^ sq_bb(t), d) {
            assert(bit(line, d) != bit(sq_bb(t), d));
            assert(d != t);
            assert(bit(line, d));
            t
        } else {
            assert forall|s2: int| #[trigger] bit(rest, s2) implies aligned_pair(s2, ksq) by {
                assert(bit(bb, s2));
            }
            let c = lemma_slider_lines_witness(rest, ksq, d);
            c
        }
    }
}

/// The pieces that give check from a square that holds no pawn or knight,
/// when the enemy king gives none, are enemy rooks or queens on a clear rank
/// or file to the king, or enemy bishops or queens on a clear diagonal.
#[verifier::spinoff_prover]
#[verifier::rlimit(40)]
proof fn lemma_slider_checker(board: Board, s: int)
    requires
        board.wf(),
        board.spec_checkers() & board.spec_piece_bb(board.spec_turn().spec_other(), Piece::K) == 0,
        bit(board.spec_checkers(), s),
        !bit((board.spec_piece_bb(Player::White, Piece::P) | board.spec_piece_bb(Player::Black, Piece::P))
            | (board.spec_piece_bb(Player::White, Piece::N) | board.spec_piece_bb(Player::Black, Piece::N)), s),
    ensures
        ({
            let them = board.spec_turn().spec_other();
            let ksq = board.king_square(board.spec_turn());
            let occ = board.occupied();
            ||| reaches(Reach::Rook, ksq, occ, s) && (bit(board.spec_piece_bb(them, Piece::R), s) || bit(board.spec_piece_bb(them, Piece::Q), s))
            ||| reaches(Reach::Bishop, ksq, occ, s) && (bit(board.spec_piece_bb(them, Piece::B), s) || bit(board.spec_piece_bb(them, Piece::Q), s))
        }),
{
    let us = board.spec_turn();
    let them = us.spec_other();
    let ksq = board.king_square(us);
    let occ = board.occupied();
    let bbs = board.spec_bbs();
    let wp = board.spec_piece_bb(Player::White, Piece::P);
    let bp = board.spec_piece_bb(Player::Black, Piece::P);
    let wn = board.spec_piece_bb(Player::White, Piece::N);
    let bn = board.spec_piece_bb(Player::Black, Piece::N);
    let wk = board.spec_piece_bb(Player::White, Piece::K);
    let bk = board.spec_piece_bb(Player::Black, Piece::K);
    let st = crate::board::straight_in(bbs, Player::White) | crate::board::straight_in(bbs, Player::Black);
    let dg = crate::board::diagonal_in(bbs, Player::White) | crate::board::diagonal_in(bbs, Player::Black);
    let x1 = reach_bb(Reach::Pawn(Player::White), ksq, 0) & bp;
    let x2 = reach_bb(Reach::Pawn(Player::Black), ksq, 0) & wp;
    let x3 = reach_bb(Reach::Knight, ksq, 0) & (wn | bn);
    let x4 = reach_bb(Reach::Rook, ksq, occ) & st;
    let x5 = reach_bb(Reach::Bishop, ksq, occ) & dg;
    let x6 = reach_bb(Reach::King, ksq, 0) & (wk | bk);
    let att = board.attackers(ksq, occ);
    assert(att == x1 | x2 | x3 | x4 | x5 | x6);
    let them_occ = board.occupied_by(them);
    lemma_bit_ops(att, them_occ);
    lemma_bit_ops(x1 | x2 | x3 | x4 | x5, x6);
    lemma_bit_ops(x1 | x2 | x3 | x4, x5);
    lemma_bit_ops(x1 | x2 | x3, x4);
    lemma_bit_ops(x1 | x2, x3);
    lemma_bit_ops(x1, x2);
    lemma_bit_ops(reach_bb(Reach::Pawn(Player::White), ksq, 0), bp);
    lemma_bit_ops(reach_bb(Reach::Pawn(Player::Black), ksq, 0), wp);
    lemma_bit_ops(reach_bb(Reach::Knight, ksq, 0), wn | bn);
    lemma_bit_ops(reach_bb(Reach::Rook, ksq, occ), st);
    lemma_bit_ops(reach_bb(Reach::Bishop, ksq, occ), dg);
    lemma_bit_ops(reach_bb(Reach::King, ksq, 0), wk | bk);
    lemma_bit_ops(wp | bp, wn | bn);
    lemma_bit_ops(wp, bp);
    lemma_bit_ops(wn, bn);
    lemma_bit_ops(wk, bk);
    lemma_bit_ops(crate::board::straight_in(bbs, Player::White), crate::board::straight_in(bbs, Player::Black));
    lemma_bit_ops(crate::board::diagonal_in(bbs, Player::White), crate::board::diagonal_in(bbs, Player::Black));
    lemma_bit_ops(board.spec_piece_bb(Player::White, Piece::R), board.spec_piece_bb(Player::White, Piece::Q));
    lemma_bit_ops(board.spec_piece_bb(Player::Black, Piece::R), board.spec_piece_bb(Player::Black, Piece::Q));
    lemma_bit_ops(board.spec_piece_bb(Player::White, Piece::B), board.spec_piece_bb(Player::White, Piece::Q));
    lemma_bit_ops(board.spec_piece_bb(Player::Black, Piece::B), board.spec_piece_bb(Player::Black, Piece::Q));
    lemma_bit_ops(board.spec_checkers(), board.spec_piece_bb(them, Piece::K));
    crate::bitboard::lemma_empty_bits();
    crate::attacks::lemma_reach_bb(Reach::Rook, ksq, occ);
    crate::attacks::lemma_reach_bb(Reach::Bishop, ksq, occ);
    board.lemma_sides();
    assert(bit(att, s) && bit(them_occ, s));
    assert(!bit(x1, s) && !bit(x2, s) && !bit(x3, s));
    assert(!bit(x6, s)) by {
        if bit(x6, s) {
            if bit(board.spec_piece_bb(us, Piece::K), s) {
                board.lemma_piece_occupies(us, Piece::K, s);
            } else {
                assert(bit(board.spec_checkers() & board.spec_piece_bb(them, Piece::K), s));
            }
        }
    }
    if bit(board.spec_piece_bb(us, Piece::R), s) {
        board.lemma_piece_occupies(us, Piece::R, s);
    }
    if bit(board.spec_piece_bb(us, Piece::B), s) {
        board.lemma_piece_occupies(us, Piece::B, s);
    }
    if bit(board.spec_piece_bb(us, Piece::Q), s) {
        board.lemma_piece_occupies(us, Piece::Q, s);
    }
}

/// A king step that leaves the king unattacked does not land on the line of
/// a checking slider.
#[verifier::spinoff_prover]
#[verifier::rlimit(40)]
proof fn lemma_safe_king_step_off_lines(board: Board, dst: int)
    requires
        board.wf(),
        board.spec_checkers() & board.spec_piece_bb(board.spec_turn().spec_other(), Piece::K) == 0,
        piece_can_step(board, Piece::K, board.king_square(board.spec_turn()), dst),
        king_safe_after(board, step_move(board, board.king_square(board.spec_turn()), dst)),
    ensures
        ({
            let pk = (board.spec_piece_bb(Player::White, Piece::P) | board.spec_piece_bb(Player::Black, Piece::P))
                | (board.spec_piece_bb(Player::White, Piece::N) | board.spec_piece_bb(Player::Black, Piece::N));
            !bit(crate::movegen::slider_lines(board.spec_checkers() & !pk, board.king_square(board.spec_turn())), dst)
        }),
{
    let us = board.spec_turn();
    let them = us.spec_other();
    let ksq = board.king_square(us);
    let occ = board.occupied();
    let pk = (board.spec_piece_bb(Player::White, Piece::P) | board.spec_piece_bb(Player::Black, Piece::P))
        | (board.spec_piece_bb(Player::White, Piece::N) | board.spec_piece_bb(Player::Black, Piece::N));
    let sl = board.spec_checkers() & !pk;
    board.lemma_king_on_square(us);
    lemma_bit_ops(board.spec_checkers(), !pk);
    lemma_bit_ops(pk, pk);
    assert forall|x: int| #[trigger] bit(sl, x) implies aligned_pair(x, ksq) by {
        lemma_slider_checker(board, x);
    }
    if bit(crate::movegen::slider_lines(sl, ksq), dst) {
        let c = lemma_slider_lines_witness(sl, ksq, dst);
        assert((ksq as u8) as int == ksq);
        lemma_slider_checker(board, c);
        let m = step_move(board, ksq, dst);
        let cap = MoveFlag::Capture { ep_capture: false };
        BitMove::lemma_encode(ksq, dst, cap);
        BitMove::lemma_encode(ksq, dst, MoveFlag::QuietMove);
        lemma_piece_on_kind(board, us, Piece::K, ksq);
        assert(king_square_after(board, m) == dst);
        assert(captured_square(board, m) == dst);
        let occ2 = occupied_after(board, m);
        assert(occ2 == (occ & !sq_bb(ksq)) | sq_bb(dst));
        lemma_bit_ops(occ, !sq_bb(ksq));
        lemma_bit_ops(occ & !sq_bb(ksq), sq_bb(dst));
        crate::bitboard::lemma_single_bit(ksq as u64);
        crate::bitboard::lemma_single_bit(dst as u64);
        lemma_bit_ops(sq_bb(ksq), sq_bb(ksq));
        let kind = if reaches(Reach::Rook, ksq, occ, c) { Reach::Rook } else { Reach::Bishop };
        lemma_reaches_sym(kind, ksq, c, occ);
        assert(crate::attacks::king_step(ksq, dst));
        assert forall|u: int| #![trigger bit(occ2, u)] between(c, dst, u) implies !bit(occ2, u) by {
            lemma_line_past_king(c, ksq, dst, u);
            assert(u != dst);
            if u != ksq {
                assert(between(c, ksq, u));
                assert(!bit(occ, u));
            }
        }
        lemma_line_past_king(c, ksq, dst, 0);
        assert(path_clear(c, dst, occ2));
        let piece = if kind == Reach::Rook {
            if bit(board.spec_piece_bb(them, Piece::R), c) { Piece::R } else { Piece::Q }
        } else {
            if bit(board.spec_piece_bb(them, Piece::B), c) { Piece::B } else { Piece::Q }
        };
        assert(bit(board.spec_piece_bb(them, piece), c));
        assert(attacks_from(them, piece, c, occ2, dst));
        assert(false);
    }
}

/// In check, generation misses no king step out of it: every step of the
/// king onto a square its side does not hold, after which no enemy piece
/// attacks the king, is among the evasions and all moves, with or without the
/// legality test (the enemy king giving no check, which no game reaches).
pub proof fn lemma_king_evasions_generated(board: Board, dst: int)
    requires
        board.wf(),
        board.spec_checkers() != 0,
        board.spec_checkers() & board.spec_piece_bb(board.spec_turn().spec_other(), Piece::K) == 0,
        piece_can_step(board, Piece::K, board.king_square(board.spec_turn()), dst),
        king_safe_after(board, step_move(board, board.king_square(board.spec_turn()), dst)),
    ensures
        ({
            let m = step_move(board, board.king_square(board.spec_turn()), dst);
            &&& generated_moves(board, false, GenTypes::Evasions).contains(m)
            &&& generated_moves(board, false, GenTypes::All).contains(m)
            &&& generated_moves(board, true, GenTypes::Evasions).contains(m)
            &&& generated_moves(board, true, GenTypes::All).contains(m)
        }),
{
    reveal(crate::movegen::evasion_moves);
    let us = board.spec_turn();
    let them = us.spec_other();
    let ksq = board.king_square(us);
    let occ = board.occupied();
    let us_occ = board.occupied_by(us);
    let them_occ = board.occupied_by(them);
    let m = step_move(board, ksq, dst);
    let pk = (board.spec_piece_bb(Player::White, Piece::P) | board.spec_piece_bb(Player::Black, Piece::P))
        | (board.spec_piece_bb(Player::White, Piece::N) | board.spec_piece_bb(Player::Black, Piece::N));
    let slider_attacks = crate::movegen::slider_lines(board.spec_checkers() & !pk, ksq);
    lemma_safe_king_step_off_lines(board, dst);
    crate::attacks::lemma_reach_bb(Reach::King, ksq, 0);
    let k_moves = reach_bb(Reach::King, ksq, 0) & !slider_attacks & !us_occ;
    lemma_bit_ops(reach_bb(Reach::King, ksq, 0), !slider_attacks);
    lemma_bit_ops(reach_bb(Reach::King, ksq, 0) & !slider_attacks, !us_occ);
    lemma_bit_ops(slider_attacks, slider_attacks);
    lemma_bit_ops(us_occ, us_occ);
    assert(bit(k_moves, dst));
    let cap = MoveFlag::Capture { ep_capture: false };
    let a = per_square(k_moves & them_occ, move_from_src(ksq, cap));
    let b = per_square(k_moves & !them_occ, move_from_src(ksq, MoveFlag::QuietMove));
    lemma_bit_ops(k_moves, them_occ);
    lemma_bit_ops(k_moves, !them_occ);
    lemma_bit_ops(them_occ, them_occ);
    if bit(them_occ, dst) {
        assert(move_from_src(ksq, cap)(dst)[0] == m);
        lemma_per_square_has(k_moves & them_occ, move_from_src(ksq, cap), dst, m);
    } else {
        assert(move_from_src(ksq, MoveFlag::QuietMove)(dst)[0] == m);
        lemma_per_square_has(k_moves & !them_occ, move_from_src(ksq, MoveFlag::QuietMove), dst, m);
    }
    lemma_contains_add(a, b, m);
    let ev = crate::movegen::evasion_moves(board);
    if without_lowest(board.spec_checkers()) == 0 {
        let c = vstd::std_specs::bits::u64_trailing_zeros(board.spec_checkers()) as int;
        let target = reach_bb(Reach::Between(ksq as u8), c, 0) | sq_bb(c);
        lemma_contains_add(a + b, crate::movegen::all_moves(board, GenTypes::Evasions, target, occ, us_occ, them_occ), m);
    }
    assert(ev.contains(m));
    lemma_safe_step_kept(board, GenTypes::Evasions, m);
    lemma_safe_step_kept(board, GenTypes::All, m);
}

/// A piece giving check attacks the king from its square: a pawn, knight or
/// king of the enemy whatever stands around, a slider along its clear line.
#[verifier::spinoff_prover]
#[verifier::rlimit(40)]
proof fn lemma_checker_attacks(board: Board, s: int) -> (piece: Piece)
    requires
        board.wf(),
        bit(board.spec_checkers(), s),
    ensures
        bit(board.spec_piece_bb(board.spec_turn().spec_other(), piece), s),
        attacks_from(board.spec_turn().spec_other(), piece, s, board.occupied(), board.king_square(board.spec_turn())),
{
    let us = board.spec_turn();
    let them = us.spec_other();
    let ksq = board.king_square(us);
    let occ = board.occupied();
    let bbs = board.spec_bbs();
    let wp = board.spec_piece_bb(Player::White, Piece::P);
    let bp = board.spec_piece_bb(Player::Black, Piece::P);
    let wn = board.spec_piece_bb(Player::White, Piece::N);
    let bn = board.spec_piece_bb(Player::Black, Piece::N);
    let wk = board.spec_piece_bb(Player::White, Piece::K);
    let bk = board.spec_piece_bb(Player::Black, Piece::K);
    let st = crate::board::straight_in(bbs, Player::White) | crate::board::straight_in(bbs, Player::Black);
    let dg = crate::board::diagonal_in(bbs, Player::White) | crate::board::diagonal_in(bbs, Player::Black);
    let x1 = reach_bb(Reach::Pawn(Player::White), ksq, 0) & bp;
    let x2 = reach_bb(Reach::Pawn(Player::Black), ksq, 0) & wp;
    let x3 = reach_bb(Reach::Knight, ksq, 0) & (wn | bn);
    let x4 = reach_bb(Reach::Rook, ksq, occ) & st;
    let x5 = reach_bb(Reach::Bishop, ksq, occ) & dg;
    let x6 = reach_bb(Reach::King, ksq, 0) & (wk | bk);
    let att = board.attackers(ksq, occ);
    assert(att == x1 | x2 | x3 | x4 | x5 | x6);
    let them_occ = board.occupied_by(them);
    lemma_bit_ops(att, them_occ);
    lemma_bit_ops(x1 | x2 | x3 | x4 | x5, x6);
    lemma_bit_ops(x1 | x2 | x3 | x4, x5);
    lemma_bit_ops(x1 | x2 | x3, x4);
    lemma_bit_ops(x1 | x2, x3);
    lemma_bit_ops(x1, x2);
    lemma_bit_ops(reach_bb(Reach::Pawn(Player::White), ksq, 0), bp);
    lemma_bit_ops(reach_bb(Reach::Pawn(Player::Black), ksq, 0), wp);
    lemma_bit_ops(reach_bb(Reach::Knight, ksq, 0), wn | bn);
    lemma_bit_ops(reach_bb(Reach::Rook, ksq, occ), st);
    lemma_bit_ops(reach_bb(Reach::Bishop, ksq, occ), dg);
    lemma_bit_ops(reach_bb(Reach::King, ksq, 0), wk | bk);
    lemma_bit_ops(wn, bn);
    lemma_bit_ops(wk, bk);
    lemma_bit_ops(crate::board::straight_in(bbs, Player::White), crate::board::straight_in(bbs, Player::Black));
    lemma_bit_ops(crate::board::diagonal_in(bbs, Player::White), crate::board::diagonal_in(bbs, Player::Black));
    lemma_bit_ops(board.spec_piece_bb(Player::White, Piece::R), board.spec_piece_bb(Player::White, Piece::Q));
    lemma_bit_ops(board.spec_piece_bb(Player::Black, Piece::R), board.spec_piece_bb(Player::Black, Piece::Q));
    lemma_bit_ops(board.spec_piece_bb(Player::White, Piece::B), board.spec_piece_bb(Player::White, Piece::Q));
    lemma_bit_ops(board.spec_piece_bb(Player::Black, Piece::B), board.spec_piece_bb(Player::Black, Piece::Q));
    crate::attacks::lemma_reach_bb(Reach::Pawn(Player::White), ksq, 0);
    crate::attacks::lemma_reach_bb(Reach::Pawn(Player::Black), ksq, 0);
    crate::attacks::lemma_reach_bb(Reach::Knight, ksq, 0);
    crate::attacks::lemma_reach_bb(Reach::Rook, ksq, occ);
    crate::attacks::lemma_reach_bb(Reach::Bishop, ksq, occ);
    crate::attacks::lemma_reach_bb(Reach::King, ksq, 0);
    board.lemma_sides();
    assert(bit(att, s) && bit(them_occ, s));
    assert forall|p: Piece| #[trigger] bit(board.spec_piece_bb(us, p), s) implies false by {
        board.lemma_piece_occupies(us, p, s);
    }
    lemma_reaches_sym(Reach::Knight, ksq, s, occ);
    lemma_reaches_sym(Reach::Rook, ksq, s, occ);
    lemma_reaches_sym(Reach::Bishop, ksq, s, occ);
    lemma_reaches_sym(Reach::Queen, ksq, s, occ);
    assert(crate::attacks::king_step(ksq, s) ==> crate::attacks::king_step(s, ksq));
    if bit(x1, s) || bit(x2, s) {
        Piece::P
    } else if bit(x3, s) {
        Piece::N
    } else if bit(x4, s) {
        if bit(board.spec_piece_bb(them, Piece::R), s) { Piece::R } else { Piece::Q }
    } else if bit(x5, s) {
        if bit(board.spec_piece_bb(them, Piece::B), s) { Piece::B } else { Piece::Q }
    } else {
        Piece::K
    }
}

/// A move of a piece other than the king (not castling) after which no enemy
/// piece attacks the king takes each piece giving check or lands between it
/// and the king; en passant, it takes it or lands between.
#[verifier::spinoff_prover]
#[verifier::rlimit(40)]
proof fn lemma_safe_move_meets_check(board: Board, m: BitMove, c: int)
    requires
        board.wf(),
        bit(board.spec_checkers(), c),
        !is_castle_flag(m.spec_flag_bits()),
        bit(board.occupied_by(board.spec_turn()), m.spec_src()),
        0 <= m.spec_dst() < 64,
        m.spec_flag_bits() == 5 ==> 0 <= captured_square(board, m) < 64 && bit(board.occupied(), captured_square(board, m)),
        board.piece_on(m.spec_src()) != Some(Piece::K),
        king_safe_after(board, m),
    ensures
        captured_square(board, m) == c || between(c, board.king_square(board.spec_turn()), m.spec_dst()),
{
    let us = board.spec_turn();
    let them = us.spec_other();
    let ksq = board.king_square(us);
    let occ = board.occupied();
    let src = m.spec_src();
    let dst = m.spec_dst();
    let cap = captured_square(board, m);
    if !(cap == c || between(c, ksq, dst)) {
        let piece = lemma_checker_attacks(board, c);
        assert(king_square_after(board, m) == ksq);
        let occ2 = occupied_after(board, m);
        lemma_bit_ops(occ, !sq_bb(src));
        lemma_bit_ops(occ & !sq_bb(src), sq_bb(dst));
        lemma_bit_ops(occ ^ sq_bb(src), sq_bb(cap));
        lemma_bit_ops(occ, sq_bb(src));
        lemma_bit_ops((occ ^ sq_bb(src)) ^ sq_bb(cap), sq_bb(dst));
        lemma_bit_ops(sq_bb(src), sq_bb(src));
        crate::bitboard::lemma_single_bit(src as u64);
        crate::bitboard::lemma_single_bit(dst as u64);
        if 0 <= cap < 64 {
            crate::bitboard::lemma_single_bit(cap as u64);
        }
        lemma_us_them(board, occ, board.occupied_by(us), board.occupied_by(them));
        assert(0 <= src < 64 && bit(occ, src));
        assert forall|u: int| #![trigger bit(occ2, u)] between(c, ksq, u) && !bit(occ, u) implies !bit(occ2, u) by {
            assert(u != dst);
            assert(u != src);
            if m.spec_flag_bits() == 5 {
                assert(u != cap);
            }
        }
        board.lemma_king_on_square(us);
        assert(attacks_from(them, piece, c, occ2, ksq));
        assert(false);
    }
}

/// The squares a move must reach against a single piece giving check on `c`:
/// those between it and the king, and its own.
pub open spec fn block_or_take(board: Board, c: int) -> u64 {
    reach_bb(Reach::Between(board.king_square(board.spec_turn()) as u8), c, 0) | sq_bb(c)
}

/// The evasions contain the moves of kind `gen` generated against the single
/// piece giving check.
proof fn lemma_evasions_have(board: Board, m: BitMove)
    requires
        board.spec_checkers() != 0,
        without_lowest(board.spec_checkers()) == 0,
        ({
            let c = vstd::std_specs::bits::u64_trailing_zeros(board.spec_checkers()) as int;
            let us = board.spec_turn();
            crate::movegen::all_moves(board, GenTypes::Evasions, block_or_take(board, c), board.occupied(),
                board.occupied_by(us), board.occupied_by(us.spec_other())).contains(m)
        }),
    ensures
        crate::movegen::evasion_moves(board).contains(m),
{
    reveal(crate::movegen::evasion_moves);
    let us = board.spec_turn();
    let them = us.spec_other();
    let ksq = board.king_square(us);
    let occ = board.occupied();
    let us_occ = board.occupied_by(us);
    let them_occ = board.occupied_by(them);
    let pk = (board.spec_piece_bb(Player::White, Piece::P) | board.spec_piece_bb(Player::Black, Piece::P))
        | (board.spec_piece_bb(Player::White, Piece::N) | board.spec_piece_bb(Player::Black, Piece::N));
    let slider_attacks = crate::movegen::slider_lines(board.spec_checkers() & !pk, ksq);
    let k_moves = reach_bb(Reach::King, ksq, 0) & !slider_attacks & !us_occ;
    let king_moves = per_square(k_moves & them_occ, move_from_src(ksq, MoveFlag::Capture { ep_capture: false }))
        + per_square(k_moves & !them_occ, move_from_src(ksq, MoveFlag::QuietMove));
    let c = vstd::std_specs::bits::u64_trailing_zeros(board.spec_checkers()) as int;
    lemma_contains_add(king_moves, crate::movegen::all_moves(board, GenTypes::Evasions, block_or_take(board, c), occ, us_occ, them_occ), m);
}

/// A move that takes the single piece giving check or lands between it and
/// the king lands on `block_or_take`.
proof fn lemma_block_or_take(board: Board, c: int, d: int)
    requires
        board.sound(),
        0 <= c < 64,
        d == c || between(c, board.king_square(board.spec_turn()), d),
    ensures
        bit(block_or_take(board, c), d),
{
    let ksq = board.king_square(board.spec_turn());
    board.lemma_king_on_square(board.spec_turn());
    assert((ksq as u8) as int == ksq);
    crate::attacks::lemma_reach_bb(Reach::Between(ksq as u8), c, 0);
    crate::bitboard::lemma_single_bit(c as u64);
    lemma_bit_ops(reach_bb(Reach::Between(ksq as u8), c, 0), sq_bb(c));
}

/// In check by a single piece, generation misses no step of a knight, bishop,
/// rook or queen out of it: every such step after which no enemy piece
/// attacks the king is among the evasions and all moves, with or without the
/// legality test.
pub proof fn lemma_piece_evasions_generated(board: Board, piece: Piece, src: int, dst: int)
    requires
        board.wf(),
        board.spec_checkers() != 0,
        without_lowest(board.spec_checkers()) == 0,
        piece != Piece::K,
        piece_can_step(board, piece, src, dst),
        king_safe_after(board, step_move(board, src, dst)),
    ensures
        ({
            let m = step_move(board, src, dst);
            &&& generated_moves(board, false, GenTypes::Evasions).contains(m)
            &&& generated_moves(board, false, GenTypes::All).contains(m)
            &&& generated_moves(board, true, GenTypes::Evasions).contains(m)
            &&& generated_moves(board, true, GenTypes::All).contains(m)
        }),
{
    reveal(crate::movegen::all_moves);
    reveal(crate::movegen::officer_moves);
    let us = board.spec_turn();
    let them = us.spec_other();
    let occ = board.occupied();
    let us_occ = board.occupied_by(us);
    let them_occ = board.occupied_by(them);
    let m = step_move(board, src, dst);
    let checkers = board.spec_checkers();
    lemma_lowest(checkers);
    let c = vstd::std_specs::bits::u64_trailing_zeros(checkers) as int;
    let target = block_or_take(board, c);
    board.lemma_piece_occupies(us, piece, src);
    lemma_piece_on_kind(board, us, piece, src);
    BitMove::lemma_encode(src, dst, MoveFlag::Capture { ep_capture: false });
    BitMove::lemma_encode(src, dst, MoveFlag::QuietMove);
    lemma_safe_move_meets_check(board, m, c);
    lemma_block_or_take(board, c, dst);
    match piece {
        Piece::N => crate::attacks::lemma_reach_bb(Reach::Knight, src, 0),
        Piece::B => crate::attacks::lemma_reach_bb(Reach::Bishop, src, occ),
        Piece::R => crate::attacks::lemma_reach_bb(Reach::Rook, src, occ),
        _ => crate::attacks::lemma_reach_bb(Reach::Queen, src, occ),
    }
    assert(bit(crate::movegen::piece_moves_bb(piece, src, occ), dst));
    lemma_piece_fn_has(piece, target, occ, us_occ, them_occ, src, dst, m);
    let f = crate::movegen::piece_moves_fn(piece, target, occ, us_occ, them_occ);
    lemma_per_square_has(board.spec_piece_bb(us, piece), f, src, m);
    let pm = crate::movegen::pawn_moves(board, GenTypes::Evasions, target, occ, them_occ);
    let n = per_square(board.spec_piece_bb(us, Piece::N), crate::movegen::piece_moves_fn(Piece::N, target, occ, us_occ, them_occ));
    let b = per_square(board.spec_piece_bb(us, Piece::B), crate::movegen::piece_moves_fn(Piece::B, target, occ, us_occ, them_occ));
    let r = per_square(board.spec_piece_bb(us, Piece::R), crate::movegen::piece_moves_fn(Piece::R, target, occ, us_occ, them_occ));
    let q = per_square(board.spec_piece_bb(us, Piece::Q), crate::movegen::piece_moves_fn(Piece::Q, target, occ, us_occ, them_occ));
    let o = crate::movegen::officer_moves(board, target, occ, us_occ, them_occ);
    assert(o == n + b + r + q);
    if piece == Piece::N || piece == Piece::B {
        lemma_contains_add(n, b, m);
    }
    if piece != Piece::Q {
        lemma_contains_add(n + b, r, m);
    }
    lemma_contains_add(n + b + r, q, m);
    lemma_contains_add(pm, o, m);
    let e = Seq::<BitMove>::empty();
    lemma_contains_add(pm + o, e, m);
    lemma_contains_add(pm + o + e, e, m);
    assert(crate::movegen::all_moves(board, GenTypes::Evasions, target, occ, us_occ, them_occ) == pm + o + e + e);
    lemma_evasions_have(board, m);
    lemma_safe_step_kept(board, GenTypes::Evasions, m);
    lemma_safe_step_kept(board, GenTypes::All, m);
}

/// In check by a single piece, generation misses no pawn move out of it:
/// every move a pawn may make after which no enemy piece attacks the king is
/// among the evasions and all moves, with or without the legality test; en
/// passant, when the pawn it takes is the one giving check.
pub proof fn lemma_pawn_evasions_generated(board: Board, src: int, dst: int, prom: Piece, m: BitMove)
    requires
        board.wf(),
        board.spec_checkers() != 0,
        without_lowest(board.spec_checkers()) == 0,
        pawn_can_move(board, src, dst, prom, m),
        king_safe_after(board, m),
        m.spec_flag_bits() == 5 ==> bit(board.spec_checkers(), crate::board::ep_captured_sq(board.spec_turn(), dst)),
    ensures
        generated_moves(board, false, GenTypes::Evasions).contains(m),
        generated_moves(board, false, GenTypes::All).contains(m),
        generated_moves(board, true, GenTypes::Evasions).contains(m),
        generated_moves(board, true, GenTypes::All).contains(m),
{
    reveal(crate::movegen::all_moves);
    let us = board.spec_turn();
    let them = us.spec_other();
    let occ = board.occupied();
    let us_occ = board.occupied_by(us);
    let them_occ = board.occupied_by(them);
    let checkers = board.spec_checkers();
    lemma_lowest(checkers);
    crate::bitboard::lemma_empty_bits();
    let c = vstd::std_specs::bits::u64_trailing_zeros(checkers) as int;
    let target = block_or_take(board, c);
    lemma_pawn_rank(board, us, src);
    lemma_pawn_flags(src, dst, prom);
    BitMove::lemma_encode(src, dst, MoveFlag::QuietMove);
    BitMove::lemma_encode(src, dst, MoveFlag::DoublePawnPush);
    BitMove::lemma_encode(src, dst, MoveFlag::Capture { ep_capture: false });
    BitMove::lemma_encode(src, dst, MoveFlag::Capture { ep_capture: true });
    BitMove::lemma_encode(src, dst, MoveFlag::Promotion { capture: false, prom });
    BitMove::lemma_encode(src, dst, MoveFlag::Promotion { capture: true, prom });
    assert(m.spec_src() == src && m.spec_dst() == dst);
    board.lemma_piece_occupies(us, Piece::P, src);
    lemma_piece_on_kind(board, us, Piece::P, src);
    let cap = captured_square(board, m);
    assert(m.spec_flag_bits() == 5 ==> 0 <= cap < 64 && bit(occ, cap)) by {
        if m.spec_flag_bits() == 5 {
            assert(dst == board.spec_ep_square() as int);
            board.lemma_ep_square();
            board.lemma_piece_occupies(them, Piece::P, cap);
            board.lemma_sides();
        }
    }
    lemma_safe_move_meets_check(board, m, c);
    if m.spec_flag_bits() == 5 {
        assert(!bit(without_lowest(checkers), cap));
        assert(cap == c);
        lemma_block_or_take(board, c, c);
    } else {
        lemma_block_or_take(board, c, dst);
    }
    assert(pawn_aim(board, GenTypes::Evasions, target, dst, m));
    lemma_pawn_move_generated(board, GenTypes::Evasions, target, src, dst, prom, m);
    let pm = crate::movegen::pawn_moves(board, GenTypes::Evasions, target, occ, them_occ);
    let o = crate::movegen::officer_moves(board, target, occ, us_occ, them_occ);
    let e = Seq::<BitMove>::empty();
    lemma_contains_add(pm, o, m);
    lemma_contains_add(pm + o, e, m);
    lemma_contains_add(pm + o + e, e, m);
    assert(crate::movegen::all_moves(board, GenTypes::Evasions, target, occ, us_occ, them_occ) == pm + o + e + e);
    lemma_evasions_have(board, m);
    lemma_safe_step_kept(board, GenTypes::Evasions, m);
    lemma_safe_step_kept(board, GenTypes::All, m);
}

/// Two distinct squares with a third strictly between each of them and `k`
/// lie on one ray from `k`: one of them lies between the other and `k`.
proof fn lemma_same_ray(c1: int, c2: int, k: int, d: int)
    requires
        0 <= c1 < 64,
        0 <= c2 < 64,
        0 <= k < 64,
        c1 != c2,
        between(c1, k, d),
        between(c2, k, d),
    ensures
        between(c1, k, c2) || between(c2, k, c1),
{
    let (f1, r1) = (file_of(c1), rank_of(c1));
    let (f2, r2) = (file_of(c2), rank_of(c2));
    let (fk, rk) = (file_of(k), rank_of(k));
    let (fd, rd) = (file_of(d), rank_of(d));
    assert(c1 == 8 * r1 + f1 && 0 <= f1 < 8 && 0 <= r1 < 8);
    assert(c2 == 8 * r2 + f2 && 0 <= f2 < 8 && 0 <= r2 < 8);
    assert(k == 8 * rk + fk && 0 <= fk < 8 && 0 <= rk < 8);
    assert(d == 8 * rd + fd && 0 <= fd < 8 && 0 <= rd < 8);
}

/// Nothing lies strictly between a pawn, knight or king and a square it
/// attacks.
proof fn lemma_step_attack_no_between(player: Player, piece: Piece, c: int, occ: u64, k: int, u: int)
    requires
        0 <= c < 64,
        0 <= k < 64,
        piece == Piece::P || piece == Piece::N || piece == Piece::K,
        attacks_from(player, piece, c, occ, k),
    ensures
        !between(c, k, u),
{
    let (fc, rc) = (file_of(c), rank_of(c));
    let (fk, rk) = (file_of(k), rank_of(k));
    let (fu, ru) = (file_of(u), rank_of(u));
    assert(c == 8 * rc + fc && 0 <= fc < 8 && 0 <= rc < 8);
    assert(k == 8 * rk + fk && 0 <= fk < 8 && 0 <= rk < 8);
    if 0 <= u < 64 {
        assert(u == 8 * ru + fu && 0 <= fu < 8 && 0 <= ru < 8);
    }
}

/// The en-passant square does not lie between any square and a king that
/// the taken pawn attacks.
proof fn lemma_ep_square_off_line(us: Player, ep: int, k: int, c: int)
    requires
        0 <= ep < 64,
        0 <= k < 64,
        0 <= c < 64,
        0 <= crate::board::ep_captured_sq(us, ep) < 64,
        crate::attacks::pawn_step(us.spec_other(), crate::board::ep_captured_sq(us, ep), k),
    ensures
        !between(c, k, ep),
{
    let cap = crate::board::ep_captured_sq(us, ep);
    let (fe, re) = (file_of(ep), rank_of(ep));
    let (fk, rk) = (file_of(k), rank_of(k));
    let (fc, rc) = (file_of(c), rank_of(c));
    let (fp, rp) = (file_of(cap), rank_of(cap));
    assert(ep == 8 * re + fe && 0 <= fe < 8 && 0 <= re < 8);
    assert(k == 8 * rk + fk && 0 <= fk < 8 && 0 <= rk < 8);
    assert(c == 8 * rc + fc && 0 <= fc < 8 && 0 <= rc < 8);
    assert(cap == 8 * rp + fp && 0 <= fp < 8 && 0 <= rp < 8);
}

/// No piece giving check stands between another piece giving check and the
/// king.
proof fn lemma_checker_not_behind(board: Board, ca: int, cb: int)
    requires
        board.wf(),
        bit(board.spec_checkers(), ca),
        bit(board.spec_checkers(), cb),
    ensures
        !between(ca, board.king_square(board.spec_turn()), cb),
{
    let us = board.spec_turn();
    let them = us.spec_other();
    let ksq = board.king_square(us);
    let occ = board.occupied();
    board.lemma_king_on_square(us);
    let pa = lemma_checker_attacks(board, ca);
    let pb = lemma_checker_attacks(board, cb);
    board.lemma_piece_occupies(them, pb, cb);
    board.lemma_piece_occupies(them, pa, ca);
    board.lemma_sides();
    assert(0 <= ca < 64);
    if pa == Piece::P || pa == Piece::N || pa == Piece::K {
        lemma_step_attack_no_between(them, pa, ca, occ, ksq, cb);
    } else {
        assert(bit(occ, cb));
    }
}

/// In double check only the king can move: after a move of any other piece
/// from a square of the side to move (not castling; en passant only onto the
/// en-passant square), some enemy piece still attacks the king.
pub proof fn lemma_double_check_needs_king(board: Board, m: BitMove)
    requires
        board.wf(),
        board.spec_checkers() != 0,
        without_lowest(board.spec_checkers()) != 0,
        !is_castle_flag(m.spec_flag_bits()),
        bit(board.occupied_by(board.spec_turn()), m.spec_src()),
        0 <= m.spec_dst() < 64,
        m.spec_flag_bits() == 5 ==> board.spec_ep_square() != NO_SQ && m.spec_dst() == board.spec_ep_square() as int,
        board.piece_on(m.spec_src()) != Some(Piece::K),
    ensures
        !king_safe_after(board, m),
{
    let us = board.spec_turn();
    let them = us.spec_other();
    let ksq = board.king_square(us);
    let occ = board.occupied();
    let dst = m.spec_dst();
    let checkers = board.spec_checkers();
    crate::bitboard::lemma_empty_bits();
    lemma_lowest(checkers);
    let rest = without_lowest(checkers);
    lemma_lowest(rest);
    let c1 = vstd::std_specs::bits::u64_trailing_zeros(checkers) as int;
    let c2 = vstd::std_specs::bits::u64_trailing_zeros(rest) as int;
    assert(bit(checkers, c1) && bit(checkers, c2) && c1 != c2);
    let cap = captured_square(board, m);
    if m.spec_flag_bits() == 5 {
        board.lemma_ep_square();
        board.lemma_piece_occupies(them, Piece::P, cap);
        board.lemma_sides();
    }
    if king_safe_after(board, m) {
        lemma_safe_move_meets_check(board, m, c1);
        lemma_safe_move_meets_check(board, m, c2);
        lemma_checker_not_behind(board, c1, c2);
        lemma_checker_not_behind(board, c2, c1);
        board.lemma_king_on_square(us);
        if cap == c1 || cap == c2 {
            let (ct, co) = if cap == c1 { (c1, c2) } else { (c2, c1) };
            if m.spec_flag_bits() == 5 {
                let pt = lemma_checker_attacks(board, ct);
                lemma_piece_on_kind(board, them, pt, ct);
                lemma_piece_on_kind(board, them, Piece::P, ct);
                lemma_ep_square_off_line(us, dst, ksq, co);
            }
        } else {
            lemma_same_ray(c1, c2, ksq, dst);
        }
    }
}

/// Out of check, the captures miss no pawn capture and no promotion: every
/// move a pawn may make onto an enemy piece, en passant, or onto the last rank
/// (pushing or capturing) is among the captures generated without the
/// legality test, and with it when no enemy piece attacks the king after it.
pub proof fn lemma_pawn_captures_generated(board: Board, src: int, dst: int, prom: Piece, m: BitMove)
    requires
        board.wf(),
        board.spec_checkers() == 0,
        pawn_can_move(board, src, dst, prom, m),
        bit(board.occupied_by(board.spec_turn().spec_other()), dst) || m.spec_flag_bits() == 5
            || rel_rank(board.spec_turn(), dst) == 7,
    ensures
        generated_moves(board, false, GenTypes::Captures).contains(m),
        king_safe_after(board, m) ==> generated_moves(board, true, GenTypes::Captures).contains(m),
{
    let us_occ = board.occupied_by(board.spec_turn());
    let them_occ = board.occupied_by(board.spec_turn().spec_other());
    lemma_pawn_move_generated(board, GenTypes::Captures, them_occ, src, dst, prom, m);
    lemma_pawn_moves_lift(board, GenTypes::Captures, m);
    if king_safe_after(board, m) {
        lemma_safe_step_kept(board, GenTypes::Captures, m);
    }
}

/// Out of check, the quiet moves miss no pawn push: every move a pawn may
/// make onto an empty square other than en passant (single or double push,
/// or promotion by pushing) is among the quiet moves generated without the
/// legality test, and with it when no enemy piece attacks the king after it.
pub proof fn lemma_pawn_quiets_generated(board: Board, src: int, dst: int, prom: Piece, m: BitMove)
    requires
        board.wf(),
        board.spec_checkers() == 0,
        pawn_can_move(board, src, dst, prom, m),
        !bit(board.occupied_by(board.spec_turn().spec_other()), dst),
        m.spec_flag_bits() != 5,
    ensures
        generated_moves(board, false, GenTypes::Quiets).contains(m),
        king_safe_after(board, m) ==> generated_moves(board, true, GenTypes::Quiets).contains(m),
{
    let us_occ = board.occupied_by(board.spec_turn());
    let them_occ = board.occupied_by(board.spec_turn().spec_other());
    lemma_pawn_move_generated(board, GenTypes::Quiets, !(us_occ | them_occ), src, dst, prom, m);
    lemma_pawn_moves_lift(board, GenTypes::Quiets, m);
    if king_safe_after(board, m) {
        lemma_safe_step_kept(board, GenTypes::Quiets, m);
    }
}

/// Out of check, the quiet checks miss no direct check of a knight, bishop,
/// rook or queen: every quiet move of one onto an empty square from which it
/// attacks the enemy king (the other pieces where they stand) is among the
/// quiet checks generated without the legality test, and with it when no
/// enemy piece attacks our king after it.
pub proof fn lemma_quiet_checks_generated(board: Board, piece: Piece, src: int, dst: int)
    requires
        board.wf(),
        board.spec_checkers() == 0,
        piece != Piece::K,
        piece_can_step(board, piece, src, dst),
        !bit(board.occupied(), dst),
        attacks_from(board.spec_turn(), piece, dst, board.occupied(), board.king_square(board.spec_turn().spec_other())),
    ensures
        generated_moves(board, false, GenTypes::QuietChecks).contains(spec_move(src, dst, MoveFlag::QuietMove)),
        king_safe_after(board, spec_move(src, dst, MoveFlag::QuietMove)) ==>
            generated_moves(board, true, GenTypes::QuietChecks).contains(spec_move(src, dst, MoveFlag::QuietMove)),
{
    reveal(crate::movegen::quiet_check_moves);
    let us = board.spec_turn();
    let them = us.spec_other();
    let occ = board.occupied();
    let us_occ = board.occupied_by(us);
    let them_occ = board.occupied_by(them);
    let eksq = board.king_square(them);
    let m = spec_move(src, dst, MoveFlag::QuietMove);
    board.lemma_king_on_square(them);
    lemma_us_them(board, occ, us_occ, them_occ);
    board.lemma_sides();
    assert(!bit(them_occ, dst));
    let kind = match piece {
        Piece::N => Reach::Knight,
        Piece::B => Reach::Bishop,
        Piece::R => Reach::Rook,
        _ => Reach::Queen,
    };
    match piece {
        Piece::N => {
            crate::attacks::lemma_reach_bb(Reach::Knight, src, 0);
            crate::attacks::lemma_reach_bb(Reach::Knight, eksq, 0);
        },
        _ => {
            crate::attacks::lemma_reach_bb(kind, src, occ);
            crate::attacks::lemma_reach_bb(kind, eksq, occ);
        },
    }
    lemma_reaches_sym(kind, eksq, dst, occ);
    assert(bit(crate::movegen::piece_moves_bb(piece, src, occ), dst));
    assert(bit(crate::movegen::check_squares(piece, eksq, occ), dst));
    lemma_bit_ops(occ, occ);
    let dc = board.spec_blockers(them) & us_occ;
    lemma_bit_ops(board.spec_blockers(them), us_occ);
    let f = crate::movegen::discovery_fn(board, occ);
    let a = per_square(dc, f);
    let pm = crate::movegen::pawn_moves(board, GenTypes::QuietChecks, !occ, occ, them_occ);
    let pr = crate::movegen::checking_promotions_of(board);
    let n = crate::movegen::direct_checks_of(board, Piece::N);
    let b = crate::movegen::direct_checks_of(board, Piece::B);
    let r = crate::movegen::direct_checks_of(board, Piece::R);
    let q = crate::movegen::direct_checks_of(board, Piece::Q);
    let cq = crate::movegen::checking_castles(board, crate::templates::CastleType::QueenSide);
    let ck = crate::movegen::checking_castles(board, crate::templates::CastleType::KingSide);
    assert(crate::movegen::quiet_check_moves(board) == a + pm + pr + n + b + r + q + cq + ck);
    let target = crate::movegen::check_squares(piece, eksq, occ) & !occ;
    lemma_bit_ops(crate::movegen::check_squares(piece, eksq, occ), !occ);
    if bit(dc, src) {
        lemma_piece_on_kind(board, us, piece, src);
        let pmb = crate::movegen::piece_moves_bb(piece, src, occ);
        let bb = pmb & !occ;
        let msk = !reach_bb(Reach::Line(eksq as u8), src, 0) | crate::movegen::check_squares(piece, eksq, occ);
        lemma_bit_ops(pmb, !occ);
        lemma_bit_ops(bb, msk);
        lemma_bit_ops(!reach_bb(Reach::Line(eksq as u8), src, 0), crate::movegen::check_squares(piece, eksq, occ));
        assert(bit(bb & msk, dst));
        assert(move_from_src(src, MoveFlag::QuietMove)(dst)[0] == m);
        lemma_per_square_has(bb & msk, move_from_src(src, MoveFlag::QuietMove), dst, m);
        assert(f(src) == per_square(bb & msk, move_from_src(src, MoveFlag::QuietMove)));
        lemma_per_square_has(dc, f, src, m);
        lemma_contains_add(a, pm, m);
        lemma_contains_add(a + pm, pr, m);
        lemma_contains_add(a + pm + pr, n, m);
        lemma_contains_add(a + pm + pr + n, b, m);
        lemma_contains_add(a + pm + pr + n + b, r, m);
        lemma_contains_add(a + pm + pr + n + b + r, q, m);
    } else {
        let srcs = board.spec_piece_bb(us, piece) & !dc;
        lemma_bit_ops(board.spec_piece_bb(us, piece), !dc);
        lemma_bit_ops(dc, dc);
        assert(bit(srcs, src));
        lemma_piece_fn_has(piece, target, occ, us_occ, them_occ, src, dst, m);
        lemma_per_square_has(srcs, crate::movegen::piece_moves_fn(piece, target, occ, us_occ, them_occ), src, m);
        let d = crate::movegen::direct_checks_of(board, piece);
        assert(d.contains(m));
        if piece == Piece::N {
            lemma_contains_add(a + pm + pr, n, m);
            lemma_contains_add(a + pm + pr + n, b, m);
        } else if piece == Piece::B {
            lemma_contains_add(a + pm + pr + n, b, m);
        }
        if piece == Piece::N || piece == Piece::B || piece == Piece::R {
            lemma_contains_add(a + pm + pr + n + b, r, m);
        }
        lemma_contains_add(a + pm + pr + n + b + r, q, m);
    }
    lemma_contains_add(a + pm + pr + n + b + r + q, cq, m);
    lemma_contains_add(a + pm + pr + n + b + r + q + cq, ck, m);
    if king_safe_after(board, m) {
        lemma_safe_step_kept(board, GenTypes::QuietChecks, m);
    }
}

/// A move found in a part of the quiet checks is among the quiet checks
/// generated without the legality test, and with it when the king is safe
/// after it.
proof fn lemma_quiet_checks_lift(board: Board, m: BitMove)
    requires
        board.wf(),
        board.spec_checkers() == 0,
        ({
            let us = board.spec_turn();
            let them = us.spec_other();
            let occ = board.occupied();
            ||| per_square(board.spec_blockers(them) & board.occupied_by(us), crate::movegen::discovery_fn(board, occ)).contains(m)
            ||| crate::movegen::pawn_moves(board, GenTypes::QuietChecks, !occ, occ, board.occupied_by(them)).contains(m)
            ||| crate::movegen::checking_promotions_of(board).contains(m)
            ||| crate::movegen::checking_castles(board, crate::templates::CastleType::QueenSide).contains(m)
            ||| crate::movegen::checking_castles(board, crate::templates::CastleType::KingSide).contains(m)
        }),
    ensures
        generated_moves(board, false, GenTypes::QuietChecks).contains(m),
        king_safe_after(board, m) ==> generated_moves(board, true, GenTypes::QuietChecks).contains(m),
{
    reveal(crate::movegen::quiet_check_moves);
    let us = board.spec_turn();
    let them = us.spec_other();
    let occ = board.occupied();
    let a = per_square(board.spec_blockers(them) & board.occupied_by(us), crate::movegen::discovery_fn(board, occ));
    let pm = crate::movegen::pawn_moves(board, GenTypes::QuietChecks, !occ, occ, board.occupied_by(them));
    let pr = crate::movegen::checking_promotions_of(board);
    let n = crate::movegen::direct_checks_of(board, Piece::N);
    let b = crate::movegen::direct_checks_of(board, Piece::B);
    let r = crate::movegen::direct_checks_of(board, Piece::R);
    let q = crate::movegen::direct_checks_of(board, Piece::Q);
    let cq = crate::movegen::checking_castles(board, crate::templates::CastleType::QueenSide);
    let ck = crate::movegen::checking_castles(board, crate::templates::CastleType::KingSide);
    assert(crate::movegen::quiet_check_moves(board) == a + pm + pr + n + b + r + q + cq + ck);
    if a.contains(m) || pm.contains(m) || pr.contains(m) {
        if a.contains(m) || pm.contains(m) {
            lemma_contains_add(a, pm, m);
        }
        lemma_contains_add(a + pm, pr, m);
        lemma_contains_add(a + pm + pr, n, m);
        lemma_contains_add(a + pm + pr + n, b, m);
        lemma_contains_add(a + pm + pr + n + b, r, m);
        lemma_contains_add(a + pm + pr + n + b + r, q, m);
        lemma_contains_add(a + pm + pr + n + b + r + q, cq, m);
    } else if cq.contains(m) {
        lemma_contains_add(a + pm + pr + n + b + r + q, cq, m);
    }
    lemma_contains_add(a + pm + pr + n + b + r + q + cq, ck, m);
    if king_safe_after(board, m) {
        lemma_safe_step_kept(board, GenTypes::QuietChecks, m);
    }
}

/// Out of check, the quiet checks miss no promotion by pushing whose new
/// piece attacks the enemy king from its square (the other pieces where they
/// stand).
pub proof fn lemma_checking_promotions_generated(board: Board, src: int, dst: int, prom: Piece)
    requires
        board.wf(),
        board.spec_checkers() == 0,
        pawn_can_move(board, src, dst, prom, spec_move(src, dst, MoveFlag::Promotion { capture: false, prom })),
        dst == src - down_delta(board.spec_turn()),
        rel_rank(board.spec_turn(), dst) == 7,
        attacks_from(board.spec_turn(), prom, dst, board.occupied(), board.king_square(board.spec_turn().spec_other())),
    ensures
        generated_moves(board, false, GenTypes::QuietChecks).contains(spec_move(src, dst, MoveFlag::Promotion { capture: false, prom })),
        king_safe_after(board, spec_move(src, dst, MoveFlag::Promotion { capture: false, prom })) ==>
            generated_moves(board, true, GenTypes::QuietChecks).contains(spec_move(src, dst, MoveFlag::Promotion { capture: false, prom })),
{
    let us = board.spec_turn();
    let them = us.spec_other();
    let occ = board.occupied();
    let eksq = board.king_square(them);
    let m = spec_move(src, dst, MoveFlag::Promotion { capture: false, prom });
    let pawns = board.spec_piece_bb(us, Piece::P);
    let rank_7 = crate::movegen::pawn_ranks(us).1;
    let p7 = pawns & rank_7;
    let down = down_delta(us);
    lemma_pawn_rank(board, us, src);
    lemma_pawn_flags(src, dst, prom);
    BitMove::lemma_encode(src, dst, MoveFlag::Promotion { capture: false, prom });
    BitMove::lemma_encode(src, dst, MoveFlag::Promotion { capture: true, prom });
    BitMove::lemma_encode(src, dst, MoveFlag::Capture { ep_capture: true });
    lemma_rank_masks();
    lemma_bit_ops(pawns, rank_7);
    lemma_bit_ops(occ, occ);
    lemma_shl_bits(p7, 8);
    lemma_shr_bits(p7, 8);
    let bb = shift_up_spec(us, p7) & !occ;
    lemma_bit_ops(shift_up_spec(us, p7), !occ);
    assert(promotion_piece(prom));
    assert(!bit(occ, dst));
    assert(bit(bb, dst));
    match prom {
        Piece::N => crate::attacks::lemma_reach_bb(Reach::Knight, dst, 0),
        Piece::B => crate::attacks::lemma_reach_bb(Reach::Bishop, dst, occ),
        Piece::R => crate::attacks::lemma_reach_bb(Reach::Rook, dst, occ),
        _ => crate::attacks::lemma_reach_bb(Reach::Queen, dst, occ),
    }
    board.lemma_king_on_square(them);
    assert(bit(crate::movegen::piece_moves_bb(prom, dst, occ), eksq));
    let f = crate::movegen::checking_promotions_by_delta(down, eksq, occ);
    let qq = crate::movegen::promotion_if_check(src, dst, Piece::Q, eksq, occ);
    let nn = crate::movegen::promotion_if_check(src, dst, Piece::N, eksq, occ);
    let rr = crate::movegen::promotion_if_check(src, dst, Piece::R, eksq, occ);
    let bbp = crate::movegen::promotion_if_check(src, dst, Piece::B, eksq, occ);
    assert(f(dst) == qq + nn + rr + bbp);
    if prom == Piece::Q {
        assert(qq[0] == m);
        lemma_contains_add(qq, nn, m);
    } else if prom == Piece::N {
        assert(nn[0] == m);
        lemma_contains_add(qq, nn, m);
    }
    if prom == Piece::R {
        assert(rr[0] == m);
    }
    if prom != Piece::B {
        lemma_contains_add(qq + nn, rr, m);
    } else {
        assert(bbp[0] == m);
    }
    lemma_contains_add(qq + nn + rr, bbp, m);
    lemma_per_square_has(bb, f, dst, m);
    lemma_quiet_checks_lift(board, m);
}

/// Out of check, the quiet checks miss no castling whose rook, on its castled
/// square, attacks the enemy king (the other pieces where they stand).
pub proof fn lemma_checking_castles_generated(board: Board, side: crate::templates::CastleType)
    requires
        board.wf(),
        board.spec_checkers() == 0,
        board.occupied() & crate::board::castle_path(board.spec_turn(), side) == 0,
        board.spec_can_castle(board.spec_turn(), side),
        board.piece_on(crate::movegen::castle_rook_from(board.spec_turn(), side)) == Some(Piece::R),
        crate::movegen::castle_path_safe(board, side),
        attacks_from(board.spec_turn(), Piece::R, crate::movegen::castle_rook_to(board.spec_turn(), side), board.occupied(),
            board.king_square(board.spec_turn().spec_other())),
    ensures
        ({
            let us = board.spec_turn();
            let m = spec_move(board.king_square(us), crate::movegen::castle_rook_from(us, side),
                MoveFlag::Castle { king_side: side == crate::templates::CastleType::KingSide });
            &&& generated_moves(board, false, GenTypes::QuietChecks).contains(m)
            &&& generated_moves(board, true, GenTypes::QuietChecks).contains(m)
        }),
{
    reveal(crate::movegen::castling_moves);
    let us = board.spec_turn();
    let m = spec_move(board.king_square(us), crate::movegen::castle_rook_from(us, side),
        MoveFlag::Castle { king_side: side == crate::templates::CastleType::KingSide });
    let r_to = crate::movegen::castle_rook_to(us, side);
    crate::attacks::lemma_reach_bb(Reach::Rook, r_to, board.occupied());
    board.lemma_king_on_square(us.spec_other());
    let cs = crate::movegen::checking_castles(board, side);
    assert(cs[0] == m);
    lemma_quiet_checks_lift(board, m);
    board.lemma_king_on_square(us);
    BitMove::lemma_encode(board.king_square(us), crate::movegen::castle_rook_from(us, side),
        MoveFlag::Castle { king_side: side == crate::templates::CastleType::KingSide });
    lemma_castles_kept(board, GenTypes::QuietChecks, m);
}

/// Out of check, the quiet checks miss no move that uncovers a check: every
/// quiet move of a piece other than a pawn that stands alone between the
/// enemy king and one of our sliders, onto an empty square off the line
/// through it and the king, is among them.
pub proof fn lemma_discovered_checks_generated(board: Board, piece: Piece, src: int, dst: int)
    requires
        board.wf(),
        board.spec_checkers() == 0,
        piece_can_step(board, piece, src, dst),
        bit(board.spec_blockers(board.spec_turn().spec_other()), src),
        !bit(board.occupied(), dst),
        !reaches(Reach::Line(board.king_square(board.spec_turn().spec_other()) as u8), src, 0, dst),
    ensures
        generated_moves(board, false, GenTypes::QuietChecks).contains(spec_move(src, dst, MoveFlag::QuietMove)),
        king_safe_after(board, spec_move(src, dst, MoveFlag::QuietMove)) ==>
            generated_moves(board, true, GenTypes::QuietChecks).contains(spec_move(src, dst, MoveFlag::QuietMove)),
{
    let us = board.spec_turn();
    let them = us.spec_other();
    let occ = board.occupied();
    let us_occ = board.occupied_by(us);
    let eksq = board.king_square(them);
    let m = spec_move(src, dst, MoveFlag::QuietMove);
    board.lemma_piece_occupies(us, piece, src);
    lemma_piece_on_kind(board, us, piece, src);
    match piece {
        Piece::N => crate::attacks::lemma_reach_bb(Reach::Knight, src, 0),
        Piece::B => crate::attacks::lemma_reach_bb(Reach::Bishop, src, occ),
        Piece::R => crate::attacks::lemma_reach_bb(Reach::Rook, src, occ),
        Piece::Q => crate::attacks::lemma_reach_bb(Reach::Queen, src, occ),
        _ => crate::attacks::lemma_reach_bb(Reach::King, src, 0),
    }
    crate::attacks::lemma_reach_bb(Reach::Line(eksq as u8), src, 0);
    let dc = board.spec_blockers(them) & us_occ;
    lemma_bit_ops(board.spec_blockers(them), us_occ);
    let pmb = crate::movegen::piece_moves_bb(piece, src, occ);
    let bb = pmb & !occ;
    let line = reach_bb(Reach::Line(eksq as u8), src, 0);
    let msk = !line | crate::movegen::check_squares(piece, eksq, occ);
    lemma_bit_ops(pmb, !occ);
    lemma_bit_ops(bb, msk);
    lemma_bit_ops(!line, crate::movegen::check_squares(piece, eksq, occ));
    lemma_bit_ops(line, line);
    lemma_bit_ops(occ, occ);
    assert(bit(bb & msk, dst));
    assert(move_from_src(src, MoveFlag::QuietMove)(dst)[0] == m);
    lemma_per_square_has(bb & msk, move_from_src(src, MoveFlag::QuietMove), dst, m);
    let f = crate::movegen::discovery_fn(board, occ);
    assert(f(src) == per_square(bb & msk, move_from_src(src, MoveFlag::QuietMove)));
    lemma_per_square_has(dc, f, src, m);
    lemma_quiet_checks_lift(board, m);
}

/// Out of check, the quiet checks miss no checking pawn push: every single
/// (not promoting) or double push onto an empty square from which the pawn
/// attacks the enemy king, or of a pawn standing alone between the enemy king
/// and one of our sliders onto a file other than the king's, is among them.
#[verifier::spinoff_prover]
#[verifier::rlimit(40)]
pub proof fn lemma_checking_pawn_pushes_generated(board: Board, src: int, dst: int, m: BitMove)
    requires
        board.wf(),
        board.spec_checkers() == 0,
        pawn_can_move(board, src, dst, Piece::Q, m),
        m == spec_move(src, dst, MoveFlag::QuietMove) || m == spec_move(src, dst, MoveFlag::DoublePawnPush),
        attacks_from(board.spec_turn(), Piece::P, dst, board.occupied(), board.king_square(board.spec_turn().spec_other()))
            || (bit(board.spec_blockers(board.spec_turn().spec_other()), src)
                && file_of(dst) != file_of(board.king_square(board.spec_turn().spec_other()))),
    ensures
        generated_moves(board, false, GenTypes::QuietChecks).contains(m),
        king_safe_after(board, m) ==> generated_moves(board, true, GenTypes::QuietChecks).contains(m),
{
    let us = board.spec_turn();
    let them = us.spec_other();
    let occ = board.occupied();
    let us_occ = board.occupied_by(us);
    let them_occ = board.occupied_by(them);
    let eksq = board.king_square(them);
    let pawns = board.spec_piece_bb(us, Piece::P);
    let (rank_8, rank_7, rank_3) = crate::movegen::pawn_ranks(us);
    let not7 = pawns & !rank_7;
    let down = down_delta(us);
    let up = -down;
    lemma_pawn_rank(board, us, src);
    lemma_pawn_flags(src, dst, Piece::Q);
    BitMove::lemma_encode(src, dst, MoveFlag::QuietMove);
    BitMove::lemma_encode(src, dst, MoveFlag::DoublePawnPush);
    BitMove::lemma_encode(src, dst, MoveFlag::Capture { ep_capture: false });
    BitMove::lemma_encode(src, dst, MoveFlag::Capture { ep_capture: true });
    BitMove::lemma_encode(src, dst, MoveFlag::Promotion { capture: false, prom: Piece::Q });
    BitMove::lemma_encode(src, dst, MoveFlag::Promotion { capture: true, prom: Piece::Q });
    let single = m == spec_move(src, dst, MoveFlag::QuietMove);
    assert(single ==> dst == src + up && !bit(occ, dst) && rel_rank(us, dst) != 7);
    assert(!single ==> dst == src + 2 * up && rel_rank(us, src) == 1 && !bit(occ, src + up) && !bit(occ, dst));
    lemma_rank_masks();
    lemma_bit_ops(pawns, !rank_7);
    lemma_bit_ops(rank_7, rank_7);
    lemma_bit_ops(occ, occ);
    assert(bit(not7, src));
    board.lemma_king_on_square(them);
    let empty = !occ;
    let one0 = empty & shift_up_spec(us, not7);
    lemma_shl_bits(not7, 8);
    lemma_shr_bits(not7, 8);
    lemma_bit_ops(empty, shift_up_spec(us, not7));
    let two0 = shift_up_spec(us, one0 & rank_3) & empty;
    lemma_bit_ops(one0, rank_3);
    lemma_shl_bits(one0 & rank_3, 8);
    lemma_shr_bits(one0 & rank_3, 8);
    lemma_bit_ops(shift_up_spec(us, one0 & rank_3), empty);
    let attacks = reach_bb(Reach::Pawn(them), eksq, 0);
    crate::attacks::lemma_reach_bb(Reach::Pawn(them), eksq, 0);
    let one2 = one0 & attacks;
    let two2 = two0 & attacks;
    lemma_bit_ops(one0, attacks);
    lemma_bit_ops(two0, attacks);
    let dc = board.spec_blockers(them) & us_occ;
    board.lemma_piece_occupies(us, Piece::P, src);
    lemma_bit_ops(board.spec_blockers(them), us_occ);
    lemma_bit_ops(not7, dc);
    let fb = crate::movegen::file_bb_spec(eksq);
    lemma_file_bb(eksq);
    lemma_bit_ops(fb, fb);
    let dc1 = shift_up_spec(us, not7 & dc) & empty & !fb;
    lemma_shl_bits(not7 & dc, 8);
    lemma_shr_bits(not7 & dc, 8);
    lemma_bit_ops(shift_up_spec(us, not7 & dc), empty);
    lemma_bit_ops(shift_up_spec(us, not7 & dc) & empty, !fb);
    let dc2 = shift_up_spec(us, rank_3 & dc1) & empty;
    lemma_bit_ops(rank_3, dc1);
    lemma_shl_bits(rank_3 & dc1, 8);
    lemma_shr_bits(rank_3 & dc1, 8);
    lemma_bit_ops(shift_up_spec(us, rank_3 & dc1), empty);
    lemma_bit_ops(one2, dc1);
    lemma_bit_ops(two2, dc2);
    crate::bitboard::lemma_empty_bits();
    let (one, two) = crate::movegen::pawn_pushes(board, GenTypes::QuietChecks, !occ, occ);
    assert(one == one2 || one == one2 | dc1);
    assert(two == two2 || two == two2 | dc2);
    assert(bit(not7 & dc, src) ==> not7 & dc != 0);
    assert(bit(not7 & dc, src) ==> one == one2 | dc1 && two == two2 | dc2);
    lemma_quiet_check_pawn_moves(board);
    let singles = per_square(one, move_by_delta(down, MoveFlag::QuietMove));
    let doubles = per_square(two, move_by_delta(2 * down, MoveFlag::DoublePawnPush));
    if single {
        assert(bit(one, dst));
        assert(move_by_delta(down, MoveFlag::QuietMove)(dst)[0] == m);
        lemma_per_square_has(one, move_by_delta(down, MoveFlag::QuietMove), dst, m);
    } else {
        assert((src + up) % 8 == dst % 8);
        assert(bit(two, dst));
        assert(move_by_delta(2 * down, MoveFlag::DoublePawnPush)(dst)[0] == m);
        lemma_per_square_has(two, move_by_delta(2 * down, MoveFlag::DoublePawnPush), dst, m);
    }
    lemma_contains_add(singles, doubles, m);
    lemma_quiet_checks_lift(board, m);
}

/// Whether `m`'s flag tells the truth about what it takes, as moves of the
/// kind `gen` must: apart from en passant and castling, a move is flagged as
/// a capture (plain or promoting) exactly when an enemy piece stands on its
/// destination; a capture move is one that takes or promotes, en passant
/// included; a quiet move is neither a plain capture nor en passant.
pub open spec fn flag_fits(board: Board, gen: GenTypes, m: BitMove) -> bool {
    let fl = m.spec_flag_bits();
    let enemy = bit(board.occupied_by(board.spec_turn().spec_other()), m.spec_dst());
    &&& (fl != 5 && !is_castle_flag(fl)) ==> ((fl == 4 || fl >= 12) <==> enemy)
    &&& gen == GenTypes::Captures ==> (fl == 4 || fl == 5 || fl >= 8)
    &&& gen == GenTypes::Quiets ==> (fl != 4 && fl != 5)
}

/// `flag_fits` as a predicate on moves.
pub open spec fn flag_fits_pred(board: Board, gen: GenTypes) -> spec_fn(BitMove) -> bool {
    |m: BitMove| flag_fits(board, gen, m)
}

proof fn lemma_fits_pieces(board: Board, gen: GenTypes, piece: Piece)
    requires
        board.sound(),
        gen == GenTypes::NonEvasions || gen == GenTypes::Captures || gen == GenTypes::Quiets,
    ensures
        ({
            let us = board.spec_turn();
            let us_occ = board.occupied_by(us);
            let them_occ = board.occupied_by(us.spec_other());
            let target = crate::movegen::non_evasion_target(gen, us_occ, them_occ);
            all_satisfy(per_square(board.spec_piece_bb(us, piece),
                crate::movegen::piece_moves_fn(piece, target, board.occupied(), us_occ, them_occ)), flag_fits_pred(board, gen))
        }),
{
    let us = board.spec_turn();
    let occ = board.occupied();
    let us_occ = board.occupied_by(us);
    let them_occ = board.occupied_by(us.spec_other());
    let target = crate::movegen::non_evasion_target(gen, us_occ, them_occ);
    let p = flag_fits_pred(board, gen);
    let f = crate::movegen::piece_moves_fn(piece, target, occ, us_occ, them_occ);
    lemma_bit_ops(us_occ, them_occ);
    lemma_bit_ops(us_occ | them_occ, us_occ | them_occ);
    lemma_bit_ops(us_occ, us_occ);
    lemma_bit_ops(them_occ, them_occ);
    assert forall|src: int| #[trigger] bit(board.spec_piece_bb(us, piece), src) implies all_satisfy(f(src), p) by {
        let moves = crate::movegen::piece_moves_bb(piece, src, occ) & !us_occ & target;
        let cap = MoveFlag::Capture { ep_capture: false };
        lemma_bit_ops(crate::movegen::piece_moves_bb(piece, src, occ) & !us_occ, target);
        lemma_bit_ops(moves, them_occ);
        lemma_bit_ops(moves, !them_occ);
        assert forall|d: int| #[trigger] bit(moves & them_occ, d) implies p(spec_move(src, d, cap)) by {
            BitMove::lemma_encode(src, d, cap);
        }
        assert forall|d: int| #[trigger] bit(moves & !them_occ, d) implies p(spec_move(src, d, MoveFlag::QuietMove)) by {
            BitMove::lemma_encode(src, d, MoveFlag::QuietMove);
        }
        lemma_src_moves(moves & them_occ, src, cap, p);
        lemma_src_moves(moves & !them_occ, src, MoveFlag::QuietMove, p);
        lemma_all_add(per_square(moves & them_occ, move_from_src(src, cap)),
            per_square(moves & !them_occ, move_from_src(src, MoveFlag::QuietMove)), p);
    }
    lemma_all_per_square(board.spec_piece_bb(us, piece), f, p);
}

#[verifier::spinoff_prover]
#[verifier::rlimit(40)]
proof fn lemma_fits_pawns(board: Board, gen: GenTypes)
    requires
        board.sound(),
        gen == GenTypes::NonEvasions || gen == GenTypes::Captures || gen == GenTypes::Quiets,
    ensures
        ({
            let us = board.spec_turn();
            let us_occ = board.occupied_by(us);
            let them_occ = board.occupied_by(us.spec_other());
            let target = crate::movegen::non_evasion_target(gen, us_occ, them_occ);
            all_satisfy(crate::movegen::pawn_moves(board, gen, target, board.occupied(), them_occ), flag_fits_pred(board, gen))
        }),
{
    reveal(crate::movegen::pawn_moves);
    let us = board.spec_turn();
    let them = us.spec_other();
    let occ = board.occupied();
    let us_occ = board.occupied_by(us);
    let them_occ = board.occupied_by(them);
    let target = crate::movegen::non_evasion_target(gen, us_occ, them_occ);
    let p = flag_fits_pred(board, gen);
    let (rank_8, rank_7, rank_3) = crate::movegen::pawn_ranks(us);
    let pawns = board.spec_piece_bb(us, Piece::P);
    let not7 = pawns & !rank_7;
    let p7 = pawns & rank_7;
    let down = down_delta(us);
    lemma_us_them(board, occ, us_occ, them_occ);
    board.lemma_sides();
    lemma_occupied_sides(board);
    lemma_bit_ops(us_occ, them_occ);
    lemma_bit_ops(us_occ | them_occ, us_occ | them_occ);
    lemma_bit_ops(us_occ, us_occ);
    lemma_bit_ops(them_occ, them_occ);
    lemma_bit_ops(occ, occ);
    // which squares are empty
    let empty = crate::movegen::push_empty(gen, target, occ);
    assert forall|d: int| #[trigger] bit(empty, d) implies !bit(them_occ, d) by {}
    // pushes
    let a = crate::movegen::pawn_push_moves(board, gen, target, occ);
    assert(all_satisfy(a, p)) by {
        if gen != GenTypes::Captures {
            lemma_pawn_pushes_ok(board, gen, target, occ, us_occ, them_occ);
            let (one, two) = crate::movegen::pawn_pushes(board, gen, target, occ);
            assert forall|d: int| #[trigger] bit(one, d) implies p(spec_move(d + down, d, MoveFlag::QuietMove)) by {
                BitMove::lemma_encode(d + down, d, MoveFlag::QuietMove);
            }
            assert forall|d: int| #[trigger] bit(two, d) implies p(spec_move(d + 2 * down, d, MoveFlag::DoublePawnPush)) by {
                BitMove::lemma_encode(d + 2 * down, d, MoveFlag::DoublePawnPush);
            }
            lemma_delta_moves(one, down, MoveFlag::QuietMove, p);
            lemma_delta_moves(two, 2 * down, MoveFlag::DoublePawnPush, p);
            lemma_all_add(per_square(one, move_by_delta(down, MoveFlag::QuietMove)),
                per_square(two, move_by_delta(2 * down, MoveFlag::DoublePawnPush)), p);
        }
    }
    // promotions
    let b = crate::movegen::pawn_promo_moves(board, gen, target, occ, them_occ);
    lemma_shift_up(us, p7);
    lemma_shift_up_sides(us, p7);
    lemma_shift_up_sides(us, not7);
    let enemies = crate::movegen::pawn_enemies(gen, target, them_occ);
    assert forall|d: int| #[trigger] bit(enemies, d) implies bit(them_occ, d) by {}
    assert(all_satisfy(b, p)) by {
        if gen != GenTypes::QuietChecks && p7 != 0 && (gen != GenTypes::Evasions || target & rank_8 != 0) {
            let pe = crate::movegen::promo_empty(gen, target, occ);
            assert forall|d: int| #[trigger] bit(pe, d) implies !bit(them_occ, d) by {}
            let x = shift_up_spec(us, p7) & pe;
            let y = shift_up_left_spec(us, p7) & enemies;
            let z = shift_up_right_spec(us, p7) & enemies;
            lemma_bit_ops(shift_up_spec(us, p7), pe);
            lemma_bit_ops(shift_up_left_spec(us, p7), enemies);
            lemma_bit_ops(shift_up_right_spec(us, p7), enemies);
            assert forall|d: int, prom: Piece| #[trigger] bit(x, d)
                implies p(#[trigger] spec_move(d + down, d, MoveFlag::Promotion { capture: false, prom })) by {
                BitMove::lemma_encode(d + down, d, MoveFlag::Promotion { capture: false, prom });
            }
            assert forall|d: int, prom: Piece| #[trigger] bit(y, d)
                implies p(#[trigger] spec_move(d + down_right_delta(us), d, MoveFlag::Promotion { capture: true, prom })) by {
                BitMove::lemma_encode(d + down_right_delta(us), d, MoveFlag::Promotion { capture: true, prom });
            }
            assert forall|d: int, prom: Piece| #[trigger] bit(z, d)
                implies p(#[trigger] spec_move(d + down_left_delta(us), d, MoveFlag::Promotion { capture: true, prom })) by {
                BitMove::lemma_encode(d + down_left_delta(us), d, MoveFlag::Promotion { capture: true, prom });
            }
            lemma_promotions_pred(x, down, false, p);
            lemma_promotions_pred(y, down_right_delta(us), true, p);
            lemma_promotions_pred(z, down_left_delta(us), true, p);
            let px = per_square(x, promotions_by_delta(down, false));
            let py = per_square(y, promotions_by_delta(down_right_delta(us), true));
            let pz = per_square(z, promotions_by_delta(down_left_delta(us), true));
            lemma_all_add(px, py, p);
            lemma_all_add(px + py, pz, p);
        }
    }
    // captures
    let c = crate::movegen::pawn_capture_moves(board, gen, target, them_occ);
    assert(all_satisfy(c, p)) by {
        if crate::movegen::gen_has_captures(gen) {
            let cap = MoveFlag::Capture { ep_capture: false };
            let capep = MoveFlag::Capture { ep_capture: true };
            let y = shift_up_left_spec(us, not7) & enemies;
            let z = shift_up_right_spec(us, not7) & enemies;
            lemma_bit_ops(shift_up_left_spec(us, not7), enemies);
            lemma_bit_ops(shift_up_right_spec(us, not7), enemies);
            assert forall|d: int| #[trigger] bit(y, d) implies p(spec_move(d + down_right_delta(us), d, cap)) by {
                BitMove::lemma_encode(d + down_right_delta(us), d, cap);
            }
            assert forall|d: int| #[trigger] bit(z, d) implies p(spec_move(d + down_left_delta(us), d, cap)) by {
                BitMove::lemma_encode(d + down_left_delta(us), d, cap);
            }
            lemma_delta_moves(y, down_right_delta(us), cap, p);
            lemma_delta_moves(z, down_left_delta(us), cap, p);
            let e = crate::movegen::ep_capture_moves(board, gen, target);
            assert(all_satisfy(e, p)) by {
                let ep = board.spec_ep_square() as int;
                if ep != NO_SQ {
                    board.lemma_ep_square();
                    let from = not7 & reach_bb(Reach::Pawn(them), ep, 0);
                    let g = move_to_dst(ep, capep);
                    assert forall|sq: int| #[trigger] bit(from, sq) implies all_satisfy(g(sq), p) by {
                        BitMove::lemma_encode(sq, ep, capep);
                        assert(g(sq)[0] == spec_move(sq, ep, capep));
                    }
                    lemma_all_per_square(from, g, p);
                }
            }
            let py = per_square(y, move_by_delta(down_right_delta(us), cap));
            let pz = per_square(z, move_by_delta(down_left_delta(us), cap));
            lemma_all_add(py, pz, p);
            lemma_all_add(py + pz, e, p);
        }
    }
    lemma_all_add(a, b, p);
    lemma_all_add(a + b, c, p);
}

/// Out of check, every move generated as a non-evasion, a capture or a quiet
/// move is flagged truthfully: a capture flag exactly when it lands on an
/// enemy piece (en passant and castling aside); the captures hold only
/// captures, en passant and promotions; the quiet moves hold neither plain
/// captures nor en passant.
pub proof fn lemma_generated_flags_fit(board: Board, legal: bool, gen: GenTypes)
    requires
        board.wf(),
        board.spec_checkers() == 0,
        gen == GenTypes::All || gen == GenTypes::NonEvasions || gen == GenTypes::Captures || gen == GenTypes::Quiets,
    ensures
        forall|i: int| 0 <= i < generated_moves(board, legal, gen).len() ==>
            #[trigger] flag_fits(board, gen, generated_moves(board, legal, gen)[i]),
{
    reveal(crate::movegen::all_moves);
    reveal(crate::movegen::officer_moves);
    let g = if gen == GenTypes::All { GenTypes::NonEvasions } else { gen };
    let us = board.spec_turn();
    let occ = board.occupied();
    let us_occ = board.occupied_by(us);
    let them_occ = board.occupied_by(us.spec_other());
    let target = crate::movegen::non_evasion_target(g, us_occ, them_occ);
    let p = flag_fits_pred(board, gen);
    let pg = flag_fits_pred(board, g);
    lemma_fits_pawns(board, g);
    lemma_fits_pieces(board, g, Piece::N);
    lemma_fits_pieces(board, g, Piece::B);
    lemma_fits_pieces(board, g, Piece::R);
    lemma_fits_pieces(board, g, Piece::Q);
    lemma_fits_pieces(board, g, Piece::K);
    let pm = crate::movegen::pawn_moves(board, g, target, occ, them_occ);
    let n = per_square(board.spec_piece_bb(us, Piece::N), crate::movegen::piece_moves_fn(Piece::N, target, occ, us_occ, them_occ));
    let b = per_square(board.spec_piece_bb(us, Piece::B), crate::movegen::piece_moves_fn(Piece::B, target, occ, us_occ, them_occ));
    let r = per_square(board.spec_piece_bb(us, Piece::R), crate::movegen::piece_moves_fn(Piece::R, target, occ, us_occ, them_occ));
    let q = per_square(board.spec_piece_bb(us, Piece::Q), crate::movegen::piece_moves_fn(Piece::Q, target, occ, us_occ, them_occ));
    let k = per_square(board.spec_piece_bb(us, Piece::K), crate::movegen::piece_moves_fn(Piece::K, target, occ, us_occ, them_occ));
    let c: Seq<BitMove> = if g != GenTypes::Captures {
        crate::movegen::castling_moves(board, crate::templates::CastleType::QueenSide)
            + crate::movegen::castling_moves(board, crate::templates::CastleType::KingSide)
    } else {
        Seq::empty()
    };
    assert(all_satisfy(c, pg)) by {
        reveal(crate::movegen::castling_moves);
        board.lemma_king_on_square(us);
        BitMove::lemma_encode(board.king_square(us), crate::movegen::castle_rook_from(us, crate::templates::CastleType::QueenSide),
            MoveFlag::Castle { king_side: false });
        BitMove::lemma_encode(board.king_square(us), crate::movegen::castle_rook_from(us, crate::templates::CastleType::KingSide),
            MoveFlag::Castle { king_side: true });
        let cq = crate::movegen::castling_moves(board, crate::templates::CastleType::QueenSide);
        let ck = crate::movegen::castling_moves(board, crate::templates::CastleType::KingSide);
        if g != GenTypes::Captures {
            lemma_all_add(cq, ck, pg);
        }
    }
    lemma_all_add(n, b, pg);
    lemma_all_add(n + b, r, pg);
    lemma_all_add(n + b + r, q, pg);
    assert(crate::movegen::officer_moves(board, target, occ, us_occ, them_occ) == n + b + r + q);
    lemma_all_add(pm, n + b + r + q, pg);
    lemma_all_add(pm + (n + b + r + q), k, pg);
    lemma_all_add(pm + (n + b + r + q) + k, c, pg);
    let ms = crate::movegen::non_evasion_moves(board, g);
    assert(ms == pm + (n + b + r + q) + k + c);
    assert(all_satisfy(ms, p)) by {
        assert forall|i: int| 0 <= i < ms.len() implies #[trigger] p(ms[i]) by {
            assert(pg(ms[i]));
        }
    }
    assert(pseudo_legal_moves(board, gen) == ms);
    lemma_all_keep(legal, board, ms, p);
    let gm = generated_moves(board, legal, gen);
    assert forall|i: int| 0 <= i < gm.len() implies #[trigger] flag_fits(board, gen, gm[i]) by {
        assert(p(gm[i]));
    }
}

} // verus!
