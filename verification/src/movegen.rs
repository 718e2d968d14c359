//! Generating moves from a [Board]: legal or pseudo-legal moves of the kinds
//! that [GenTypes] names.
//!
//! Generating all moves is allowed in any position. Captures, quiets, quiet
//! checks and non-evasions may only be generated when the side to move is not in
//! check; evasions only when it is.
//!
//! A legal move is a move the side to move may play. A pseudo-legal move may
//! still leave its own king attacked; legal generation keeps exactly the
//! pseudo-legal moves that [Board::legal_move] accepts.

use vstd::prelude::*;
use vstd::std_specs::bits::u64_trailing_zeros;
use crate::attacks::{Reach, reach_bb, line_bb, knight_moves, king_moves, bishop_moves, rook_moves, queen_moves};
use crate::bitboard::{
    BitBoard, SQ, NO_SQ, sq_bb, sq_to_bb, bit, without_lowest, pop_lsb, lemma_lowest, lemma_bit_ops, lemma_shl_bits,
    lemma_shr_bits, FILE_A, FILE_H,
};
use crate::board::{Board, castle_path, relative_sq, relative_square, RANK_1, RANK_2, RANK_3, RANK_6, RANK_7, RANK_8};
use crate::piece_move::{BitMove, MoveFlag, PreMoveInfo, spec_move};
use crate::templates::{Player, Piece, GenTypes, CastleType};

verus! {

/// Whether the moves generated are legal or only pseudo-legal.
pub trait Legality {
    /// Whether legal moves are generated.
    spec fn spec_gen_legal() -> bool;

    /// Returns whether legal moves are generated.
    fn gen_legal() -> (r: bool)
        ensures
            r == Self::spec_gen_legal(),
    ;
}

/// Generation of legal moves.
pub struct Legal {}

/// Generation of pseudo-legal moves.
pub struct PseudoLegal {}

impl Legality for Legal {
    open spec fn spec_gen_legal() -> bool {
        true
    }

    fn gen_legal() -> (r: bool) {
        true
    }
}

impl Legality for PseudoLegal {
    open spec fn spec_gen_legal() -> bool {
        false
    }

    fn gen_legal() -> (r: bool) {
        false
    }
}

/// Legality on `board` as a predicate on moves.
pub open spec fn legal_pred(board: Board) -> spec_fn(BitMove) -> bool {
    |m: BitMove| board.is_legal(m)
}

/// The moves of `ms` that generation keeps: those `board` finds legal when
/// generating legal moves, all of them otherwise.
pub open spec fn keep(legal: bool, board: Board, ms: Seq<BitMove>) -> Seq<BitMove> {
    if legal {
        ms.filter(legal_pred(board))
    } else {
        ms
    }
}

/// Keeping moves of a concatenation keeps them of each part.
pub proof fn lemma_keep_add(legal: bool, board: Board, a: Seq<BitMove>, b: Seq<BitMove>)
    ensures
        keep(legal, board, a + b) == keep(legal, board, a) + keep(legal, board, b),
{
    if legal {
        Seq::filter_distributes_over_add(a, b, legal_pred(board));
    }
}

/// The moves `f(s)` for each square `s` of `bb`, from the lowest square up.
pub open spec fn per_square(bb: u64, f: spec_fn(int) -> Seq<BitMove>) -> Seq<BitMove>
    decreases bb,
{
    if bb == 0 {
        Seq::empty()
    } else {
        proof {
            crate::bitboard::lemma_without_lowest_smaller(bb);
        }
        f(u64_trailing_zeros(bb) as int) + per_square(without_lowest(bb), f)
    }
}

/// For a destination square, the single move from `src` to it with `flag`.
pub open spec fn move_from_src(src: int, flag: MoveFlag) -> spec_fn(int) -> Seq<BitMove> {
    |d: int| seq![spec_move(src, d, flag)]
}

/// For a destination square `d`, the single move from `d + delta` to it with `flag`.
pub open spec fn move_by_delta(delta: int, flag: MoveFlag) -> spec_fn(int) -> Seq<BitMove> {
    |d: int| seq![spec_move(d + delta, d, flag)]
}

/// The squares that a piece of kind `piece` (not a pawn) on `sq` attacks when the
/// squares of `occ` are occupied.
pub open spec fn piece_moves_bb(piece: Piece, sq: int, occ: u64) -> u64 {
    match piece {
        Piece::N => reach_bb(Reach::Knight, sq, 0),
        Piece::B => reach_bb(Reach::Bishop, sq, occ),
        Piece::R => reach_bb(Reach::Rook, sq, occ),
        Piece::Q => reach_bb(Reach::Queen, sq, occ),
        _ => reach_bb(Reach::King, sq, 0),
    }
}

/// Structure to generate moves from: the moves found so far, the board, and
/// the squares occupied by all, by the side to move and by its opponent.
pub struct MoveGen<'a> {
    movelist: Vec<BitMove>,
    board: &'a Board,
    occ: BitBoard,
    us_occ: BitBoard,
    them_occ: BitBoard,
}

impl<'a> MoveGen<'a> {
    /// The generator's invariant: a sound board and the occupancies it gives.
    spec fn wf(&self) -> bool {
        &&& self.board.wf()
        &&& self.occ == self.board.occupied()
        &&& self.us_occ == self.board.occupied_by(self.board.spec_turn())
        &&& self.them_occ == self.board.occupied_by(self.board.spec_turn().spec_other())
    }

    /// Whether `other` has the same board and occupancies.
    spec fn same_frame(&self, other: &Self) -> bool {
        &&& self.board == other.board
        &&& self.occ == other.occ
        &&& self.us_occ == other.us_occ
        &&& self.them_occ == other.them_occ
    }

    /// Sets up a generator for `chessboard` with no moves yet.
    fn get_self(chessboard: &'a Board) -> (mg: Self)
        requires
            chessboard.wf(),
        ensures
            mg.wf(),
            mg.board == chessboard,
            mg.movelist@ == Seq::<BitMove>::empty(),
    {
        MoveGen {
            movelist: Vec::new(),
            board: chessboard,
            occ: chessboard.get_occupied(),
            us_occ: chessboard.get_occupied_player(chessboard.turn()),
            them_occ: chessboard.get_occupied_player(chessboard.turn().other_player()),
        }
    }

    /// Adds the move to the list, when generating pseudo-legal moves or when
    /// it is legal.
    fn check_and_add<L: Legality>(&mut self, b_move: BitMove)
        requires
            old(self).wf(),
        ensures
            final(self).wf(),
            final(self).same_frame(old(self)),
            final(self).movelist@ == old(self).movelist@ + keep(L::spec_gen_legal(), *old(self).board, seq![b_move]),
    {
        proof {
            reveal_with_fuel(Seq::filter, 2);
        }
        if L::gen_legal() {
            if self.board.legal_move(b_move) {
                self.movelist.push(b_move);
            }
            assert(seq![b_move].drop_last() =~= Seq::<BitMove>::empty());
        } else {
            self.movelist.push(b_move);
        }
    }

    /// Adds the moves from `src` with `move_flag` to each square of `bits`,
    /// lowest first, emptying `bits`.
    fn move_append_from_bb<L: Legality>(&mut self, bits: &mut BitBoard, src: SQ, move_flag: MoveFlag)
        requires
            old(self).wf(),
            src < 64,
        ensures
            final(self).wf(),
            final(self).same_frame(old(self)),
            *final(bits) == 0,
            final(self).movelist@ == old(self).movelist@
                + keep(L::spec_gen_legal(), *old(self).board, per_square(*old(bits), move_from_src(src as int, move_flag))),
    {
        let ghost legal = L::spec_gen_legal();
        let ghost board = *old(self).board;
        let ghost f = move_from_src(src as int, move_flag);
        while *bits != 0
            invariant
                self.wf(),
                self.same_frame(old(self)),
                board == *self.board,
                src < 64,
                f == move_from_src(src as int, move_flag),
                legal == L::spec_gen_legal(),
                self.movelist@ + keep(legal, board, per_square(*bits, f))
                    == old(self).movelist@ + keep(legal, board, per_square(*old(bits), f)),
            decreases *bits,
        {
            let ghost before = *bits;
            proof {
                crate::bitboard::lemma_without_lowest_smaller(*bits);
            }
            let dst = pop_lsb(bits);
            proof {
                lemma_keep_add(legal, board, f(dst as int), per_square(*bits, f));
                assert(per_square(before, f) == f(dst as int) + per_square(*bits, f));
            }
            let b_move = BitMove::init(PreMoveInfo { src: src, dst: dst, flags: move_flag });
            self.check_and_add::<L>(b_move);
            proof {
                assert(b_move == spec_move(src as int, dst as int, move_flag));
                assert(f(dst as int) =~= seq![b_move]);
            }
        }
    }

    /// Returns the squares that a piece of kind `piece` (not a pawn) on
    /// `square` attacks on the current board.
    fn moves_bb(&self, piece: Piece, square: SQ) -> (r: BitBoard)
        requires
            self.wf(),
            square < 64,
            piece != Piece::P,
        ensures
            r == piece_moves_bb(piece, square as int, self.occ),
    {
        match piece {
            Piece::N => knight_moves(square),
            Piece::B => bishop_moves(self.occ, square),
            Piece::R => rook_moves(self.occ, square),
            Piece::Q => queen_moves(self.occ, square),
            _ => king_moves(square),
        }
    }

    /// Adds the captures and then the non-captures of each of the side to move's
    /// pieces of kind `piece` (not a pawn), lowest square first, onto the
    /// squares of `target`.
    fn moves_per_piece<L: Legality>(&mut self, piece: Piece, target: BitBoard)
        requires
            old(self).wf(),
            piece != Piece::P,
        ensures
            final(self).wf(),
            final(self).same_frame(old(self)),
            final(self).movelist@ == old(self).movelist@ + keep(L::spec_gen_legal(), *old(self).board,
                per_square(old(self).board.spec_piece_bb(old(self).board.spec_turn(), piece),
                    piece_moves_fn(piece, target, old(self).occ, old(self).us_occ, old(self).them_occ))),
    {
        let sources = self.board.piece_bb(self.board.turn(), piece);
        self.moves_from::<L>(piece, sources, target);
    }

    /// Adds the captures and then the non-captures, onto the squares of
    /// `target`, of a piece of kind `piece` (not a pawn) standing on each
    /// square of `sources`, lowest square first.
    fn moves_from<L: Legality>(&mut self, piece: Piece, sources: BitBoard, target: BitBoard)
        requires
            old(self).wf(),
            piece != Piece::P,
        ensures
            final(self).wf(),
            final(self).same_frame(old(self)),
            final(self).movelist@ == old(self).movelist@ + keep(L::spec_gen_legal(), *old(self).board,
                per_square(sources, piece_moves_fn(piece, target, old(self).occ, old(self).us_occ, old(self).them_occ))),
    {
        let ghost legal = L::spec_gen_legal();
        let ghost board = *old(self).board;
        let ghost f = piece_moves_fn(piece, target, self.occ, self.us_occ, self.them_occ);
        let ghost start = sources;
        let mut piece_bb: BitBoard = sources;
        while piece_bb != 0
            invariant
                self.wf(),
                self.same_frame(old(self)),
                board == *self.board,
                piece != Piece::P,
                f == piece_moves_fn(piece, target, self.occ, self.us_occ, self.them_occ),
                legal == L::spec_gen_legal(),
                self.movelist@ + keep(legal, board, per_square(piece_bb, f))
                    == old(self).movelist@ + keep(legal, board, per_square(start, f)),
            decreases piece_bb,
        {
            let ghost before = piece_bb;
            proof {
                crate::bitboard::lemma_without_lowest_smaller(piece_bb);
            }
            let src = pop_lsb(&mut piece_bb);
            let moves_bb: BitBoard = self.moves_bb(piece, src) & !self.us_occ & target;
            let mut captures_bb: BitBoard = moves_bb & self.them_occ;
            let mut non_captures_bb: BitBoard = moves_bb & !self.them_occ;
            let ghost caps = per_square(captures_bb, move_from_src(src as int, MoveFlag::Capture { ep_capture: false }));
            let ghost quiets = per_square(non_captures_bb, move_from_src(src as int, MoveFlag::QuietMove));
            self.move_append_from_bb::<L>(&mut captures_bb, src, MoveFlag::Capture { ep_capture: false });
            self.move_append_from_bb::<L>(&mut non_captures_bb, src, MoveFlag::QuietMove);
            proof {
                assert(f(src as int) == caps + quiets);
                lemma_keep_add(legal, board, caps, quiets);
                lemma_keep_add(legal, board, f(src as int), per_square(piece_bb, f));
                assert(per_square(before, f) == f(src as int) + per_square(piece_bb, f));
            }
        }
    }

    /// Adds the king's moves onto the squares of `target`.
    fn generate_king_moves<L: Legality>(&mut self, target: BitBoard)
        requires
            old(self).wf(),
        ensures
            final(self).wf(),
            final(self).same_frame(old(self)),
            final(self).movelist@ == old(self).movelist@ + keep(L::spec_gen_legal(), *old(self).board,
                per_square(old(self).board.spec_piece_bb(old(self).board.spec_turn(), Piece::K),
                    piece_moves_fn(Piece::K, target, old(self).occ, old(self).us_occ, old(self).them_occ))),
    {
        self.moves_per_piece::<L>(Piece::K, target);
    }

    /// Adds the moves of the knights, bishops, rooks and queens onto the squares
    /// of `target`.
    fn gen_non_pawn_king<L: Legality>(&mut self, target: BitBoard)
        requires
            old(self).wf(),
        ensures
            final(self).wf(),
            final(self).same_frame(old(self)),
            final(self).movelist@ == old(self).movelist@ + keep(L::spec_gen_legal(), *old(self).board,
                officer_moves(*old(self).board, target, old(self).occ, old(self).us_occ, old(self).them_occ)),
    {
        let ghost board = *old(self).board;
        let ghost legal = L::spec_gen_legal();
        let ghost (occ, us, them) = (self.occ, self.us_occ, self.them_occ);
        self.moves_per_piece::<L>(Piece::N, target);
        self.moves_per_piece::<L>(Piece::B, target);
        self.moves_per_piece::<L>(Piece::R, target);
        self.moves_per_piece::<L>(Piece::Q, target);
        proof {
            let turn = board.spec_turn();
            let n = per_square(board.spec_piece_bb(turn, Piece::N), piece_moves_fn(Piece::N, target, occ, us, them));
            let b = per_square(board.spec_piece_bb(turn, Piece::B), piece_moves_fn(Piece::B, target, occ, us, them));
            let r = per_square(board.spec_piece_bb(turn, Piece::R), piece_moves_fn(Piece::R, target, occ, us, them));
            let q = per_square(board.spec_piece_bb(turn, Piece::Q), piece_moves_fn(Piece::Q, target, occ, us, them));
            lemma_keep_add(legal, board, n, b);
            lemma_keep_add(legal, board, n + b, r);
            lemma_keep_add(legal, board, n + b + r, q);
            reveal(officer_moves);
            assert(officer_moves(board, target, occ, us, them) == n + b + r + q);
        }
    }
}

/// For a source square of a non-pawn piece, its captures then its non-captures
/// onto the squares of `target`.
pub open spec fn piece_moves_fn(piece: Piece, target: u64, occ: u64, us_occ: u64, them_occ: u64) -> spec_fn(int) -> Seq<BitMove> {
    |src: int| {
        let moves = piece_moves_bb(piece, src, occ) & !us_occ & target;
        per_square(moves & them_occ, move_from_src(src, MoveFlag::Capture { ep_capture: false }))
            + per_square(moves & !them_occ, move_from_src(src, MoveFlag::QuietMove))
    }
}

/// The moves of the side to move's knights, bishops, rooks and queens onto the
/// squares of `target`.
#[verifier::opaque]
pub open spec fn officer_moves(board: Board, target: u64, occ: u64, us_occ: u64, them_occ: u64) -> Seq<BitMove> {
    let turn = board.spec_turn();
    per_square(board.spec_piece_bb(turn, Piece::N), piece_moves_fn(Piece::N, target, occ, us_occ, them_occ))
        + per_square(board.spec_piece_bb(turn, Piece::B), piece_moves_fn(Piece::B, target, occ, us_occ, them_occ))
        + per_square(board.spec_piece_bb(turn, Piece::R), piece_moves_fn(Piece::R, target, occ, us_occ, them_occ))
        + per_square(board.spec_piece_bb(turn, Piece::Q), piece_moves_fn(Piece::Q, target, occ, us_occ, them_occ))
}


/// A bitboard moved one rank forward from `player`'s side.
pub open spec fn shift_up_spec(player: Player, bb: u64) -> u64 {
    match player {
        Player::White => bb << 8u64,
        Player::Black => bb >> 8u64,
    }
}

/// A bitboard moved one rank forward and one file to `player`'s left, dropping
/// what would leave the board.
pub open spec fn shift_up_left_spec(player: Player, bb: u64) -> u64 {
    match player {
        Player::White => (bb & !FILE_A) << 7u64,
        Player::Black => (bb & !FILE_H) >> 7u64,
    }
}

/// A bitboard moved one rank forward and one file to `player`'s right, dropping
/// what would leave the board.
pub open spec fn shift_up_right_spec(player: Player, bb: u64) -> u64 {
    match player {
        Player::White => (bb & !FILE_H) << 9u64,
        Player::Black => (bb & !FILE_A) >> 9u64,
    }
}

/// The step from a square to the one behind it, from `player`'s side.
pub open spec fn down_delta(player: Player) -> int {
    match player {
        Player::White => -8,
        Player::Black => 8,
    }
}

/// The step from a square to the one behind it and to `player`'s right.
pub open spec fn down_right_delta(player: Player) -> int {
    match player {
        Player::White => -7,
        Player::Black => 7,
    }
}

/// The step from a square to the one behind it and to `player`'s left.
pub open spec fn down_left_delta(player: Player) -> int {
    match player {
        Player::White => -9,
        Player::Black => 9,
    }
}

fn shift_up(player: Player, bb: BitBoard) -> (r: BitBoard)
    ensures
        r == shift_up_spec(player, bb),
        forall|d: int| #[trigger] bit(r, d) ==> 0 <= d + down_delta(player) < 64 && bit(bb, d + down_delta(player)),
{
    proof {
        lemma_shl_bits(bb, 8);
        lemma_shr_bits(bb, 8);
    }
    match player {
        Player::White => bb << 8u64,
        Player::Black => bb >> 8u64,
    }
}

fn shift_up_left(player: Player, bb: BitBoard) -> (r: BitBoard)
    ensures
        r == shift_up_left_spec(player, bb),
        forall|d: int| #[trigger] bit(r, d) ==> 0 <= d + down_right_delta(player) < 64,
{
    proof {
        lemma_shl_bits(bb & !FILE_A, 7);
        lemma_shr_bits(bb & !FILE_H, 7);
    }
    match player {
        Player::White => (bb & !FILE_A) << 7u64,
        Player::Black => (bb & !FILE_H) >> 7u64,
    }
}

fn shift_up_right(player: Player, bb: BitBoard) -> (r: BitBoard)
    ensures
        r == shift_up_right_spec(player, bb),
        forall|d: int| #[trigger] bit(r, d) ==> 0 <= d + down_left_delta(player) < 64,
{
    proof {
        lemma_shl_bits(bb & !FILE_H, 9);
        lemma_shr_bits(bb & !FILE_A, 9);
    }
    match player {
        Player::White => (bb & !FILE_H) << 9u64,
        Player::Black => (bb & !FILE_A) >> 9u64,
    }
}

/// For a source square `s`, the single move from it to `dst` with `flag`.
pub open spec fn move_to_dst(dst: int, flag: MoveFlag) -> spec_fn(int) -> Seq<BitMove> {
    |s: int| seq![spec_move(s, dst, flag)]
}

/// The four promotions from `src` to `dst` (to a queen, a knight, a rook, a bishop).
pub open spec fn promotions(src: int, dst: int, capture: bool) -> Seq<BitMove> {
    seq![
        spec_move(src, dst, MoveFlag::Promotion { capture, prom: Piece::Q }),
        spec_move(src, dst, MoveFlag::Promotion { capture, prom: Piece::N }),
        spec_move(src, dst, MoveFlag::Promotion { capture, prom: Piece::R }),
        spec_move(src, dst, MoveFlag::Promotion { capture, prom: Piece::B }),
    ]
}

/// For a destination square `d`, the promotions from `d + delta` to it.
pub open spec fn promotions_by_delta(delta: int, capture: bool) -> spec_fn(int) -> Seq<BitMove> {
    |d: int| promotions(d + delta, d, capture)
}

impl<'a> MoveGen<'a> {
    /// Adds, for each square `d` of `bits` (lowest first), the move from
    /// `d + delta` to `d` with `flag`.
    fn append_by_delta<L: Legality>(&mut self, bits: BitBoard, delta: i8, flag: MoveFlag)
        requires
            old(self).wf(),
            forall|d: int| #[trigger] bit(bits, d) ==> 0 <= d + delta < 64,
        ensures
            final(self).wf(),
            final(self).same_frame(old(self)),
            final(self).movelist@ == old(self).movelist@
                + keep(L::spec_gen_legal(), *old(self).board, per_square(bits, move_by_delta(delta as int, flag))),
    {
        let ghost legal = L::spec_gen_legal();
        let ghost board = *old(self).board;
        let ghost f = move_by_delta(delta as int, flag);
        let mut rest = bits;
        while rest != 0
            invariant
                self.wf(),
                self.same_frame(old(self)),
                board == *self.board,
                f == move_by_delta(delta as int, flag),
                legal == L::spec_gen_legal(),
                forall|d: int| #[trigger] bit(rest, d) ==> 0 <= d + delta < 64,
                self.movelist@ + keep(legal, board, per_square(rest, f))
                    == old(self).movelist@ + keep(legal, board, per_square(bits, f)),
            decreases rest,
        {
            let ghost before = rest;
            proof {
                crate::bitboard::lemma_without_lowest_smaller(rest);
            }
            let dst = pop_lsb(&mut rest);
            let src = (dst as i16 + delta as i16) as u8;
            proof {
                lemma_keep_add(legal, board, f(dst as int), per_square(rest, f));
                assert(per_square(before, f) == f(dst as int) + per_square(rest, f));
            }
            let b_move = BitMove::init(PreMoveInfo { src: src, dst: dst, flags: flag });
            self.check_and_add::<L>(b_move);
            proof {
                assert(f(dst as int) =~= seq![b_move]);
            }
        }
    }

    /// Adds, for each square `s` of `bits` (lowest first), the move from `s` to
    /// `dst` with `flag`.
    fn append_to_dst<L: Legality>(&mut self, bits: BitBoard, dst: SQ, flag: MoveFlag)
        requires
            old(self).wf(),
            dst < 64,
        ensures
            final(self).wf(),
            final(self).same_frame(old(self)),
            final(self).movelist@ == old(self).movelist@
                + keep(L::spec_gen_legal(), *old(self).board, per_square(bits, move_to_dst(dst as int, flag))),
    {
        let ghost legal = L::spec_gen_legal();
        let ghost board = *old(self).board;
        let ghost f = move_to_dst(dst as int, flag);
        let mut rest = bits;
        while rest != 0
            invariant
                self.wf(),
                self.same_frame(old(self)),
                board == *self.board,
                dst < 64,
                f == move_to_dst(dst as int, flag),
                legal == L::spec_gen_legal(),
                self.movelist@ + keep(legal, board, per_square(rest, f))
                    == old(self).movelist@ + keep(legal, board, per_square(bits, f)),
            decreases rest,
        {
            let ghost before = rest;
            proof {
                crate::bitboard::lemma_without_lowest_smaller(rest);
            }
            let src = pop_lsb(&mut rest);
            proof {
                lemma_keep_add(legal, board, f(src as int), per_square(rest, f));
                assert(per_square(before, f) == f(src as int) + per_square(rest, f));
            }
            let b_move = BitMove::init(PreMoveInfo { src: src, dst: dst, flags: flag });
            self.check_and_add::<L>(b_move);
            proof {
                assert(f(src as int) =~= seq![b_move]);
            }
        }
    }

    /// Adds the four promotions from `src` to `dst`: to a queen, a knight, a
    /// rook and a bishop.
    fn create_all_promotions<L: Legality>(&mut self, dst: SQ, src: SQ, is_capture: bool)
        requires
            old(self).wf(),
            dst < 64,
            src < 64,
        ensures
            final(self).wf(),
            final(self).same_frame(old(self)),
            final(self).movelist@ == old(self).movelist@
                + keep(L::spec_gen_legal(), *old(self).board, promotions(src as int, dst as int, is_capture)),
    {
        let ghost legal = L::spec_gen_legal();
        let ghost board = *old(self).board;
        let prom_pieces: [Piece; 4] = [Piece::Q, Piece::N, Piece::R, Piece::B];
        let ghost all = promotions(src as int, dst as int, is_capture);
        let mut i: usize = 0;
        while i < 4
            invariant
                i <= 4,
                self.wf(),
                self.same_frame(old(self)),
                board == *self.board,
                legal == L::spec_gen_legal(),
                dst < 64,
                src < 64,
                prom_pieces@ == seq![Piece::Q, Piece::N, Piece::R, Piece::B],
                all == promotions(src as int, dst as int, is_capture),
                self.movelist@ == old(self).movelist@ + keep(legal, board, all.take(i as int)),
            decreases 4 - i,
        {
            let piece = prom_pieces[i];
            let b_move = BitMove::init(PreMoveInfo {
                src: src,
                dst: dst,
                flags: MoveFlag::Promotion { capture: is_capture, prom: piece },
            });
            self.check_and_add::<L>(b_move);
            proof {
                assert(all.take(i as int + 1) =~= all.take(i as int) + seq![b_move]);
                lemma_keep_add(legal, board, all.take(i as int), seq![b_move]);
            }
            i = i + 1;
        }
        proof {
            assert(all.take(4) =~= all);
        }
    }

    /// Adds, for each square `d` of `bits` (lowest first), the four promotions
    /// from `d + delta` to `d`.
    fn append_promotions<L: Legality>(&mut self, bits: BitBoard, delta: i8, capture: bool)
        requires
            old(self).wf(),
            forall|d: int| #[trigger] bit(bits, d) ==> 0 <= d + delta < 64,
        ensures
            final(self).wf(),
            final(self).same_frame(old(self)),
            final(self).movelist@ == old(self).movelist@
                + keep(L::spec_gen_legal(), *old(self).board, per_square(bits, promotions_by_delta(delta as int, capture))),
    {
        let ghost legal = L::spec_gen_legal();
        let ghost board = *old(self).board;
        let ghost f = promotions_by_delta(delta as int, capture);
        let mut rest = bits;
        while rest != 0
            invariant
                self.wf(),
                self.same_frame(old(self)),
                board == *self.board,
                f == promotions_by_delta(delta as int, capture),
                legal == L::spec_gen_legal(),
                forall|d: int| #[trigger] bit(rest, d) ==> 0 <= d + delta < 64,
                self.movelist@ + keep(legal, board, per_square(rest, f))
                    == old(self).movelist@ + keep(legal, board, per_square(bits, f)),
            decreases rest,
        {
            let ghost before = rest;
            proof {
                crate::bitboard::lemma_without_lowest_smaller(rest);
            }
            let dst = pop_lsb(&mut rest);
            let src = (dst as i16 + delta as i16) as u8;
            proof {
                lemma_keep_add(legal, board, f(dst as int), per_square(rest, f));
                assert(per_square(before, f) == f(dst as int) + per_square(rest, f));
            }
            self.create_all_promotions::<L>(dst, src, capture);
        }
    }
}


impl<'a> MoveGen<'a> {
    /// Adds the promotion by pushing from `src` to `dst` to `prom`, when a
    /// `prom` on `dst` would check the king on `eksq`.
    fn add_promotion_if_check<L: Legality>(&mut self, dst: SQ, src: SQ, prom: Piece, eksq: SQ)
        requires
            old(self).wf(),
            dst < 64,
            src < 64,
            eksq < 64,
            prom != Piece::P,
        ensures
            final(self).wf(),
            final(self).same_frame(old(self)),
            final(self).movelist@ == old(self).movelist@ + keep(L::spec_gen_legal(), *old(self).board,
                promotion_if_check(src as int, dst as int, prom, eksq as int, old(self).occ)),
    {
        if (self.moves_bb(prom, dst) >> (eksq as u64)) & 1u64 == 1u64 {
            let b_move = BitMove::init(PreMoveInfo {
                src: src,
                dst: dst,
                flags: MoveFlag::Promotion { capture: false, prom: prom },
            });
            self.check_and_add::<L>(b_move);
        } else {
            proof {
                reveal_with_fuel(Seq::filter, 1);
                assert(self.movelist@ + keep(L::spec_gen_legal(), *self.board, Seq::<BitMove>::empty()) =~= self.movelist@);
            }
        }
    }

    /// Adds the promotions by pushing from `src` to `dst` (to a queen, a
    /// knight, a rook, a bishop) whose new piece checks the king on `eksq`.
    fn create_checking_promotions<L: Legality>(&mut self, dst: SQ, src: SQ, eksq: SQ)
        requires
            old(self).wf(),
            dst < 64,
            src < 64,
            eksq < 64,
        ensures
            final(self).wf(),
            final(self).same_frame(old(self)),
            final(self).movelist@ == old(self).movelist@ + keep(L::spec_gen_legal(), *old(self).board,
                checking_promotions(src as int, dst as int, eksq as int, old(self).occ)),
    {
        let ghost legal = L::spec_gen_legal();
        let ghost board = *self.board;
        let ghost (s, d, e, o) = (src as int, dst as int, eksq as int, self.occ);
        self.add_promotion_if_check::<L>(dst, src, Piece::Q, eksq);
        self.add_promotion_if_check::<L>(dst, src, Piece::N, eksq);
        self.add_promotion_if_check::<L>(dst, src, Piece::R, eksq);
        self.add_promotion_if_check::<L>(dst, src, Piece::B, eksq);
        proof {
            let q = promotion_if_check(s, d, Piece::Q, e, o);
            let n = promotion_if_check(s, d, Piece::N, e, o);
            let r = promotion_if_check(s, d, Piece::R, e, o);
            let b = promotion_if_check(s, d, Piece::B, e, o);
            lemma_keep_add(legal, board, q, n);
            lemma_keep_add(legal, board, q + n, r);
            lemma_keep_add(legal, board, q + n + r, b);
        }
    }

    /// Adds, for each square `d` of `bits` (lowest first), the checking
    /// promotions by pushing from `d + delta` to `d`.
    fn append_checking_promotions<L: Legality>(&mut self, bits: BitBoard, delta: i8, eksq: SQ)
        requires
            old(self).wf(),
            eksq < 64,
            forall|d: int| #[trigger] bit(bits, d) ==> 0 <= d + delta < 64,
        ensures
            final(self).wf(),
            final(self).same_frame(old(self)),
            final(self).movelist@ == old(self).movelist@ + keep(L::spec_gen_legal(), *old(self).board,
                per_square(bits, checking_promotions_by_delta(delta as int, eksq as int, old(self).occ))),
    {
        let ghost legal = L::spec_gen_legal();
        let ghost board = *old(self).board;
        let ghost f = checking_promotions_by_delta(delta as int, eksq as int, self.occ);
        let mut rest = bits;
        while rest != 0
            invariant
                self.wf(),
                self.same_frame(old(self)),
                board == *self.board,
                eksq < 64,
                f == checking_promotions_by_delta(delta as int, eksq as int, self.occ),
                legal == L::spec_gen_legal(),
                forall|d: int| #[trigger] bit(rest, d) ==> 0 <= d + delta < 64,
                self.movelist@ + keep(legal, board, per_square(rest, f))
                    == old(self).movelist@ + keep(legal, board, per_square(bits, f)),
            decreases rest,
        {
            let ghost before = rest;
            proof {
                crate::bitboard::lemma_without_lowest_smaller(rest);
            }
            let dst = pop_lsb(&mut rest);
            let src = (dst as i16 + delta as i16) as u8;
            proof {
                lemma_keep_add(legal, board, f(dst as int), per_square(rest, f));
                assert(per_square(before, f) == f(dst as int) + per_square(rest, f));
            }
            self.create_checking_promotions::<L>(dst, src, eksq);
        }
    }

    /// Adds castling on `side` when the rook on its castled square would check
    /// the king on `eksq`.
    fn castling_side_if_check<L: Legality>(&mut self, side: CastleType, eksq: SQ)
        requires
            old(self).wf(),
            eksq == old(self).board.king_square(old(self).board.spec_turn().spec_other()),
        ensures
            final(self).wf(),
            final(self).same_frame(old(self)),
            final(self).movelist@ == old(self).movelist@ + keep(L::spec_gen_legal(), *old(self).board,
                checking_castles(*old(self).board, side)),
    {
        let us = self.board.turn();
        let rto = relative_square(us, if side == CastleType::KingSide { 5 } else { 3 });
        if (rook_moves(self.occ, rto) >> (eksq as u64)) & 1u64 == 1u64 {
            self.castling_side::<L>(side);
        } else {
            proof {
                reveal_with_fuel(Seq::filter, 1);
                assert(self.movelist@ + keep(L::spec_gen_legal(), *self.board, Seq::<BitMove>::empty()) =~= self.movelist@);
            }
        }
    }
}


/// The ranks a side's pawns promote on, promote from, and reach with a
/// single push from their starting rank.
pub open spec fn pawn_ranks(player: Player) -> (u64, u64, u64) {
    match player {
        Player::White => (RANK_8, RANK_7, RANK_3),
        Player::Black => (RANK_1, RANK_2, RANK_6),
    }
}

/// The squares of the file of `sq`.
pub open spec fn file_bb_spec(sq: int) -> u64 {
    FILE_A << ((sq % 8) as u64)
}

/// Returns the squares of the file of `sq`.
pub fn file_bb(sq: SQ) -> (r: BitBoard)
    requires
        sq < 64,
    ensures
        r == file_bb_spec(sq as int),
{
    FILE_A << ((sq % 8) as u64)
}

/// The squares pawns may capture on: with evasions the enemy pieces of
/// `target`, with captures `target`, otherwise every enemy piece.
pub open spec fn pawn_enemies(gen: GenTypes, target: u64, them_occ: u64) -> u64 {
    if gen == GenTypes::Evasions {
        them_occ & target
    } else if gen == GenTypes::Captures {
        target
    } else {
        them_occ
    }
}

/// The squares pawns may push onto: `target` for quiet moves and quiet checks,
/// otherwise every empty square.
pub open spec fn push_empty(gen: GenTypes, target: u64, occ: u64) -> u64 {
    if gen == GenTypes::Quiets || gen == GenTypes::QuietChecks {
        target
    } else {
        !occ
    }
}

/// The destinations of single and of double pawn pushes.
pub open spec fn pawn_pushes(board: Board, gen: GenTypes, target: u64, occ: u64) -> (u64, u64) {
    let us = board.spec_turn();
    let them = us.spec_other();
    let (rank_8, rank_7, rank_3) = pawn_ranks(us);
    let not7 = board.spec_piece_bb(us, Piece::P) & !rank_7;
    let empty = push_empty(gen, target, occ);
    let one0 = empty & shift_up_spec(us, not7);
    let two0 = shift_up_spec(us, one0 & rank_3) & empty;
    let (one1, two1) = if gen == GenTypes::Evasions {
        (one0 & target, two0 & target)
    } else {
        (one0, two0)
    };
    if gen == GenTypes::QuietChecks {
        let ksq = board.king_square(them);
        let attacks = reach_bb(Reach::Pawn(them), ksq, 0);
        let one2 = one1 & attacks;
        let two2 = two1 & attacks;
        let dc = board.spec_blockers(them) & board.occupied_by(us);
        if not7 & dc != 0 {
            let dc1 = shift_up_spec(us, not7 & dc) & empty & !file_bb_spec(ksq);
            let dc2 = shift_up_spec(us, rank_3 & dc1) & empty;
            (one2 | dc1, two2 | dc2)
        } else {
            (one2, two2)
        }
    } else {
        (one1, two1)
    }
}

/// Single then double pawn pushes (none when generating captures).
pub open spec fn pawn_push_moves(board: Board, gen: GenTypes, target: u64, occ: u64) -> Seq<BitMove> {
    if gen == GenTypes::Captures {
        Seq::empty()
    } else {
        let (one, two) = pawn_pushes(board, gen, target, occ);
        let down = down_delta(board.spec_turn());
        per_square(one, move_by_delta(down, MoveFlag::QuietMove))
            + per_square(two, move_by_delta(2 * down, MoveFlag::DoublePawnPush))
    }
}

/// The squares promoting pawns may push onto.
pub open spec fn promo_empty(gen: GenTypes, target: u64, occ: u64) -> u64 {
    if gen == GenTypes::Captures {
        !occ
    } else if gen == GenTypes::Evasions {
        push_empty(gen, target, occ) & target
    } else {
        push_empty(gen, target, occ)
    }
}

/// Promotions: by pushing, then by capturing to the left, then to the right.
pub open spec fn pawn_promo_moves(board: Board, gen: GenTypes, target: u64, occ: u64, them_occ: u64) -> Seq<BitMove> {
    let us = board.spec_turn();
    let (rank_8, rank_7, rank_3) = pawn_ranks(us);
    let p7 = board.spec_piece_bb(us, Piece::P) & rank_7;
    if gen != GenTypes::QuietChecks && p7 != 0 && (gen != GenTypes::Evasions || target & rank_8 != 0) {
        let empty = promo_empty(gen, target, occ);
        let enemies = pawn_enemies(gen, target, them_occ);
        per_square(shift_up_spec(us, p7) & empty, promotions_by_delta(down_delta(us), false))
            + per_square(shift_up_left_spec(us, p7) & enemies, promotions_by_delta(down_right_delta(us), true))
            + per_square(shift_up_right_spec(us, p7) & enemies, promotions_by_delta(down_left_delta(us), true))
    } else {
        Seq::empty()
    }
}

/// Whether pawn captures are generated for `gen`.
pub open spec fn gen_has_captures(gen: GenTypes) -> bool {
    gen == GenTypes::Captures || gen == GenTypes::Evasions || gen == GenTypes::NonEvasions || gen == GenTypes::All
}

/// Non-promoting pawn captures: to the left, to the right, then en passant.
pub open spec fn pawn_capture_moves(board: Board, gen: GenTypes, target: u64, them_occ: u64) -> Seq<BitMove> {
    let us = board.spec_turn();
    let them = us.spec_other();
    let (rank_8, rank_7, rank_3) = pawn_ranks(us);
    let not7 = board.spec_piece_bb(us, Piece::P) & !rank_7;
    let enemies = pawn_enemies(gen, target, them_occ);
    if gen_has_captures(gen) {
        per_square(shift_up_left_spec(us, not7) & enemies, move_by_delta(down_right_delta(us), MoveFlag::Capture { ep_capture: false }))
            + per_square(shift_up_right_spec(us, not7) & enemies, move_by_delta(down_left_delta(us), MoveFlag::Capture { ep_capture: false }))
            + ep_capture_moves(board, gen, target)
    } else {
        Seq::empty()
    }
}

/// En-passant captures: from each pawn (not about to promote) that attacks the
/// en-passant square; with evasions only when the pawn to take is in `target`.
pub open spec fn ep_capture_moves(board: Board, gen: GenTypes, target: u64) -> Seq<BitMove> {
    let us = board.spec_turn();
    let them = us.spec_other();
    let (rank_8, rank_7, rank_3) = pawn_ranks(us);
    let not7 = board.spec_piece_bb(us, Piece::P) & !rank_7;
    let ep = board.spec_ep_square() as int;
    if ep != NO_SQ && (gen != GenTypes::Evasions || target & sq_bb(ep + down_delta(us)) != 0) {
        per_square(not7 & reach_bb(Reach::Pawn(them), ep, 0), move_to_dst(ep, MoveFlag::Capture { ep_capture: true }))
    } else {
        Seq::empty()
    }
}

/// All pawn moves of the kind `gen` aimed at `target`.
#[verifier::opaque]
pub open spec fn pawn_moves(board: Board, gen: GenTypes, target: u64, occ: u64, them_occ: u64) -> Seq<BitMove> {
    pawn_push_moves(board, gen, target, occ) + pawn_promo_moves(board, gen, target, occ, them_occ)
        + pawn_capture_moves(board, gen, target, them_occ)
}


impl<'a> MoveGen<'a> {
    /// Adds single then double pawn pushes (nothing when generating captures).
    fn generate_pawn_pushes<L: Legality>(&mut self, gen: GenTypes, target: BitBoard)
        requires
            old(self).wf(),
        ensures
            final(self).wf(),
            final(self).same_frame(old(self)),
            final(self).movelist@ == old(self).movelist@
                + keep(L::spec_gen_legal(), *old(self).board, pawn_push_moves(*old(self).board, gen, target, old(self).occ)),
    {
        let ghost board = *self.board;
        if gen == GenTypes::Captures {
            assert(keep(L::spec_gen_legal(), board, Seq::<BitMove>::empty()) =~= Seq::<BitMove>::empty()) by {
                reveal_with_fuel(Seq::filter, 1);
            }
            assert(self.movelist@ + Seq::<BitMove>::empty() =~= self.movelist@);
            return;
        }
        let us = self.board.turn();
        let them = us.other_player();
        let (rank_7, rank_3): (BitBoard, BitBoard) = match us {
            Player::White => (RANK_7, RANK_3),
            Player::Black => (RANK_2, RANK_6),
        };
        let down: i8 = match us {
            Player::White => -8,
            Player::Black => 8,
        };
        let all_pawns = self.board.piece_bb(us, Piece::P);
        let pawns_not_rank_7 = all_pawns & !rank_7;
        let empty_squares = if gen == GenTypes::Quiets || gen == GenTypes::QuietChecks {
            target
        } else {
            !self.occ
        };
        let up_one = shift_up(us, pawns_not_rank_7);
        let mut push_one: BitBoard = empty_squares & up_one;
        proof {
            lemma_bit_ops(empty_squares, up_one);
            lemma_bit_ops(push_one, rank_3);
        }
        let up_two = shift_up(us, push_one & rank_3);
        let mut push_two: BitBoard = up_two & empty_squares;
        proof {
            lemma_bit_ops(up_two, empty_squares);
        }
        assert(forall|d: int| #[trigger] bit(push_one, d) ==> 0 <= d + down < 64);
        assert(forall|d: int| #[trigger] bit(push_two, d) ==> 0 <= d + 2 * down < 64);
        if gen == GenTypes::Evasions {
            proof {
                lemma_bit_ops(push_one, target);
                lemma_bit_ops(push_two, target);
            }
            push_one = push_one & target;
            push_two = push_two & target;
        }
        if gen == GenTypes::QuietChecks {
            let ksq = self.board.king_sq(them);
            let attacks = crate::attacks::pawn_attacks_from(ksq, them);
            proof {
                lemma_bit_ops(push_one, attacks);
                lemma_bit_ops(push_two, attacks);
            }
            push_one = push_one & attacks;
            push_two = push_two & attacks;
            let dc_candidates = self.board.discovered_check_candidates();
            if pawns_not_rank_7 & dc_candidates != 0 {
                let up_dc = shift_up(us, pawns_not_rank_7 & dc_candidates);
                let fb = file_bb(ksq);
                let dc1: BitBoard = up_dc & empty_squares & !fb;
                proof {
                    lemma_bit_ops(up_dc, empty_squares);
                    lemma_bit_ops(up_dc & empty_squares, !fb);
                    lemma_bit_ops(rank_3, dc1);
                }
                let up_dc1 = shift_up(us, rank_3 & dc1);
                let dc2: BitBoard = up_dc1 & empty_squares;
                proof {
                    lemma_bit_ops(up_dc1, empty_squares);
                    lemma_bit_ops(push_one, dc1);
                    lemma_bit_ops(push_two, dc2);
                }
                push_one = push_one | dc1;
                push_two = push_two | dc2;
            }
        }
        assert(pawn_pushes(board, gen, target, self.occ) == (push_one, push_two));
        let ghost one = per_square(push_one, move_by_delta(down as int, MoveFlag::QuietMove));
        let ghost two = per_square(push_two, move_by_delta(2 * down as int, MoveFlag::DoublePawnPush));
        self.append_by_delta::<L>(push_one, down, MoveFlag::QuietMove);
        self.append_by_delta::<L>(push_two, 2 * down, MoveFlag::DoublePawnPush);
        proof {
            lemma_keep_add(L::spec_gen_legal(), board, one, two);
            assert(pawn_push_moves(board, gen, target, self.occ) == one + two);
        }
    }
}


impl<'a> MoveGen<'a> {
    /// Adds promotions: by pushing, then by capturing to the left and to the
    /// right (with evasions only when `target` reaches the last rank).
    fn generate_pawn_promotions<L: Legality>(&mut self, gen: GenTypes, target: BitBoard)
        requires
            old(self).wf(),
        ensures
            final(self).wf(),
            final(self).same_frame(old(self)),
            final(self).movelist@ == old(self).movelist@ + keep(L::spec_gen_legal(), *old(self).board,
                pawn_promo_moves(*old(self).board, gen, target, old(self).occ, old(self).them_occ)),
    {
        let ghost board = *self.board;
        let us = self.board.turn();
        let (rank_8, rank_7): (BitBoard, BitBoard) = match us {
            Player::White => (RANK_8, RANK_7),
            Player::Black => (RANK_1, RANK_2),
        };
        let (down, down_right, down_left): (i8, i8, i8) = match us {
            Player::White => (-8, -7, -9),
            Player::Black => (8, 7, 9),
        };
        let pawns_rank_7 = self.board.piece_bb(us, Piece::P) & rank_7;
        if gen != GenTypes::QuietChecks && pawns_rank_7 != 0 && (gen != GenTypes::Evasions || (target & rank_8) != 0) {
            let push = if gen == GenTypes::Quiets || gen == GenTypes::QuietChecks {
                target
            } else {
                !self.occ
            };
            let empty_squares = if gen == GenTypes::Captures {
                !self.occ
            } else if gen == GenTypes::Evasions {
                push & target
            } else {
                push
            };
            let enemies = if gen == GenTypes::Evasions {
                self.them_occ & target
            } else if gen == GenTypes::Captures {
                target
            } else {
                self.them_occ
            };
            let up = shift_up(us, pawns_rank_7);
            let up_left = shift_up_left(us, pawns_rank_7);
            let up_right = shift_up_right(us, pawns_rank_7);
            let no_promo = up & empty_squares;
            let left_cap_promo = up_left & enemies;
            let right_cap_promo = up_right & enemies;
            proof {
                lemma_bit_ops(up, empty_squares);
                lemma_bit_ops(up_left, enemies);
                lemma_bit_ops(up_right, enemies);
            }
            let ghost a = per_square(no_promo, promotions_by_delta(down as int, false));
            let ghost b = per_square(left_cap_promo, promotions_by_delta(down_right as int, true));
            let ghost c = per_square(right_cap_promo, promotions_by_delta(down_left as int, true));
            self.append_promotions::<L>(no_promo, down, false);
            self.append_promotions::<L>(left_cap_promo, down_right, true);
            self.append_promotions::<L>(right_cap_promo, down_left, true);
            proof {
                lemma_keep_add(L::spec_gen_legal(), board, a, b);
                lemma_keep_add(L::spec_gen_legal(), board, a + b, c);
                assert(pawn_promo_moves(board, gen, target, self.occ, self.them_occ) == a + b + c);
            }
        } else {
            proof {
                reveal_with_fuel(Seq::filter, 1);
                assert(self.movelist@ + keep(L::spec_gen_legal(), board, Seq::<BitMove>::empty()) =~= self.movelist@);
            }
        }
    }

    /// Adds non-promoting pawn captures: to the left, to the right, then en
    /// passant.
    #[verifier::spinoff_prover]
    #[verifier::rlimit(20)]
    fn generate_pawn_captures<L: Legality>(&mut self, gen: GenTypes, target: BitBoard)
        requires
            old(self).wf(),
        ensures
            final(self).wf(),
            final(self).same_frame(old(self)),
            final(self).movelist@ == old(self).movelist@ + keep(L::spec_gen_legal(), *old(self).board,
                pawn_capture_moves(*old(self).board, gen, target, old(self).them_occ)),
    {
        let ghost board = *self.board;
        let ghost legal = L::spec_gen_legal();
        if !(gen == GenTypes::Captures || gen == GenTypes::Evasions || gen == GenTypes::NonEvasions || gen == GenTypes::All) {
            proof {
                reveal_with_fuel(Seq::filter, 1);
                assert(self.movelist@ + keep(legal, board, Seq::<BitMove>::empty()) =~= self.movelist@);
            }
            return;
        }
        let us = self.board.turn();
        let them = us.other_player();
        let rank_7: BitBoard = match us {
            Player::White => RANK_7,
            Player::Black => RANK_2,
        };
        let (down, down_right, down_left): (i8, i8, i8) = match us {
            Player::White => (-8, -7, -9),
            Player::Black => (8, 7, 9),
        };
        let pawns_not_rank_7 = self.board.piece_bb(us, Piece::P) & !rank_7;
        let enemies = if gen == GenTypes::Evasions {
            self.them_occ & target
        } else if gen == GenTypes::Captures {
            target
        } else {
            self.them_occ
        };
        let up_left = shift_up_left(us, pawns_not_rank_7);
        let up_right = shift_up_right(us, pawns_not_rank_7);
        let left_cap = up_left & enemies;
        let right_cap = up_right & enemies;
        proof {
            lemma_bit_ops(up_left, enemies);
            lemma_bit_ops(up_right, enemies);
        }
        let ghost a = per_square(left_cap, move_by_delta(down_right as int, MoveFlag::Capture { ep_capture: false }));
        let ghost b = per_square(right_cap, move_by_delta(down_left as int, MoveFlag::Capture { ep_capture: false }));
        self.append_by_delta::<L>(left_cap, down_right, MoveFlag::Capture { ep_capture: false });
        self.append_by_delta::<L>(right_cap, down_left, MoveFlag::Capture { ep_capture: false });
        proof {
            lemma_keep_add(legal, board, a, b);
        }
        let ghost c = ep_capture_moves(board, gen, target);
        self.generate_ep_captures::<L>(gen, target);
        proof {
            lemma_keep_add(legal, board, a + b, c);
            assert(pawns_not_rank_7 == board.spec_piece_bb(us, Piece::P) & !pawn_ranks(us).1);
            assert(enemies == pawn_enemies(gen, target, self.them_occ));
            assert(down_right as int == down_right_delta(us) && down_left as int == down_left_delta(us));
            assert(pawn_capture_moves(board, gen, target, self.them_occ) == a + b + c);
        }
    }

    /// Adds the en-passant captures.
    fn generate_ep_captures<L: Legality>(&mut self, gen: GenTypes, target: BitBoard)
        requires
            old(self).wf(),
        ensures
            final(self).wf(),
            final(self).same_frame(old(self)),
            final(self).movelist@ == old(self).movelist@ + keep(L::spec_gen_legal(), *old(self).board,
                ep_capture_moves(*old(self).board, gen, target)),
    {
        let ghost board = *self.board;
        let ghost legal = L::spec_gen_legal();
        let us = self.board.turn();
        let them = us.other_player();
        let rank_7: BitBoard = match us {
            Player::White => RANK_7,
            Player::Black => RANK_2,
        };
        let pawns_not_rank_7 = self.board.piece_bb(us, Piece::P) & !rank_7;
        let ep_sq = self.board.ep_square();
        proof {
            self.board.lemma_ep_square();
        }
        if ep_sq != NO_SQ {
            let ep_down: u8 = match us {
                Player::White => ep_sq - 8,
                Player::Black => ep_sq + 8,
            };
            if gen != GenTypes::Evasions || target & sq_to_bb(ep_down) != 0 {
                let from = pawns_not_rank_7 & crate::attacks::pawn_attacks_from(ep_sq, them);
                self.append_to_dst::<L>(from, ep_sq, MoveFlag::Capture { ep_capture: true });
                return;
            }
        }
        proof {
            reveal_with_fuel(Seq::filter, 1);
            assert(self.movelist@ + keep(legal, board, Seq::<BitMove>::empty()) =~= self.movelist@);
        }
    }

    /// Adds the pawn moves of the kind `gen` aimed at `target`: pushes, then
    /// promotions, then captures.
    fn generate_pawn_moves<L: Legality>(&mut self, gen: GenTypes, target: BitBoard)
        requires
            old(self).wf(),
        ensures
            final(self).wf(),
            final(self).same_frame(old(self)),
            final(self).movelist@ == old(self).movelist@ + keep(L::spec_gen_legal(), *old(self).board,
                pawn_moves(*old(self).board, gen, target, old(self).occ, old(self).them_occ)),
    {
        let ghost board = *self.board;
        let ghost legal = L::spec_gen_legal();
        self.generate_pawn_pushes::<L>(gen, target);
        self.generate_pawn_promotions::<L>(gen, target);
        self.generate_pawn_captures::<L>(gen, target);
        proof {
            let a = pawn_push_moves(board, gen, target, self.occ);
            let b = pawn_promo_moves(board, gen, target, self.occ, self.them_occ);
            let c = pawn_capture_moves(board, gen, target, self.them_occ);
            lemma_keep_add(legal, board, a, b);
            lemma_keep_add(legal, board, a + b, c);
            reveal(pawn_moves);
        }
    }
}


/// The square the king castles to.
pub open spec fn castle_king_to(us: Player, side: CastleType) -> int {
    relative_sq(us, if side == CastleType::KingSide { 6 } else { 2 })
}

/// The home square of the rook the side castles with.
pub open spec fn castle_rook_from(us: Player, side: CastleType) -> int {
    relative_sq(us, if side == CastleType::KingSide { 7 } else { 0 })
}

/// The square the rook castles to.
pub open spec fn castle_rook_to(us: Player, side: CastleType) -> int {
    relative_sq(us, if side == CastleType::KingSide { 5 } else { 3 })
}

/// Whether no square the king crosses or lands on when castling (its own
/// square excluded) is attacked by the enemy.
pub open spec fn castle_path_safe(board: Board, side: CastleType) -> bool {
    let us = board.spec_turn();
    let them = us.spec_other();
    let ksq = board.king_square(us);
    let kto = castle_king_to(us, side);
    forall|s: int| #![trigger board.attackers(s, board.occupied())]
        ((ksq < s <= kto) || (kto <= s < ksq)) ==> board.attackers(s, board.occupied()) & board.occupied_by(them) == 0
}

/// The castling move on `side`, when the way between king and rook is empty,
/// the side may castle there, its rook stands at home, and the king crosses no
/// attacked square. The move goes from the king's square to the rook's.
#[verifier::opaque]
pub open spec fn castling_moves(board: Board, side: CastleType) -> Seq<BitMove> {
    let us = board.spec_turn();
    let r_from = castle_rook_from(us, side);
    if board.occupied() & castle_path(us, side) == 0 && board.spec_can_castle(us, side)
        && board.piece_on(r_from) == Some(Piece::R) && castle_path_safe(board, side) {
        seq![spec_move(board.king_square(us), r_from, MoveFlag::Castle { king_side: side == CastleType::KingSide })]
    } else {
        Seq::empty()
    }
}

impl<'a> MoveGen<'a> {
    /// Adds the castling move on `side`, if the side to move may castle there.
    fn castling_side<L: Legality>(&mut self, side: CastleType)
        requires
            old(self).wf(),
        ensures
            final(self).wf(),
            final(self).same_frame(old(self)),
            final(self).movelist@ == old(self).movelist@ + keep(L::spec_gen_legal(), *old(self).board,
                castling_moves(*old(self).board, side)),
    {
        let ghost board = *self.board;
        let ghost legal = L::spec_gen_legal();
        reveal(castling_moves);
        let us = self.board.turn();
        if !self.board.castle_impeded(side) && self.board.can_castle(us, side) {
            let r_sq = self.board.castling_rook_square(side);
            let rook_home = match self.board.piece_at_sq(r_sq) {
                Some(Piece::R) => true,
                _ => false,
            };
            if rook_home {
                let king_side: bool = match side {
                    CastleType::KingSide => true,
                    CastleType::QueenSide => false,
                };
                let ksq: SQ = self.board.king_sq(us);
                let r_from: SQ = self.board.castling_rook_square(side);
                let k_to: SQ = relative_square(us, if king_side { 6 } else { 2 });
                proof {
                    board.lemma_castle_king(us, side);
                }
                let enemies: BitBoard = self.them_occ;
                let mut s: SQ = k_to;
                let mut can_castle: bool = true;
                while s != ksq
                    invariant_except_break
                        can_castle,
                    invariant
                        self.wf(),
                        board == *self.board,
                        enemies == self.them_occ,
                        ksq == board.king_square(us),
                        us == board.spec_turn(),
                        k_to == castle_king_to(us, side),
                        ksq == relative_sq(us, 4),
                        king_side == (side == CastleType::KingSide),
                        king_side ==> ksq <= s <= k_to,
                        !king_side ==> k_to <= s <= ksq,
                        king_side ==> forall|t: int| #![trigger board.attackers(t, board.occupied())]
                            s < t <= k_to ==> board.attackers(t, board.occupied()) & board.occupied_by(us.spec_other()) == 0,
                        !king_side ==> forall|t: int| #![trigger board.attackers(t, board.occupied())]
                            k_to <= t < s ==> board.attackers(t, board.occupied()) & board.occupied_by(us.spec_other()) == 0,
                    ensures
                        can_castle <==> castle_path_safe(board, side),
                    decreases if king_side { s - ksq } else { ksq - s },
                {
                    let attackers = self.board.attackers_to(s, self.occ) & enemies;
                    if attackers != 0 {
                        can_castle = false;
                        break;
                    }
                    s = if king_side { s - 1 } else { s + 1 };
                }
                if can_castle {
                    let m = BitMove::init(PreMoveInfo {
                        src: ksq,
                        dst: r_from,
                        flags: MoveFlag::Castle { king_side: king_side },
                    });
                    self.check_and_add::<L>(m);
                    proof {
                        assert(castling_moves(board, side) =~= seq![m]);
                    }
                    return;
                }
            }
        }
        proof {
            reveal_with_fuel(Seq::filter, 1);
            assert(castling_moves(board, side) =~= Seq::<BitMove>::empty());
            assert(self.movelist@ + keep(legal, board, Seq::<BitMove>::empty()) =~= self.movelist@);
        }
    }

    /// Adds castling on the queen's side, then on the king's side.
    fn generate_castling<L: Legality>(&mut self)
        requires
            old(self).wf(),
        ensures
            final(self).wf(),
            final(self).same_frame(old(self)),
            final(self).movelist@ == old(self).movelist@ + keep(L::spec_gen_legal(), *old(self).board,
                castling_moves(*old(self).board, CastleType::QueenSide) + castling_moves(*old(self).board, CastleType::KingSide)),
    {
        let ghost board = *self.board;
        self.castling_side::<L>(CastleType::QueenSide);
        self.castling_side::<L>(CastleType::KingSide);
        proof {
            lemma_keep_add(L::spec_gen_legal(), board, castling_moves(board, CastleType::QueenSide),
                castling_moves(board, CastleType::KingSide));
        }
    }
}


/// The moves of the kind `gen` aimed at `target`: pawn moves; knight, bishop,
/// rook and queen moves; king moves (not for quiet checks or evasions);
/// castling (not for captures or evasions).
#[verifier::opaque]
pub open spec fn all_moves(board: Board, gen: GenTypes, target: u64, occ: u64, us_occ: u64, them_occ: u64) -> Seq<BitMove> {
    let us = board.spec_turn();
    pawn_moves(board, gen, target, occ, them_occ) + officer_moves(board, target, occ, us_occ, them_occ)
        + (if gen != GenTypes::QuietChecks && gen != GenTypes::Evasions {
            per_square(board.spec_piece_bb(us, Piece::K), piece_moves_fn(Piece::K, target, occ, us_occ, them_occ))
        } else {
            Seq::empty()
        })
        + (if gen != GenTypes::Captures && gen != GenTypes::Evasions {
            castling_moves(board, CastleType::QueenSide) + castling_moves(board, CastleType::KingSide)
        } else {
            Seq::empty()
        })
}

/// The squares aimed at when not in check: any square not our own for
/// non-evasions, enemy pieces for captures, empty squares for quiet moves.
pub open spec fn non_evasion_target(gen: GenTypes, us_occ: u64, them_occ: u64) -> u64 {
    if gen == GenTypes::NonEvasions {
        !us_occ
    } else if gen == GenTypes::Captures {
        them_occ
    } else {
        !(us_occ | them_occ)
    }
}

/// The moves of the side to move on `board` of the kind `gen` (non-evasions,
/// captures or quiet moves), when not in check.
pub open spec fn non_evasion_moves(board: Board, gen: GenTypes) -> Seq<BitMove> {
    let us_occ = board.occupied_by(board.spec_turn());
    let them_occ = board.occupied_by(board.spec_turn().spec_other());
    all_moves(board, gen, non_evasion_target(gen, us_occ, them_occ), board.occupied(), us_occ, them_occ)
}

impl<'a> MoveGen<'a> {
    /// Adds the moves of the kind `gen` aimed at `target`.
    fn generate_all<L: Legality>(&mut self, gen: GenTypes, target: BitBoard)
        requires
            old(self).wf(),
        ensures
            final(self).wf(),
            final(self).same_frame(old(self)),
            final(self).movelist@ == old(self).movelist@ + keep(L::spec_gen_legal(), *old(self).board,
                all_moves(*old(self).board, gen, target, old(self).occ, old(self).us_occ, old(self).them_occ)),
    {
        let ghost board = *self.board;
        let ghost legal = L::spec_gen_legal();
        let ghost (occ, us_occ, them_occ) = (self.occ, self.us_occ, self.them_occ);
        self.generate_pawn_moves::<L>(gen, target);
        self.gen_non_pawn_king::<L>(target);
        let ghost a = pawn_moves(board, gen, target, occ, them_occ);
        let ghost b = officer_moves(board, target, occ, us_occ, them_occ);
        proof {
            lemma_keep_add(legal, board, a, b);
        }
        let ghost c: Seq<BitMove> = Seq::empty();
        if gen != GenTypes::QuietChecks && gen != GenTypes::Evasions {
            self.generate_king_moves::<L>(target);
            proof {
                c = per_square(board.spec_piece_bb(board.spec_turn(), Piece::K), piece_moves_fn(Piece::K, target, occ, us_occ, them_occ));
            }
        } else {
            proof {
                reveal_with_fuel(Seq::filter, 1);
                assert(self.movelist@ + keep(legal, board, c) =~= self.movelist@);
            }
        }
        proof {
            lemma_keep_add(legal, board, a + b, c);
        }
        let ghost d: Seq<BitMove> = Seq::empty();
        if gen != GenTypes::Captures && gen != GenTypes::Evasions {
            self.generate_castling::<L>();
            proof {
                d = castling_moves(board, CastleType::QueenSide) + castling_moves(board, CastleType::KingSide);
            }
        } else {
            proof {
                reveal_with_fuel(Seq::filter, 1);
                assert(self.movelist@ + keep(legal, board, d) =~= self.movelist@);
            }
        }
        proof {
            lemma_keep_add(legal, board, a + b + c, d);
            reveal(all_moves);
            assert(all_moves(board, gen, target, occ, us_occ, them_occ) == a + b + c + d);
        }
    }

    /// Adds the moves of the kind `gen` (non-evasions, captures or quiet moves)
    /// when not in check.
    fn generate_non_evasions<L: Legality>(&mut self, gen: GenTypes)
        requires
            old(self).wf(),
            gen == GenTypes::NonEvasions || gen == GenTypes::Captures || gen == GenTypes::Quiets,
            old(self).board.spec_checkers() == 0,
        ensures
            final(self).wf(),
            final(self).same_frame(old(self)),
            final(self).movelist@ == old(self).movelist@ + keep(L::spec_gen_legal(), *old(self).board,
                non_evasion_moves(*old(self).board, gen)),
    {
        let target: BitBoard = if gen == GenTypes::NonEvasions {
            !self.us_occ
        } else if gen == GenTypes::Captures {
            self.them_occ
        } else {
            !(self.us_occ | self.them_occ)
        };
        self.generate_all::<L>(gen, target);
    }
}


/// The squares from which a piece of kind `piece` attacks `ksq` when the
/// squares of `occ` are occupied: where a quiet move of it gives check. A king
/// gives none.
pub open spec fn check_squares(piece: Piece, ksq: int, occ: u64) -> u64 {
    if piece == Piece::K {
        0
    } else {
        piece_moves_bb(piece, ksq, occ)
    }
}

/// For a discovered-check candidate on `from` that is not a pawn, its moves to
/// empty squares that give check: off the line through `from` and the enemy
/// king (uncovering the check), or onto a square that itself checks.
pub open spec fn discovery_fn(board: Board, occ: u64) -> spec_fn(int) -> Seq<BitMove> {
    |from: int| {
        match board.piece_on(from) {
            Some(piece) => if piece == Piece::P {
                Seq::empty()
            } else {
                let eksq = board.king_square(board.spec_turn().spec_other());
                let b = piece_moves_bb(piece, from, occ) & !occ;
                let b2 = b & (!reach_bb(Reach::Line(eksq as u8), from, 0) | check_squares(piece, eksq, occ));
                per_square(b2, move_from_src(from, MoveFlag::QuietMove))
            },
            None => Seq::empty(),
        }
    }
}

/// The quiet moves of the side to move's pieces of kind `piece`, other than
/// the discovered-check candidates, onto the empty squares from which they
/// check the enemy king.
pub open spec fn direct_checks_of(board: Board, piece: Piece) -> Seq<BitMove> {
    let us = board.spec_turn();
    let them = us.spec_other();
    let occ = board.occupied();
    let dc = board.spec_blockers(them) & board.occupied_by(us);
    let target = check_squares(piece, board.king_square(them), occ) & !occ;
    per_square(board.spec_piece_bb(us, piece) & !dc,
        piece_moves_fn(piece, target, occ, board.occupied_by(us), board.occupied_by(them)))
}

/// The promotion by pushing from `src` to `dst` to `prom`, when a `prom` on
/// `dst` would check the king on `eksq`.
pub open spec fn promotion_if_check(src: int, dst: int, prom: Piece, eksq: int, occ: u64) -> Seq<BitMove> {
    if bit(piece_moves_bb(prom, dst, occ), eksq) {
        seq![spec_move(src, dst, MoveFlag::Promotion { capture: false, prom })]
    } else {
        Seq::empty()
    }
}

/// The promotions by pushing from `src` to `dst` (to a queen, a knight, a
/// rook, a bishop) whose new piece checks the king on `eksq`.
pub open spec fn checking_promotions(src: int, dst: int, eksq: int, occ: u64) -> Seq<BitMove> {
    promotion_if_check(src, dst, Piece::Q, eksq, occ) + promotion_if_check(src, dst, Piece::N, eksq, occ)
        + promotion_if_check(src, dst, Piece::R, eksq, occ) + promotion_if_check(src, dst, Piece::B, eksq, occ)
}

/// For a destination square `d`, the checking promotions from `d + delta`.
pub open spec fn checking_promotions_by_delta(delta: int, eksq: int, occ: u64) -> spec_fn(int) -> Seq<BitMove> {
    |d: int| checking_promotions(d + delta, d, eksq, occ)
}

/// The promotions by pushing that give check, square by square.
pub open spec fn checking_promotions_of(board: Board) -> Seq<BitMove> {
    let us = board.spec_turn();
    let occ = board.occupied();
    let (rank_8, rank_7, rank_3) = pawn_ranks(us);
    let p7 = board.spec_piece_bb(us, Piece::P) & rank_7;
    per_square(shift_up_spec(us, p7) & !occ,
        checking_promotions_by_delta(down_delta(us), board.king_square(us.spec_other()), occ))
}

/// Castling on `side`, when the rook on its castled square would check the
/// enemy king.
pub open spec fn checking_castles(board: Board, side: CastleType) -> Seq<BitMove> {
    let us = board.spec_turn();
    if bit(reach_bb(Reach::Rook, castle_rook_to(us, side), board.occupied()), board.king_square(us.spec_other())) {
        castling_moves(board, side)
    } else {
        Seq::empty()
    }
}

/// The quiet checks after the pawn pushes: checking promotions by pushing,
/// the direct checks of the knights, bishops, rooks and queens, then castling
/// when the castled rook checks.
pub open spec fn quiet_checks_after_pawns(board: Board) -> Seq<BitMove> {
    checking_promotions_of(board)
        + direct_checks_of(board, Piece::N) + direct_checks_of(board, Piece::B)
        + direct_checks_of(board, Piece::R) + direct_checks_of(board, Piece::Q)
        + checking_castles(board, CastleType::QueenSide) + checking_castles(board, CastleType::KingSide)
}

/// Quiet checks: the checking moves of the discovered-check candidates, then
/// the checking pawn pushes and promotions by pushing, then the direct checks
/// of the knights, bishops, rooks and queens, then castling when the castled
/// rook checks.
#[verifier::opaque]
pub open spec fn quiet_check_moves(board: Board) -> Seq<BitMove> {
    let us = board.spec_turn();
    let them = us.spec_other();
    let occ = board.occupied();
    let dc = board.spec_blockers(them) & board.occupied_by(us);
    per_square(dc, discovery_fn(board, occ))
        + pawn_moves(board, GenTypes::QuietChecks, !occ, occ, board.occupied_by(them))
        + checking_promotions_of(board)
        + direct_checks_of(board, Piece::N) + direct_checks_of(board, Piece::B)
        + direct_checks_of(board, Piece::R) + direct_checks_of(board, Piece::Q)
        + checking_castles(board, CastleType::QueenSide) + checking_castles(board, CastleType::KingSide)
}

/// The union, over the squares `c` of `bb`, of the line through `c` and `ksq`
/// without `c` itself.
pub open spec fn slider_lines(bb: u64, ksq: int) -> u64
    decreases bb,
{
    if bb == 0 {
        0
    } else {
        proof {
            crate::bitboard::lemma_without_lowest_smaller(bb);
        }
        let c = u64_trailing_zeros(bb) as int;
        (reach_bb(Reach::Line(ksq as u8), c, 0) ^ sq_bb(c)) | slider_lines(without_lowest(bb), ksq)
    }
}

/// Moves out of check: king moves (captures, then non-captures) to squares not
/// on a checking slider's line; then, against a single checker, moves that
/// capture it or block its line.
#[verifier::opaque]
pub open spec fn evasion_moves(board: Board) -> Seq<BitMove> {
    let us = board.spec_turn();
    let them = us.spec_other();
    let occ = board.occupied();
    let us_occ = board.occupied_by(us);
    let them_occ = board.occupied_by(them);
    let ksq = board.king_square(us);
    let checkers = board.spec_checkers();
    let pawns_knights = (board.spec_piece_bb(Player::White, Piece::P) | board.spec_piece_bb(Player::Black, Piece::P))
        | (board.spec_piece_bb(Player::White, Piece::N) | board.spec_piece_bb(Player::Black, Piece::N));
    let slider_attacks = slider_lines(checkers & !pawns_knights, ksq);
    let k_moves = reach_bb(Reach::King, ksq, 0) & !slider_attacks & !us_occ;
    let king_moves = per_square(k_moves & them_occ, move_from_src(ksq, MoveFlag::Capture { ep_capture: false }))
        + per_square(k_moves & !them_occ, move_from_src(ksq, MoveFlag::QuietMove));
    if without_lowest(checkers) == 0 {
        let c = u64_trailing_zeros(checkers) as int;
        let target = reach_bb(Reach::Between(ksq as u8), c, 0) | sq_bb(c);
        king_moves + all_moves(board, GenTypes::Evasions, target, occ, us_occ, them_occ)
    } else {
        king_moves
    }
}

impl<'a> MoveGen<'a> {
    /// Adds quiet moves that give check: first the moves that uncover a check,
    /// then checking pawn pushes and promotions by pushing, the direct checks
    /// of the other pieces, and castling whose rook checks.
    #[verifier::spinoff_prover]
    #[verifier::rlimit(30)]
    fn generate_quiet_checks<L: Legality>(&mut self)
        requires
            old(self).wf(),
            old(self).board.spec_checkers() == 0,
        ensures
            final(self).wf(),
            final(self).same_frame(old(self)),
            final(self).movelist@ == old(self).movelist@ + keep(L::spec_gen_legal(), *old(self).board,
                quiet_check_moves(*old(self).board)),
    {
        let ghost board = *self.board;
        let ghost legal = L::spec_gen_legal();
        let ghost f = discovery_fn(board, self.occ);
        let them = self.board.turn().other_player();
        let mut disc_check: BitBoard = self.board.discovered_check_candidates();
        let ghost start = disc_check;
        let ghost start_list = self.movelist@;
        proof {
            lemma_bit_ops(board.spec_blockers(board.spec_turn().spec_other()), board.occupied_by(board.spec_turn()));
            lemma_bit_ops(board.occupied_by(Player::White), board.occupied_by(Player::Black));
        }
        while disc_check != 0
            invariant
                self.wf(),
                self.same_frame(old(self)),
                board == *self.board,
                them == board.spec_turn().spec_other(),
                f == discovery_fn(board, self.occ),
                legal == L::spec_gen_legal(),
                forall|j: int| #[trigger] bit(disc_check, j) ==> bit(board.occupied(), j),
                self.movelist@ + keep(legal, board, per_square(disc_check, f))
                    == start_list + keep(legal, board, per_square(start, f)),
            decreases disc_check,
        {
            let ghost before = disc_check;
            proof {
                crate::bitboard::lemma_without_lowest_smaller(disc_check);
            }
            let from = pop_lsb(&mut disc_check);
            proof {
                board.lemma_occupied_piece(from as int);
                lemma_keep_add(legal, board, f(from as int), per_square(disc_check, f));
                assert(per_square(before, f) == f(from as int) + per_square(disc_check, f));
            }
            let piece: Piece = self.board.piece_at_sq(from).unwrap();
            if piece != Piece::P {
                let eksq = self.board.king_sq(them);
                let checks: BitBoard = if piece == Piece::K { 0 } else { self.moves_bb(piece, eksq) };
                let mut b: BitBoard = (self.moves_bb(piece, from) & !self.occ) & (!line_bb(from, eksq) | checks);
                self.move_append_from_bb::<L>(&mut b, from, MoveFlag::QuietMove);
            } else {
                proof {
                    reveal_with_fuel(Seq::filter, 1);
                    assert(f(from as int) =~= Seq::<BitMove>::empty());
                    assert(self.movelist@ + keep(legal, board, Seq::<BitMove>::empty()) =~= self.movelist@);
                }
            }
        }
        let ghost mid = self.movelist@;
        self.generate_pawn_moves::<L>(GenTypes::QuietChecks, !self.occ);
        self.generate_checks_after_pawns::<L>();
        proof {
            reveal(quiet_check_moves);
            let us = board.spec_turn();
            let occ = board.occupied();
            let a = per_square(start, f);
            let p = pawn_moves(board, GenTypes::QuietChecks, !occ, occ, board.occupied_by(them));
            let rest = quiet_checks_after_pawns(board);
            assert(mid == start_list + keep(legal, board, a));
            lemma_keep_add(legal, board, a, p);
            lemma_keep_add(legal, board, a + p, rest);
            assert(quiet_check_moves(board) =~= a + p + rest);
        }
    }

    /// Adds the quiet checks that come after the pawn pushes: checking
    /// promotions by pushing, direct checks of knights, bishops, rooks and
    /// queens, and checking castling.
    #[verifier::spinoff_prover]
    #[verifier::rlimit(30)]
    fn generate_checks_after_pawns<L: Legality>(&mut self)
        requires
            old(self).wf(),
        ensures
            final(self).wf(),
            final(self).same_frame(old(self)),
            final(self).movelist@ == old(self).movelist@ + keep(L::spec_gen_legal(), *old(self).board,
                quiet_checks_after_pawns(*old(self).board)),
    {
        let ghost board = *self.board;
        let ghost legal = L::spec_gen_legal();
        let them = self.board.turn().other_player();
        let eksq = self.board.king_sq(them);
        let us = self.board.turn();
        let (rank_7, down): (BitBoard, i8) = match us {
            Player::White => (RANK_7, -8),
            Player::Black => (RANK_2, 8),
        };
        let promo_squares = shift_up(us, self.board.piece_bb(us, Piece::P) & rank_7) & !self.occ;
        proof {
            lemma_bit_ops(shift_up_spec(us, board.spec_piece_bb(us, Piece::P) & rank_7), !self.occ);
        }
        self.append_checking_promotions::<L>(promo_squares, down, eksq);
        let dc: BitBoard = self.board.discovered_check_candidates();
        let n_target = self.moves_bb(Piece::N, eksq) & !self.occ;
        self.moves_from::<L>(Piece::N, self.board.piece_bb(self.board.turn(), Piece::N) & !dc, n_target);
        let b_target = self.moves_bb(Piece::B, eksq) & !self.occ;
        self.moves_from::<L>(Piece::B, self.board.piece_bb(self.board.turn(), Piece::B) & !dc, b_target);
        let r_target = self.moves_bb(Piece::R, eksq) & !self.occ;
        self.moves_from::<L>(Piece::R, self.board.piece_bb(self.board.turn(), Piece::R) & !dc, r_target);
        let q_target = self.moves_bb(Piece::Q, eksq) & !self.occ;
        self.moves_from::<L>(Piece::Q, self.board.piece_bb(self.board.turn(), Piece::Q) & !dc, q_target);
        self.castling_side_if_check::<L>(CastleType::QueenSide, eksq);
        self.castling_side_if_check::<L>(CastleType::KingSide, eksq);
        proof {
            let pr = checking_promotions_of(board);
            let n = direct_checks_of(board, Piece::N);
            let b = direct_checks_of(board, Piece::B);
            let r = direct_checks_of(board, Piece::R);
            let q = direct_checks_of(board, Piece::Q);
            let cq = checking_castles(board, CastleType::QueenSide);
            let ck = checking_castles(board, CastleType::KingSide);
            lemma_keep_add(legal, board, pr, n);
            lemma_keep_add(legal, board, pr + n, b);
            lemma_keep_add(legal, board, pr + n + b, r);
            lemma_keep_add(legal, board, pr + n + b + r, q);
            lemma_keep_add(legal, board, pr + n + b + r + q, cq);
            lemma_keep_add(legal, board, pr + n + b + r + q + cq, ck);
        }
    }

    /// Adds the moves out of check.
    fn generate_evasions<L: Legality>(&mut self)
        requires
            old(self).wf(),
            old(self).board.spec_checkers() != 0,
        ensures
            final(self).wf(),
            final(self).same_frame(old(self)),
            final(self).movelist@ == old(self).movelist@ + keep(L::spec_gen_legal(), *old(self).board,
                evasion_moves(*old(self).board)),
    {
        let ghost board = *self.board;
        let ghost legal = L::spec_gen_legal();
        let us = self.board.turn();
        let ksq: SQ = self.board.king_sq(us);
        let mut slider_attacks: BitBoard = 0;
        let mut sliders: BitBoard = self.board.checkers() & !self.board.piece_two_bb_both_players(Piece::P, Piece::N);
        let ghost start = sliders;
        proof {
            let x = slider_lines(start, ksq as int);
            assert(0u64 | x == x) by (bit_vector);
        }
        while sliders != 0
            invariant
                ksq < 64,
                slider_attacks | slider_lines(sliders, ksq as int) == slider_lines(start, ksq as int),
            decreases sliders,
        {
            let ghost before = sliders;
            let ghost acc = slider_attacks;
            proof {
                crate::bitboard::lemma_without_lowest_smaller(sliders);
            }
            let check_sq: SQ = pop_lsb(&mut sliders);
            let line = crate::attacks::line_bb(check_sq, ksq) ^ sq_to_bb(check_sq);
            slider_attacks = slider_attacks | line;
            proof {
                let rest = slider_lines(sliders, ksq as int);
                assert(slider_lines(before, ksq as int) == line | rest);
                assert((acc | line) | rest == acc | (line | rest)) by (bit_vector);
            }
        }
        proof {
            assert(slider_attacks | 0u64 == slider_attacks) by (bit_vector);
        }
        let k_moves: BitBoard = king_moves(ksq) & !slider_attacks & !self.us_occ;
        let mut captures_bb: BitBoard = k_moves & self.them_occ;
        let mut non_captures_bb: BitBoard = k_moves & !self.them_occ;
        let ghost a = per_square(captures_bb, move_from_src(ksq as int, MoveFlag::Capture { ep_capture: false }));
        let ghost b = per_square(non_captures_bb, move_from_src(ksq as int, MoveFlag::QuietMove));
        self.move_append_from_bb::<L>(&mut captures_bb, ksq, MoveFlag::Capture { ep_capture: false });
        self.move_append_from_bb::<L>(&mut non_captures_bb, ksq, MoveFlag::QuietMove);
        proof {
            lemma_keep_add(legal, board, a, b);
            reveal(evasion_moves);
        }
        let checkers = self.board.checkers();
        if checkers & (checkers - 1) == 0 {
            proof {
                lemma_lowest(checkers);
            }
            let checking_sq: SQ = checkers.trailing_zeros() as u8;
            let target: BitBoard = crate::attacks::between_bb(checking_sq, ksq) | sq_to_bb(checking_sq);
            let ghost c = all_moves(board, GenTypes::Evasions, target, self.occ, self.us_occ, self.them_occ);
            self.generate_all::<L>(GenTypes::Evasions, target);
            proof {
                lemma_keep_add(legal, board, a + b, c);
            }
        }
    }
}


/// The pseudo-legal moves of the side to move on `board` of the kind `gen`:
/// evasions; quiet checks; for all moves, evasions when in check and
/// non-evasions otherwise; else the non-evasions of the kind `gen`.
pub open spec fn pseudo_legal_moves(board: Board, gen: GenTypes) -> Seq<BitMove> {
    if gen == GenTypes::Evasions {
        evasion_moves(board)
    } else if gen == GenTypes::QuietChecks {
        quiet_check_moves(board)
    } else if gen == GenTypes::All {
        if board.spec_checkers() != 0 {
            evasion_moves(board)
        } else {
            non_evasion_moves(board, GenTypes::NonEvasions)
        }
    } else {
        non_evasion_moves(board, gen)
    }
}

/// The moves generated on `board` of the kind `gen`: the pseudo-legal ones,
/// kept only when legal if `legal`.
pub open spec fn generated_moves(board: Board, legal: bool, gen: GenTypes) -> Seq<BitMove> {
    keep(legal, board, pseudo_legal_moves(board, gen))
}

/// Whether moves of the kind `gen` may be generated on `board`: evasions only
/// in check; captures, quiet moves, quiet checks and non-evasions only out of
/// check; all moves always.
pub open spec fn gen_allowed(board: Board, gen: GenTypes) -> bool {
    &&& gen == GenTypes::Evasions ==> board.spec_checkers() != 0
    &&& (gen == GenTypes::Captures || gen == GenTypes::Quiets || gen == GenTypes::QuietChecks
        || gen == GenTypes::NonEvasions) ==> board.spec_checkers() == 0
}

impl<'a> MoveGen<'a> {
    /// Generates the moves of the kind `gen` for the side to move.
    fn generate_helper<L: Legality>(chessboard: &Board, gen: GenTypes) -> (moves: Vec<BitMove>)
        requires
            chessboard.wf(),
            gen_allowed(*chessboard, gen),
        ensures
            moves@ == generated_moves(*chessboard, L::spec_gen_legal(), gen),
            gen == GenTypes::All ==> moves@ == (if chessboard.spec_checkers() != 0 {
                generated_moves(*chessboard, L::spec_gen_legal(), GenTypes::Evasions)
            } else {
                generated_moves(*chessboard, L::spec_gen_legal(), GenTypes::NonEvasions)
            }),
    {
        let mut movegen = MoveGen::get_self(chessboard);
        proof {
            assert(Seq::<BitMove>::empty() + generated_moves(*chessboard, L::spec_gen_legal(), gen)
                =~= generated_moves(*chessboard, L::spec_gen_legal(), gen));
        }
        if gen == GenTypes::Evasions {
            movegen.generate_evasions::<L>();
        } else if gen == GenTypes::QuietChecks {
            movegen.generate_quiet_checks::<L>();
        } else {
            if gen == GenTypes::All {
                if movegen.board.in_check() {
                    movegen.generate_evasions::<L>();
                } else {
                    movegen.generate_non_evasions::<L>(GenTypes::NonEvasions);
                }
            } else {
                movegen.generate_non_evasions::<L>(gen);
            }
        }
        movegen.movelist
    }

    /// Returns the moves of the kind `gen` for the side to move on
    /// `chessboard`, legal ones or pseudo-legal ones as `L` says. Evasions may
    /// only be asked for in check; captures, quiet moves, quiet checks and
    /// non-evasions only out of check; all moves always.
    pub fn generate<L: Legality>(chessboard: &Board, gen: GenTypes) -> (moves: Vec<BitMove>)
        requires
            chessboard.wf(),
            gen_allowed(*chessboard, gen),
        ensures
            moves@ == generated_moves(*chessboard, L::spec_gen_legal(), gen),
            gen == GenTypes::All ==> moves@ == (if chessboard.spec_checkers() != 0 {
                generated_moves(*chessboard, L::spec_gen_legal(), GenTypes::Evasions)
            } else {
                generated_moves(*chessboard, L::spec_gen_legal(), GenTypes::NonEvasions)
            }),
    {
        match chessboard.turn() {
            Player::White => MoveGen::generate_helper::<L>(chessboard, gen),
            Player::Black => MoveGen::generate_helper::<L>(chessboard, gen),
        }
    }
}

} // verus!
