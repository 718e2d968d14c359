//! A chess position as the move generator reads it: one bitboard per side and
//! kind of piece, the side to move, castling rights and the en-passant square,
//! together with what follows from them (the pieces giving check and the pieces
//! that alone stand between a king and an enemy slider).

use vstd::prelude::*;
use vstd::std_specs::bits::u64_trailing_zeros;
use crate::attacks::{
    Reach, reach_bb, lemma_reach_bb, between, bishop_line, rook_line, aligned_pair, on_line,
    knight_moves, king_moves, pawn_attacks_from, bishop_moves, rook_moves, between_bb, aligned,
    rank_of,
};
use crate::bitboard::{
    BitBoard, SQ, NO_SQ, bit, sq_bb, without_lowest, lemma_lowest, lemma_bit_ops,
    lemma_empty_bits, lemma_bits_ext, sq_to_bb, bits_where, lemma_bits_where,
};
use crate::piece_move::BitMove;
use crate::templates::{Player, Piece, CastleType, piece_at_index, piece_of_index};

verus! {

/// The squares of the first rank.
pub const RANK_1: u64 = 0x0000_0000_0000_00FF;
/// The squares of the second rank.
pub const RANK_2: u64 = 0x0000_0000_0000_FF00;
/// The squares of the third rank.
pub const RANK_3: u64 = 0x0000_0000_00FF_0000;
/// The squares of the sixth rank.
pub const RANK_6: u64 = 0x0000_FF00_0000_0000;
/// The squares of the seventh rank.
pub const RANK_7: u64 = 0x00FF_0000_0000_0000;
/// The squares of the eighth rank.
pub const RANK_8: u64 = 0xFF00_0000_0000_0000;

/// The index of a side's bitboard of a kind of piece.
pub open spec fn bb_index(player: Player, piece: Piece) -> int {
    player.spec_index() * 6 + piece.spec_index()
}

/// A square seen from `player`'s side: itself for white, mirrored top to
/// bottom for black.
pub open spec fn relative_sq(player: Player, sq: int) -> int {
    match player {
        Player::White => sq,
        Player::Black => sq + 56 - 16 * rank_of(sq),
    }
}

/// Returns the square `sq` as seen from `player`'s side.
pub fn relative_square(player: Player, sq: SQ) -> (r: SQ)
    requires
        sq < 64,
    ensures
        r == relative_sq(player, sq as int),
        r < 64,
{
    match player {
        Player::White => sq,
        Player::Black => sq + 56 - 16 * (sq / 8),
    }
}

/// The index of a castling right in the castling bits.
pub open spec fn castle_bit(player: Player, side: CastleType) -> int {
    player.spec_index() * 2 + match side {
        CastleType::KingSide => 0int,
        CastleType::QueenSide => 1int,
    }
}

/// The squares that must be empty for `player` to castle on `side`.
pub open spec fn castle_path(player: Player, side: CastleType) -> u64 {
    match (player, side) {
        (Player::White, CastleType::KingSide) => 0x0000_0000_0000_0060u64,
        (Player::White, CastleType::QueenSide) => 0x0000_0000_0000_000Eu64,
        (Player::Black, CastleType::KingSide) => 0x6000_0000_0000_0000u64,
        (Player::Black, CastleType::QueenSide) => 0x0E00_0000_0000_0000u64,
    }
}

/// Whether the castling bits allow `player` to castle on `side`.
pub open spec fn castling_allows(castling: u8, player: Player, side: CastleType) -> bool {
    (castling >> (castle_bit(player, side) as u8)) & 1u8 == 1u8
}

/// The square of the king in a bitboard of kings.
pub open spec fn king_sq_in(kings: u64) -> int {
    u64_trailing_zeros(kings) as int
}

/// Whether a bitboard holds exactly one square.
pub open spec fn single(bb: u64) -> bool {
    bb != 0 && without_lowest(bb) == 0
}

/// Whether twelve piece bitboards (white's pawns, knights, bishops, rooks,
/// queens and king, then black's), a side to move, castling bits and an
/// en-passant square make a sound position: every square holds at most one
/// piece; each side has exactly one king; no pawn stands on the first or last
/// rank; the en-passant square, if any, is empty, lies on the sixth rank of
/// the side to move, and has an enemy pawn right behind it; a side that may
/// still castle has its king on its e-file home square.
pub open spec fn position_ok(bbs: Seq<u64>, turn: Player, castling: u8, ep: SQ) -> bool {
    &&& bbs.len() == 12
    &&& forall|i: int, j: int, s: int| 0 <= i < j < 12 ==> !(#[trigger] bit(bbs[i], s) && #[trigger] bit(bbs[j], s))
    &&& single(bbs[5])
    &&& single(bbs[11])
    &&& bbs[0] & (RANK_1 | RANK_8) == 0
    &&& bbs[6] & (RANK_1 | RANK_8) == 0
    &&& (ep == NO_SQ || (ep < 64 && rank_of(relative_sq(turn, ep as int)) == 5 && !bit(all_occupied_in(bbs), ep as int)))
    &&& (ep == NO_SQ || bit(bbs[bb_index(turn.spec_other(), Piece::P)], ep_captured_sq(turn, ep as int)))
    &&& forall|p: Player, side: CastleType| #[trigger] castling_allows(castling, p, side) ==>
        king_sq_in(bbs[bb_index(p, Piece::K)]) == relative_sq(p, 4)
}

/// The bitboard of `player`'s pieces of kind `piece` among twelve bitboards.
pub open spec fn piece_in(bbs: Seq<u64>, player: Player, piece: Piece) -> u64 {
    bbs[bb_index(player, piece)]
}

/// The squares occupied by `player`.
pub open spec fn occupied_in(bbs: Seq<u64>, player: Player) -> u64 {
    piece_in(bbs, player, Piece::P) | piece_in(bbs, player, Piece::N) | piece_in(bbs, player, Piece::B)
        | piece_in(bbs, player, Piece::R) | piece_in(bbs, player, Piece::Q) | piece_in(bbs, player, Piece::K)
}

/// The occupied squares.
pub open spec fn all_occupied_in(bbs: Seq<u64>) -> u64 {
    occupied_in(bbs, Player::White) | occupied_in(bbs, Player::Black)
}

/// Bishops and queens of `player`.
pub open spec fn diagonal_in(bbs: Seq<u64>, player: Player) -> u64 {
    piece_in(bbs, player, Piece::B) | piece_in(bbs, player, Piece::Q)
}

/// Rooks and queens of `player`.
pub open spec fn straight_in(bbs: Seq<u64>, player: Player) -> u64 {
    piece_in(bbs, player, Piece::R) | piece_in(bbs, player, Piece::Q)
}

/// The pieces of both sides that attack `sq` when the squares of `occ` are occupied.
pub open spec fn attackers_in(bbs: Seq<u64>, sq: int, occ: u64) -> u64 {
    (reach_bb(Reach::Pawn(Player::White), sq, 0) & piece_in(bbs, Player::Black, Piece::P))
        | (reach_bb(Reach::Pawn(Player::Black), sq, 0) & piece_in(bbs, Player::White, Piece::P))
        | (reach_bb(Reach::Knight, sq, 0) & (piece_in(bbs, Player::White, Piece::N) | piece_in(bbs, Player::Black, Piece::N)))
        | (reach_bb(Reach::Rook, sq, occ) & (straight_in(bbs, Player::White) | straight_in(bbs, Player::Black)))
        | (reach_bb(Reach::Bishop, sq, occ) & (diagonal_in(bbs, Player::White) | diagonal_in(bbs, Player::Black)))
        | (reach_bb(Reach::King, sq, 0) & (piece_in(bbs, Player::White, Piece::K) | piece_in(bbs, Player::Black, Piece::K)))
}

/// Whether a slider of `them` on `t` would attack the square `k` if nothing
/// stood in between.
pub open spec fn snipes_in(bbs: Seq<u64>, them: Player, k: int, t: int) -> bool {
    ||| bishop_line(k, t) && bit(diagonal_in(bbs, them), t)
    ||| rook_line(k, t) && bit(straight_in(bbs, them), t)
}

/// Whether the piece on `u` is the only piece strictly between `k` and `t`.
pub open spec fn shields_in(bbs: Seq<u64>, k: int, t: int, u: int) -> bool {
    &&& between(k, t, u)
    &&& bit(all_occupied_in(bbs), u)
    &&& forall|v: int| #![trigger bit(all_occupied_in(bbs), v)] between(k, t, v) && bit(all_occupied_in(bbs), v) ==> v == u
}

/// Whether the piece on `u` is the only piece between `player`'s king and an
/// enemy slider that would otherwise attack it.
pub open spec fn sole_blocker_in(bbs: Seq<u64>, player: Player, u: int) -> bool {
    let k = king_sq_in(piece_in(bbs, player, Piece::K));
    exists|t: int| #![trigger snipes_in(bbs, player.spec_other(), k, t)]
        0 <= t < 64 && snipes_in(bbs, player.spec_other(), k, t) && shields_in(bbs, k, t, u)
}

/// `sole_blocker_in` as a predicate on squares.
pub open spec fn sole_blocker_pred_in(bbs: Seq<u64>, player: Player) -> spec_fn(int) -> bool {
    |u: int| sole_blocker_in(bbs, player, u)
}

/// A chess position.
pub struct Board {
    bbs: [u64; 12],
    turn: Player,
    castling: u8,
    ep_square: SQ,
    checkers: u64,
    blockers: [u64; 2],
}

impl Board {
    /// The bitboard of `player`'s pieces of kind `piece`.
    pub open spec fn spec_piece_bb(&self, player: Player, piece: Piece) -> u64 {
        self.spec_bbs()[bb_index(player, piece)]
    }

    /// The side to move.
    pub closed spec fn spec_turn(&self) -> Player {
        self.turn
    }

    /// The en-passant square, or `NO_SQ`.
    pub closed spec fn spec_ep_square(&self) -> SQ {
        self.ep_square
    }

    /// Whether `player` still has the right to castle on `side`.
    pub closed spec fn spec_can_castle(&self, player: Player, side: CastleType) -> bool {
        castling_allows(self.castling, player, side)
    }

    /// The pieces giving check to the side to move, as recorded.
    pub closed spec fn spec_checkers(&self) -> u64 {
        self.checkers
    }

    /// The pieces that alone stand between `player`'s king and an enemy slider,
    /// as recorded.
    pub closed spec fn spec_blockers(&self, player: Player) -> u64 {
        self.blockers@[player.spec_index()]
    }

    /// The squares occupied by `player`.
    pub open spec fn occupied_by(&self, player: Player) -> u64 {
        occupied_in(self.spec_bbs(), player)
    }

    /// The occupied squares.
    pub open spec fn occupied(&self) -> u64 {
        all_occupied_in(self.spec_bbs())
    }

    /// The square of `player`'s king.
    pub open spec fn king_square(&self, player: Player) -> int {
        king_sq_in(self.spec_piece_bb(player, Piece::K))
    }

    /// Bishops and queens of `player`.
    pub open spec fn diagonal_sliders(&self, player: Player) -> u64 {
        diagonal_in(self.spec_bbs(), player)
    }

    /// Rooks and queens of `player`.
    pub open spec fn straight_sliders(&self, player: Player) -> u64 {
        straight_in(self.spec_bbs(), player)
    }

    /// The pieces of both sides that attack `sq` when the squares of `occ` are
    /// occupied.
    pub open spec fn attackers(&self, sq: int, occ: u64) -> u64 {
        attackers_in(self.spec_bbs(), sq, occ)
    }

    /// Whether a piece of `them` on `t` would attack the king square `k` along a
    /// line if nothing stood in between.
    pub open spec fn snipes(&self, them: Player, k: int, t: int) -> bool {
        snipes_in(self.spec_bbs(), them, k, t)
    }

    /// Whether the piece on `u` is the only piece between `player`'s king and an
    /// enemy slider that would otherwise attack it.
    pub open spec fn sole_blocker(&self, player: Player, u: int) -> bool {
        sole_blocker_in(self.spec_bbs(), player, u)
    }

    /// `sole_blocker` as a predicate on squares.
    pub open spec fn sole_blocker_pred(&self, player: Player) -> spec_fn(int) -> bool {
        sole_blocker_pred_in(self.spec_bbs(), player)
    }

    /// The pieces that alone stand between `player`'s king and an enemy slider.
    pub open spec fn king_blockers(&self, player: Player) -> u64 {
        bits_where(self.sole_blocker_pred(player))
    }

    /// The pieces giving check to the side to move.
    pub open spec fn checkers_of(&self) -> u64 {
        self.attackers(self.king_square(self.spec_turn()), self.occupied()) & self.occupied_by(self.spec_turn().spec_other())
    }

    /// Whether the position is sound (see [position_ok]).
    pub open spec fn sound(&self) -> bool {
        position_ok(self.spec_bbs(), self.spec_turn(), self.spec_castling(), self.spec_ep_square())
    }

    /// The board's invariant: the position is sound (see [position_ok]) and the
    /// recorded checkers and blockers are what the pieces give.
    pub open spec fn wf(&self) -> bool {
        &&& self.sound()
        &&& self.spec_checkers() == self.checkers_of()
        &&& self.spec_blockers(Player::White) == self.king_blockers(Player::White)
        &&& self.spec_blockers(Player::Black) == self.king_blockers(Player::Black)
    }

    /// The twelve piece bitboards: white's pawns, knights, bishops, rooks,
    /// queens and king, then black's.
    pub closed spec fn spec_bbs(&self) -> Seq<u64> {
        self.bbs@
    }

    /// The castling bits: bit 0 for white on the king's side, 1 for white on
    /// the queen's side, 2 and 3 likewise for black.
    pub closed spec fn spec_castling(&self) -> u8 {
        self.castling
    }

    proof fn lemma_fields(&self)
        ensures
            self.spec_bbs().len() == 12,
            forall|p: Player, pc: Piece| #[trigger] self.spec_piece_bb(p, pc) == self.spec_bbs()[bb_index(p, pc)],
            forall|p: Player, side: CastleType| #[trigger] self.spec_can_castle(p, side)
                == castling_allows(self.spec_castling(), p, side),
    {
    }

}


/// The kind of piece standing on `sq`, looking at the kinds from index `i` on.
pub open spec fn piece_on_from(bbs: Seq<u64>, sq: int, i: int) -> Option<Piece>
    decreases 6 - i,
{
    if i < 0 || i >= 6 {
        None
    } else if bit(bbs[i], sq) || bit(bbs[i + 6], sq) {
        Some(piece_at_index(i))
    } else {
        piece_on_from(bbs, sq, i + 1)
    }
}

impl Board {
    /// The kind of piece standing on `sq`, if any.
    pub open spec fn piece_on(&self, sq: int) -> Option<Piece> {
        piece_on_from(self.spec_bbs(), sq, 0)
    }

    /// Returns the side to move.
    pub fn turn(&self) -> (r: Player)
        ensures
            r == self.spec_turn(),
    {
        self.turn
    }

    /// Returns the bitboard of `player`'s pieces of kind `piece`.
    pub fn piece_bb(&self, player: Player, piece: Piece) -> (r: BitBoard)
        ensures
            r == self.spec_piece_bb(player, piece),
    {
        self.bbs[player.index() * 6 + piece.index()]
    }

    /// Returns the pieces of kinds `piece` and `piece2` of both sides.
    pub fn piece_two_bb_both_players(&self, piece: Piece, piece2: Piece) -> (r: BitBoard)
        ensures
            r == (self.spec_piece_bb(Player::White, piece) | self.spec_piece_bb(Player::Black, piece))
                | (self.spec_piece_bb(Player::White, piece2) | self.spec_piece_bb(Player::Black, piece2)),
    {
        (self.piece_bb(Player::White, piece) | self.piece_bb(Player::Black, piece))
            | (self.piece_bb(Player::White, piece2) | self.piece_bb(Player::Black, piece2))
    }

    /// Returns the squares occupied by `player`.
    pub fn get_occupied_player(&self, player: Player) -> (r: BitBoard)
        ensures
            r == self.occupied_by(player),
    {
        self.piece_bb(player, Piece::P) | self.piece_bb(player, Piece::N) | self.piece_bb(player, Piece::B)
            | self.piece_bb(player, Piece::R) | self.piece_bb(player, Piece::Q) | self.piece_bb(player, Piece::K)
    }

    /// Returns the occupied squares.
    pub fn get_occupied(&self) -> (r: BitBoard)
        ensures
            r == self.occupied(),
    {
        self.get_occupied_player(Player::White) | self.get_occupied_player(Player::Black)
    }

    /// Returns the square of `player`'s king.
    pub fn king_sq(&self, player: Player) -> (r: SQ)
        requires
            self.sound(),
        ensures
            r == self.king_square(player),
            r < 64,
            bit(self.spec_piece_bb(player, Piece::K), r as int),
    {
        let kings = self.piece_bb(player, Piece::K);
        proof {
            self.lemma_fields();
            lemma_lowest(kings);
        }
        kings.trailing_zeros() as u8
    }

    /// Returns the pieces that give check to the side to move.
    pub fn checkers(&self) -> (r: BitBoard)
        ensures
            r == self.spec_checkers(),
    {
        self.checkers
    }

    /// Returns whether the side to move is in check.
    pub fn in_check(&self) -> (r: bool)
        ensures
            r == (self.spec_checkers() != 0),
    {
        self.checkers != 0
    }

    /// Returns `player`'s pieces that alone shield `player`'s king from an enemy
    /// slider.
    pub fn pinned_pieces(&self, player: Player) -> (r: BitBoard)
        ensures
            r == self.spec_blockers(player) & self.occupied_by(player),
    {
        self.blockers[player.index()] & self.get_occupied_player(player)
    }

    /// Returns the pieces of the side to move that alone stand between one of
    /// its sliders and the enemy king: moving one of them gives check.
    pub fn discovered_check_candidates(&self) -> (r: BitBoard)
        ensures
            r == self.spec_blockers(self.spec_turn().spec_other()) & self.occupied_by(self.spec_turn()),
    {
        self.blockers[self.turn.other_player().index()] & self.get_occupied_player(self.turn)
    }

    /// Returns the kind of piece on `sq`, if any.
    pub fn piece_at_sq(&self, sq: SQ) -> (r: Option<Piece>)
        requires
            sq < 64,
        ensures
            r == self.piece_on(sq as int),
    {
        let mut i: usize = 0;
        while i < 6
            invariant
                i <= 6,
                sq < 64,
                self.spec_bbs().len() == 12,
                piece_on_from(self.spec_bbs(), sq as int, 0) == piece_on_from(self.spec_bbs(), sq as int, i as int),
            decreases 6 - i,
        {
            let here = self.bbs[i] | self.bbs[i + 6];
            proof {
                lemma_bit_ops(self.bbs@[i as int], self.bbs@[i as int + 6]);
            }
            if (here >> (sq as u64)) & 1u64 == 1u64 {
                assert(bit(here, sq as int));
                return Some(piece_of_index(i));
            }
            assert(!bit(here, sq as int));
            assert(piece_on_from(self.spec_bbs(), sq as int, i as int) == piece_on_from(self.spec_bbs(), sq as int, i as int + 1));
            i = i + 1;
        }
        None
    }

    /// Returns whether a piece stands on a square that the side to move needs
    /// empty to castle on `side`.
    pub fn castle_impeded(&self, side: CastleType) -> (r: bool)
        ensures
            r == (self.occupied() & castle_path(self.spec_turn(), side) != 0),
    {
        let path: u64 = match (self.turn, side) {
            (Player::White, CastleType::KingSide) => 0x0000_0000_0000_0060u64,
            (Player::White, CastleType::QueenSide) => 0x0000_0000_0000_000Eu64,
            (Player::Black, CastleType::KingSide) => 0x6000_0000_0000_0000u64,
            (Player::Black, CastleType::QueenSide) => 0x0E00_0000_0000_0000u64,
        };
        self.get_occupied() & path != 0
    }

    /// Returns whether `player` still has the right to castle on `side`.
    pub fn can_castle(&self, player: Player, side: CastleType) -> (r: bool)
        ensures
            r == self.spec_can_castle(player, side),
    {
        let b: u8 = (player.index() * 2) as u8 + match side {
            CastleType::KingSide => 0u8,
            CastleType::QueenSide => 1u8,
        };
        (self.castling >> b) & 1u8 == 1u8
    }

    /// Returns the home square of the rook with which the side to move castles
    /// on `side`.
    pub fn castling_rook_square(&self, side: CastleType) -> (r: SQ)
        ensures
            r == relative_sq(self.spec_turn(), match side {
                CastleType::KingSide => 7int,
                CastleType::QueenSide => 0int,
            }),
            r < 64,
    {
        match side {
            CastleType::KingSide => relative_square(self.turn, 7),
            CastleType::QueenSide => relative_square(self.turn, 0),
        }
    }

    /// Returns the en-passant square, or `NO_SQ`.
    pub fn ep_square(&self) -> (r: SQ)
        ensures
            r == self.spec_ep_square(),
    {
        self.ep_square
    }

    /// Returns the pieces of both sides that attack `sq` when the squares of
    /// `occupied` are occupied.
    pub fn attackers_to(&self, sq: SQ, occupied: BitBoard) -> (r: BitBoard)
        requires
            sq < 64,
        ensures
            r == self.attackers(sq as int, occupied),
    {
        (pawn_attacks_from(sq, Player::White) & self.piece_bb(Player::Black, Piece::P))
            | (pawn_attacks_from(sq, Player::Black) & self.piece_bb(Player::White, Piece::P))
            | (knight_moves(sq) & (self.piece_bb(Player::White, Piece::N) | self.piece_bb(Player::Black, Piece::N)))
            | (rook_moves(occupied, sq) & ((self.piece_bb(Player::White, Piece::R) | self.piece_bb(Player::White, Piece::Q))
                | (self.piece_bb(Player::Black, Piece::R) | self.piece_bb(Player::Black, Piece::Q))))
            | (bishop_moves(occupied, sq) & ((self.piece_bb(Player::White, Piece::B) | self.piece_bb(Player::White, Piece::Q))
                | (self.piece_bb(Player::Black, Piece::B) | self.piece_bb(Player::Black, Piece::Q))))
            | (king_moves(sq) & (self.piece_bb(Player::White, Piece::K) | self.piece_bb(Player::Black, Piece::K)))
    }
}


/// The bitwise and of two bitboards is empty exactly when they share no square.
pub proof fn lemma_and_zero(a: u64, b: u64)
    ensures
        (a & b == 0) <==> forall|s: int| !(#[trigger] bit(a, s) && bit(b, s)),
{
    lemma_bit_ops(a, b);
    lemma_empty_bits();
    if a & b == 0 {
        assert forall|s: int| !(#[trigger] bit(a, s) && bit(b, s)) by {
            assert(!bit(a & b, s));
        }
    }
    if forall|s: int| !(#[trigger] bit(a, s) && bit(b, s)) {
        assert forall|j: int| 0 <= j < 64 implies bit(a & b, j) == bit(0u64, j) by {
            assert(!(bit(a, j) && bit(b, j)));
        }
        lemma_bits_ext(a & b, 0);
    }
}

/// A bitboard with one square has that square only; one with more has two
/// distinct squares.
pub proof fn lemma_single(b: u64)
    requires
        b != 0,
    ensures
        single(b) ==> forall|v: int| #[trigger] bit(b, v) <==> v == u64_trailing_zeros(b) as int,
        !single(b) ==> bit(b, u64_trailing_zeros(b) as int) && bit(b, u64_trailing_zeros(without_lowest(b)) as int)
            && u64_trailing_zeros(b) != u64_trailing_zeros(without_lowest(b)),
{
    lemma_lowest(b);
    let w = without_lowest(b);
    if single(b) {
        lemma_empty_bits();
        assert forall|v: int| #[trigger] bit(b, v) <==> v == u64_trailing_zeros(b) as int by {
            assert(!bit(w, v));
        }
    } else {
        lemma_lowest(w);
        assert(bit(w, u64_trailing_zeros(w) as int));
    }
}

impl Board {
    /// Computes the pieces that alone stand between `player`'s king and an
    /// enemy slider.
    fn compute_blockers(&self, player: Player) -> (r: BitBoard)
        requires
            self.sound(),
        ensures
            r == self.king_blockers(player),
    {
        let k = self.king_sq(player);
        let them = player.other_player();
        let occ = self.get_occupied();
        let straight = self.piece_bb(them, Piece::R) | self.piece_bb(them, Piece::Q);
        let diagonal = self.piece_bb(them, Piece::B) | self.piece_bb(them, Piece::Q);
        let rook_rays = rook_moves(0, k);
        let bishop_rays = bishop_moves(0, k);
        let snipers = (rook_rays & straight) | (bishop_rays & diagonal);
        proof {
            lemma_reach_bb(Reach::Rook, k as int, 0);
            lemma_reach_bb(Reach::Bishop, k as int, 0);
            lemma_empty_bits();
            lemma_bit_ops(rook_rays, straight);
            lemma_bit_ops(bishop_rays, diagonal);
            lemma_bit_ops(rook_rays & straight, bishop_rays & diagonal);
            assert forall|t: int| 0 <= t < 64 implies (#[trigger] bit(snipers, t) <==> self.snipes(them, k as int, t)) by {
                assert(path_clear_empty(k as int, t));
            }
        }
        let mut result: u64 = 0;
        let mut t: u8 = 0;
        while t < 64
            invariant
                t <= 64,
                k < 64,
                k == self.king_square(player),
                them == player.spec_other(),
                occ == self.occupied(),
                forall|tt: int| 0 <= tt < 64 ==> (#[trigger] bit(snipers, tt) <==> self.snipes(them, k as int, tt)),
                forall|u: int| #[trigger] bit(result, u) <==> exists|tt: int| #![trigger self.snipes(them, k as int, tt)]
                    0 <= tt < t && self.snipes(them, k as int, tt) && self.shields(k as int, tt, u),
            decreases 64 - t,
        {
            let ghost old_result = result;
            if (snipers >> (t as u64)) & 1u64 == 1u64 {
                assert(bit(snipers, t as int));
                let ray = between_bb(k, t);
                let b = ray & occ;
                proof {
                    lemma_reach_bb(Reach::Between(t), k as int, 0);
                    lemma_bit_ops(ray, occ);
                    assert(forall|v: int| #[trigger] bit(b, v) <==> (between(k as int, t as int, v) && bit(occ, v)));
                }
                if b != 0 && (b & (b - 1)) == 0 {
                    result = result | b;
                    proof {
                        lemma_single(b);
                        lemma_bit_ops(old_result, b);
                        assert forall|u: int| #[trigger] bit(b, u) <==> self.shields(k as int, t as int, u) by {
                            if bit(b, u) {
                                assert forall|v: int| #![trigger bit(self.occupied(), v)]
                                    between(k as int, t as int, v) && bit(self.occupied(), v) implies v == u by {
                                    assert(bit(b, v));
                                }
                            }
                        }
                    }
                } else {
                    proof {
                        if b != 0 {
                            lemma_single(b);
                        }
                        assert forall|u: int| !self.shields(k as int, t as int, u) by {
                            if self.shields(k as int, t as int, u) {
                                assert(bit(b, u));
                                let x = u64_trailing_zeros(b) as int;
                                let y = u64_trailing_zeros(without_lowest(b)) as int;
                                assert(bit(occ, x) && between(k as int, t as int, x));
                                assert(bit(occ, y) && between(k as int, t as int, y));
                            }
                        }
                    }
                }
            } else {
                assert(!bit(snipers, t as int));
                assert(!self.snipes(them, k as int, t as int));
            }
            t = t + 1;
        }
        proof {
            lemma_bits_where(self.sole_blocker_pred(player));
            assert forall|j: int| 0 <= j < 64 implies bit(result, j) == bit(self.king_blockers(player), j) by {
                if bit(result, j) {
                    let tt = choose|tt: int| #![trigger self.snipes(them, k as int, tt)]
                        0 <= tt < 64 && self.snipes(them, k as int, tt) && self.shields(k as int, tt, j);
                    assert(self.sole_blocker(player, j));
                }
                if self.sole_blocker(player, j) {
                    let kk = king_sq_in(piece_in(self.spec_bbs(), player, Piece::K));
                    assert(kk == k as int);
                    assert(exists|tt: int| #![trigger snipes_in(self.spec_bbs(), player.spec_other(), kk, tt)]
                        0 <= tt < 64 && snipes_in(self.spec_bbs(), player.spec_other(), kk, tt) && shields_in(self.spec_bbs(), kk, tt, j));
                    let tt = choose|tt: int| #![trigger snipes_in(self.spec_bbs(), player.spec_other(), kk, tt)]
                        0 <= tt < 64 && snipes_in(self.spec_bbs(), player.spec_other(), kk, tt) && shields_in(self.spec_bbs(), kk, tt, j);
                    assert(self.snipes(them, k as int, tt));
                    assert(self.shields(k as int, tt, j));
                }
            }
            lemma_bits_ext(result, self.king_blockers(player));
        }
        result
    }

    /// Whether the piece on `u` is the only piece strictly between `k` and `t`.
    pub open spec fn shields(&self, k: int, t: int, u: int) -> bool {
        shields_in(self.spec_bbs(), k, t, u)
    }
}

/// On an empty board nothing blocks a path.
pub open spec fn path_clear_empty(s: int, t: int) -> bool {
    crate::attacks::path_clear(s, t, 0)
}


/// The twelve piece bitboards of a position given side by side.
pub open spec fn all_bbs(white: Seq<u64>, black: Seq<u64>) -> Seq<u64> {
    white + black
}

impl Board {
    /// Builds the position with the given pieces (indexed pawn, knight, bishop,
    /// rook, queen, king), side to move, castling bits (bit 0: white on the
    /// king's side, bit 1: white on the queen's side, bits 2 and 3: black) and
    /// en-passant square (`NO_SQ` for none). Returns `None` exactly when these do
    /// not make a sound position (see [position_ok]).
    pub fn new(white: [u64; 6], black: [u64; 6], turn: Player, castling: u8, ep_square: SQ) -> (r: Option<Board>)
        ensures
            r.is_some() <==> position_ok(all_bbs(white@, black@), turn, castling, ep_square),
            r matches Some(b) ==> {
                &&& b.wf()
                &&& b.spec_bbs() == all_bbs(white@, black@)
                &&& b.spec_turn() == turn
                &&& b.spec_castling() == castling
                &&& b.spec_ep_square() == ep_square
            },
    {
        let bbs: [u64; 12] = [
            white[0], white[1], white[2], white[3], white[4], white[5],
            black[0], black[1], black[2], black[3], black[4], black[5],
        ];
        assert(bbs@ =~= all_bbs(white@, black@));
        let ghost sq = bbs@;
        let mut i: usize = 0;
        while i < 12
            invariant
                i <= 12,
                bbs@ == sq,
                sq == all_bbs(white@, black@),
                sq.len() == 12,
                forall|a: int, b: int, s: int| 0 <= a < i && a < b < 12 ==> !(#[trigger] bit(sq[a], s) && #[trigger] bit(sq[b], s)),
            decreases 12 - i,
        {
            let mut j: usize = i + 1;
            while j < 12
                invariant
                    i < 12,
                    i + 1 <= j <= 12,
                    bbs@ == sq,
                    sq == all_bbs(white@, black@),
                    sq.len() == 12,
                    forall|a: int, b: int, s: int| 0 <= a < i && a < b < 12 ==> !(#[trigger] bit(sq[a], s) && #[trigger] bit(sq[b], s)),
                    forall|b: int, s: int| i < b < j ==> !(#[trigger] bit(sq[i as int], s) && #[trigger] bit(sq[b], s)),
                decreases 12 - j,
            {
                proof {
                    lemma_and_zero(sq[i as int], sq[j as int]);
                }
                if bbs[i] & bbs[j] != 0 {
                    proof {
                        let s = choose|s: int| bit(sq[i as int], s) && bit(sq[j as int], s);
                        assert(bit(sq[i as int], s) && bit(sq[j as int], s));
                        assert(!position_ok(all_bbs(white@, black@), turn, castling, ep_square)) by {
                            assert(all_bbs(white@, black@) == sq);
                        }
                    }
                    return None;
                }
                j = j + 1;
            }
            i = i + 1;
        }
        if !(bbs[5] != 0 && (bbs[5] & (bbs[5] - 1)) == 0) || !(bbs[11] != 0 && (bbs[11] & (bbs[11] - 1)) == 0) {
            return None;
        }
        if bbs[0] & (RANK_1 | RANK_8) != 0 || bbs[6] & (RANK_1 | RANK_8) != 0 {
            return None;
        }
        if ep_square != NO_SQ {
            if ep_square >= 64 {
                return None;
            }
            if relative_square(turn, ep_square) / 8 != 5 {
                return None;
            }
        }
        if ep_square != NO_SQ {
            let (cap, pawns): (u8, u64) = match turn {
                Player::White => (ep_square - 8, bbs[6]),
                Player::Black => (ep_square + 8, bbs[0]),
            };
            if (pawns >> (cap as u64)) & 1u64 != 1u64 {
                return None;
            }
        }
        let mut board = Board { bbs, turn, castling, ep_square, checkers: 0, blockers: [0, 0] };
        proof {
            board.lemma_fields();
        }
        if ep_square != NO_SQ && (board.get_occupied() >> (ep_square as u64)) & 1u64 == 1u64 {
            assert(bit(all_occupied_in(sq), ep_square as int));
            return None;
        }
        let wk = board.king_sq_unchecked(Player::White);
        let bk = board.king_sq_unchecked(Player::Black);
        let ok_white = wk == 4 || !(board.can_castle(Player::White, CastleType::KingSide)
            || board.can_castle(Player::White, CastleType::QueenSide));
        let ok_black = bk == 60 || !(board.can_castle(Player::Black, CastleType::KingSide)
            || board.can_castle(Player::Black, CastleType::QueenSide));
        if !ok_white || !ok_black {
            proof {
                if !ok_white {
                    if board.spec_can_castle(Player::White, CastleType::KingSide) {
                        assert(castling_allows(castling, Player::White, CastleType::KingSide));
                    } else {
                        assert(castling_allows(castling, Player::White, CastleType::QueenSide));
                    }
                } else {
                    if board.spec_can_castle(Player::Black, CastleType::KingSide) {
                        assert(castling_allows(castling, Player::Black, CastleType::KingSide));
                    } else {
                        assert(castling_allows(castling, Player::Black, CastleType::QueenSide));
                    }
                }
            }
            return None;
        }
        proof {
            assert forall|p: Player, side: CastleType| #[trigger] castling_allows(castling, p, side) implies
                king_sq_in(sq[bb_index(p, Piece::K)]) == relative_sq(p, 4) by {
                assert(board.spec_can_castle(p, side));
                match p {
                    Player::White => {
                        match side {
                            CastleType::KingSide => {},
                            CastleType::QueenSide => {},
                        }
                    },
                    Player::Black => {
                        match side {
                            CastleType::KingSide => {},
                            CastleType::QueenSide => {},
                        }
                    },
                }
            }
            assert(board.sound());
        }
        let white_blockers = board.compute_blockers(Player::White);
        let black_blockers = board.compute_blockers(Player::Black);
        let k = board.king_sq(turn);
        let occ = board.get_occupied();
        let checkers = board.attackers_to(k, occ) & board.get_occupied_player(turn.other_player());
        let b = Board { bbs, turn, castling, ep_square, checkers, blockers: [white_blockers, black_blockers] };
        proof {
            b.lemma_fields();
            assert(b.spec_bbs() == board.spec_bbs());

        }
        Some(b)
    }

    /// The square of `player`'s king, on a board whose kings are known to be single.
    fn king_sq_unchecked(&self, player: Player) -> (r: SQ)
        requires
            single(self.spec_piece_bb(player, Piece::K)),
        ensures
            r == self.king_square(player),
            r < 64,
    {
        let kings = self.piece_bb(player, Piece::K);
        proof {
            lemma_lowest(kings);
        }
        kings.trailing_zeros() as u8
    }
}


/// The square of the pawn that an en-passant capture to `dst` by `us` takes.
pub open spec fn ep_captured_sq(us: Player, dst: int) -> int {
    match us {
        Player::White => dst - 8,
        Player::Black => dst + 8,
    }
}

impl Board {
    /// Whether `m`, a move of the side to move, leaves its king safe: an
    /// en-passant capture must not uncover a slider on the king; a king move
    /// must be castling or go to a square no enemy piece attacks; any other
    /// piece must not be pinned, or must move along the line of its pin. A move
    /// from an empty square is not legal.
    pub open spec fn is_legal(&self, m: BitMove) -> bool {
        let us = self.spec_turn();
        let them = us.spec_other();
        let src = m.spec_src();
        let dst = m.spec_dst();
        let ksq = self.king_square(us);
        if m.spec_flag_bits() == 5 {
            let cap = ep_captured_sq(us, dst);
            if cap < 0 || cap >= 64 {
                false
            } else {
                let occ2 = (self.occupied() ^ sq_bb(src) ^ sq_bb(cap)) | sq_bb(dst);
                &&& reach_bb(Reach::Rook, ksq, occ2) & self.straight_sliders(them) == 0
                &&& reach_bb(Reach::Bishop, ksq, occ2) & self.diagonal_sliders(them) == 0
            }
        } else {
            match self.piece_on(src) {
                None => false,
                Some(Piece::K) => (m.spec_flag_bits() == 2 || m.spec_flag_bits() == 3)
                    || self.attackers(dst, self.occupied()) & self.occupied_by(them) == 0,
                Some(_) => (self.spec_blockers(us) & self.occupied_by(us)) & sq_bb(src) == 0
                    || (aligned_pair(src, dst) && on_line(src, dst, ksq)),
            }
        }
    }

    /// Returns whether `m`, a move of the side to move, leaves its king safe
    /// (see [Board::is_legal]).
    pub fn legal_move(&self, m: BitMove) -> (r: bool)
        requires
            self.wf(),
        ensures
            r == self.is_legal(m),
    {
        let us = self.turn;
        let them = us.other_player();
        let src = m.get_src();
        let dst = m.get_dest();
        let ksq = self.king_sq(us);
        if m.is_en_passant() {
            let cap: u8 = match us {
                Player::White => {
                    if dst < 8 {
                        return false;
                    }
                    dst - 8
                },
                Player::Black => {
                    if dst >= 56 {
                        return false;
                    }
                    dst + 8
                },
            };
            let occ2 = (self.get_occupied() ^ sq_to_bb(src) ^ sq_to_bb(cap)) | sq_to_bb(dst);
            let straight = self.piece_bb(them, Piece::R) | self.piece_bb(them, Piece::Q);
            let diagonal = self.piece_bb(them, Piece::B) | self.piece_bb(them, Piece::Q);
            return (rook_moves(occ2, ksq) & straight) == 0 && (bishop_moves(occ2, ksq) & diagonal) == 0;
        }
        match self.piece_at_sq(src) {
            None => false,
            Some(Piece::K) => m.is_castle()
                || (self.attackers_to(dst, self.get_occupied()) & self.get_occupied_player(them)) == 0,
            Some(_) => (self.pinned_pieces(us) & sq_to_bb(src)) == 0 || aligned(src, dst, ksq),
        }
    }
}


impl Board {
    /// An occupied square holds some kind of piece.
    pub proof fn lemma_occupied_piece(&self, s: int)
        requires
            self.spec_bbs().len() == 12,
            bit(self.occupied(), s),
        ensures
            self.piece_on(s).is_some(),
    {
        let bbs = self.spec_bbs();
        lemma_bit_ops(occupied_in(bbs, Player::White), occupied_in(bbs, Player::Black));
        let w = occupied_in(bbs, Player::White);
        let b = occupied_in(bbs, Player::Black);
        lemma_bit_ops(bbs[0], bbs[1]);
        lemma_bit_ops(bbs[0] | bbs[1], bbs[2]);
        lemma_bit_ops(bbs[0] | bbs[1] | bbs[2], bbs[3]);
        lemma_bit_ops(bbs[0] | bbs[1] | bbs[2] | bbs[3], bbs[4]);
        lemma_bit_ops(bbs[0] | bbs[1] | bbs[2] | bbs[3] | bbs[4], bbs[5]);
        lemma_bit_ops(bbs[6], bbs[7]);
        lemma_bit_ops(bbs[6] | bbs[7], bbs[8]);
        lemma_bit_ops(bbs[6] | bbs[7] | bbs[8], bbs[9]);
        lemma_bit_ops(bbs[6] | bbs[7] | bbs[8] | bbs[9], bbs[10]);
        lemma_bit_ops(bbs[6] | bbs[7] | bbs[8] | bbs[9] | bbs[10], bbs[11]);
        if bit(bbs[0], s) || bit(bbs[6], s) { assert(kind_on(bbs, s, 0)); }
        if bit(bbs[1], s) || bit(bbs[7], s) { assert(kind_on(bbs, s, 1)); }
        if bit(bbs[2], s) || bit(bbs[8], s) { assert(kind_on(bbs, s, 2)); }
        if bit(bbs[3], s) || bit(bbs[9], s) { assert(kind_on(bbs, s, 3)); }
        if bit(bbs[4], s) || bit(bbs[10], s) { assert(kind_on(bbs, s, 4)); }
        if bit(bbs[5], s) || bit(bbs[11], s) { assert(kind_on(bbs, s, 5)); }
        lemma_piece_on_from_some(bbs, s, 0);
    }

    /// A side that may castle has its king on its e-file home square.
    pub proof fn lemma_castle_king(&self, player: Player, side: CastleType)
        requires
            self.sound(),
            self.spec_can_castle(player, side),
        ensures
            self.king_square(player) == relative_sq(player, 4),
    {
        assert(castling_allows(self.spec_castling(), player, side));
    }

    /// The en-passant square, when there is one, lies on the sixth rank of the
    /// side to move.
    pub proof fn lemma_ep_square(&self)
        requires
            self.sound(),
        ensures
            self.spec_ep_square() != NO_SQ ==> match self.spec_turn() {
                Player::White => 40 <= self.spec_ep_square() < 48,
                Player::Black => 16 <= self.spec_ep_square() < 24,
            },
    {
    }
}


/// Whether a piece of the kind with index `j` (of either side) stands on `s`.
pub open spec fn kind_on(bbs: Seq<u64>, s: int, j: int) -> bool {
    bit(bbs[j], s) || bit(bbs[j + 6], s)
}

/// When some kind from index `i` on stands on `s`, looking from `i` finds one.
pub proof fn lemma_piece_on_from_some(bbs: Seq<u64>, s: int, i: int)
    requires
        0 <= i <= 6,
        bbs.len() == 12,
        exists|j: int| i <= j < 6 && #[trigger] kind_on(bbs, s, j),
    ensures
        piece_on_from(bbs, s, i).is_some(),
    decreases 6 - i,
{
    if !(bit(bbs[i], s) || bit(bbs[i + 6], s)) {
        let j = choose|j: int| i <= j < 6 && #[trigger] kind_on(bbs, s, j);
        assert(j != i);
        lemma_piece_on_from_some(bbs, s, i + 1);
    }
}


/// A square is occupied by a side exactly when one of the side's six bitboards
/// holds it.
pub proof fn lemma_occupied_in_bits(bbs: Seq<u64>, player: Player)
    ensures
        forall|s: int| #![trigger bit(occupied_in(bbs, player), s)] bit(occupied_in(bbs, player), s) <==> (
            bit(piece_in(bbs, player, Piece::P), s) || bit(piece_in(bbs, player, Piece::N), s)
            || bit(piece_in(bbs, player, Piece::B), s) || bit(piece_in(bbs, player, Piece::R), s)
            || bit(piece_in(bbs, player, Piece::Q), s) || bit(piece_in(bbs, player, Piece::K), s)),
        forall|s: int| #![trigger bit(all_occupied_in(bbs), s)] bit(all_occupied_in(bbs), s) <==> (
            bit(occupied_in(bbs, Player::White), s) || bit(occupied_in(bbs, Player::Black), s)),
{
    let p = piece_in(bbs, player, Piece::P);
    let n = piece_in(bbs, player, Piece::N);
    let b = piece_in(bbs, player, Piece::B);
    let r = piece_in(bbs, player, Piece::R);
    let q = piece_in(bbs, player, Piece::Q);
    let k = piece_in(bbs, player, Piece::K);
    lemma_bit_ops(p, n);
    lemma_bit_ops(p | n, b);
    lemma_bit_ops(p | n | b, r);
    lemma_bit_ops(p | n | b | r, q);
    lemma_bit_ops(p | n | b | r | q, k);
    lemma_bit_ops(occupied_in(bbs, Player::White), occupied_in(bbs, Player::Black));
}

impl Board {
    /// A piece of a side occupies its square for that side, and the square is
    /// occupied.
    pub proof fn lemma_piece_occupies(&self, player: Player, piece: Piece, s: int)
        requires
            bit(self.spec_piece_bb(player, piece), s),
        ensures
            bit(self.occupied_by(player), s),
            bit(self.occupied(), s),
    {
        lemma_occupied_in_bits(self.spec_bbs(), player);
        lemma_occupied_in_bits(self.spec_bbs(), Player::White);
        lemma_occupied_in_bits(self.spec_bbs(), Player::Black);
        assert(piece_in(self.spec_bbs(), player, piece) == self.spec_piece_bb(player, piece));
        match piece {
            Piece::P => {},
            Piece::N => {},
            Piece::B => {},
            Piece::R => {},
            Piece::Q => {},
            Piece::K => {},
        }
        match player {
            Player::White => {},
            Player::Black => {},
        }
    }

    /// Each side's squares are occupied, and no square is occupied by both sides.
    pub proof fn lemma_sides(&self)
        requires
            self.sound(),
        ensures
            forall|s: int| #[trigger] bit(self.occupied_by(Player::White), s) ==> bit(self.occupied(), s),
            forall|s: int| #[trigger] bit(self.occupied_by(Player::Black), s) ==> bit(self.occupied(), s),
            forall|s: int| #![trigger bit(self.occupied_by(Player::White), s), bit(self.occupied_by(Player::Black), s)]
                !(bit(self.occupied_by(Player::White), s) && bit(self.occupied_by(Player::Black), s)),
    {
        let bbs = self.spec_bbs();
        lemma_occupied_in_bits(bbs, Player::White);
        lemma_occupied_in_bits(bbs, Player::Black);
        assert forall|s: int| #![trigger bit(self.occupied_by(Player::White), s), bit(self.occupied_by(Player::Black), s)]
            !(bit(self.occupied_by(Player::White), s) && bit(self.occupied_by(Player::Black), s)) by {
            if bit(self.occupied_by(Player::White), s) && bit(self.occupied_by(Player::Black), s) {
                let i: int = if bit(bbs[0], s) { 0 } else if bit(bbs[1], s) { 1 } else if bit(bbs[2], s) { 2 }
                    else if bit(bbs[3], s) { 3 } else if bit(bbs[4], s) { 4 } else { 5 };
                let j: int = if bit(bbs[6], s) { 6 } else if bit(bbs[7], s) { 7 } else if bit(bbs[8], s) { 8 }
                    else if bit(bbs[9], s) { 9 } else if bit(bbs[10], s) { 10 } else { 11 };
                assert(bit(bbs[i], s) && bit(bbs[j], s));
                assert(i < j);
            }
        }
    }

    /// The king of a sound board stands on its square.
    pub proof fn lemma_king_on_square(&self, player: Player)
        requires
            self.sound(),
        ensures
            bit(self.spec_piece_bb(player, Piece::K), self.king_square(player)),
            bit(self.occupied_by(player), self.king_square(player)),
            0 <= self.king_square(player) < 64,
    {
        lemma_lowest(self.spec_piece_bb(player, Piece::K));
        self.lemma_piece_occupies(player, Piece::K, self.king_square(player));
    }

    /// The en-passant square, when there is one, is empty.
    pub proof fn lemma_ep_empty(&self)
        requires
            self.sound(),
        ensures
            self.spec_ep_square() != NO_SQ ==> !bit(self.occupied(), self.spec_ep_square() as int),
    {
    }
}

} // verus!
