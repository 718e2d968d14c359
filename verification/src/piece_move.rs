//! The compact 16-bit encoding of a chess move.

use vstd::prelude::*;
use crate::bitboard::SQ;
use crate::templates::Piece;

verus! {

/// What kind of move a move is, with the details its kind needs.
#[derive(Copy, Clone, Debug, PartialEq, Eq, Structural)]
pub enum MoveFlag {
    /// A pawn reaching the last rank and becoming `prom`, capturing or not.
    Promotion { capture: bool, prom: Piece },
    /// Castling, on the king's side or the queen's side.
    Castle { king_side: bool },
    /// A pawn advancing two squares.
    DoublePawnPush,
    /// A capture, possibly en passant.
    Capture { ep_capture: bool },
    /// Any other move.
    QuietMove,
}

/// What a move is built from: its source and destination squares and its flag.
#[derive(Copy, Clone, Debug, PartialEq, Eq, Structural)]
pub struct PreMoveInfo {
    pub src: SQ,
    pub dst: SQ,
    pub flags: MoveFlag,
}

/// The four bits that encode a move's flag.
pub open spec fn flag_bits(flag: MoveFlag) -> int {
    match flag {
        MoveFlag::Promotion { capture, prom } => {
            let p: int = match prom {
                Piece::N => 0,
                Piece::B => 1,
                Piece::R => 2,
                _ => 3,
            };
            8 + (if capture { 4int } else { 0int }) + p
        },
        MoveFlag::Castle { king_side } => if king_side { 2 } else { 3 },
        MoveFlag::DoublePawnPush => 1,
        MoveFlag::Capture { ep_capture } => if ep_capture { 5 } else { 4 },
        MoveFlag::QuietMove => 0,
    }
}

/// The encoding of a move with the given squares and flag.
pub open spec fn encode(src: int, dst: int, flag: MoveFlag) -> u16 {
    (flag_bits(flag) * 4096 + dst * 64 + src) as u16
}

/// A move packed into 16 bits: source square in bits 0..6, destination square
/// in bits 6..12 and the move's flag in bits 12..16.
#[derive(Copy, Clone, Debug, PartialEq, Eq, Structural)]
pub struct BitMove {
    data: u16,
}

/// The move with the given squares and flag.
pub open spec fn spec_move(src: int, dst: int, flag: MoveFlag) -> BitMove {
    BitMove::spec_new(encode(src, dst, flag))
}

impl BitMove {
    /// The raw 16 bits of the move.
    pub closed spec fn spec_raw(self) -> u16 {
        self.data
    }

    /// The move with the given raw encoding.
    pub closed spec fn spec_new(data: u16) -> BitMove {
        BitMove { data }
    }

    /// The null move.
    pub open spec fn spec_null() -> BitMove {
        Self::spec_new(0)
    }

    /// The move's source square.
    pub open spec fn spec_src(self) -> int {
        (self.spec_raw() % 64) as int
    }

    /// The move's destination square.
    pub open spec fn spec_dst(self) -> int {
        ((self.spec_raw() / 64) % 64) as int
    }

    /// The move's four flag bits.
    pub open spec fn spec_flag_bits(self) -> int {
        (self.spec_raw() / 4096) as int
    }

    /// Decoding gives back what was encoded.
    pub proof fn lemma_encode(src: int, dst: int, flag: MoveFlag)
        requires
            0 <= src < 64,
            0 <= dst < 64,
        ensures
            spec_move(src, dst, flag).spec_src() == src,
            spec_move(src, dst, flag).spec_dst() == dst,
            spec_move(src, dst, flag).spec_flag_bits() == flag_bits(flag),
            flag_bits(flag) < 16,
    {
        let f = flag_bits(flag);
        assert(f * 4096 + dst * 64 + src < 65536);
        assert((f * 4096 + dst * 64 + src) % 64 == src) by (nonlinear_arith)
            requires 0 <= src < 64, 0 <= dst < 64, 0 <= f < 16;
        assert(((f * 4096 + dst * 64 + src) / 64) % 64 == dst) by (nonlinear_arith)
            requires 0 <= src < 64, 0 <= dst < 64, 0 <= f < 16;
        assert((f * 4096 + dst * 64 + src) / 4096 == f) by (nonlinear_arith)
            requires 0 <= src < 64, 0 <= dst < 64, 0 <= f < 16;
    }

    /// Creates a move from its raw 16-bit encoding.
    pub fn new(input: u16) -> (m: BitMove)
        ensures
            m.spec_raw() == input,
            m == Self::spec_new(input),
    {
        BitMove { data: input }
    }

    /// The null move, whose encoding is all zero bits.
    pub fn null() -> (m: BitMove)
        ensures
            m.spec_raw() == 0,
            m == Self::spec_null(),
    {
        BitMove { data: 0 }
    }

    /// Creates a move from its squares and flag.
    pub fn init(info: PreMoveInfo) -> (m: BitMove)
        requires
            info.src < 64,
            info.dst < 64,
        ensures
            m == spec_move(info.src as int, info.dst as int, info.flags),
    {
        let flags: u16 = match info.flags {
            MoveFlag::Promotion { capture, prom } => {
                let p: u16 = match prom {
                    Piece::N => 0,
                    Piece::B => 1,
                    Piece::R => 2,
                    _ => 3,
                };
                8 + (if capture { 4u16 } else { 0u16 }) + p
            },
            MoveFlag::Castle { king_side } => if king_side { 2 } else { 3 },
            MoveFlag::DoublePawnPush => 1,
            MoveFlag::Capture { ep_capture } => if ep_capture { 5 } else { 4 },
            MoveFlag::QuietMove => 0,
        };
        BitMove { data: flags * 4096 + (info.dst as u16) * 64 + (info.src as u16) }
    }

    /// Returns the raw 16-bit encoding of the move.
    pub fn get_raw(&self) -> (r: u16)
        ensures
            r == self.spec_raw(),
    {
        self.data
    }

    /// Returns whether this is the null move.
    pub fn is_null(&self) -> (r: bool)
        ensures
            r == (self.spec_raw() == 0),
    {
        self.data == 0
    }

    /// Returns the source square.
    pub fn get_src(&self) -> (r: SQ)
        ensures
            r == self.spec_src(),
            r < 64,
    {
        (self.data % 64) as u8
    }

    /// Returns the destination square.
    pub fn get_dest(&self) -> (r: SQ)
        ensures
            r == self.spec_dst(),
            r < 64,
    {
        ((self.data / 64) % 64) as u8
    }

    /// Returns whether the move is castling.
    pub fn is_castle(&self) -> (r: bool)
        ensures
            r == (self.spec_flag_bits() == 2 || self.spec_flag_bits() == 3),
    {
        let f = self.data / 4096;
        f == 2 || f == 3
    }

    /// Returns whether the move is an en-passant capture.
    pub fn is_en_passant(&self) -> (r: bool)
        ensures
            r == (self.spec_flag_bits() == 5),
    {
        self.data / 4096 == 5
    }
}

} // verus!
