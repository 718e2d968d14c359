//! Bitboards: sets of squares of the chess board held in the 64 bits of a
//! `u64`, square `s` being bit `s` (a1 = 0, b1 = 1, ..., h8 = 63).

use vstd::prelude::*;
use vstd::std_specs::bits::{u64_trailing_zeros, axiom_u64_trailing_zeros};

verus! {

/// A set of squares, one bit per square.
pub type BitBoard = u64;

/// A square index: `file + 8 * rank`, below 64 for a square of the board.
pub type SQ = u8;

/// The square index that stands for "no square".
pub const NO_SQ: SQ = 64;

/// Whether square `s` is in the bitboard `bb`.
pub open spec fn bit(bb: u64, s: int) -> bool {
    0 <= s < 64 && (bb >> (s as u64)) & 1u64 == 1u64
}

/// The bitboard with the lowest square of `bb` removed.
pub open spec fn without_lowest(bb: u64) -> u64 {
    bb & ((bb - 1) as u64)
}

/// The squares of `bb` from the lowest to the highest.
pub open spec fn squares_of(bb: u64) -> Seq<u8>
    decreases bb,
{
    if bb == 0 {
        Seq::empty()
    } else {
        proof {
            lemma_without_lowest_smaller(bb);
        }
        seq![u64_trailing_zeros(bb) as u8] + squares_of(without_lowest(bb))
    }
}

/// Removing the lowest square makes a non-empty bitboard smaller.
pub proof fn lemma_without_lowest_smaller(bb: u64)
    requires
        bb != 0,
    ensures
        without_lowest(bb) < bb,
{
    assert(bb != 0 ==> bb & ((bb - 1) as u64) < bb) by (bit_vector);
}

/// Removing the lowest square of a non-empty bitboard clears exactly the bit of
/// its lowest square, which is set, while every bit below it is clear.
pub proof fn lemma_lowest(bb: u64)
    requires
        bb != 0,
    ensures
        u64_trailing_zeros(bb) < 64,
        bit(bb, u64_trailing_zeros(bb) as int),
        forall|j: int| 0 <= j < u64_trailing_zeros(bb) ==> !bit(bb, j),
        forall|j: int| #![trigger bit(without_lowest(bb), j)]
            bit(without_lowest(bb), j) <==> (bit(bb, j) && j != u64_trailing_zeros(bb)),
{
    axiom_u64_trailing_zeros(bb);
    let t = u64_trailing_zeros(bb) as u64;
    assert(t < 64);
    assert forall|j: int| 0 <= j < u64_trailing_zeros(bb) implies !bit(bb, j) by {
        let jj = j as u64;
        assert((bb >> jj) & 1u64 == 0u64);
    }
    assert(bb << ((64 - t) as u64) == 0);
    assert forall|j: int| #![trigger bit(without_lowest(bb), j)]
        bit(without_lowest(bb), j) <==> (bit(bb, j) && j != u64_trailing_zeros(bb)) by {
        if 0 <= j < 64 {
            let jj = j as u64;
            assert(t < 64 && jj < 64 && (bb >> t) & 1u64 == 1u64 && bb << ((64 - t) as u64) == 0 ==>
                (((bb & ((bb - 1) as u64)) >> jj) & 1u64 == 1u64 <==> ((bb >> jj) & 1u64 == 1u64 && jj != t)))
                by (bit_vector);
        }
    }
}

/// The squares of a bitboard are exactly its set bits, each once, in
/// increasing order.
pub proof fn lemma_squares_of(bb: u64)
    ensures
        forall|i: int| 0 <= i < squares_of(bb).len() ==> #[trigger] squares_of(bb)[i] < 64,
        forall|i: int| 0 <= i < squares_of(bb).len() ==> bit(bb, #[trigger] squares_of(bb)[i] as int),
        forall|s: int| bit(bb, s) ==> #[trigger] squares_of(bb).contains(s as u8),
        forall|i: int, j: int| 0 <= i < j < squares_of(bb).len() ==>
            #[trigger] squares_of(bb)[i] < #[trigger] squares_of(bb)[j],
    decreases bb,
{
    if bb != 0 {
        lemma_lowest(bb);
        lemma_without_lowest_smaller(bb);
        let rest = without_lowest(bb);
        lemma_squares_of(rest);
        let t = u64_trailing_zeros(bb) as u8;
        let sq = squares_of(bb);
        assert(sq == seq![t] + squares_of(rest));
        assert forall|i: int| 0 <= i < sq.len() implies bit(bb, #[trigger] sq[i] as int) by {
            if i > 0 {
                assert(sq[i] == squares_of(rest)[i - 1]);
                assert(bit(rest, sq[i] as int));
            }
        }
        assert forall|s: int| bit(bb, s) implies #[trigger] sq.contains(s as u8) by {
            if s == t as int {
                assert(sq[0] == s as u8);
            } else {
                assert(bit(rest, s));
                assert(squares_of(rest).contains(s as u8));
                let k = choose|k: int| 0 <= k < squares_of(rest).len() && squares_of(rest)[k] == s as u8;
                assert(sq[k + 1] == s as u8);
            }
        }
        assert forall|i: int, j: int| 0 <= i < j < sq.len() implies #[trigger] sq[i] < #[trigger] sq[j] by {
            if i == 0 {
                assert(sq[j] == squares_of(rest)[j - 1]);
                assert(bit(rest, sq[j] as int));
                assert(bit(bb, sq[j] as int));
                assert(sq[j] as int != t as int);
                if (sq[j] as int) < t as int {
                    assert(!bit(bb, sq[j] as int));
                }
            } else {
                assert(sq[i] == squares_of(rest)[i - 1]);
                assert(sq[j] == squares_of(rest)[j - 1]);
            }
        }
    } else {
        lemma_empty_bits();
    }
}

/// The empty bitboard has no squares.
pub proof fn lemma_empty_bits()
    ensures
        forall|j: int| !#[trigger] bit(0u64, j),
{
    assert forall|j: int| !#[trigger] bit(0u64, j) by {
        if 0 <= j < 64 {
            let jj = j as u64;
            assert((0u64 >> jj) & 1u64 == 0u64) by (bit_vector);
        }
    }
}

/// Takes the lowest square out of a non-empty bitboard and returns it.
pub fn pop_lsb(bb: &mut u64) -> (s: SQ)
    requires
        *old(bb) != 0,
    ensures
        squares_of(*old(bb)) == seq![s] + squares_of(*final(bb)),
        s < 64,
        s == u64_trailing_zeros(*old(bb)),
        *final(bb) == without_lowest(*old(bb)),
        bit(*old(bb), s as int),
        forall|j: int| #[trigger] bit(*final(bb), j) ==> bit(*old(bb), j),
{
    proof {
        lemma_lowest(*old(bb));
    }
    let s = bb.trailing_zeros() as u8;
    *bb = *bb & (*bb - 1);
    s
}

/// The bitboard holding only square `s`.
pub open spec fn sq_bb(s: int) -> u64 {
    1u64 << (s as u64)
}

/// Returns the bitboard holding only square `s`.
pub fn sq_to_bb(s: SQ) -> (r: BitBoard)
    requires
        s < 64,
    ensures
        r == sq_bb(s as int),
        forall|j: int| #![trigger bit(r, j)] bit(r, j) <==> j == s,
{
    proof {
        lemma_single_bit(s as u64);
    }
    1u64 << s
}

/// The only bit of `1 << s` is `s`.
pub proof fn lemma_single_bit(s: u64)
    requires
        s < 64,
    ensures
        forall|j: int| #![trigger bit(1u64 << s, j)] bit(1u64 << s, j) <==> j == s,
{
    assert forall|j: int| #![trigger bit(1u64 << s, j)] bit(1u64 << s, j) <==> j == s by {
        if 0 <= j < 64 {
            let jj = j as u64;
            assert(s < 64 && jj < 64 ==> (((1u64 << s) >> jj) & 1u64 == 1u64 <==> jj == s)) by (bit_vector);
        }
    }
}

/// Bits of the bitwise operations.
pub proof fn lemma_bit_ops(a: u64, b: u64)
    ensures
        forall|j: int| #![trigger bit(a & b, j)] bit(a & b, j) <==> bit(a, j) && bit(b, j),
        forall|j: int| #![trigger bit(a | b, j)] bit(a | b, j) <==> bit(a, j) || bit(b, j),
        forall|j: int| #![trigger bit(a ^ b, j)] bit(a ^ b, j) <==> bit(a, j) != bit(b, j),
        forall|j: int| #![trigger bit(!a, j)] 0 <= j < 64 ==> (bit(!a, j) <==> !bit(a, j)),
{
    assert forall|j: int| #![trigger bit(a & b, j)] bit(a & b, j) <==> bit(a, j) && bit(b, j) by {
        if 0 <= j < 64 {
            let jj = j as u64;
            assert(((a & b) >> jj) & 1u64 == 1u64 <==> ((a >> jj) & 1u64 == 1u64 && (b >> jj) & 1u64 == 1u64))
                by (bit_vector);
        }
    }
    assert forall|j: int| #![trigger bit(a | b, j)] bit(a | b, j) <==> bit(a, j) || bit(b, j) by {
        if 0 <= j < 64 {
            let jj = j as u64;
            assert(((a | b) >> jj) & 1u64 == 1u64 <==> ((a >> jj) & 1u64 == 1u64 || (b >> jj) & 1u64 == 1u64))
                by (bit_vector);
        }
    }
    assert forall|j: int| #![trigger bit(a ^ b, j)] bit(a ^ b, j) <==> bit(a, j) != bit(b, j) by {
        if 0 <= j < 64 {
            let jj = j as u64;
            assert(((a ^ b) >> jj) & 1u64 == 1u64 <==> ((a >> jj) & 1u64 == 1u64) != ((b >> jj) & 1u64 == 1u64))
                by (bit_vector);
        }
    }
    assert forall|j: int| #![trigger bit(!a, j)] 0 <= j < 64 implies (bit(!a, j) <==> !bit(a, j)) by {
        let jj = j as u64;
        assert(jj < 64 ==> (((!a) >> jj) & 1u64 == 1u64 <==> !((a >> jj) & 1u64 == 1u64))) by (bit_vector);
    }
}

/// Two bitboards with the same squares are equal.
pub proof fn lemma_bits_ext(a: u64, b: u64)
    requires
        forall|j: int| 0 <= j < 64 ==> bit(a, j) == bit(b, j),
    ensures
        a == b,
{
    let x = a ^ b;
    if x != 0 {
        lemma_lowest(x);
        lemma_bit_ops(a, b);
        let t = u64_trailing_zeros(x) as int;
        assert(bit(x, t));
        assert(bit(a, t) == bit(b, t));
    }
    assert(a ^ b == 0 ==> a == b) by (bit_vector);
}

/// The bitboard of the squares below `n` that satisfy `f`.
pub open spec fn bits_below(f: spec_fn(int) -> bool, n: int) -> u64
    decreases n,
{
    if n <= 0 {
        0
    } else if f(n - 1) {
        bits_below(f, n - 1) | sq_bb(n - 1)
    } else {
        bits_below(f, n - 1)
    }
}

/// The bitboard of the squares that satisfy `f`.
pub open spec fn bits_where(f: spec_fn(int) -> bool) -> u64 {
    bits_below(f, 64)
}

/// The squares of `bits_below(f, n)` are the squares below `n` satisfying `f`.
pub proof fn lemma_bits_below(f: spec_fn(int) -> bool, n: int)
    requires
        0 <= n <= 64,
    ensures
        forall|j: int| #![trigger bit(bits_below(f, n), j)] bit(bits_below(f, n), j) <==> (0 <= j < n && f(j)),
    decreases n,
{
    if n <= 0 {
        lemma_empty_bits();
    } else {
        lemma_bits_below(f, n - 1);
        lemma_single_bit((n - 1) as u64);
        lemma_bit_ops(bits_below(f, n - 1), sq_bb(n - 1));
    }
}

/// The squares of `bits_where(f)` are the squares satisfying `f`.
pub proof fn lemma_bits_where(f: spec_fn(int) -> bool)
    ensures
        forall|j: int| #![trigger bit(bits_where(f), j)] bit(bits_where(f), j) <==> (0 <= j < 64 && f(j)),
{
    lemma_bits_below(f, 64);
}


/// The bits of a left shift: square `d` of `x << k` is square `d - k` of `x`.
pub proof fn lemma_shl_bits(x: u64, k: u64)
    requires
        k < 64,
    ensures
        forall|d: int| #![trigger bit(x << k, d)] bit(x << k, d) <==> (k <= d < 64 && bit(x, d - k)),
{
    assert forall|d: int| #![trigger bit(x << k, d)] bit(x << k, d) <==> (k <= d < 64 && bit(x, d - k)) by {
        if 0 <= d < 64 {
            let dd = d as u64;
            if dd >= k {
                let e = (dd - k) as u64;
                assert(k < 64 && dd < 64 && dd >= k && e == dd - k ==> (((x << k) >> dd) & 1u64 == 1u64 <==> (x >> e) & 1u64 == 1u64))
                    by (bit_vector);
            } else {
                assert(k < 64 && dd < k ==> ((x << k) >> dd) & 1u64 == 0u64) by (bit_vector);
            }
        }
    }
}

/// The bits of a right shift: square `d` of `x >> k` is square `d + k` of `x`.
pub proof fn lemma_shr_bits(x: u64, k: u64)
    requires
        k < 64,
    ensures
        forall|d: int| #![trigger bit(x >> k, d)] bit(x >> k, d) <==> (0 <= d && d + k < 64 && bit(x, d + k)),
{
    assert forall|d: int| #![trigger bit(x >> k, d)] bit(x >> k, d) <==> (0 <= d && d + k < 64 && bit(x, d + k)) by {
        if 0 <= d < 64 {
            let dd = d as u64;
            if dd + k < 64 {
                let e = (dd + k) as u64;
                assert(k < 64 && dd < 64 && e == dd + k ==> (((x >> k) >> dd) & 1u64 == 1u64 <==> (x >> e) & 1u64 == 1u64))
                    by (bit_vector);
            } else {
                assert(k < 64 && dd < 64 && dd + k >= 64 ==> ((x >> k) >> dd) & 1u64 == 0u64) by (bit_vector);
            }
        }
    }
}

/// The squares of the a-file.
pub const FILE_A: u64 = 0x0101_0101_0101_0101;
/// The squares of the h-file.
pub const FILE_H: u64 = 0x8080_8080_8080_8080;

} // verus!
