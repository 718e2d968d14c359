//! The squares that pieces attack, and the lines and segments between squares,
//! stated geometrically on files and ranks and computed square by square.

use vstd::prelude::*;
use crate::bitboard::{BitBoard, SQ, bit, bits_below, bits_where, lemma_bits_where};
use crate::templates::Player;

verus! {

/// The file (column) of a square, 0 for the a-file.
pub open spec fn file_of(s: int) -> int {
    s % 8
}

/// The rank (row) of a square, 0 for the first rank.
pub open spec fn rank_of(s: int) -> int {
    s / 8
}

/// The distance between two integers.
pub open spec fn dist(a: int, b: int) -> int {
    if a >= b {
        a - b
    } else {
        b - a
    }
}

/// Whether `x` lies strictly between `a` and `b`.
pub open spec fn strictly_between(x: int, a: int, b: int) -> bool {
    (a < x < b) || (b < x < a)
}

/// Whether `s` and `t` are distinct squares of a common rank, file or diagonal.
pub open spec fn aligned_pair(s: int, t: int) -> bool {
    &&& s != t
    &&& (rank_of(s) == rank_of(t) || file_of(s) == file_of(t)
        || dist(file_of(s), file_of(t)) == dist(rank_of(s), rank_of(t)))
}

/// Whether `u` lies on the line (rank, file or diagonal) through the distinct
/// aligned squares `s` and `t`.
pub open spec fn on_line(s: int, t: int, u: int) -> bool {
    let fs = file_of(s);
    let rs = rank_of(s);
    let ft = file_of(t);
    let rt = rank_of(t);
    let fu = file_of(u);
    let ru = rank_of(u);
    ||| rs == rt && ru == rs
    ||| fs == ft && fu == fs
    ||| ft - fs == rt - rs && fu - fs == ru - rs
    ||| ft - fs == rs - rt && fu - fs == rs - ru
}

/// Whether the square `u` lies strictly between the aligned squares `s` and `t`.
pub open spec fn between(s: int, t: int, u: int) -> bool {
    &&& 0 <= u < 64
    &&& aligned_pair(s, t)
    &&& on_line(s, t, u)
    &&& if file_of(s) == file_of(t) {
        strictly_between(rank_of(u), rank_of(s), rank_of(t))
    } else {
        strictly_between(file_of(u), file_of(s), file_of(t))
    }
}

/// Whether no square strictly between `s` and `t` is occupied in `occ`.
pub open spec fn path_clear(s: int, t: int, occ: u64) -> bool {
    forall|u: int| #![trigger bit(occ, u)] between(s, t, u) ==> !bit(occ, u)
}

/// Whether a knight on `s` attacks `t`.
pub open spec fn knight_step(s: int, t: int) -> bool {
    let df = dist(file_of(s), file_of(t));
    let dr = dist(rank_of(s), rank_of(t));
    (df == 1 && dr == 2) || (df == 2 && dr == 1)
}

/// Whether a king on `s` attacks `t`.
pub open spec fn king_step(s: int, t: int) -> bool {
    &&& s != t
    &&& dist(file_of(s), file_of(t)) <= 1
    &&& dist(rank_of(s), rank_of(t)) <= 1
}

/// Whether a pawn of `player` on `s` attacks `t`: one rank forward and one file
/// aside.
pub open spec fn pawn_step(player: Player, s: int, t: int) -> bool {
    &&& dist(file_of(s), file_of(t)) == 1
    &&& match player {
        Player::White => rank_of(t) == rank_of(s) + 1,
        Player::Black => rank_of(t) == rank_of(s) - 1,
    }
}

/// Whether `s` and `t` are distinct squares of a common rank or file.
pub open spec fn rook_line(s: int, t: int) -> bool {
    s != t && (rank_of(s) == rank_of(t) || file_of(s) == file_of(t))
}

/// Whether `s` and `t` are distinct squares of a common diagonal.
pub open spec fn bishop_line(s: int, t: int) -> bool {
    s != t && dist(file_of(s), file_of(t)) == dist(rank_of(s), rank_of(t))
}

/// What a piece on a square reaches.
#[derive(Copy, Clone, Debug, PartialEq, Eq, Structural)]
pub enum Reach {
    Knight,
    King,
    Pawn(Player),
    Bishop,
    Rook,
    Queen,
    /// The squares strictly between the square and this one.
    Between(SQ),
    /// The whole line through the square and this one.
    Line(SQ),
}

/// Whether, with the squares of `occ` occupied, `t` is reached from `s`.
pub open spec fn reaches(kind: Reach, s: int, occ: u64, t: int) -> bool {
    match kind {
        Reach::Knight => knight_step(s, t),
        Reach::King => king_step(s, t),
        Reach::Pawn(p) => pawn_step(p, s, t),
        Reach::Bishop => bishop_line(s, t) && path_clear(s, t, occ),
        Reach::Rook => rook_line(s, t) && path_clear(s, t, occ),
        Reach::Queen => (bishop_line(s, t) || rook_line(s, t)) && path_clear(s, t, occ),
        Reach::Between(e) => between(s, e as int, t),
        Reach::Line(e) => aligned_pair(s, e as int) && on_line(s, e as int, t),
    }
}

/// `reaches` as a predicate on target squares.
pub open spec fn reach_pred(kind: Reach, s: int, occ: u64) -> spec_fn(int) -> bool {
    |t: int| reaches(kind, s, occ, t)
}

/// The bitboard of the squares reached from `s`.
pub open spec fn reach_bb(kind: Reach, s: int, occ: u64) -> u64 {
    bits_where(reach_pred(kind, s, occ))
}

/// The squares of `reach_bb` are those reached.
pub proof fn lemma_reach_bb(kind: Reach, s: int, occ: u64)
    ensures
        forall|t: int| #![trigger bit(reach_bb(kind, s, occ), t)]
            bit(reach_bb(kind, s, occ), t) <==> (0 <= t < 64 && reaches(kind, s, occ, t)),
{
    lemma_bits_where(reach_pred(kind, s, occ));
}

fn file_rank(s: SQ) -> (r: (i32, i32))
    requires
        s < 64,
    ensures
        r.0 == file_of(s as int),
        r.1 == rank_of(s as int),
        0 <= r.0 < 8,
        0 <= r.1 < 8,
{
    ((s % 8) as i32, (s / 8) as i32)
}

fn abs_diff(a: i32, b: i32) -> (r: i32)
    requires
        -100 < a < 100,
        -100 < b < 100,
    ensures
        r == dist(a as int, b as int),
{
    if a >= b {
        a - b
    } else {
        b - a
    }
}

fn is_aligned_pair(s: SQ, t: SQ) -> (r: bool)
    requires
        s < 64,
        t < 64,
    ensures
        r == aligned_pair(s as int, t as int),
{
    let (fs, rs) = file_rank(s);
    let (ft, rt) = file_rank(t);
    s != t && (rs == rt || fs == ft || abs_diff(fs, ft) == abs_diff(rs, rt))
}

fn is_between(s: SQ, t: SQ, u: SQ) -> (r: bool)
    requires
        s < 64,
        t < 64,
        u < 64,
    ensures
        r == between(s as int, t as int, u as int),
{
    let (fs, rs) = file_rank(s);
    let (ft, rt) = file_rank(t);
    let (fu, ru) = file_rank(u);
    let line = (rs == rt && ru == rs) || (fs == ft && fu == fs) || (ft - fs == rt - rs && fu - fs == ru - rs)
        || (ft - fs == rs - rt && fu - fs == rs - ru);
    let inside = if fs == ft {
        (rs < ru && ru < rt) || (rt < ru && ru < rs)
    } else {
        (fs < fu && fu < ft) || (ft < fu && fu < fs)
    };
    is_aligned_pair(s, t) && line && inside
}

/// Whether no square strictly between `s` and `t` is occupied.
fn is_path_clear(s: SQ, t: SQ, occ: BitBoard) -> (r: bool)
    requires
        s < 64,
        t < 64,
    ensures
        r == path_clear(s as int, t as int, occ),
{
    let mut u: u8 = 0;
    while u < 64
        invariant
            u <= 64,
            s < 64,
            t < 64,
            forall|v: int| #![trigger bit(occ, v)] 0 <= v < u && between(s as int, t as int, v) ==> !bit(occ, v),
        decreases 64 - u,
    {
        if is_between(s, t, u) && (occ >> (u as u64)) & 1u64 == 1u64 {
            assert(bit(occ, u as int));
            return false;
        }
        u = u + 1;
    }
    true
}

/// Whether `t` is reached from `s`.
fn reaches_exec(kind: Reach, s: SQ, occ: BitBoard, t: SQ) -> (r: bool)
    requires
        s < 64,
        t < 64,
        kind matches Reach::Between(e) ==> e < 64,
        kind matches Reach::Line(e) ==> e < 64,
    ensures
        r == reaches(kind, s as int, occ, t as int),
{
    let (fs, rs) = file_rank(s);
    let (ft, rt) = file_rank(t);
    let df = abs_diff(fs, ft);
    let dr = abs_diff(rs, rt);
    match kind {
        Reach::Knight => (df == 1 && dr == 2) || (df == 2 && dr == 1),
        Reach::King => s != t && df <= 1 && dr <= 1,
        Reach::Pawn(p) => df == 1 && match p {
            Player::White => rt == rs + 1,
            Player::Black => rt == rs - 1,
        },
        Reach::Bishop => s != t && df == dr && is_path_clear(s, t, occ),
        Reach::Rook => s != t && (rs == rt || fs == ft) && is_path_clear(s, t, occ),
        Reach::Queen => s != t && (df == dr || rs == rt || fs == ft) && is_path_clear(s, t, occ),
        Reach::Between(e) => is_between(s, e, t),
        Reach::Line(e) => {
            let (fe, re) = file_rank(e);
            is_aligned_pair(s, e) && ((rs == re && rt == rs) || (fs == fe && ft == fs) || (fe - fs == re - rs
                && ft - fs == rt - rs) || (fe - fs == rs - re && ft - fs == rs - rt))
        },
    }
}

/// Computes the bitboard of the squares reached from `s`.
pub fn reach(kind: Reach, s: SQ, occ: BitBoard) -> (r: BitBoard)
    requires
        s < 64,
        kind matches Reach::Between(e) ==> e < 64,
        kind matches Reach::Line(e) ==> e < 64,
    ensures
        r == reach_bb(kind, s as int, occ),
{
    let mut r: u64 = 0;
    let mut t: u8 = 0;
    while t < 64
        invariant
            t <= 64,
            s < 64,
            kind matches Reach::Between(e) ==> e < 64,
            kind matches Reach::Line(e) ==> e < 64,
            r == bits_below(reach_pred(kind, s as int, occ), t as int),
        decreases 64 - t,
    {
        if reaches_exec(kind, s, occ, t) {
            r = r | (1u64 << t);
        }
        t = t + 1;
    }
    r
}

/// The squares a knight on `sq` attacks.
pub fn knight_moves(sq: SQ) -> (r: BitBoard)
    requires
        sq < 64,
    ensures
        r == reach_bb(Reach::Knight, sq as int, 0),
{
    reach(Reach::Knight, sq, 0)
}

/// The squares a king on `sq` attacks.
pub fn king_moves(sq: SQ) -> (r: BitBoard)
    requires
        sq < 64,
    ensures
        r == reach_bb(Reach::King, sq as int, 0),
{
    reach(Reach::King, sq, 0)
}

/// The squares a pawn of `player` on `sq` attacks.
pub fn pawn_attacks_from(sq: SQ, player: Player) -> (r: BitBoard)
    requires
        sq < 64,
    ensures
        r == reach_bb(Reach::Pawn(player), sq as int, 0),
{
    reach(Reach::Pawn(player), sq, 0)
}

/// The squares a bishop on `sq` attacks when the squares of `occupied` are occupied.
pub fn bishop_moves(occupied: BitBoard, sq: SQ) -> (r: BitBoard)
    requires
        sq < 64,
    ensures
        r == reach_bb(Reach::Bishop, sq as int, occupied),
{
    reach(Reach::Bishop, sq, occupied)
}

/// The squares a rook on `sq` attacks when the squares of `occupied` are occupied.
pub fn rook_moves(occupied: BitBoard, sq: SQ) -> (r: BitBoard)
    requires
        sq < 64,
    ensures
        r == reach_bb(Reach::Rook, sq as int, occupied),
{
    reach(Reach::Rook, sq, occupied)
}

/// The squares a queen on `sq` attacks when the squares of `occupied` are occupied.
pub fn queen_moves(occupied: BitBoard, sq: SQ) -> (r: BitBoard)
    requires
        sq < 64,
    ensures
        r == reach_bb(Reach::Queen, sq as int, occupied),
{
    reach(Reach::Queen, sq, occupied)
}

/// The squares strictly between two aligned squares (none if they are not aligned).
pub fn between_bb(sq_one: SQ, sq_two: SQ) -> (r: BitBoard)
    requires
        sq_one < 64,
        sq_two < 64,
    ensures
        r == reach_bb(Reach::Between(sq_two), sq_one as int, 0),
{
    reach(Reach::Between(sq_two), sq_one, 0)
}

/// The whole line through two aligned squares (none if they are not aligned).
pub fn line_bb(sq_one: SQ, sq_two: SQ) -> (r: BitBoard)
    requires
        sq_one < 64,
        sq_two < 64,
    ensures
        r == reach_bb(Reach::Line(sq_two), sq_one as int, 0),
{
    reach(Reach::Line(sq_two), sq_one, 0)
}

/// Whether three squares lie on one line: `s3` is on the line through `s1` and `s2`.
pub fn aligned(s1: SQ, s2: SQ, s3: SQ) -> (r: bool)
    requires
        s1 < 64,
        s2 < 64,
        s3 < 64,
    ensures
        r == (aligned_pair(s1 as int, s2 as int) && on_line(s1 as int, s2 as int, s3 as int)),
{
    let l = line_bb(s1, s2);
    proof {
        lemma_reach_bb(Reach::Line(s2), s1 as int, 0);
    }
    let r = (l >> (s3 as u64)) & 1u64 == 1u64;
    assert(r == bit(l, s3 as int));
    r
}

} // verus!
