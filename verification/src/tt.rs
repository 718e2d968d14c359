//! The transposition table: a hash table in which Zobrist keys map to what a
//! search has learnt about a position (best move, score, evaluation, depth,
//! bound type and the search in which the entry was last touched).
//!
//! The table is a power-of-two number of clusters; each cluster holds
//! `CLUSTER_SIZE` entries. A key selects its cluster by its low bits and is
//! recognised inside the cluster by its top sixteen bits (the partial key).

use vstd::prelude::*;
use vstd::arithmetic::power2::{pow2, is_pow2, is_pow2_exists, is_pow2_equiv, lemma_pow2_unfold, lemma_pow2_pos};
use vstd::arithmetic::power::pow;
use vstd::bits::lemma_u64_low_bits_mask_is_mod;
use crate::piece_move::BitMove;

verus! {

/// A Zobrist key of a position.
pub type Key = u64;

/// Bit mask for the time part of a [NodeTypeTimeBound].
pub const TIME_MASK: u8 = 0b1111_1100;

/// Bit mask for the [NodeBound] part of a [NodeTypeTimeBound].
pub const NODE_TYPE_MASK: u8 = 0b0000_0011;

/// Number of entries per cluster.
pub const CLUSTER_SIZE: usize = 3;

/// Number of bytes that one cluster occupies.
pub const CLUSTER_BYTES: usize = 32;

/// Bytes in a kilobyte.
pub const BYTES_PER_KB: usize = 1000;
/// Bytes in a megabyte.
pub const BYTES_PER_MB: usize = 1000000;
/// Bytes in a gigabyte.
pub const BYTES_PER_GB: usize = 1000000000;

/// The type of a node in the search tree: what kind of bound its score is.
#[derive(Copy, Clone, Debug, PartialEq, Eq, Structural)]
pub enum NodeBound {
    NoBound,
    LowerBound,
    UpperBound,
    Exact,
}

/// The two-bit code of a bound.
pub open spec fn bound_bits(b: NodeBound) -> u8 {
    match b {
        NodeBound::NoBound => 0,
        NodeBound::LowerBound => 1,
        NodeBound::UpperBound => 2,
        NodeBound::Exact => 3,
    }
}

/// The bound that a two-bit code stands for.
pub open spec fn bound_of_bits(bits: u8) -> NodeBound {
    if bits == 0 {
        NodeBound::NoBound
    } else if bits == 1 {
        NodeBound::LowerBound
    } else if bits == 2 {
        NodeBound::UpperBound
    } else {
        NodeBound::Exact
    }
}

impl NodeBound {
    /// The two-bit code of this bound.
    pub fn to_bits(self) -> (r: u8)
        ensures
            r == bound_bits(self),
            r < 4,
    {
        match self {
            NodeBound::NoBound => 0,
            NodeBound::LowerBound => 1,
            NodeBound::UpperBound => 2,
            NodeBound::Exact => 3,
        }
    }
}

/// Decoding a bound's code gives the bound back.
pub proof fn lemma_bound_bits_roundtrip(b: NodeBound)
    ensures
        bound_of_bits(bound_bits(b)) == b,
        bound_bits(b) < 4,
{
}

/// The time at which a node was found (a multiple of four) packed together with
/// its [NodeBound] in a single byte.
#[derive(Copy, Clone, Debug, PartialEq, Eq, Structural)]
pub struct NodeTypeTimeBound {
    data: u8,
}

impl NodeTypeTimeBound {
    /// The packed byte.
    pub closed spec fn spec_data(self) -> u8 {
        self.data
    }

    /// The time part: the upper six bits of the byte.
    pub open spec fn spec_time(self) -> u8 {
        self.spec_data() & TIME_MASK
    }

    /// The bound part: the lower two bits of the byte.
    pub open spec fn spec_bound(self) -> NodeBound {
        bound_of_bits(self.spec_data() & NODE_TYPE_MASK)
    }

    /// The value with its bound part replaced.
    pub closed spec fn with_bound(self, node_type: NodeBound) -> NodeTypeTimeBound {
        NodeTypeTimeBound { data: (self.data & TIME_MASK) | bound_bits(node_type) }
    }

    /// The value with its time part replaced by `time_bound`.
    pub closed spec fn with_time(self, time_bound: u8) -> NodeTypeTimeBound {
        NodeTypeTimeBound { data: (self.data & NODE_TYPE_MASK) | time_bound }
    }

    /// Replacing the bound keeps the time and sets the bound.
    pub proof fn lemma_with_bound(self, node_type: NodeBound)
        ensures
            self.with_bound(node_type).spec_time() == self.spec_time(),
            self.with_bound(node_type).spec_bound() == node_type,
            self.with_bound(node_type).spec_data() == (self.spec_data() & TIME_MASK) | bound_bits(node_type),
    {
        let d = self.data;
        let b = bound_bits(node_type);
        assert(((d & 0xFC) | b) & 0xFC == d & 0xFC && ((d & 0xFC) | b) & 3 == b) by (bit_vector)
            requires b < 4;
    }

    /// Replacing the time by a multiple of four sets the time and keeps the bound.
    pub proof fn lemma_with_time(self, time_bound: u8)
        ensures
            self.with_time(time_bound).spec_data() == (self.spec_data() & NODE_TYPE_MASK) | time_bound,
            time_bound & NODE_TYPE_MASK == 0 ==> self.with_time(time_bound).spec_time() == time_bound,
            time_bound & NODE_TYPE_MASK == 0 ==> self.with_time(time_bound).spec_bound() == self.spec_bound(),
    {
        let d = self.data;
        let t = time_bound;
        assert(t & 3 == 0 ==> ((d & 3) | t) & 0xFC == t && ((d & 3) | t) & 3 == d & 3) by (bit_vector);
    }

    /// Creates a value with the given bound and time. The time must be a
    /// multiple of four, so that it leaves the bound bits free.
    pub fn create(node_type: NodeBound, time_bound: u8) -> (r: Self)
        requires
            time_bound & NODE_TYPE_MASK == 0,
        ensures
            r.spec_data() == time_bound + bound_bits(node_type),
            r.spec_time() == time_bound,
            r.spec_bound() == node_type,
    {
        let b = node_type.to_bits();
        assert(time_bound & 3 == 0 && b < 4 ==> time_bound + b < 256 && (time_bound + b) as u8 & 0xFC
            == time_bound && (time_bound + b) as u8 & 3 == b) by (bit_vector);
        NodeTypeTimeBound { data: time_bound + b }
    }

    /// Updates the bound, keeping the time.
    pub fn update_bound(&mut self, node_type: NodeBound)
        ensures
            *final(self) == old(self).with_bound(node_type),
            final(self).spec_time() == old(self).spec_time(),
            final(self).spec_bound() == node_type,
    {
        proof {
            old(self).lemma_with_bound(node_type);
        }
        self.data = (self.data & TIME_MASK) | node_type.to_bits();
    }

    /// Updates the time. When `time_bound` is a multiple of four the bound is kept.
    pub fn update_time(&mut self, time_bound: u8)
        ensures
            *final(self) == old(self).with_time(time_bound),
            final(self).spec_data() == (old(self).spec_data() & NODE_TYPE_MASK) | time_bound,
            time_bound & NODE_TYPE_MASK == 0 ==> final(self).spec_time() == time_bound,
            time_bound & NODE_TYPE_MASK == 0 ==> final(self).spec_bound() == old(self).spec_bound(),
    {
        proof {
            old(self).lemma_with_time(time_bound);
        }
        self.data = (self.data & NODE_TYPE_MASK) | time_bound;
    }
}

/// The partial key of a key: its top sixteen bits.
pub open spec fn partial_key_of(key: u64) -> u16 {
    (key >> 48u64) as u16
}

/// Computes the partial key of a key.
pub fn partial_key(key: Key) -> (r: u16)
    ensures
        r == partial_key_of(key),
{
    assert(key >> 48u64 <= 0xFFFF) by (bit_vector);
    (key >> 48u64) as u16
}

/// The age term of an entry with packed time-and-bound byte `data` at search
/// time `curr_time`: `(259 + curr_time - data) & 0xFC`, that is four times the
/// number of searches since the entry was written (modulo 64).
pub open spec fn age_of(data: u8, curr_time: u8) -> int {
    (((259 + curr_time - data) as u16) & 0xFCu16) as int
}

/// How valuable an entry is to keep: its depth less twice its age relative to
/// `curr_time`. Shallow entries and entries from earlier searches are worth
/// least.
pub open spec fn time_value_of(depth: u8, data: u8, curr_time: u8) -> int {
    depth - 2 * age_of(data, curr_time)
}

/// One slot of the table: what was found about one position.
#[derive(Copy, Clone, Debug, PartialEq, Eq, Structural)]
pub struct Entry {
    pub partial_key: u16,
    pub best_move: BitMove,
    pub score: i16,
    pub eval: i16,
    pub depth: u8,
    pub time_node_bound: NodeTypeTimeBound,
}

/// The entry after `place` with the given arguments.
pub open spec fn placed_entry(
    e: Entry,
    key: u64,
    best_move: BitMove,
    score: i16,
    eval: i16,
    depth: u8,
    node_type: NodeBound,
) -> Entry {
    let pk = partial_key_of(key);
    if pk != e.partial_key {
        Entry {
            partial_key: pk,
            best_move: best_move,
            score: score,
            eval: eval,
            depth: depth,
            time_node_bound: e.time_node_bound.with_bound(node_type),
        }
    } else if node_type == NodeBound::Exact {
        Entry {
            partial_key: pk,
            best_move: e.best_move,
            score: score,
            eval: eval,
            depth: depth,
            time_node_bound: e.time_node_bound.with_bound(node_type),
        }
    } else {
        e
    }
}

impl Entry {
    /// Whether the entry holds nothing: its bound is `NoBound`.
    pub fn is_empty(&self) -> (r: bool)
        ensures
            r == (self.time_node_bound.spec_bound() == NodeBound::NoBound),
    {
        match self.node_type() {
            NodeBound::NoBound => true,
            _ => false,
        }
    }

    /// Rewrites the entry for `key`. A different position overwrites everything
    /// but the time; the same position is overwritten (keeping its best move)
    /// only by an exact score.
    pub fn place(
        &mut self,
        key: Key,
        best_move: BitMove,
        score: i16,
        eval: i16,
        depth: u8,
        node_type: NodeBound,
    )
        ensures
            *final(self) == placed_entry(*old(self), key, best_move, score, eval, depth, node_type),
    {
        let pk = partial_key(key);
        if pk != self.partial_key {
            self.best_move = best_move;
        }
        let exact = match node_type {
            NodeBound::Exact => true,
            _ => false,
        };
        if pk != self.partial_key || exact {
            self.partial_key = pk;
            self.score = score;
            self.eval = eval;
            self.depth = depth;
            self.time_node_bound.update_bound(node_type);
        }
    }

    /// The search time at which the entry was last touched.
    pub fn time(&self) -> (r: u8)
        ensures
            r == self.time_node_bound.spec_time(),
    {
        self.time_node_bound.data & TIME_MASK
    }

    /// The bound of the entry's score.
    pub fn node_type(&self) -> (r: NodeBound)
        ensures
            r == self.time_node_bound.spec_bound(),
    {
        let bits = self.time_node_bound.data & NODE_TYPE_MASK;
        if bits == 0 {
            NodeBound::NoBound
        } else if bits == 1 {
            NodeBound::LowerBound
        } else if bits == 2 {
            NodeBound::UpperBound
        } else {
            NodeBound::Exact
        }
    }

    /// How valuable the entry is to keep at search time `curr_time`: the lower,
    /// the better a candidate for replacement.
    pub fn time_value(&self, curr_time: u8) -> (r: i16)
        ensures
            r == time_value_of(self.depth, self.time_node_bound.spec_data(), curr_time),
    {
        let d = self.time_node_bound.data;
        let inner: u16 = (259u16 + curr_time as u16 - d as u16) & 0b1111_1100u16;
        assert(inner <= 0xFC) by (bit_vector)
            requires inner == ((259u16 + curr_time as u16 - d as u16) as u16 & 0xFCu16);
        self.depth as i16 - 2 * (inner as i16)
    }
}


/// An entry holding nothing: every field zero.
pub open spec fn zero_entry() -> Entry {
    Entry {
        partial_key: 0,
        best_move: BitMove::spec_null(),
        score: 0,
        eval: 0,
        depth: 0,
        time_node_bound: NodeTypeTimeBound::spec_zero(),
    }
}

impl NodeTypeTimeBound {
    /// The all-zero byte: no bound, time zero.
    pub closed spec fn spec_zero() -> NodeTypeTimeBound {
        NodeTypeTimeBound { data: 0 }
    }
}

/// A group of entries that one key maps to.
#[derive(Copy, Clone, Debug)]
pub struct Cluster {
    pub entry: [Entry; CLUSTER_SIZE],
    pub padding: [u8; 2],
}

/// A cluster of empty entries.
fn zeroed_cluster() -> (c: Cluster)
    ensures
        c.entry@ == Seq::new(CLUSTER_SIZE as nat, |j: int| zero_entry()),
{
    let e = Entry {
        partial_key: 0,
        best_move: BitMove::null(),
        score: 0,
        eval: 0,
        depth: 0,
        time_node_bound: NodeTypeTimeBound { data: 0 },
    };
    let c = Cluster { entry: [e, e, e], padding: [0, 0] };
    assert(c.entry@ =~= Seq::new(CLUSTER_SIZE as nat, |j: int| zero_entry()));
    c
}

/// `n` clusters of empty entries, as the table sees them.
pub open spec fn empty_clusters(n: nat) -> Seq<Seq<Entry>> {
    Seq::new(n, |i: int| Seq::new(CLUSTER_SIZE as nat, |j: int| zero_entry()))
}

/// Allocates `size` clusters of empty entries.
fn alloc_room(size: usize) -> (v: Vec<Cluster>)
    ensures
        v@.len() == size,
        v@.map_values(|c: Cluster| c.entry@) =~= empty_clusters(size as nat),
{
    let mut v: Vec<Cluster> = Vec::new();
    let mut i: usize = 0;
    while i < size
        invariant
            i <= size,
            v@.len() == i,
            forall|k: int| 0 <= k < i ==> (#[trigger] v@[k]).entry@ == Seq::new(CLUSTER_SIZE as nat, |j: int| zero_entry()),
        decreases size - i,
    {
        v.push(zeroed_cluster());
        i = i + 1;
    }
    v
}

/// The smallest power of two at or above `n`, searched from `p` upwards by doubling.
pub open spec fn pow2_at_least_from(n: nat, p: nat) -> nat
    decreases (if p < n { n - p } else { 0 }),
{
    if p == 0 || p >= n {
        p
    } else {
        pow2_at_least_from(n, 2 * p)
    }
}

/// The smallest power of two at or above `n` (one for zero), as
/// `usize::next_power_of_two` computes it.
pub open spec fn next_pow2(n: nat) -> nat {
    pow2_at_least_from(n, 1)
}

proof fn lemma_pow2_at_least_from(n: nat, p: nat, k: nat)
    requires
        p == pow2(k),
        p == 1 || p / 2 < n,
    ensures
        is_pow2(pow2_at_least_from(n, p) as int),
        pow2_at_least_from(n, p) >= n,
        pow2_at_least_from(n, p) == 1 || pow2_at_least_from(n, p) / 2 < n,
        pow2_at_least_from(n, p) >= p,
    decreases (if p < n { n - p } else { 0 }),
{
    lemma_pow2_pos(k);
    lemma_pow2_unfold(k + 1);
    if p >= n {
        assert(is_pow2_exists(p as int)) by {
            vstd::arithmetic::power::lemma_pow_positive(2, k);
            assert(pow(2, k) == p);
        }
        is_pow2_equiv(p as int);
    } else {
        lemma_pow2_at_least_from(n, 2 * p, k + 1);
    }
}

/// `next_pow2(n)` is the least power of two that is at least `n`.
pub proof fn lemma_next_pow2(n: nat)
    ensures
        is_pow2(next_pow2(n) as int),
        next_pow2(n) >= n,
        next_pow2(n) >= 1,
        next_pow2(n) == 1 || next_pow2(n) / 2 < n,
{
    assert(pow2(0) == 1) by {
        vstd::arithmetic::power2::lemma2_to64();
    }
    lemma_pow2_at_least_from(n, 1, 0);
}

/// Computes the least power of two that is at least `n`.
pub fn next_power_of_two(n: usize) -> (r: usize)
    requires
        next_pow2(n as nat) <= usize::MAX,
    ensures
        r == next_pow2(n as nat),
{
    let mut p: usize = 1;
    proof {
        lemma_pow2_from_ge(n as nat, 1);
    }
    while p < n
        invariant
            1 <= p,
            pow2_at_least_from(n as nat, p as nat) == next_pow2(n as nat),
            next_pow2(n as nat) <= usize::MAX,
            pow2_at_least_from(n as nat, p as nat) >= p,
        decreases usize::MAX - p,
    {
        assert(pow2_at_least_from(n as nat, 2 * p as nat) >= 2 * p) by {
            reveal_with_fuel(pow2_at_least_from, 2);
            lemma_pow2_from_ge(n as nat, 2 * p as nat);
        }
        p = p * 2;
    }
    p
}

proof fn lemma_pow2_from_ge(n: nat, p: nat)
    ensures
        pow2_at_least_from(n, p) >= p,
    decreases (if p < n { n - p } else { 0 }),
{
    if p != 0 && p < n {
        lemma_pow2_from_ge(n, 2 * p);
    }
}

/// A transposition table: a power-of-two number of clusters of entries, and
/// the current search time (advanced by four for each new search).
pub struct TT {
    clusters: Vec<Cluster>,
    time_age: u8,
}

impl View for TT {
    type V = Seq<Seq<Entry>>;

    /// The entries of each cluster.
    closed spec fn view(&self) -> Seq<Seq<Entry>> {
        self.clusters@.map_values(|c: Cluster| c.entry@)
    }
}

/// The cluster that `key` selects in a table of `n` clusters.
pub open spec fn cluster_index_of(key: u64, n: nat) -> int {
    (key as int) % (n as int)
}

/// Whether an entry can be used for the partial key `pk`: it is unused or
/// holds that very key.
pub open spec fn is_open_for(e: Entry, pk: u16) -> bool {
    e.partial_key == 0 || e.partial_key == pk
}

/// The index of the first entry of `es` at or after `i` that is open for `pk`
/// (the length of `es` when there is none).
pub open spec fn first_open_from(es: Seq<Entry>, pk: u16, i: int) -> int
    decreases es.len() - i,
{
    if i < 0 || i >= es.len() {
        es.len() as int
    } else if is_open_for(es[i], pk) {
        i
    } else {
        first_open_from(es, pk, i + 1)
    }
}

/// The index of the first entry with the least time value among the first `n`
/// entries of `es`.
pub open spec fn least_valuable(es: Seq<Entry>, curr_time: u8, n: int) -> int
    decreases n,
{
    if n <= 1 {
        0
    } else {
        let r = least_valuable(es, curr_time, n - 1);
        if time_value_of(es[n - 1].depth, es[n - 1].time_node_bound.spec_data(), curr_time)
            < time_value_of(es[r].depth, es[r].time_node_bound.spec_data(), curr_time) {
            n - 1
        } else {
            r
        }
    }
}

/// What probing a cluster `es` for partial key `pk` at time `curr_time`
/// selects: whether an open entry was found, and which entry.
pub open spec fn probe_slot(es: Seq<Entry>, pk: u16, curr_time: u8) -> (bool, int) {
    let f = first_open_from(es, pk, 0);
    if f < es.len() {
        (true, f)
    } else {
        (false, least_valuable(es, curr_time, es.len() as int))
    }
}

/// The entry that probing hands out: a found entry gets the current time.
pub open spec fn probed_entry(e: Entry, found: bool, curr_time: u8) -> Entry {
    if found {
        Entry { time_node_bound: e.time_node_bound.with_time(curr_time), ..e }
    } else {
        e
    }
}

impl TT {
    /// The current search time.
    pub closed spec fn spec_time_age(&self) -> u8 {
        self.time_age
    }

    /// The table's invariant: a power-of-two number of clusters whose total size
    /// fits in `isize`, and a search time that is a multiple of four.
    pub closed spec fn wf(&self) -> bool {
        &&& is_pow2(self.clusters@.len() as int)
        &&& self.clusters@.len() * CLUSTER_BYTES <= isize::MAX
        &&& self.time_age & NODE_TYPE_MASK == 0
    }

    proof fn lemma_view_len(&self)
        ensures
            self@.len() == self.clusters@.len(),
            forall|c: int| 0 <= c < self@.len() ==> (#[trigger] self@[c]) == self.clusters@[c].entry@,
            forall|c: int| 0 <= c < self@.len() ==> (#[trigger] self@[c]).len() == CLUSTER_SIZE,
    {
    }

    /// What every table keeps: a power-of-two number of clusters of
    /// `CLUSTER_SIZE` entries each, and a search time that is a multiple of four.
    pub proof fn lemma_wf(&self)
        requires
            self.wf(),
        ensures
            is_pow2(self@.len() as int),
            self@.len() > 0,
            forall|c: int| 0 <= c < self@.len() ==> (#[trigger] self@[c]).len() == CLUSTER_SIZE,
            self.spec_time_age() % 4 == 0,
    {
        self.lemma_view_len();
        reveal(is_pow2);
        assert(self.clusters@.len() > 0);
        let a = self.time_age;
        assert(a & 3 == 0 ==> a % 4 == 0) by (bit_vector);
    }

    /// Creates a table of `size` clusters; `size` must be a power of two.
    pub fn create(size: usize) -> (tt: Self)
        requires
            is_pow2(size as int),
            size * CLUSTER_BYTES <= isize::MAX,
        ensures
            tt.wf(),
            tt@ == empty_clusters(size as nat),
            tt.spec_time_age() == 0,
    {
        assert(0u8 & 3 == 0) by (bit_vector);
        TT { clusters: alloc_room(size), time_age: 0 }
    }

    /// Creates a table of about `mb_size` megabytes: the number of clusters is the
    /// largest power of two strictly below the number that would fill `mb_size`
    /// megabytes, rounded up to a power of two.
    pub fn new(mb_size: usize) -> (tt: Self)
        requires
            mb_size > 0,
            mb_size * BYTES_PER_MB <= isize::MAX,
        ensures
            tt.wf(),
            tt@ == empty_clusters(next_pow2(megabytes_in_clusters(mb_size as nat)) / 2),
            tt.spec_time_age() == 0,
    {
        let num_clusters: usize = (mb_size * BYTES_PER_MB) / CLUSTER_BYTES;
        proof {
            lemma_next_pow2(num_clusters as nat);
        }
        let num_clusters: usize = next_power_of_two(num_clusters) / 2;
        proof {
            lemma_half_pow2(next_pow2(megabytes_in_clusters(mb_size as nat)));
            lemma_next_pow2(num_clusters as nat);
            lemma_next_pow2_of_pow2(num_clusters as nat);
        }
        TT::new_num_clusters(num_clusters)
    }

    /// Creates a table with room for at least `num_entries` entries: the least
    /// power-of-two number of clusters that holds them.
    pub fn new_num_entries(num_entries: usize) -> (tt: Self)
        requires
            num_entries > 0,
            next_pow2(clusters_for_entries(num_entries as nat)) * CLUSTER_BYTES <= isize::MAX,
        ensures
            tt.wf(),
            tt@ == empty_clusters(next_pow2(clusters_for_entries(num_entries as nat))),
            tt.spec_time_age() == 0,
    {
        let rest: usize = if num_entries % CLUSTER_SIZE == 0 { 0 } else { 1 };
        let num_clusters: usize = num_entries / CLUSTER_SIZE + rest;
        TT::new_num_clusters(num_clusters)
    }

    /// Creates a table of `num_clusters` clusters rounded up to a power of two.
    pub fn new_num_clusters(num_clusters: usize) -> (tt: Self)
        requires
            num_clusters > 0,
            next_pow2(num_clusters as nat) * CLUSTER_BYTES <= isize::MAX,
        ensures
            tt.wf(),
            tt@ == empty_clusters(next_pow2(num_clusters as nat)),
            tt.spec_time_age() == 0,
    {
        proof {
            lemma_next_pow2(num_clusters as nat);
        }
        TT::create(next_power_of_two(num_clusters))
    }
}

/// The least number of clusters that hold `n` entries.
pub open spec fn clusters_for_entries(n: nat) -> nat {
    ((n + CLUSTER_SIZE - 1) / (CLUSTER_SIZE as int)) as nat
}

/// The number of clusters that fill `mb` megabytes.
pub open spec fn megabytes_in_clusters(mb: nat) -> nat {
    mb * (BYTES_PER_MB as nat) / (CLUSTER_BYTES as nat)
}

impl TT {
    /// Size of the table's storage in kilobytes.
    pub fn size_kilobytes(&self) -> (r: usize)
        requires
            self.wf(),
        ensures
            r == (CLUSTER_BYTES * self@.len()) / (BYTES_PER_KB as int),
    {
        (CLUSTER_BYTES * self.num_clusters()) / BYTES_PER_KB
    }

    /// Size of the table's storage in megabytes.
    pub fn size_megabytes(&self) -> (r: usize)
        requires
            self.wf(),
        ensures
            r == (CLUSTER_BYTES * self@.len()) / (BYTES_PER_MB as int),
    {
        (CLUSTER_BYTES * self.num_clusters()) / BYTES_PER_MB
    }

    /// Size of the table's storage in gigabytes.
    pub fn size_gigabytes(&self) -> (r: usize)
        requires
            self.wf(),
        ensures
            r == (CLUSTER_BYTES * self@.len()) / (BYTES_PER_GB as int),
    {
        (CLUSTER_BYTES * self.num_clusters()) / BYTES_PER_GB
    }

    /// The number of clusters.
    pub fn num_clusters(&self) -> (r: usize)
        requires
            self.wf(),
        ensures
            r == self@.len(),
            r * CLUSTER_BYTES <= isize::MAX,
            is_pow2(r as int),
    {
        self.clusters.len()
    }

    /// The number of entries: `CLUSTER_SIZE` per cluster.
    pub fn num_entries(&self) -> (r: usize)
        requires
            self.wf(),
        ensures
            r == self@.len() * CLUSTER_SIZE,
    {
        self.num_clusters() * CLUSTER_SIZE
    }

    /// Empties the table and gives it `size` clusters (a power of two). The
    /// search time is kept.
    fn resize(&mut self, size: usize)
        requires
            is_pow2(size as int),
            size * CLUSTER_BYTES <= isize::MAX,
            old(self).wf(),
        ensures
            final(self).wf(),
            final(self)@ == empty_clusters(size as nat),
            final(self).spec_time_age() == old(self).spec_time_age(),
    {
        self.clusters = alloc_room(size);
    }

    /// Empties the table and gives it `size` clusters rounded up to a power of two.
    pub fn resize_round_up(&mut self, size: usize)
        requires
            old(self).wf(),
            size > 0,
            next_pow2(size as nat) * CLUSTER_BYTES <= isize::MAX,
        ensures
            final(self).wf(),
            final(self)@ == empty_clusters(next_pow2(size as nat)),
            final(self).spec_time_age() == old(self).spec_time_age(),
    {
        proof {
            lemma_next_pow2(size as nat);
        }
        self.resize(next_power_of_two(size));
    }

    /// Empties the table and resizes it to about `mb_size` megabytes, as [TT::new]
    /// sizes a table; returns the new size in megabytes.
    pub fn resize_to_megabytes(&mut self, mb_size: usize) -> (r: usize)
        requires
            old(self).wf(),
            mb_size > 0,
            mb_size * BYTES_PER_MB <= isize::MAX,
        ensures
            final(self).wf(),
            final(self)@ == empty_clusters(next_pow2(megabytes_in_clusters(mb_size as nat)) / 2),
            final(self).spec_time_age() == old(self).spec_time_age(),
            r == (CLUSTER_BYTES * final(self)@.len()) / (BYTES_PER_MB as int),
    {
        let num_clusters: usize = (mb_size * BYTES_PER_MB) / CLUSTER_BYTES;
        proof {
            lemma_next_pow2(num_clusters as nat);
        }
        let num_clusters: usize = next_power_of_two(num_clusters) / 2;
        proof {
            lemma_half_pow2(next_pow2(megabytes_in_clusters(mb_size as nat)));
        }
        self.resize(num_clusters);
        self.size_megabytes()
    }

    /// Empties every entry, keeping the number of clusters and the search time.
    pub fn clear(&mut self)
        requires
            old(self).wf(),
        ensures
            final(self).wf(),
            final(self)@ == empty_clusters(old(self)@.len()),
            final(self).spec_time_age() == old(self).spec_time_age(),
    {
        let size = self.num_clusters();
        self.resize(size);
    }

    /// Starts a new search: the search time advances by four (wrapping), so the
    /// cycle count advances by one (wrapping at 64). The entries are untouched.
    pub fn new_search(&mut self)
        requires
            old(self).wf(),
        ensures
            final(self).wf(),
            final(self)@ == old(self)@,
            final(self).spec_time_age() == (old(self).spec_time_age() + 4) % 256,
            final(self).spec_time_age() / 4 == (old(self).spec_time_age() / 4 + 1) % 64,
    {
        let t = self.time_age;
        assert(t & 3 == 0 ==> t.wrapping_add(4) & 3 == 0 && t.wrapping_add(4) / 4 == (t / 4 + 1) % 64
            && t.wrapping_add(4) == (t + 4) % 256) by (bit_vector);
        self.time_age = self.time_age.wrapping_add(4);
    }

    /// The current search time.
    pub fn time_age(&self) -> (r: u8)
        ensures
            r == self.spec_time_age(),
            self.wf() ==> r % 4 == 0,
    {
        proof {
            let a = self.time_age;
            assert(a & 3 == 0 ==> a % 4 == 0) by (bit_vector);
        }
        self.time_age
    }

    /// The number of searches started, modulo 64: the search time divided by four.
    pub fn time_age_cylces(&self) -> (r: u8)
        ensures
            r == self.spec_time_age() / 4,
    {
        let t = self.time_age;
        assert(t >> 2u32 == t / 4) by (bit_vector);
        self.time_age >> 2u32
    }

    /// The index of the cluster that `key` selects: `key` modulo the number of
    /// clusters.
    fn cluster_index(&self, key: Key) -> (c: usize)
        requires
            self.wf(),
        ensures
            c == cluster_index_of(key, self@.len()),
            c < self@.len(),
    {
        let n = self.clusters.len();
        proof {
            lemma_pow2_mask_is_mod(key, n as nat);
        }
        let mask: u64 = (n - 1) as u64;
        let c: u64 = mask & key;
        c as usize
    }
}

impl TT {
    /// Probes the table for `key`. Returns `(true, entry)` when the key's cluster
    /// holds an entry for the key or an unused entry (the first such); that entry
    /// is stamped with the current search time. Otherwise returns `(false, entry)`
    /// with the entry that is least valuable to keep (the first one with the
    /// lowest [Entry::time_value]), unchanged. Nothing else in the table changes,
    /// and whatever the caller writes through the reference is what the table
    /// holds there afterwards.
    pub fn probe(&mut self, key: Key) -> ((found, entry): (bool, &mut Entry))
        requires
            old(self).wf(),
        ensures
            final(self).wf(),
            final(self).spec_time_age() == old(self).spec_time_age(),
            ({
                let c = cluster_index_of(key, old(self)@.len());
                let es = old(self)@[c];
                let slot = probe_slot(es, partial_key_of(key), old(self).spec_time_age());
                &&& found == slot.0
                &&& 0 <= slot.1 < CLUSTER_SIZE
                &&& *entry == probed_entry(es[slot.1], slot.0, old(self).spec_time_age())
                &&& final(self)@ == old(self)@.update(c, es.update(slot.1, *final(entry)))
            }),
            found ==> is_open_for(*entry, partial_key_of(key)),
            found ==> entry.partial_key == 0 || entry.partial_key == partial_key_of(key),
            found <==> exists|j: int| 0 <= j < CLUSTER_SIZE && ({
                let e = #[trigger] old(self)@[cluster_index_of(key, old(self)@.len())][j];
                e.partial_key == 0 || e.partial_key == partial_key_of(key)
            }),
            found ==> entry.time_node_bound.spec_time() == old(self).spec_time_age(),
            !found ==> entry.partial_key != 0 && entry.partial_key != partial_key_of(key),
    {
        let pk = partial_key(key);
        let c = self.cluster_index(key);
        let age = self.time_age;
        proof {
            self.lemma_view_len();
        }
        let ghost es = self@[c as int];
        let mut found = false;
        let mut k: usize = 0;
        while k < CLUSTER_SIZE
            invariant_except_break
                k <= CLUSTER_SIZE,
                !found,
                forall|j: int| 0 <= j < k ==> !is_open_for(#[trigger] es[j], pk),
            invariant
                c < self@.len(),
                self@ == old(self)@,
                self.wf(),
                es == self@[c as int],
                es.len() == CLUSTER_SIZE,
            ensures
                found ==> k < CLUSTER_SIZE && is_open_for(es[k as int], pk),
                found ==> forall|j: int| 0 <= j < k ==> !is_open_for(#[trigger] es[j], pk),
                !found ==> k == CLUSTER_SIZE && forall|j: int| 0 <= j < CLUSTER_SIZE ==> !is_open_for(#[trigger] es[j], pk),
            decreases CLUSTER_SIZE - k,
        {
            let entry_key = self.clusters[c].entry[k].partial_key;
            if entry_key == 0 || entry_key == pk {
                found = true;
                break;
            }
            k = k + 1;
        }
        proof {
            lemma_first_open(es, pk, 0, k as int);
        }
        if !found {
            let mut r: usize = 0;
            let mut best: i16 = self.clusters[c].entry[0].time_value(age);
            let mut i: usize = 1;
            while i < CLUSTER_SIZE
                invariant
                    1 <= i <= CLUSTER_SIZE,
                    c < self@.len(),
                    self@ == old(self)@,
                    self.wf(),
                    es == self@[c as int],
                    es.len() == CLUSTER_SIZE,
                    age == self.spec_time_age(),
                    r == least_valuable(es, age, i as int),
                    r < i,
                    best == time_value_of(es[r as int].depth, es[r as int].time_node_bound.spec_data(), age),
                decreases CLUSTER_SIZE - i,
            {
                let v = self.clusters[c].entry[i].time_value(age);
                if v < best {
                    r = i;
                    best = v;
                }
                i = i + 1;
            }
            k = r;
        }
        proof {
            lemma_probe_slot(es, pk, age);
            es[k as int].time_node_bound.lemma_with_time(age);
        }
        let cluster = &mut self.clusters[c];
        let e = &mut cluster.entry[k];
        if found {
            e.time_node_bound.update_time(age);
        }
        (found, e)
    }
}

/// When no entry in `[i, k)` is open and `k` is open or the end, the first open
/// entry from `i` is `k`.
proof fn lemma_first_open(es: Seq<Entry>, pk: u16, i: int, k: int)
    requires
        0 <= i <= k <= es.len(),
        forall|j: int| i <= j < k ==> !is_open_for(#[trigger] es[j], pk),
        k < es.len() ==> is_open_for(es[k], pk),
    ensures
        first_open_from(es, pk, i) == k,
    decreases k - i,
{
    if i < k {
        lemma_first_open(es, pk, i + 1, k);
    }
}

/// The number of non-empty entries among the first `k` entries of `es`.
pub open spec fn filled_in(es: Seq<Entry>, k: int) -> nat
    decreases k,
{
    if k <= 0 {
        0
    } else {
        filled_in(es, k - 1) + (if es[k - 1].time_node_bound.spec_bound() == NodeBound::NoBound { 0nat } else { 1nat })
    }
}

/// The number of non-empty entries in clusters `0..m` of a table view `v`, where
/// cluster `i` stands for cluster `i % v.len()`.
pub open spec fn filled_scanned(v: Seq<Seq<Entry>>, m: int) -> nat
    decreases m,
{
    if m <= 0 {
        0
    } else {
        filled_scanned(v, m - 1) + filled_in(v[(m - 1) % (v.len() as int)], CLUSTER_SIZE as int)
    }
}

/// The number of clusters a fill estimate scans: all of them, and at least 1024
/// (cycling through the table when it is smaller).
pub open spec fn clusters_scanned(n: nat) -> nat {
    if n > 1024 { n } else { 1024 }
}

impl TT {
    /// Counts the non-empty entries in the clusters that a fill estimate scans:
    /// returns that count and the number of entries scanned, so that their ratio
    /// is the share of the table in use.
    pub fn hash_fill(&self) -> (r: (u64, u64))
        requires
            self.wf(),
        ensures
            r.1 == clusters_scanned(self@.len()) * CLUSTER_SIZE,
            r.0 == filled_scanned(self@, clusters_scanned(self@.len()) as int),
            r.0 <= r.1,
    {
        proof {
            self.lemma_view_len();
            lemma_half_pow2(self@.len());
        }
        let n = self.clusters.len();
        let scanned: u64 = if n > 1024 { n as u64 } else { 1024 };
        let mut hits: u64 = 0;
        let mut i: u64 = 0;
        while i < scanned
            invariant
                n == self@.len(),
                n >= 1,
                n * CLUSTER_BYTES <= isize::MAX,
                is_pow2(n as int),
                self.wf(),
                scanned == clusters_scanned(n as nat),
                i <= scanned,
                hits == filled_scanned(self@, i as int),
                hits <= i * CLUSTER_SIZE,
            decreases scanned - i,
        {
            let c = self.cluster_index(i);
            let mut e: usize = 0;
            let ghost before = hits;
            while e < CLUSTER_SIZE
                invariant
                    c < self@.len(),
                    self.clusters@[c as int].entry@ == self@[c as int],
                    e <= CLUSTER_SIZE,
                    hits == before + filled_in(self@[c as int], e as int),
                    before <= i * CLUSTER_SIZE,
                    filled_in(self@[c as int], e as int) <= e,
                    i < scanned,
                    scanned * 32 <= 0x7FFF_FFFF_FFFF_FFFFint,
                decreases CLUSTER_SIZE - e,
            {
                if !self.clusters[c].entry[e].is_empty() {
                    hits = hits + 1;
                }
                e = e + 1;
            }
            i = i + 1;
        }
        (hits, scanned * (CLUSTER_SIZE as u64))
    }
}

/// What probing a cluster selects: an open entry exactly when one exists, and
/// then the first one; otherwise the first entry with the lowest time value.
pub proof fn lemma_probe_slot(es: Seq<Entry>, pk: u16, curr_time: u8)
    requires
        es.len() >= 1,
    ensures
        ({
            let (found, k) = probe_slot(es, pk, curr_time);
            &&& 0 <= k < es.len()
            &&& found <==> exists|j: int| 0 <= j < es.len() && is_open_for(#[trigger] es[j], pk)
            &&& found ==> is_open_for(es[k], pk)
            &&& found ==> forall|j: int| 0 <= j < k ==> !is_open_for(#[trigger] es[j], pk)
            &&& !found ==> forall|j: int| 0 <= j < es.len() ==>
                time_value_of(es[k].depth, es[k].time_node_bound.spec_data(), curr_time)
                    <= time_value_of((#[trigger] es[j]).depth, es[j].time_node_bound.spec_data(), curr_time)
            &&& !found ==> forall|j: int| 0 <= j < k ==>
                time_value_of(es[k].depth, es[k].time_node_bound.spec_data(), curr_time)
                    < time_value_of((#[trigger] es[j]).depth, es[j].time_node_bound.spec_data(), curr_time)
        }),
{
    lemma_first_open_props(es, pk, 0);
    lemma_least_valuable(es, curr_time, es.len() as int);
}

proof fn lemma_first_open_props(es: Seq<Entry>, pk: u16, i: int)
    requires
        0 <= i <= es.len(),
    ensures
        i <= first_open_from(es, pk, i) <= es.len(),
        first_open_from(es, pk, i) < es.len() ==> is_open_for(es[first_open_from(es, pk, i)], pk),
        forall|j: int| i <= j < first_open_from(es, pk, i) ==> !is_open_for(#[trigger] es[j], pk),
    decreases es.len() - i,
{
    if i < es.len() && !is_open_for(es[i], pk) {
        lemma_first_open_props(es, pk, i + 1);
    }
}

proof fn lemma_least_valuable(es: Seq<Entry>, t: u8, n: int)
    requires
        1 <= n <= es.len(),
    ensures
        0 <= least_valuable(es, t, n) < n,
        forall|j: int| 0 <= j < n ==>
            time_value_of(es[least_valuable(es, t, n)].depth, es[least_valuable(es, t, n)].time_node_bound.spec_data(), t)
                <= time_value_of((#[trigger] es[j]).depth, es[j].time_node_bound.spec_data(), t),
        forall|j: int| 0 <= j < least_valuable(es, t, n) ==>
            time_value_of(es[least_valuable(es, t, n)].depth, es[least_valuable(es, t, n)].time_node_bound.spec_data(), t)
                < time_value_of((#[trigger] es[j]).depth, es[j].time_node_bound.spec_data(), t),
    decreases n,
{
    if n > 1 {
        lemma_least_valuable(es, t, n - 1);
    }
}

/// Reading back a write: after probing a key and placing the key into the entry
/// handed out, probing the same key finds that same entry, which now holds the
/// key's partial key.
pub proof fn lemma_place_then_probe(
    v: Seq<Seq<Entry>>,
    key: u64,
    curr_time: u8,
    best_move: BitMove,
    score: i16,
    eval: i16,
    depth: u8,
    node_type: NodeBound,
)
    requires
        v.len() > 0,
        forall|c: int| 0 <= c < v.len() ==> (#[trigger] v[c]).len() == CLUSTER_SIZE,
    ensures
        ({
            let pk = partial_key_of(key);
            let c = cluster_index_of(key, v.len());
            let (found, k) = probe_slot(v[c], pk, curr_time);
            let written = placed_entry(probed_entry(v[c][k], found, curr_time), key, best_move, score, eval, depth, node_type);
            let v2 = v.update(c, v[c].update(k, written));
            &&& probe_slot(v2[c], pk, curr_time) == (true, k)
            &&& v2[c][k].partial_key == pk
        }),
{
    let pk = partial_key_of(key);
    let c = cluster_index_of(key, v.len());
    let es = v[c];
    lemma_probe_slot(es, pk, curr_time);
    let (found, k) = probe_slot(es, pk, curr_time);
    let written = placed_entry(probed_entry(es[k], found, curr_time), key, best_move, score, eval, depth, node_type);
    let es2 = es.update(k, written);
    assert(written.partial_key == pk);
    assert forall|j: int| 0 <= j < k implies !is_open_for(#[trigger] es2[j], pk) by {
        assert(es2[j] == es[j]);
    }
    lemma_first_open(es2, pk, 0, k);
}

/// Probing is stable: probing the same key again right away selects the same
/// entry with the same outcome, and leaves the table as the first probe left it.
pub proof fn lemma_probe_twice(v: Seq<Seq<Entry>>, key: u64, curr_time: u8)
    requires
        v.len() > 0,
        forall|c: int| 0 <= c < v.len() ==> (#[trigger] v[c]).len() == CLUSTER_SIZE,
        curr_time & NODE_TYPE_MASK == 0,
    ensures
        ({
            let pk = partial_key_of(key);
            let c = cluster_index_of(key, v.len());
            let (found, k) = probe_slot(v[c], pk, curr_time);
            let e = probed_entry(v[c][k], found, curr_time);
            let v2 = v.update(c, v[c].update(k, e));
            &&& probe_slot(v2[c], pk, curr_time) == (found, k)
            &&& probed_entry(v2[c][k], found, curr_time) == e
        }),
{
    let pk = partial_key_of(key);
    let c = cluster_index_of(key, v.len());
    let es = v[c];
    lemma_probe_slot(es, pk, curr_time);
    let (found, k) = probe_slot(es, pk, curr_time);
    let e = probed_entry(es[k], found, curr_time);
    let es2 = es.update(k, e);
    assert(e.partial_key == es[k].partial_key);
    if found {
        assert forall|j: int| 0 <= j < k implies !is_open_for(#[trigger] es2[j], pk) by {
            assert(es2[j] == es[j]);
        }
        lemma_first_open(es2, pk, 0, k);
        let d = es[k].time_node_bound.spec_data();
        assert(curr_time & 3 == 0 ==> ((((d & 3) | curr_time) & 3) | curr_time) == (d & 3) | curr_time)
            by (bit_vector);
        es[k].time_node_bound.lemma_with_time(curr_time);
        es[k].time_node_bound.with_time(curr_time).lemma_with_time(curr_time);
        assert(e.time_node_bound.with_time(curr_time) == e.time_node_bound);
    } else {
        assert(es2 =~= es);
    }
}

/// For a power of two `n` that fits in 63 bits, masking with `n - 1` is
/// reduction modulo `n`.
proof fn lemma_pow2_mask_is_mod(key: u64, n: nat)
    requires
        is_pow2(n as int),
        n <= isize::MAX,
    ensures
        (((n - 1) as u64) & key) == key % (n as u64),
        key % (n as u64) < n,
{
    is_pow2_equiv(n as int);
    let k = choose|i: nat| pow(2, i) == n;
    vstd::arithmetic::power::lemma_pow_positive(2, k);
    assert(pow2(k) == n);
    vstd::arithmetic::power2::lemma2_to64();
    vstd::arithmetic::power2::lemma2_to64_rest();
    if k >= 63 {
        vstd::arithmetic::power::lemma_pow_increases(2, 63, k);
        assert(pow2(63) == 0x8000000000000000);
        vstd::arithmetic::power::lemma_pow_positive(2, 63);
        assert(pow(2, 63) == 0x8000000000000000);
        assert(false);
    }
    lemma_u64_low_bits_mask_is_mod(key, k);
    let m = (n - 1) as u64;
    assert(m & key == key & m) by (bit_vector);
}

proof fn lemma_half_pow2(p: nat)
    requires
        is_pow2(p as int),
    ensures
        p == 1 || is_pow2((p / 2) as int),
        p >= 1,
{
    reveal(is_pow2);
}

proof fn lemma_next_pow2_of_pow2(p: nat)
    requires
        is_pow2(p as int),
    ensures
        next_pow2(p) == p,
    decreases p,
{
    reveal(is_pow2);
    if p == 1 {
    } else {
        lemma_next_pow2_of_pow2(p / 2);
        lemma_pow2_doubles(p / 2, 1);
    }
}

/// Searching by doubling from `p` for a bound of `2n` finds twice what it finds
/// for `n` from `p/2`.
proof fn lemma_pow2_doubles(n: nat, p: nat)
    requires
        p >= 1,
    ensures
        pow2_at_least_from(2 * n, 2 * p) == 2 * pow2_at_least_from(n, p),
    decreases (if p < n { n - p } else { 0 }),
{
    if p < n {
        lemma_pow2_doubles(n, 2 * p);
    }
}


/// The search time after `n` new searches from `start`.
pub open spec fn time_after_searches(start: u8, n: nat) -> u8
    decreases n,
{
    if n == 0 {
        start
    } else {
        ((time_after_searches(start, (n - 1) as nat) + 4) % 256) as u8
    }
}

/// The number of cycles counts the new searches: after `n` new searches from a
/// search time that is a multiple of four, the cycle count has advanced by `n`,
/// modulo 64.
pub proof fn lemma_search_cycles(start: u8, n: nat)
    requires
        start % 4 == 0,
    ensures
        time_after_searches(start, n) == (start + 4 * n) % 256,
        time_after_searches(start, n) / 4 == (start / 4 + n) % 64,
    decreases n,
{
    if n > 0 {
        lemma_search_cycles(start, (n - 1) as nat);
        let t = time_after_searches(start, (n - 1) as nat) as int;
        assert(t == (start + 4 * (n - 1)) % 256);
        assert(((start + 4 * (n - 1)) % 256 + 4) % 256 == (start + 4 * n) % 256) by (nonlinear_arith)
            requires
                n >= 1;
        assert(((start + 4 * n) % 256) / 4 == (start / 4 + n) % 64) by (nonlinear_arith)
            requires
                start % 4 == 0,
                start >= 0;
    }
}

/// Every entry of a freshly made or cleared table is all zero: empty, free for
/// any key, with time zero.
pub proof fn lemma_empty_clusters(n: nat)
    ensures
        NodeTypeTimeBound::spec_zero().spec_data() == 0,
        NodeTypeTimeBound::spec_zero().spec_time() == 0,
        NodeTypeTimeBound::spec_zero().spec_bound() == NodeBound::NoBound,
        forall|c: int, j: int| 0 <= c < n && 0 <= j < CLUSTER_SIZE ==> {
            &&& (#[trigger] empty_clusters(n)[c][j]) == zero_entry()
            &&& empty_clusters(n)[c][j].time_node_bound.spec_bound() == NodeBound::NoBound
            &&& empty_clusters(n)[c][j].time_node_bound.spec_time() == 0
            &&& empty_clusters(n)[c][j].partial_key == 0
        },
{
    assert(0u8 & 3u8 == 0 && 0u8 & 0xFCu8 == 0) by (bit_vector);
}

/// Probing a table whose clusters are all empty, at a search time that is a
/// multiple of four (as every table's is), finds the first slot of the key's
/// cluster open, and it reads as empty: no key, depth zero, no bound, stamped
/// with the current time.
pub proof fn lemma_probe_empty(n: nat, key: u64, curr_time: u8)
    requires
        n > 0,
        curr_time % 4 == 0,
    ensures
        ({
            let es = empty_clusters(n)[cluster_index_of(key, n)];
            let slot = probe_slot(es, partial_key_of(key), curr_time);
            let e = probed_entry(es[slot.1], slot.0, curr_time);
            &&& slot == (true, 0int)
            &&& e.partial_key == 0
            &&& e.depth == 0
            &&& e.time_node_bound.spec_bound() == NodeBound::NoBound
            &&& e.time_node_bound.spec_time() == curr_time
        }),
{
    lemma_empty_clusters(n);
    let c = cluster_index_of(key, n);
    let es = empty_clusters(n)[c];
    assert(is_open_for(es[0], partial_key_of(key)));
    assert(first_open_from(es, partial_key_of(key), 0) == 0);
    let z = NodeTypeTimeBound::spec_zero();
    z.lemma_with_time(curr_time);
    assert(curr_time & 3u8 == 0) by (bit_vector)
        requires curr_time % 4 == 0;
}

proof fn lemma_pow2_divides(n: int, m: int)
    requires
        is_pow2(n),
        is_pow2(m),
        n <= m,
    ensures
        m % n == 0,
    decreases n,
{
    reveal(is_pow2);
    if n != 1 {
        assert(n % 2 == 0 && is_pow2(n / 2));
        assert(n / 2 > 0);
        assert(n >= 2);
        assert(m != 1);
        assert(m % 2 == 0 && is_pow2(m / 2));
        assert(n / 2 <= m / 2);
        lemma_pow2_divides(n / 2, m / 2);
        let q = (m / 2) / (n / 2);
        vstd::arithmetic::div_mod::lemma_fundamental_div_mod(m / 2, n / 2);
        assert(m == n * q) by (nonlinear_arith)
            requires
                m % 2 == 0,
                n % 2 == 0,
                m / 2 == (n / 2) * q + (m / 2) % (n / 2),
                (m / 2) % (n / 2) == 0;
        vstd::arithmetic::div_mod::lemma_mod_multiples_basic(q, n);
        assert(q * n == n * q) by (nonlinear_arith);
    }
}

proof fn lemma_filled_period(v: Seq<Seq<Entry>>, m: int)
    requires
        v.len() > 0,
        m >= v.len(),
    ensures
        filled_scanned(v, m) == filled_scanned(v, m - v.len()) + filled_scanned(v, v.len() as int),
    decreases m,
{
    let n = v.len() as int;
    if m > n {
        lemma_filled_period(v, m - 1);
        vstd::arithmetic::div_mod::lemma_mod_add_multiples_vanish(m - 1 - n, n);
        assert(n + (m - 1 - n) == m - 1);
    }
}

proof fn lemma_filled_multiple(v: Seq<Seq<Entry>>, k: nat)
    requires
        v.len() > 0,
    ensures
        filled_scanned(v, (k * v.len()) as int) == k * filled_scanned(v, v.len() as int),
    decreases k,
{
    if k > 0 {
        let n = v.len() as int;
        lemma_filled_multiple(v, (k - 1) as nat);
        assert(k * n - n == (k - 1) * n && k * n >= n) by (nonlinear_arith)
            requires k > 0, n > 0;
        lemma_filled_period(v, k * n);
        assert(((k - 1) * v.len()) as int == (k - 1) * n);
        assert((k * v.len()) as int == k * n);
        assert(filled_scanned(v, (k - 1) * n) == (k - 1) * filled_scanned(v, n));
        assert(filled_scanned(v, k * n) == filled_scanned(v, (k - 1) * n) + filled_scanned(v, n));
        assert(k * filled_scanned(v, n) == (k - 1) * filled_scanned(v, n) + filled_scanned(v, n)) by (nonlinear_arith);
    } else {
        assert(k * v.len() == 0) by (nonlinear_arith)
            requires k == 0;
        assert(filled_scanned(v, 0) == 0);
    }
}

/// The fill estimate's count of non-empty entries, over the number of entries
/// it scans, equals the share of non-empty entries in the whole table
/// (clusters `0..v.len()`).
pub proof fn lemma_hash_fill_share(v: Seq<Seq<Entry>>)
    requires
        is_pow2(v.len() as int),
    ensures
        filled_scanned(v, clusters_scanned(v.len()) as int) * (v.len() * CLUSTER_SIZE)
            == filled_scanned(v, v.len() as int) * (clusters_scanned(v.len()) * CLUSTER_SIZE),
{
    let n = v.len() as int;
    if n <= 1024 {
        assert(is_pow2(1024)) by {
            reveal_with_fuel(is_pow2, 12);
        }
        assert(n > 0) by {
            reveal(is_pow2);
        }
        lemma_pow2_divides(n, 1024);
        let k = (1024int / n) as nat;
        vstd::arithmetic::div_mod::lemma_fundamental_div_mod(1024, n);
        lemma_filled_multiple(v, k);
        let f = filled_scanned(v, n);
        assert(k * n == 1024) by (nonlinear_arith)
            requires 1024 == n * (1024int / n) + 1024int % n, 1024int % n == 0, k == 1024int / n;
        assert((k * f) * (n * 3) == f * (1024 * 3)) by (nonlinear_arith)
            requires k * n == 1024;
    }
}

/// Probing hands out an entry for a key only when it is unused or holds that
/// very key: it reports a find exactly when the cluster has such an entry, and
/// then the entry it selects is one; otherwise no entry of the cluster is
/// unused or holds the key.
pub proof fn lemma_probe_matches_key(es: Seq<Entry>, pk: u16, curr_time: u8)
    requires
        es.len() >= 1,
    ensures
        ({
            let (found, k) = probe_slot(es, pk, curr_time);
            &&& found ==> es[k].partial_key == 0 || es[k].partial_key == pk
            &&& found <==> exists|j: int| 0 <= j < es.len() && ((#[trigger] es[j]).partial_key == 0 || es[j].partial_key == pk)
            &&& !found ==> forall|j: int| 0 <= j < es.len() ==> (#[trigger] es[j]).partial_key != 0 && es[j].partial_key != pk
        }),
{
    lemma_probe_slot(es, pk, curr_time);
    let (found, k) = probe_slot(es, pk, curr_time);
    if exists|j: int| 0 <= j < es.len() && ((#[trigger] es[j]).partial_key == 0 || es[j].partial_key == pk) {
        let j = choose|j: int| 0 <= j < es.len() && ((#[trigger] es[j]).partial_key == 0 || es[j].partial_key == pk);
        assert(is_open_for(es[j], pk));
    }
}

/// The fill count of a cluster is the number of its entries that are not
/// empty, that is whose bound is not `NoBound`, whatever bound they hold.
pub proof fn lemma_filled_counts_non_empty(es: Seq<Entry>, k: int)
    requires
        0 <= k <= es.len(),
    ensures
        filled_in(es, k) == es.take(k).filter(|e: Entry| e.time_node_bound.spec_bound() != NodeBound::NoBound).len(),
    decreases k,
{
    let p = |e: Entry| e.time_node_bound.spec_bound() != NodeBound::NoBound;
    reveal(Seq::filter);
    if k > 0 {
        lemma_filled_counts_non_empty(es, k - 1);
        assert(es.take(k).drop_last() =~= es.take(k - 1));
        assert(es.take(k).last() == es[k - 1]);
    } else {
        assert(es.take(0) =~= Seq::<Entry>::empty());
    }
}

/// The value of keeping an entry falls with its age: an entry written `k`
/// searches ago (its time `4 * k` below the current one, modulo 256, with any
/// bound in the low two bits) is worth its depth less eight per search.
pub proof fn lemma_time_value_by_age(depth: u8, bound: u8, curr_time: u8, k: u8)
    requires
        bound < 4,
        curr_time % 4 == 0,
        k < 64,
    ensures
        ({
            let tm = ((curr_time as int - 4 * k as int) % 256) as u8;
            let data = (tm + bound) as u8;
            &&& age_of(data, curr_time) == 4 * k
            &&& time_value_of(depth, data, curr_time) == depth - 8 * k
        }),
{
    let tm = ((curr_time as int - 4 * k as int) % 256) as u8;
    let data = (tm + bound) as u8;
    assert(tm % 4 == 0);
    assert(data as int == tm + bound);
    let x = (259 + curr_time - data) as u16;
    assert(x == 4 * k + 3 - bound || x == 4 * k + 3 - bound + 256);
    let k16 = k as u16;
    let b16 = bound as u16;
    assert((x & 0xFCu16) == 4 * k16) by (bit_vector)
        requires
            k16 < 64,
            b16 < 4,
            x == 4 * k16 + 3 - b16 || x == 4 * k16 + 3 - b16 + 256;
}

} // verus!
