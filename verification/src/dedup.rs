//! Duplicate detection: exact copies (equal content hash), visually similar
//! photos (perceptual hash within a Hamming distance) and bursts (photos
//! taken at most two seconds apart).

use vstd::prelude::*;
use vstd::string::StringExecFns;

use crate::seqs::{
    distinct_pairs, indices_where, lemma_indices_where, lemma_indices_where_ext, lemma_increasing_unique,
    lemma_sorted_version, pair_lt, sort_distinct_pairs, sorted_pairs, sorted_version, strictly_increasing,
};

verus! {

// ── bit-level helpers ───────────────────────────────────────────────────

/// Byte `band` (0 = least significant) of a 64-bit perceptual hash.
pub open spec fn band_of(p: i64, band: int) -> u8 {
    ((p as u64) >> ((band * 8) as u64)) as u8
}

/// Number of one bits in a byte.
pub open spec fn popcount8(x: u8) -> nat {
    ((x & 1u8) + ((x >> 1u8) & 1u8) + ((x >> 2u8) & 1u8) + ((x >> 3u8) & 1u8)
        + ((x >> 4u8) & 1u8) + ((x >> 5u8) & 1u8) + ((x >> 6u8) & 1u8) + ((x >> 7u8) & 1u8)) as nat
}

/// Number of differing bits among the first `k` bytes of two hashes.
pub open spec fn hamming_upto(a: i64, b: i64, k: int) -> nat
    decreases k,
{
    if k <= 0 {
        0
    } else {
        hamming_upto(a, b, k - 1) + popcount8(band_of(a, k - 1) ^ band_of(b, k - 1))
    }
}

/// Hamming distance of two 64-bit hashes: the number of bits in which they differ.
pub open spec fn hamming_spec(a: i64, b: i64) -> nat {
    hamming_upto(a, b, 8)
}

proof fn lemma_popcount8_zero(x: u8)
    requires
        popcount8(x) == 0,
    ensures
        x == 0,
{
    assert(((x & 1u8) + ((x >> 1u8) & 1u8) + ((x >> 2u8) & 1u8) + ((x >> 3u8) & 1u8)
        + ((x >> 4u8) & 1u8) + ((x >> 5u8) & 1u8) + ((x >> 6u8) & 1u8) + ((x >> 7u8) & 1u8)) == 0
        ==> x == 0) by (bit_vector);
}

proof fn lemma_xor_zero(a: u8, b: u8)
    requires
        a ^ b == 0,
    ensures
        a == b,
{
    assert(a ^ b == 0 ==> a == b) by (bit_vector);
}

proof fn lemma_popcount8_bound(x: u8)
    ensures
        popcount8(x) <= 8,
{
    assert(((x & 1u8) + ((x >> 1u8) & 1u8) + ((x >> 2u8) & 1u8) + ((x >> 3u8) & 1u8)
        + ((x >> 4u8) & 1u8) + ((x >> 5u8) & 1u8) + ((x >> 6u8) & 1u8) + ((x >> 7u8) & 1u8)) <= 8) by (bit_vector);
}

proof fn lemma_hamming_upto_bound(a: i64, b: i64, k: int)
    requires
        0 <= k,
    ensures
        hamming_upto(a, b, k) <= 8 * k,
    decreases k,
{
    if k > 0 {
        lemma_hamming_upto_bound(a, b, k - 1);
        lemma_popcount8_bound(band_of(a, k - 1) ^ band_of(b, k - 1));
    }
}

/// Pigeonhole: if fewer than `k` bits differ among the first `k` bytes,
/// then some byte among them is equal in both hashes.
proof fn lemma_shared_band_upto(a: i64, b: i64, k: int) -> (band: int)
    requires
        0 <= k,
        hamming_upto(a, b, k) < k,
    ensures
        0 <= band < k,
        band_of(a, band) == band_of(b, band),
    decreases k,
{
    let x = band_of(a, k - 1) ^ band_of(b, k - 1);
    if popcount8(x) == 0 {
        lemma_popcount8_zero(x);
        lemma_xor_zero(band_of(a, k - 1), band_of(b, k - 1));
        k - 1
    } else {
        lemma_shared_band_upto(a, b, k - 1)
    }
}

/// Two hashes at Hamming distance at most 7 agree on at least one of their
/// eight bytes.
pub proof fn lemma_close_hashes_share_a_band(a: i64, b: i64) -> (band: int)
    requires
        hamming_spec(a, b) <= 7,
    ensures
        0 <= band < 8,
        band_of(a, band) == band_of(b, band),
{
    lemma_shared_band_upto(a, b, 8)
}

/// Number of one bits in a byte.
fn popcount_byte(x: u8) -> (n: u32)
    ensures
        n == popcount8(x),
{
    assert((x & 1u8) <= 1 && ((x >> 1u8) & 1u8) <= 1 && ((x >> 2u8) & 1u8) <= 1
        && ((x >> 3u8) & 1u8) <= 1 && ((x >> 4u8) & 1u8) <= 1 && ((x >> 5u8) & 1u8) <= 1
        && ((x >> 6u8) & 1u8) <= 1 && ((x >> 7u8) & 1u8) <= 1) by (bit_vector);
    ((x & 1u8) + ((x >> 1u8) & 1u8) + ((x >> 2u8) & 1u8) + ((x >> 3u8) & 1u8) + ((x >> 4u8) & 1u8)
        + ((x >> 5u8) & 1u8) + ((x >> 6u8) & 1u8) + ((x >> 7u8) & 1u8)) as u32
}

/// Hamming distance between two perceptual hashes.
pub fn hamming(a: i64, b: i64) -> (d: u32)
    ensures
        d == hamming_spec(a, b),
        d <= 64,
{
    let mut d: u32 = 0;
    let mut k: u32 = 0;
    while k < 8
        invariant
            k <= 8,
            d == hamming_upto(a, b, k as int),
            d <= 8 * k,
        decreases 8 - k,
    {
        let x = (((a as u64) >> (k * 8) as u64) as u8) ^ (((b as u64) >> (k * 8) as u64) as u8);
        proof {
            lemma_popcount8_bound(x);
        }
        d = d + popcount_byte(x);
        k = k + 1;
    }
    d
}


/// Little-endian value of a byte sequence.
pub open spec fn le_value(s: Seq<u8>) -> nat
    decreases s.len(),
{
    if s.len() == 0 {
        0
    } else {
        s[0] as nat + 256 * le_value(s.drop_first())
    }
}

pub open spec fn pow256(j: nat) -> nat
    decreases j,
{
    if j == 0 {
        1
    } else {
        256 * pow256((j - 1) as nat)
    }
}

proof fn lemma_pow256_mono(i: nat, j: nat)
    requires
        i <= j,
    ensures
        pow256(i) <= pow256(j),
    decreases j,
{
    if i < j {
        lemma_pow256_mono(i, (j - 1) as nat);
    }
}

proof fn lemma_pow256_seven()
    ensures
        pow256(7) == 72057594037927936,
{
    assert(pow256(0) == 1);
    assert(pow256(1) == 256);
    assert(pow256(2) == 65536);
    assert(pow256(3) == 16777216);
    assert(pow256(4) == 4294967296);
    assert(pow256(5) == 1099511627776);
    assert(pow256(6) == 281474976710656);
}

/// The 64-bit value that `bytes_to_i64` reads from a byte string: its first
/// (at most) eight bytes as a little-endian integer, zero-extended.
pub open spec fn bytes_to_i64_spec(b: Seq<u8>) -> i64 {
    let m = if b.len() < 8 { b.len() } else { 8 };
    (le_value(b.take(m as int)) as u64) as i64
}

/// Reads the first eight bytes of `b` (zero-padded when shorter) as a
/// little-endian signed integer.
pub fn bytes_to_i64(b: &[u8]) -> (v: i64)
    ensures
        v == bytes_to_i64_spec(b@),
{
    let m: usize = if b.len() < 8 { b.len() } else { 8 };
    let ghost pre = b@.take(m as int);
    let mut k: usize = m;
    let mut v: u64 = 0;
    proof {
        assert(pre.subrange(m as int, m as int) =~= Seq::<u8>::empty());
        lemma_pow256_seven();
    }
    while k > 0
        invariant
            k <= m <= 8,
            m <= b@.len(),
            pre == b@.take(m as int),
            v == le_value(pre.subrange(k as int, m as int)),
            v < pow256((m - k) as nat),
            pow256(7) == 72057594037927936,
        decreases k,
    {
        proof {
            lemma_pow256_mono((m - k) as nat, 7);
            let tail = pre.subrange((k - 1) as int, m as int);
            assert(tail.drop_first() =~= pre.subrange(k as int, m as int));
        }
        v = v * 256 + b[k - 1] as u64;
        k = k - 1;
    }
    proof {
        assert(pre.subrange(0, m as int) =~= pre);
    }
    v as i64
}

proof fn lemma_popcount8_xor_sym(x: u8, y: u8)
    ensures
        popcount8(x ^ y) == popcount8(y ^ x),
{
    assert(x ^ y == y ^ x) by (bit_vector);
}

proof fn lemma_hamming_upto_sym(a: i64, b: i64, k: int)
    ensures
        hamming_upto(a, b, k) == hamming_upto(b, a, k),
    decreases k,
{
    if k > 0 {
        lemma_hamming_upto_sym(a, b, k - 1);
        lemma_popcount8_xor_sym(band_of(a, k - 1), band_of(b, k - 1));
    }
}

/// The Hamming distance is symmetric.
pub proof fn lemma_hamming_sym(a: i64, b: i64)
    ensures
        hamming_spec(a, b) == hamming_spec(b, a),
{
    lemma_hamming_upto_sym(a, b, 8);
}

// ── union-find ──────────────────────────────────────────────────────────

/// Disjoint sets over `0..n` with path compression. Its view maps every
/// element to the representative of its set.
struct UnionFind {
    parent: Vec<usize>,
    rep: Ghost<Seq<int>>,
    level: Ghost<Seq<nat>>,
    bound: Ghost<nat>,
}

impl View for UnionFind {
    type V = Seq<int>;

    closed spec fn view(&self) -> Seq<int> {
        self.rep@
    }
}

impl UnionFind {
    /// Well-formedness: parents point inside, following parents reaches the
    /// representative, and levels strictly grow towards the representative.
    closed spec fn wf(&self) -> bool {
        let n = self.parent@.len();
        &&& self.rep@.len() == n
        &&& self.level@.len() == n
        &&& forall|x: int| 0 <= x < n ==> {
            &&& (#[trigger] self.parent@[x]) < n
            &&& 0 <= self.rep@[x] < n
            &&& self.parent@[self.rep@[x]] == self.rep@[x]
            &&& (self.parent@[x] == x ==> self.rep@[x] == x)
            &&& self.rep@[self.parent@[x] as int] == self.rep@[x]
            &&& (self.parent@[x] != x ==> self.level@[self.parent@[x] as int] > self.level@[x])
            &&& (self.rep@[x] != x ==> self.level@[self.rep@[x]] > self.level@[x])
            &&& self.level@[x] < self.bound@
        }
    }

    /// The well-formedness facts about one element.
    proof fn lemma_wf_at(&self, x: int)
        requires
            self.wf(),
            0 <= x < self.parent@.len(),
        ensures
            self.parent@[x] < self.parent@.len(),
            0 <= self.rep@[x] < self.parent@.len(),
            self.parent@[self.rep@[x]] == self.rep@[x],
            self.parent@[x] == x ==> self.rep@[x] == x,
            self.rep@[self.parent@[x] as int] == self.rep@[x],
            self.parent@[x] != x ==> self.level@[self.parent@[x] as int] > self.level@[x],
            self.rep@[x] != x ==> self.level@[self.rep@[x]] > self.level@[x],
            self.level@[x] < self.bound@,
    {
        assert(self.parent@[x] < self.parent@.len());
    }

    /// Every element in a set of its own.
    fn new(n: usize) -> (uf: Self)
        ensures
            uf.wf(),
            uf@ == Seq::new(n as nat, |i: int| i),
    {
        let mut parent: Vec<usize> = Vec::new();
        let mut i: usize = 0;
        while i < n
            invariant
                i <= n,
                parent@ == Seq::new(i as nat, |j: int| j as usize),
            decreases n - i,
        {
            parent.push(i);
            i = i + 1;
        }
        UnionFind {
            parent,
            rep: Ghost(Seq::new(n as nat, |i: int| i)),
            level: Ghost(Seq::new(n as nat, |i: int| 0nat)),
            bound: Ghost(1),
        }
    }

    closed spec fn len(&self) -> nat {
        self.parent@.len()
    }

    /// The representative of `x`'s set (compressing the path to it).
    fn find(&mut self, x: usize) -> (r: usize)
        requires
            old(self).wf(),
            x < old(self).len(),
        ensures
            final(self).wf(),
            final(self)@ == old(self)@,
            final(self).len() == old(self).len(),
            r == old(self)@[x as int],
        decreases old(self).bound@ - old(self).level@[x as int],
    {
        let p = self.parent[x];
        proof {
            self.lemma_wf_at(x as int);
        }
        if p != x {
            proof {
                self.lemma_wf_at(p as int);
                assert(old(self).bound@ - old(self).level@[p as int] < old(self).bound@ - old(self).level@[x as int]);
            }
            let root = self.find(p);
            let ghost mid = *self;
            self.parent.set(x, root);
            proof {
                let n = self.parent@.len();
                assert forall|y: int| 0 <= y < n implies {
                    &&& (#[trigger] self.parent@[y]) < n
                    &&& 0 <= self.rep@[y] < n
                    &&& self.parent@[self.rep@[y]] == self.rep@[y]
                    &&& (self.parent@[y] == y ==> self.rep@[y] == y)
                    &&& self.rep@[self.parent@[y] as int] == self.rep@[y]
                    &&& (self.parent@[y] != y ==> self.level@[self.parent@[y] as int] > self.level@[y])
                    &&& (self.rep@[y] != y ==> self.level@[self.rep@[y]] > self.level@[y])
                    &&& self.level@[y] < self.bound@
                } by {
                    mid.lemma_wf_at(y);
                    mid.lemma_wf_at(x as int);
                }
            }
            root
        } else {
            x
        }
    }

    /// Merges the sets of `a` and `b`.
    fn union(&mut self, a: usize, b: usize)
        requires
            old(self).wf(),
            a < old(self).len(),
            b < old(self).len(),
        ensures
            final(self).wf(),
            final(self).len() == old(self).len(),
            final(self)@ == old(self)@.map_values(
                |r: int| if r == old(self)@[a as int] { old(self)@[b as int] } else { r },
            ),
    {
        let ra = self.find(a);
        let rb = self.find(b);
        proof {
            self.lemma_wf_at(a as int);
            self.lemma_wf_at(b as int);
        }
        if ra != rb {
            let ghost old_self = *self;
            let ghost old_rep = self.rep@;
            let ghost old_level = self.level@;
            let ghost new_lvl: nat = if old_level[rb as int] > old_level[ra as int] {
                old_level[rb as int]
            } else {
                old_level[ra as int] + 1
            };
            self.parent.set(ra, rb);
            proof {
                self.rep@ = old_rep.map_values(|r: int| if r == ra as int { rb as int } else { r });
                self.level@ = old_level.update(rb as int, new_lvl);
                self.bound@ = if self.bound@ > new_lvl + 1 { self.bound@ } else { new_lvl + 1 };
                let n = self.parent@.len();
                assert forall|y: int| 0 <= y < n implies {
                    &&& (#[trigger] self.parent@[y]) < n
                    &&& 0 <= self.rep@[y] < n
                    &&& self.parent@[self.rep@[y]] == self.rep@[y]
                    &&& (self.parent@[y] == y ==> self.rep@[y] == y)
                    &&& self.rep@[self.parent@[y] as int] == self.rep@[y]
                    &&& (self.parent@[y] != y ==> self.level@[self.parent@[y] as int] > self.level@[y])
                    &&& (self.rep@[y] != y ==> self.level@[self.rep@[y]] > self.level@[y])
                    &&& self.level@[y] < self.bound@
                } by {
                    old_self.lemma_wf_at(y);
                    old_self.lemma_wf_at(ra as int);
                    old_self.lemma_wf_at(rb as int);
                }
            }
        }
    }
}

} // verus!

verus! {

// ── similarity graph ────────────────────────────────────────────────────

/// Buckets with more candidates than this are not compared pairwise.
pub const MAX_BUCKET: usize = 2000;

/// The largest Hamming distance that can count as "similar".
pub const MAX_THRESHOLD: u32 = 7;

/// The threshold actually used for a requested one.
pub open spec fn effective_threshold(threshold: u32) -> u32 {
    if threshold < MAX_THRESHOLD { threshold } else { MAX_THRESHOLD }
}

/// The candidates (by position) whose byte `band` equals `v`.
pub open spec fn bucket(ph: Seq<i64>, band: int, v: u8) -> Seq<int> {
    indices_where(ph.len() as int, |x: int| band_of(ph[x], band) == v)
}

/// Candidates `i` and `j` share byte `band`, that byte's bucket is small
/// enough to be compared, and they are within the threshold.
pub open spec fn band_edge(ph: Seq<i64>, t: u32, i: int, j: int, band: int) -> bool {
    &&& 0 <= i < ph.len()
    &&& 0 <= j < ph.len()
    &&& i != j
    &&& hamming_spec(ph[i], ph[j]) <= t
    &&& band_of(ph[i], band) == band_of(ph[j], band)
    &&& bucket(ph, band, band_of(ph[i], band)).len() <= MAX_BUCKET
}

/// A pair that the banded comparison links directly.
pub open spec fn similar_edge(ph: Seq<i64>, t: u32, i: int, j: int) -> bool {
    exists|band: int| 0 <= band < 8 && #[trigger] band_edge(ph, t, i, j, band)
}

/// A sequence of candidates in which each consecutive pair is linked.
pub open spec fn is_chain(ph: Seq<i64>, t: u32, path: Seq<int>) -> bool {
    &&& path.len() >= 1
    &&& forall|k: int| 0 <= k < path.len() ==> 0 <= #[trigger] path[k] < ph.len()
    &&& forall|k: int| 0 <= k < path.len() - 1 ==> #[trigger] similar_edge(ph, t, path[k], path[k + 1])
}

/// `i` and `j` are joined by a chain of linked pairs.
pub open spec fn connected(ph: Seq<i64>, t: u32, i: int, j: int) -> bool {
    exists|path: Seq<int>| #[trigger] is_chain(ph, t, path) && path[0] == i && path.last() == j
}

proof fn lemma_connected_refl(ph: Seq<i64>, t: u32, i: int)
    requires
        0 <= i < ph.len(),
    ensures
        connected(ph, t, i, i),
{
    let path = seq![i];
    assert(is_chain(ph, t, path));
}

proof fn lemma_edge_sym(ph: Seq<i64>, t: u32, i: int, j: int)
    requires
        similar_edge(ph, t, i, j),
    ensures
        similar_edge(ph, t, j, i),
{
    let b = choose|band: int| 0 <= band < 8 && #[trigger] band_edge(ph, t, i, j, band);
    lemma_hamming_sym(ph[i], ph[j]);
    assert(band_edge(ph, t, j, i, b));
}

/// Two chains joined by a linked pair form a chain.
proof fn lemma_connected_join(ph: Seq<i64>, t: u32, x: int, u: int, w: int, y: int)
    requires
        connected(ph, t, x, u),
        similar_edge(ph, t, u, w),
        connected(ph, t, w, y),
    ensures
        connected(ph, t, x, y),
{
    let p1 = choose|path: Seq<int>| #[trigger] is_chain(ph, t, path) && path[0] == x && path.last() == u;
    let p2 = choose|path: Seq<int>| #[trigger] is_chain(ph, t, path) && path[0] == w && path.last() == y;
    let p = p1 + p2;
    assert forall|k: int| 0 <= k < p.len() - 1 implies #[trigger] similar_edge(ph, t, p[k], p[k + 1]) by {
        if k < p1.len() - 1 {
            assert(p[k] == p1[k] && p[k + 1] == p1[k + 1]);
        } else if k == p1.len() - 1 {
            assert(p[k] == u && p[k + 1] == w);
        } else {
            assert(p[k] == p2[k - p1.len()] && p[k + 1] == p2[k - p1.len() + 1]);
        }
    }
    assert forall|k: int| 0 <= k < p.len() implies 0 <= #[trigger] p[k] < ph.len() by {
        if k < p1.len() {
            assert(p[k] == p1[k]);
        } else {
            assert(p[k] == p2[k - p1.len()]);
        }
    }
    assert(is_chain(ph, t, p));
}

/// Every chain only links candidates that end up with the same representative,
/// when every linked pair already shares one.
proof fn lemma_chain_same_root(ph: Seq<i64>, t: u32, roots: Seq<usize>, path: Seq<int>)
    requires
        roots.len() == ph.len(),
        is_chain(ph, t, path),
        forall|i: int, j: int| #[trigger] similar_edge(ph, t, i, j) ==> roots[i] == roots[j],
    ensures
        roots[path[0]] == roots[path.last()],
    decreases path.len(),
{
    if path.len() > 1 {
        let q = path.drop_last();
        assert forall|k: int| 0 <= k < q.len() - 1 implies #[trigger] similar_edge(ph, t, q[k], q[k + 1]) by {
            assert(q[k] == path[k] && q[k + 1] == path[k + 1]);
        }
        assert forall|k: int| 0 <= k < q.len() implies 0 <= #[trigger] q[k] < ph.len() by {
            assert(q[k] == path[k]);
        }
        lemma_chain_same_root(ph, t, roots, q);
        let k = path.len() - 2;
        assert(similar_edge(ph, t, path[k], path[k + 1]));
        assert(q.last() == path[k]);
    }
}

/// Links every pair of candidates that share a byte in some band (in a
/// bucket of at most `MAX_BUCKET`) and lie within the threshold; returns
/// for each candidate the representative of its group.
fn similar_roots(ph: &Vec<i64>, threshold: u32) -> (roots: Vec<usize>)
    ensures
        roots@.len() == ph@.len(),
        forall|i: int| 0 <= i < ph@.len() ==> #[trigger] roots@[i] < ph@.len(),
        forall|i: int, j: int| 0 <= i < ph@.len() && 0 <= j < ph@.len() ==>
            ((roots@[i] == roots@[j]) <==> connected(ph@, effective_threshold(threshold), i, j)),
{
    let t: u32 = if threshold < MAX_THRESHOLD { threshold } else { MAX_THRESHOLD };
    let ghost gt = t;
    let ghost p = ph@;
    let m = ph.len();
    let mut uf = UnionFind::new(m);
    proof {
        assert forall|i: int, j: int| 0 <= i < m && 0 <= j < m && uf@[i] == uf@[j]
            implies #[trigger] connected(p, gt, i, j) by {
            lemma_connected_refl(p, gt, i);
        }
    }
    let mut band: u32 = 0;
    while band < 8
        invariant
            p == ph@,
            m == ph@.len(),
            gt == t,
            t == effective_threshold(threshold),
            t <= 7,
            band <= 8,
            uf.wf(),
            uf.len() == m,
            forall|i: int, j: int| 0 <= i < m && 0 <= j < m && uf@[i] == uf@[j]
                ==> #[trigger] connected(p, gt, i, j),
            forall|i: int, j: int, b: int| 0 <= b < band && #[trigger] band_edge(p, gt, i, j, b)
                ==> uf@[i] == uf@[j],
        decreases 8 - band,
    {
        // bucket the candidates by their byte in this band
        let mut buckets: Vec<Vec<usize>> = Vec::new();
        let mut v: usize = 0;
        while v < 256
            invariant
                v <= 256,
                buckets@.len() == v,
                forall|w: int| 0 <= w < v ==> (#[trigger] buckets@[w])@.len() == 0,
            decreases 256 - v,
        {
            buckets.push(Vec::new());
            v = v + 1;
        }
        let mut ci: usize = 0;
        while ci < m
            invariant
                p == ph@,
                m == ph@.len(),
                band < 8,
                ci <= m,
                buckets@.len() == 256,
                forall|w: int| 0 <= w < 256 ==> (#[trigger] buckets@[w])@.len()
                    == indices_where(ci as int, |x: int| band_of(p[x], band as int) == w as u8).len(),
                forall|w: int, k: int| 0 <= w < 256 && 0 <= k < buckets@[w]@.len() ==>
                    (#[trigger] buckets@[w]@[k]) as int
                    == indices_where(ci as int, |x: int| band_of(p[x], band as int) == w as u8)[k],
            decreases m - ci,
        {
            let byte = ((ph[ci] as u64) >> (band * 8) as u64) as u8;
            let ghost before = buckets@;
            buckets[byte as usize].push(ci);
            proof {
                assert(byte == band_of(p[ci as int], band as int));
                assert forall|w: int| 0 <= w < 256 implies (#[trigger] buckets@[w])@.len()
                    == indices_where(ci + 1, |x: int| band_of(p[x], band as int) == w as u8).len() by {
                    assert((w as u8 == byte) <==> w == byte as int);
                }
                assert forall|w: int, k: int| 0 <= w < 256 && 0 <= k < buckets@[w]@.len() implies
                    (#[trigger] buckets@[w]@[k]) as int
                    == indices_where(ci + 1, |x: int| band_of(p[x], band as int) == w as u8)[k] by {
                    assert((w as u8 == byte) <==> w == byte as int);
                    if w == byte as int && k == buckets@[w]@.len() - 1 {
                    } else {
                        assert(buckets@[w]@[k] == before[w]@[k]);
                    }
                }
            }
            ci = ci + 1;
        }
        // compare the pairs inside each small bucket
        let mut v: usize = 0;
        while v < 256
            invariant
                p == ph@,
                m == ph@.len(),
                gt == t,
                t <= 7,
                band < 8,
                v <= 256,
                buckets@.len() == 256,
                forall|w: int| 0 <= w < 256 ==> (#[trigger] buckets@[w])@.len() == bucket(p, band as int, w as u8).len(),
                forall|w: int, k: int| 0 <= w < 256 && 0 <= k < buckets@[w]@.len() ==>
                    (#[trigger] buckets@[w]@[k]) as int == bucket(p, band as int, w as u8)[k],
                uf.wf(),
                uf.len() == m,
                forall|i: int, j: int| 0 <= i < m && 0 <= j < m && uf@[i] == uf@[j]
                    ==> #[trigger] connected(p, gt, i, j),
                forall|i: int, j: int, b: int| 0 <= b < band && #[trigger] band_edge(p, gt, i, j, b)
                    ==> uf@[i] == uf@[j],
                forall|i: int, j: int| #[trigger] band_edge(p, gt, i, j, band as int)
                    && band_of(p[i], band as int) < v ==> uf@[i] == uf@[j],
            decreases 256 - v,
        {
            let ghost bl = bucket(p, band as int, v as u8);
            proof {
                lemma_indices_where(m as int, |x: int| band_of(p[x], band as int) == v as u8);
            }
            let len = buckets[v].len();
            if len <= MAX_BUCKET {
                let mut a: usize = 0;
                while a < len
                    invariant
                        p == ph@,
                        m == ph@.len(),
                        gt == t,
                        band < 8,
                        v < 256,
                        buckets@.len() == 256,
                        len == buckets@[v as int]@.len(),
                        len == bl.len(),
                        len <= MAX_BUCKET,
                        bl == bucket(p, band as int, v as u8),
                        strictly_increasing(bl),
                        forall|k: int| 0 <= k < bl.len() ==> 0 <= #[trigger] bl[k] < m && band_of(p[bl[k]], band as int) == v as u8,
                        forall|k: int| 0 <= k < len ==> (#[trigger] buckets@[v as int]@[k]) as int == bl[k],
                        a <= len,
                        uf.wf(),
                        uf.len() == m,
                        forall|i: int, j: int| 0 <= i < m && 0 <= j < m && uf@[i] == uf@[j]
                            ==> #[trigger] connected(p, gt, i, j),
                        forall|i: int, j: int, b: int| 0 <= b < band && #[trigger] band_edge(p, gt, i, j, b)
                            ==> uf@[i] == uf@[j],
                        forall|i: int, j: int| #[trigger] band_edge(p, gt, i, j, band as int)
                            && band_of(p[i], band as int) < v ==> uf@[i] == uf@[j],
                        forall|x: int, y: int| 0 <= x < a && x < y < len
                            && hamming_spec(p[bl[x]], p[bl[y]]) <= t ==> #[trigger] uf@[bl[x]] == #[trigger] uf@[bl[y]],
                    decreases len - a,
                {
                    let mut a2: usize = a + 1;
                    while a2 < len
                        invariant
                            p == ph@,
                            m == ph@.len(),
                            gt == t,
                            band < 8,
                            v < 256,
                            buckets@.len() == 256,
                            len == buckets@[v as int]@.len(),
                            len == bl.len(),
                            len <= MAX_BUCKET,
                            bl == bucket(p, band as int, v as u8),
                            strictly_increasing(bl),
                            forall|k: int| 0 <= k < bl.len() ==> 0 <= #[trigger] bl[k] < m && band_of(p[bl[k]], band as int) == v as u8,
                            forall|k: int| 0 <= k < len ==> (#[trigger] buckets@[v as int]@[k]) as int == bl[k],
                            a < len,
                            a < a2 <= len,
                            uf.wf(),
                            uf.len() == m,
                            forall|i: int, j: int| 0 <= i < m && 0 <= j < m && uf@[i] == uf@[j]
                                ==> #[trigger] connected(p, gt, i, j),
                            forall|i: int, j: int, b: int| 0 <= b < band && #[trigger] band_edge(p, gt, i, j, b)
                                ==> uf@[i] == uf@[j],
                            forall|i: int, j: int| #[trigger] band_edge(p, gt, i, j, band as int)
                                && band_of(p[i], band as int) < v ==> uf@[i] == uf@[j],
                            forall|x: int, y: int| 0 <= x < a && x < y < len
                                && hamming_spec(p[bl[x]], p[bl[y]]) <= t ==> #[trigger] uf@[bl[x]] == #[trigger] uf@[bl[y]],
                            forall|y: int| a < y < a2 && hamming_spec(p[bl[a as int]], p[bl[y]]) <= t
                                ==> uf@[bl[a as int]] == #[trigger] uf@[bl[y]],
                        decreases len - a2,
                    {
                        let x = buckets[v][a];
                        let y = buckets[v][a2];
                        let ghost old_rep = uf@;
                        let rx = uf.find(x);
                        let ry = uf.find(y);
                        if rx != ry && hamming(ph[x], ph[y]) <= t {
                            proof {
                                assert(bl[a as int] < bl[a2 as int]);
                                assert(band_edge(p, gt, x as int, y as int, band as int));
                                assert(similar_edge(p, gt, x as int, y as int));
                            }
                            uf.union(x, y);
                            proof {
                                assert forall|i: int, j: int| 0 <= i < m && 0 <= j < m && uf@[i] == uf@[j]
                                    implies #[trigger] connected(p, gt, i, j) by {
                                    if old_rep[i] == old_rep[j] {
                                    } else if old_rep[i] == old_rep[x as int] {
                                        lemma_connected_join(p, gt, i, x as int, y as int, j);
                                    } else {
                                        lemma_edge_sym(p, gt, x as int, y as int);
                                        lemma_connected_join(p, gt, i, y as int, x as int, j);
                                    }
                                }
                            }
                        }
                        a2 = a2 + 1;
                    }
                    a = a + 1;
                }
                proof {
                    assert forall|i: int, j: int| #[trigger] band_edge(p, gt, i, j, band as int)
                        && band_of(p[i], band as int) < v + 1 implies uf@[i] == uf@[j] by {
                        if band_of(p[i], band as int) == v as u8 {
                            assert(bl.contains(i));
                            assert(bl.contains(j));
                            let x = choose|x: int| 0 <= x < bl.len() && bl[x] == i;
                            let y = choose|y: int| 0 <= y < bl.len() && bl[y] == j;
                            if x < y {
                                assert(uf@[bl[x]] == uf@[bl[y]]);
                            } else {
                                lemma_hamming_sym(p[i], p[j]);
                                assert(uf@[bl[y]] == uf@[bl[x]]);
                            }
                        }
                    }
                }
            } else {
                proof {
                    assert forall|i: int, j: int| #[trigger] band_edge(p, gt, i, j, band as int)
                        && band_of(p[i], band as int) < v + 1 implies uf@[i] == uf@[j] by {
                        if band_of(p[i], band as int) == v as u8 {
                            assert(bucket(p, band as int, band_of(p[i], band as int)) == bl);
                        }
                    }
                }
            }
            v = v + 1;
        }
        proof {
            assert forall|i: int, j: int, b: int| 0 <= b < band + 1 && #[trigger] band_edge(p, gt, i, j, b)
                implies uf@[i] == uf@[j] by {
                if b == band as int {
                    assert(band_of(p[i], band as int) < 256);
                }
            }
        }
        band = band + 1;
    }
    let ghost rep = uf@;
    let mut roots: Vec<usize> = Vec::new();
    let mut k: usize = 0;
    while k < m
        invariant
            uf@ == rep,
            k <= m,
            m == ph@.len(),
            uf.wf(),
            uf.len() == m,
            roots@.len() == k,
            forall|q: int| 0 <= q < k ==> #[trigger] roots@[q] as int == uf@[q],
            forall|q: int| 0 <= q < k ==> #[trigger] roots@[q] < m,
        decreases m - k,
    {
        proof {
            uf.lemma_wf_at(k as int);
        }
        let r = uf.find(k);
        roots.push(r);
        k = k + 1;
    }
    proof {
        assert forall|i: int, j: int| #[trigger] similar_edge(p, gt, i, j) implies roots@[i] == roots@[j] by {
            let b = choose|b: int| 0 <= b < 8 && #[trigger] band_edge(p, gt, i, j, b);
            assert(band_edge(p, gt, i, j, b));
            assert(roots@[i] as int == uf@[i]);
            assert(roots@[j] as int == uf@[j]);
        }
        assert forall|i: int, j: int| 0 <= i < ph@.len() && 0 <= j < ph@.len() implies
            ((roots@[i] == roots@[j]) <==> connected(ph@, effective_threshold(threshold), i, j)) by {
            if connected(p, gt, i, j) {
                let path = choose|path: Seq<int>| #[trigger] is_chain(p, gt, path) && path[0] == i && path.last() == j;
                lemma_chain_same_root(p, gt, roots@, path);
            }
            assert(roots@[i] as int == uf@[i]);
            assert(roots@[j] as int == uf@[j]);
        }
    }
    roots
}

} // verus!

verus! {

// ── rows and groups ─────────────────────────────────────────────────────

/// A library file as shown in a duplicate group.
#[derive(Clone, Debug)]
pub struct DupMember {
    pub id: i64,
    pub path: String,
    pub name: String,
    pub kind: i64,
    pub size: i64,
    pub width: Option<i64>,
    pub height: Option<i64>,
    pub taken_at: Option<i64>,
    pub thumb: Option<String>,
    pub blurhash: Option<String>,
}

/// A group of duplicates; `kind` is "exact", "similar" or "burst".
#[derive(Debug)]
pub struct DupGroup {
    pub kind: String,
    pub members: Vec<DupMember>,
}

/// One indexed file with what duplicate detection looks at: its content
/// hash, its perceptual hash and whether its date comes from EXIF.
#[derive(Clone, Debug)]
pub struct DupRow {
    pub member: DupMember,
    pub hash: Option<Vec<u8>>,
    pub phash: Option<i64>,
    pub exif_date: bool,
}

fn copy_opt_string(o: &Option<String>) -> (r: Option<String>)
    ensures
        r == *o,
{
    match o {
        Some(s) => Some(s.clone()),
        None => None,
    }
}

impl DupMember {
    /// A field-for-field copy.
    pub fn duplicate(&self) -> (r: DupMember)
        ensures
            r == *self,
    {
        DupMember {
            id: self.id,
            path: self.path.clone(),
            name: self.name.clone(),
            kind: self.kind,
            size: self.size,
            width: self.width,
            height: self.height,
            taken_at: self.taken_at,
            thumb: copy_opt_string(&self.thumb),
            blurhash: copy_opt_string(&self.blurhash),
        }
    }
}

pub open spec fn hash_view(r: DupRow) -> Option<Seq<u8>> {
    match r.hash {
        Some(h) => Some(h@),
        None => None,
    }
}

/// Rows `i` and `j` hold the same content hash.
pub open spec fn same_hash(rows: Seq<DupRow>, i: int, j: int) -> bool {
    &&& hash_view(rows[i]) is Some
    &&& hash_view(rows[j]) == hash_view(rows[i])
}

/// The rows with the same content as row `i`, in order.
pub open spec fn hash_class(rows: Seq<DupRow>, i: int) -> Seq<int> {
    indices_where(rows.len() as int, |j: int| same_hash(rows, i, j))
}

/// Row `i` is the first row holding its content.
pub open spec fn first_of_content(rows: Seq<DupRow>, i: int) -> bool {
    &&& hash_class(rows, i).len() > 0
    &&& hash_class(rows, i)[0] == i
}

/// Exact duplicates: every content held by two or more rows, ordered by
/// its first row.
pub open spec fn exact_groups(rows: Seq<DupRow>) -> Seq<Seq<int>> {
    indices_where(
        rows.len() as int,
        |i: int| first_of_content(rows, i) && hash_class(rows, i).len() >= 2,
    ).map_values(|i: int| hash_class(rows, i))
}

/// The rows compared for visual similarity: one per content (its first
/// row), when that row has a perceptual hash.
pub open spec fn candidates(rows: Seq<DupRow>) -> Seq<int> {
    indices_where(rows.len() as int, |i: int| first_of_content(rows, i) && rows[i].phash is Some)
}

pub open spec fn candidate_hashes(rows: Seq<DupRow>) -> Seq<i64> {
    candidates(rows).map_values(|i: int| rows[i].phash.unwrap())
}

/// The candidates (by position) connected to candidate `k`.
pub open spec fn similar_class(rows: Seq<DupRow>, threshold: u32, k: int) -> Seq<int> {
    indices_where(
        candidates(rows).len() as int,
        |j: int| connected(candidate_hashes(rows), effective_threshold(threshold), k, j),
    )
}

/// Visually similar photos: every set of two or more candidates connected
/// by chains of close pairs, as rows, ordered by their first candidate.
pub open spec fn similar_groups(rows: Seq<DupRow>, threshold: u32) -> Seq<Seq<int>> {
    indices_where(
        candidates(rows).len() as int,
        |k: int| similar_class(rows, threshold, k)[0] == k && similar_class(rows, threshold, k).len() >= 2,
    ).map_values(|k: int| similar_class(rows, threshold, k).map_values(|j: int| candidates(rows)[j]))
}

} // verus!

verus! {

// ── bursts ──────────────────────────────────────────────────────────────

/// Indices of a sequence of `usize`, as integers.
pub open spec fn ints(s: Seq<usize>) -> Seq<int> {
    s.map_values(|x: usize| x as int)
}

/// Photos whose capture date comes from EXIF.
pub open spec fn dated(rows: Seq<DupRow>) -> Seq<int> {
    indices_where(
        rows.len() as int,
        |i: int| rows[i].member.kind == 0 && rows[i].exif_date && rows[i].member.taken_at is Some,
    )
}

pub open spec fn time_key(rows: Seq<DupRow>, i: int) -> (i64, usize) {
    (rows[i].member.taken_at.unwrap(), i as usize)
}

/// The dated photos ordered by capture time, ties kept in row order.
pub open spec fn time_order(rows: Seq<DupRow>) -> Seq<int> {
    sorted_version(dated(rows).map_values(|i: int| time_key(rows, i))).map_values(
        |p: (i64, usize)| p.1 as int,
    )
}

pub open spec fn times(rows: Seq<DupRow>) -> Seq<i64> {
    time_order(rows).map_values(|i: int| rows[i].member.taken_at.unwrap())
}

/// More than two seconds separate photo `q` from the photo before it.
pub open spec fn gap(t: Seq<i64>, q: int) -> bool {
    t[q] - t[q - 1] > 2
}

/// End (exclusive) of the series that starts at `s`.
pub open spec fn run_end(t: Seq<i64>, s: int) -> int
    decreases t.len() - s,
{
    if s + 1 >= t.len() {
        t.len() as int
    } else if gap(t, s + 1) {
        s + 1
    } else {
        run_end(t, s + 1)
    }
}

/// The maximal series from position `s` on that hold at least three photos,
/// as (start, end) positions.
pub open spec fn series_from(t: Seq<i64>, s: int) -> Seq<(int, int)>
    decreases t.len() - s,
{
    if s >= t.len() || s < 0 {
        Seq::empty()
    } else {
        let e = run_end(t, s);
        if e <= s || e > t.len() {
            Seq::empty()
        } else if e - s >= 3 {
            seq![(s, e)] + series_from(t, e)
        } else {
            series_from(t, e)
        }
    }
}

proof fn lemma_run_end_bounds(t: Seq<i64>, s: int)
    requires
        0 <= s < t.len(),
    ensures
        s < run_end(t, s) <= t.len(),
    decreases t.len() - s,
{
    if s + 1 < t.len() && !gap(t, s + 1) {
        lemma_run_end_bounds(t, s + 1);
    }
}

proof fn lemma_run_end_at(t: Seq<i64>, s: int, k: int)
    requires
        0 <= s < k <= t.len(),
        forall|q: int| s < q < k ==> !#[trigger] gap(t, q),
        k == t.len() || gap(t, k),
    ensures
        run_end(t, s) == k,
    decreases k - s,
{
    if s + 1 < t.len() && !gap(t, s + 1) {
        lemma_run_end_at(t, s + 1, k);
    }
}

/// Bursts: maximal series of dated photos, in time order, in which each
/// photo was taken at most two seconds after the previous one, when the
/// series holds at least three photos.
pub open spec fn burst_groups(rows: Seq<DupRow>) -> Seq<Seq<int>> {
    series_from(times(rows), 0).map_values(|r: (int, int)| time_order(rows).subrange(r.0, r.1))
}

fn run_members(sorted: &Vec<(i64, usize)>, start: usize, end: usize, bound: usize) -> (members: Vec<usize>)
    requires
        start <= end <= sorted@.len(),
        forall|k: int| 0 <= k < sorted@.len() ==> (#[trigger] sorted@[k]).1 < bound,
    ensures
        ints(members@) == sorted@.map_values(|p: (i64, usize)| p.1 as int).subrange(start as int, end as int),
        forall|q: int| 0 <= q < members@.len() ==> #[trigger] members@[q] < bound,
{
    let ghost order = sorted@.map_values(|p: (i64, usize)| p.1 as int);
    let mut members: Vec<usize> = Vec::new();
    let mut q: usize = start;
    while q < end
        invariant
            start <= q <= end <= sorted@.len(),
            order == sorted@.map_values(|p: (i64, usize)| p.1 as int),
            ints(members@) == order.subrange(start as int, q as int),
            forall|k: int| 0 <= k < sorted@.len() ==> (#[trigger] sorted@[k]).1 < bound,
            forall|z: int| 0 <= z < members@.len() ==> #[trigger] members@[z] < bound,
        decreases end - q,
    {
        let ghost old_m = members@;
        let x = sorted[q].1;
        members.push(x);
        proof {
            assert(order[q as int] == x as int);
            assert(ints(old_m).len() == q - start);
            assert(members@.len() == old_m.len() + 1);
            assert(ints(members@).len() == q + 1 - start);
            assert forall|z: int| 0 <= z < q + 1 - start implies ints(members@)[z]
                == order.subrange(start as int, q + 1)[z] by {
                if z < old_m.len() {
                    assert(ints(old_m)[z] == order.subrange(start as int, q as int)[z]);
                    assert(members@[z] == old_m[z]);
                } else {
                    assert(members@[z] == x);
                }
            }
            assert(ints(members@) =~= order.subrange(start as int, q + 1));
        }
        q = q + 1;
    }
    members
}

fn bursts(rows: &[DupRow]) -> (out: Vec<Vec<usize>>)
    ensures
        out@.len() == burst_groups(rows@).len(),
        forall|g: int| 0 <= g < out@.len() ==> ints(#[trigger] out@[g]@) == burst_groups(rows@)[g],
        forall|g: int, q: int| 0 <= g < out@.len() && 0 <= q < out@[g]@.len() ==> #[trigger] out@[g]@[q] < rows@.len(),
{
    let ghost r = rows@;
    let ghost pred = |i: int| r[i].member.kind == 0 && r[i].exif_date && r[i].member.taken_at is Some;
    let ghost f = |i: int| time_key(r, i);
    let mut keys: Vec<(i64, usize)> = Vec::new();
    let mut i: usize = 0;
    while i < rows.len()
        invariant
            r == rows@,
            i <= rows@.len(),
            pred == (|i: int| r[i].member.kind == 0 && r[i].exif_date && r[i].member.taken_at is Some),
            f == (|i: int| time_key(r, i)),
            keys@ == indices_where(i as int, pred).map_values(f),
            forall|k: int| 0 <= k < keys@.len() ==> (#[trigger] keys@[k]).1 < i,
            forall|a: int, b: int| 0 <= a < b < keys@.len() ==> keys@[a].1 < keys@[b].1,
        decreases rows@.len() - i,
    {
        let row = &rows[i];
        if row.member.kind == 0 && row.exif_date && row.member.taken_at.is_some() {
            let t = row.member.taken_at.unwrap();
            keys.push((t, i));
            proof {
                assert(pred(i as int));
                assert(indices_where(i + 1, pred) == indices_where(i as int, pred).push(i as int));
                assert(keys@ =~= indices_where(i + 1, pred).map_values(f));
            }
        } else {
            proof {
                assert(!pred(i as int));
            }
        }
        i = i + 1;
    }
    proof {
        assert(dated(r) == indices_where(r.len() as int, pred));
        assert(distinct_pairs(keys@)) by {
            assert forall|a: int, b: int| 0 <= a < b < keys@.len() implies keys@[a] != keys@[b] by {
                assert(keys@[a].1 < keys@[b].1);
            }
        }
    }
    let ghost keys_view = keys@;
    let sorted = sort_distinct_pairs(keys);
    proof {
        assert forall|k: int| 0 <= k < sorted@.len() implies (#[trigger] sorted@[k]).1 < rows@.len() by {
            assert(sorted@.contains(sorted@[k]));
            assert(keys_view.contains(sorted@[k]));
        }
    }
    let ghost order = sorted@.map_values(|p: (i64, usize)| p.1 as int);
    let ghost tt = sorted@.map_values(|p: (i64, usize)| p.0);
    proof {
        assert(keys_view =~= dated(r).map_values(|i: int| time_key(r, i)));
        assert(order == time_order(r));
        assert forall|q: int| 0 <= q < sorted@.len() implies tt[q] == times(r)[q] by {
            let kv = dated(r).map_values(|i: int| time_key(r, i));
            assert(sorted@.contains(sorted@[q]));
            assert(kv.contains(sorted@[q]));
            let w = choose|w: int| 0 <= w < kv.len() && kv[w] == sorted@[q];
            lemma_indices_where(r.len() as int, pred);
            assert(kv[w] == time_key(r, dated(r)[w]));
        }
        assert(tt =~= times(r));
    }
    let n = sorted.len();
    let mut out: Vec<Vec<usize>> = Vec::new();
    if n == 0 {
        proof {
            assert(series_from(tt, 0) =~= Seq::<(int, int)>::empty());
        }
        return out;
    }
    let mut start: usize = 0;
    let mut k: usize = 1;
    let ghost mut done: Seq<(int, int)> = Seq::empty();
    while k < n
        invariant
            n == sorted@.len(),
            tt == sorted@.map_values(|p: (i64, usize)| p.0),
            order == sorted@.map_values(|p: (i64, usize)| p.1 as int),
            start < k <= n,
            forall|q: int| start < q < k ==> !#[trigger] gap(tt, q),
            series_from(tt, 0) == done + series_from(tt, start as int),
            out@.len() == done.len(),
            forall|g: int| 0 <= g < done.len() ==> 0 <= #[trigger] done[g].0 <= done[g].1 <= n,
            forall|g: int| 0 <= g < out@.len() ==>
                ints(#[trigger] out@[g]@) == order.subrange(done[g].0, done[g].1),
            forall|k: int| 0 <= k < sorted@.len() ==> (#[trigger] sorted@[k]).1 < rows@.len(),
            forall|g: int, q: int| 0 <= g < out@.len() && 0 <= q < out@[g]@.len() ==> #[trigger] out@[g]@[q] < rows@.len(),
        decreases n - k,
    {
        if (sorted[k].0 as i128) - (sorted[k - 1].0 as i128) > 2 {
            proof {
                lemma_run_end_at(tt, start as int, k as int);
            }
            let ghost before = done;
            let ghost old_out = out@;
            let ghost mut mv: Seq<usize> = Seq::empty();
            if k - start >= 3 {
                let members = run_members(&sorted, start, k, rows.len());
                proof { mv = members@; }
                out.push(members);
                proof {
                    done = done.push((start as int, k as int));
                }
            }
            proof {
                assert(series_from(tt, 0) =~= done + series_from(tt, k as int));
                assert forall|g: int| 0 <= g < done.len() implies 0 <= #[trigger] done[g].0 <= done[g].1 <= n by {
                    if g < before.len() {
                        assert(done[g] == before[g]);
                    }
                }
                assert forall|g: int| 0 <= g < out@.len() implies
                    ints(#[trigger] out@[g]@) == order.subrange(done[g].0, done[g].1) by {
                    if g < before.len() {
                        assert(done[g] == before[g]);
                        assert(out@[g] == old_out[g]);
                    } else {
                        assert(g == before.len());
                        assert(k - start >= 3);
                        assert(done[g] == (start as int, k as int));
                        assert(out@[g]@ == mv);
                        assert(ints(mv) == order.subrange(start as int, k as int));
                    }
                }
            }
            start = k;
        }
        k = k + 1;
    }
    proof {
        lemma_run_end_at(tt, start as int, n as int);
    }
    let ghost before = done;
    let ghost old_out = out@;
    let ghost mut mv: Seq<usize> = Seq::empty();
    if n - start >= 3 {
        let members = run_members(&sorted, start, n, rows.len());
        proof { mv = members@; }
        out.push(members);
        proof {
            done = done.push((start as int, n as int));
        }
    }
    proof {
        assert(series_from(tt, n as int) =~= Seq::<(int, int)>::empty());
        assert(series_from(tt, 0) =~= done);
        assert forall|g: int| 0 <= g < out@.len() implies ints(#[trigger] out@[g]@) == burst_groups(r)[g] by {
            if g < before.len() {
                assert(done[g] == before[g]);
                assert(out@[g] == old_out[g]);
            } else {
                assert(out@[g]@ == mv);
            }
        }
    }
    out
}

} // verus!

verus! {

// ── exact duplicates ────────────────────────────────────────────────────

/// Rows `j` whose content hash is present and starts with the same eight
/// bytes (the bucket key) as `key`.
pub open spec fn has_key(rows: Seq<DupRow>, j: int, key: i64) -> bool {
    &&& hash_view(rows[j]) is Some
    &&& bytes_to_i64_spec(hash_view(rows[j]).unwrap()) == key
}

pub open spec fn bucket_in(m: Map<i64, Vec<usize>>, key: i64) -> Seq<int> {
    if m.contains_key(key) {
        ints(m[key]@)
    } else {
        Seq::empty()
    }
}

pub(crate) fn bytes_eq(a: &[u8], b: &[u8]) -> (r: bool)
    ensures
        r == (a@ == b@),
{
    if a.len() != b.len() {
        return false;
    }
    let mut i: usize = 0;
    while i < a.len()
        invariant
            i <= a@.len(),
            a@.len() == b@.len(),
            forall|k: int| 0 <= k < i ==> a@[k] == b@[k],
        decreases a@.len() - i,
    {
        if a[i] != b[i] {
            return false;
        }
        i = i + 1;
    }
    proof {
        assert(a@ =~= b@);
    }
    true
}

fn exact_and_candidates(rows: &[DupRow]) -> (res: (Vec<Vec<usize>>, Vec<usize>))
    ensures
        res.0@.len() == exact_groups(rows@).len(),
        forall|g: int| 0 <= g < res.0@.len() ==> ints(#[trigger] res.0@[g]@) == exact_groups(rows@)[g],
        forall|g: int, q: int| 0 <= g < res.0@.len() && 0 <= q < res.0@[g]@.len() ==> #[trigger] res.0@[g]@[q] < rows@.len(),
        ints(res.1@) == candidates(rows@),
        forall|z: int| 0 <= z < res.1@.len() ==> #[trigger] res.1@[z] < rows@.len(),
{
    broadcast use vstd::std_specs::hash::group_hash_axioms;

    let ghost r = rows@;
    let n = rows.len();
    let mut map: std::collections::HashMap<i64, Vec<usize>> = std::collections::HashMap::new();
    let mut i: usize = 0;
    while i < n
        invariant
            r == rows@,
            n == rows@.len(),
            i <= n,
            forall|key: i64| #[trigger] bucket_in(map@, key) == indices_where(i as int, |j: int| has_key(r, j, key)),
        decreases n - i,
    {
        match &rows[i].hash {
            Some(h) => {
                let key = bytes_to_i64(h.as_slice());
                let ghost old_map = map@;
                let mut b = match map.remove(&key) {
                    Some(b) => b,
                    None => Vec::new(),
                };
                proof {
                    assert(ints(b@) == bucket_in(old_map, key));
                }
                b.push(i);
                map.insert(key, b);
                proof {
                    assert forall|k2: i64| #[trigger] bucket_in(map@, k2) == indices_where(i + 1, |j: int| has_key(r, j, k2)) by {
                        assert(indices_where(i as int, |j: int| has_key(r, j, k2)) == bucket_in(old_map, k2));
                        if k2 == key {
                            assert(has_key(r, i as int, k2));
                            assert(bucket_in(map@, k2) =~= bucket_in(old_map, k2).push(i as int));
                        } else {
                            assert(!has_key(r, i as int, k2));
                        }
                    }
                }
            },
            None => {
                proof {
                    assert forall|k2: i64| #[trigger] bucket_in(map@, k2) == indices_where(i + 1, |j: int| has_key(r, j, k2)) by {
                        assert(!has_key(r, i as int, k2));
                        assert(indices_where(i as int, |j: int| has_key(r, j, k2)) == bucket_in(map@, k2));
                    }
                }
            },
        }
        i = i + 1;
    }
    let ghost pe = |i: int| first_of_content(r, i) && hash_class(r, i).len() >= 2;
    let ghost pc = |i: int| first_of_content(r, i) && r[i].phash is Some;
    let mut exact: Vec<Vec<usize>> = Vec::new();
    let mut cands: Vec<usize> = Vec::new();
    let mut i: usize = 0;
    while i < n
        invariant
            r == rows@,
            n == rows@.len(),
            i <= n,
            forall|key: i64| #[trigger] bucket_in(map@, key) == indices_where(n as int, |j: int| has_key(r, j, key)),
            pe == (|i: int| first_of_content(r, i) && hash_class(r, i).len() >= 2),
            pc == (|i: int| first_of_content(r, i) && r[i].phash is Some),
            exact@.len() == indices_where(i as int, pe).len(),
            forall|g: int| 0 <= g < exact@.len() ==> ints(#[trigger] exact@[g]@)
                == hash_class(r, indices_where(i as int, pe)[g]),
            forall|g: int, q: int| 0 <= g < exact@.len() && 0 <= q < exact@[g]@.len() ==> #[trigger] exact@[g]@[q] < n,
            ints(cands@) == indices_where(i as int, pc),
            forall|z: int| 0 <= z < cands@.len() ==> #[trigger] cands@[z] < n,
        decreases n - i,
    {
        let ghost old_exact = exact@;
        let ghost old_cands = cands@;
        match &rows[i].hash {
            Some(h) => {
                let key = bytes_to_i64(h.as_slice());
                let ghost hk = |j: int| has_key(r, j, key);
                proof {
                    assert(bucket_in(map@, key) == indices_where(n as int, hk));
                    lemma_indices_where(n as int, hk);
                    assert(has_key(r, i as int, key));
                    assert(indices_where(n as int, hk).contains(i as int));
                }
                let b = map.get(&key).unwrap();
                let mut class: Vec<usize> = Vec::new();
                let mut q: usize = 0;
                while q < b.len()
                    invariant
                        r == rows@,
                        n == rows@.len(),
                        i < n,
                        hash_view(r[i as int]) == Some(h@),
                        ints(b@) == indices_where(n as int, hk),
                        hk == (|j: int| has_key(r, j, key)),
                        key == bytes_to_i64_spec(h@),
                        q <= b@.len(),
                        strictly_increasing(ints(class@)),
                        forall|z: int| 0 <= z < class@.len() ==> (#[trigger] class@[z]) < n,
                        forall|z: int| 0 <= z < class@.len() && q < b@.len() ==> class@[z] < b@[q as int],
                        forall|x: int| #[trigger] ints(class@).contains(x) <==>
                            (ints(b@).subrange(0, q as int).contains(x) && same_hash(r, i as int, x)),
                    decreases b@.len() - q,
                {
                    let j = b[q];
                    proof {
                        lemma_indices_where(n as int, hk);
                        assert(ints(b@)[q as int] == j as int);
                    }
                    let same = match &rows[j].hash {
                        Some(h2) => bytes_eq(h2.as_slice(), h.as_slice()),
                        None => false,
                    };
                    let ghost old_class = class@;
                    if same {
                        class.push(j);
                    }
                    proof {
                        assert(same == same_hash(r, i as int, j as int));
                        assert(ints(b@).subrange(0, q + 1) =~= ints(b@).subrange(0, q as int).push(j as int));
                        if same {
                            assert(ints(class@) =~= ints(old_class).push(j as int));
                        } else {
                            assert(ints(class@) =~= ints(old_class));
                        }
                        let pre = ints(b@).subrange(0, q as int);
                        let pre1 = ints(b@).subrange(0, q + 1);
                        assert forall|x: int| #[trigger] ints(class@).contains(x) <==>
                            (pre1.contains(x) && same_hash(r, i as int, x)) by {
                            if ints(old_class).contains(x) {
                                let k = choose|k: int| 0 <= k < ints(old_class).len() && ints(old_class)[k] == x;
                                assert(ints(class@)[k] == x);
                                assert(pre.contains(x));
                                let k2 = choose|k2: int| 0 <= k2 < pre.len() && pre[k2] == x;
                                assert(pre1[k2] == x);
                            }
                            if same && x == j as int {
                                assert(ints(class@)[old_class.len() as int] == x);
                                assert(pre1[q as int] == x);
                            }
                            if ints(class@).contains(x) && !ints(old_class).contains(x) {
                                let k = choose|k: int| 0 <= k < ints(class@).len() && ints(class@)[k] == x;
                                if k < old_class.len() {
                                    assert(ints(old_class)[k] == x);
                                }
                            }
                            if pre1.contains(x) && !pre.contains(x) {
                                let k = choose|k: int| 0 <= k < pre1.len() && pre1[k] == x;
                                if k < q {
                                    assert(pre[k] == x);
                                }
                            }
                        }
                        assert forall|z: int| 0 <= z < class@.len() && q + 1 < b@.len() implies class@[z] < b@[q + 1] by {
                            assert(ints(b@)[q as int] < ints(b@)[q + 1]);
                            if z < old_class.len() {
                                assert(class@[z] == old_class[z]);
                            }
                        }
                    }
                    q = q + 1;
                }
                proof {
                    assert(ints(b@).subrange(0, b@.len() as int) =~= ints(b@));
                    lemma_indices_where(n as int, |j: int| same_hash(r, i as int, j));
                    assert forall|x: int| ints(class@).contains(x) <==> hash_class(r, i as int).contains(x) by {
                        if same_hash(r, i as int, x) && 0 <= x < n {
                            assert(has_key(r, x, key));
                            assert(indices_where(n as int, hk).contains(x));
                        }
                    }
                    lemma_increasing_unique(ints(class@), hash_class(r, i as int));
                    assert(same_hash(r, i as int, i as int));
                    assert(hash_class(r, i as int).contains(i as int));
                }
                let first = class[0] == i;
                proof {
                    assert(ints(class@)[0] == class@[0] as int);
                    assert(first == first_of_content(r, i as int));
                    assert(indices_where(i + 1, pe) == if pe(i as int) {
                        indices_where(i as int, pe).push(i as int)
                    } else {
                        indices_where(i as int, pe)
                    });
                    assert(indices_where(i + 1, pc) == if pc(i as int) {
                        indices_where(i as int, pc).push(i as int)
                    } else {
                        indices_where(i as int, pc)
                    });
                }
                if first && class.len() >= 2 {
                    let ghost cv = class@;
                    exact.push(class);
                    proof {
                        assert forall|g: int| 0 <= g < exact@.len() implies ints(#[trigger] exact@[g]@)
                            == hash_class(r, indices_where(i + 1, pe)[g]) by {
                            if g < old_exact.len() {
                                assert(exact@[g] == old_exact[g]);
                            } else {
                                assert(exact@[g]@ == cv);
                            }
                        }
                        assert forall|g: int, q: int| 0 <= g < exact@.len() && 0 <= q < exact@[g]@.len()
                            implies #[trigger] exact@[g]@[q] < n by {
                            if g < old_exact.len() {
                                assert(exact@[g] == old_exact[g]);
                            } else {
                                assert(exact@[g]@ == cv);
                            }
                        }
                    }
                }
                if first && rows[i].phash.is_some() {
                    cands.push(i);
                    proof {
                        assert(ints(cands@) =~= ints(old_cands).push(i as int));
                    }
                }
            },
            None => {
                proof {
                    assert(hash_class(r, i as int) == indices_where(n as int, |j: int| same_hash(r, i as int, j)));
                    lemma_indices_where(n as int, |j: int| same_hash(r, i as int, j));
                    if hash_class(r, i as int).len() > 0 {
                        assert(hash_class(r, i as int).contains(hash_class(r, i as int)[0]));
                    }
                    assert(!first_of_content(r, i as int));
                    assert(!pe(i as int));
                    assert(!pc(i as int));
                }
            },
        }
        i = i + 1;
    }
    proof {
        assert(exact_groups(r) == indices_where(n as int, pe).map_values(|i: int| hash_class(r, i)));
        assert(candidates(r) == indices_where(n as int, pc));
    }
    (exact, cands)
}

} // verus!

verus! {

// ── visually similar photos ─────────────────────────────────────────────

/// Positions whose representative is `w`.
pub open spec fn with_root(roots: Seq<usize>, w: int) -> spec_fn(int) -> bool {
    |j: int| roots[j] as int == w
}

fn similar_sets(rows: &[DupRow], cands: &Vec<usize>, threshold: u32) -> (out: Vec<Vec<usize>>)
    requires
        ints(cands@) == candidates(rows@),
        forall|z: int| 0 <= z < cands@.len() ==> #[trigger] cands@[z] < rows@.len(),
    ensures
        out@.len() == similar_groups(rows@, threshold).len(),
        forall|g: int| 0 <= g < out@.len() ==> ints(#[trigger] out@[g]@) == similar_groups(rows@, threshold)[g],
        forall|g: int, q: int| 0 <= g < out@.len() && 0 <= q < out@[g]@.len() ==> #[trigger] out@[g]@[q] < rows@.len(),
{
    let ghost r = rows@;
    let m = cands.len();
    proof {
        lemma_indices_where(r.len() as int, |i: int| first_of_content(r, i) && r[i].phash is Some);
    }
    let mut ph: Vec<i64> = Vec::new();
    let mut k: usize = 0;
    while k < m
        invariant
            r == rows@,
            m == cands@.len(),
            ints(cands@) == candidates(r),
            forall|z: int| 0 <= z < candidates(r).len() ==> 0 <= #[trigger] candidates(r)[z] < r.len()
                && r[candidates(r)[z]].phash is Some,
            k <= m,
            ph@ == candidate_hashes(r).subrange(0, k as int),
        decreases m - k,
    {
        let c = cands[k];
        proof {
            assert(ints(cands@)[k as int] == c as int);
        }
        let p = rows[c].phash.unwrap();
        ph.push(p);
        proof {
            assert(ph@ =~= candidate_hashes(r).subrange(0, k + 1));
        }
        k = k + 1;
    }
    proof {
        assert(ph@ =~= candidate_hashes(r));
    }
    let roots = similar_roots(&ph, threshold);
    let ghost t = effective_threshold(threshold);
    let mut lists: Vec<Vec<usize>> = Vec::new();
    let mut k: usize = 0;
    while k < m
        invariant
            k <= m,
            lists@.len() == k,
            forall|w: int| 0 <= w < k ==> (#[trigger] lists@[w])@.len() == 0,
        decreases m - k,
    {
        lists.push(Vec::new());
        k = k + 1;
    }
    let mut ci: usize = 0;
    while ci < m
        invariant
            m == roots@.len(),
            lists@.len() == m,
            ci <= m,
            forall|i: int| 0 <= i < m ==> #[trigger] roots@[i] < m,
            forall|w: int| 0 <= w < m ==> ints(#[trigger] lists@[w]@)
                == indices_where(ci as int, with_root(roots@, w)),
        decreases m - ci,
    {
        let rt = roots[ci];
        let ghost before = lists@;
        lists[rt].push(ci);
        proof {
            assert forall|w: int| 0 <= w < m implies ints(#[trigger] lists@[w]@)
                == indices_where(ci + 1, with_root(roots@, w)) by {
                if w == rt as int {
                    assert(ints(lists@[w]@) =~= ints(before[w]@).push(ci as int));
                } else {
                    assert(lists@[w] == before[w]);
                }
            }
        }
        ci = ci + 1;
    }
    let ghost pg = |k: int| similar_class(r, threshold, k)[0] == k && similar_class(r, threshold, k).len() >= 2;
    let mut out: Vec<Vec<usize>> = Vec::new();
    let mut k: usize = 0;
    while k < m
        invariant
            r == rows@,
            m == roots@.len(),
            m == cands@.len(),
            m == ph@.len(),
            ph@ == candidate_hashes(r),
            ints(cands@) == candidates(r),
            t == effective_threshold(threshold),
            lists@.len() == m,
            k <= m,
            forall|i: int| 0 <= i < m ==> #[trigger] roots@[i] < m,
            forall|i: int, j: int| 0 <= i < m && 0 <= j < m ==>
                ((roots@[i] == roots@[j]) <==> connected(ph@, t, i, j)),
            forall|w: int| 0 <= w < m ==> ints(#[trigger] lists@[w]@)
                == indices_where(m as int, with_root(roots@, w)),
            pg == (|k: int| similar_class(r, threshold, k)[0] == k && similar_class(r, threshold, k).len() >= 2),
            out@.len() == indices_where(k as int, pg).len(),
            forall|g: int| 0 <= g < out@.len() ==> ints(#[trigger] out@[g]@)
                == similar_class(r, threshold, indices_where(k as int, pg)[g]).map_values(|j: int| candidates(r)[j]),
            forall|z: int| 0 <= z < cands@.len() ==> #[trigger] cands@[z] < r.len(),
            forall|g: int, q: int| 0 <= g < out@.len() && 0 <= q < out@[g]@.len() ==> #[trigger] out@[g]@[q] < r.len(),
        decreases m - k,
    {
        let rt = roots[k];
        let list = &lists[rt];
        let ghost p1 = with_root(roots@, rt as int);
        let ghost p2 = |j: int| connected(candidate_hashes(r), effective_threshold(threshold), k as int, j);
        proof {
            let cls = similar_class(r, threshold, k as int);
            assert(candidates(r).len() == m) by {
                assert(ints(cands@).len() == cands@.len());
            }
            assert forall|x: int| 0 <= x < m implies #[trigger] p1(x) == p2(x) by {
                assert((roots@[k as int] == roots@[x]) <==> connected(ph@, t, k as int, x));
            }
            lemma_indices_where_ext(m as int, p1, p2);
            assert(ints(lists@[rt as int]@) == indices_where(m as int, p1));
            assert(ints(list@) == cls);
            lemma_indices_where(m as int, p1);
            assert(p1(k as int));
            assert(indices_where(m as int, p1).contains(k as int));
            assert(list@.len() > 0);
            assert(ints(list@)[0] == list@[0] as int);
            assert forall|q: int| 0 <= q < list@.len() implies #[trigger] list@[q] < m by {
                assert(ints(list@)[q] == list@[q] as int);
                assert(0 <= indices_where(m as int, p1)[q] < m);
            }
            assert(indices_where(k + 1, pg) == if pg(k as int) {
                indices_where(k as int, pg).push(k as int)
            } else {
                indices_where(k as int, pg)
            });
        }
        if list[0] == k && list.len() >= 2 {
            let ghost order = ints(list@);
            let ghost cv = ints(cands@);
            let mut members: Vec<usize> = Vec::new();
            let mut z: usize = 0;
            while z < list.len()
                invariant
                    z <= list@.len(),
                    order == ints(list@),
                    cv == ints(cands@),
                    forall|q: int| 0 <= q < list@.len() ==> #[trigger] list@[q] < m,
                    m == cands@.len(),
                    ints(members@) == order.subrange(0, z as int).map_values(|j: int| cv[j]),
                    forall|z: int| 0 <= z < cands@.len() ==> #[trigger] cands@[z] < r.len(),
                    forall|q: int| 0 <= q < members@.len() ==> #[trigger] members@[q] < r.len(),
                decreases list@.len() - z,
            {
                let ghost old_m = members@;
                let c = cands[list[z]];
                members.push(c);
                proof {
                    let want = order.subrange(0, z + 1).map_values(|j: int| cv[j]);
                    assert(ints(old_m) == order.subrange(0, z as int).map_values(|j: int| cv[j]));
                    assert(ints(old_m).len() == z);
                    assert(ints(members@).len() == z + 1);
                    assert(want.len() == z + 1);
                    assert forall|q: int| 0 <= q < z + 1 implies ints(members@)[q] == want[q] by {
                        if q < z {
                            assert(members@[q] == old_m[q]);
                            assert(ints(old_m)[q] == order.subrange(0, z as int).map_values(|j: int| cv[j])[q]);
                        } else {
                            assert(members@[q] == c);
                            assert(order[q] == list@[q] as int);
                            assert(cv[list@[q] as int] == c as int);
                        }
                    }
                    assert(ints(members@) =~= want);
                }
                z = z + 1;
            }
            let ghost mv = members@;
            let ghost old_out = out@;
            out.push(members);
            proof {
                assert(order.subrange(0, list@.len() as int) =~= order);
                assert forall|g: int| 0 <= g < out@.len() implies ints(#[trigger] out@[g]@)
                    == similar_class(r, threshold, indices_where(k + 1, pg)[g]).map_values(|j: int| candidates(r)[j]) by {
                    if g < old_out.len() {
                        assert(out@[g] == old_out[g]);
                    } else {
                        assert(out@[g]@ == mv);
                    }
                }
                assert forall|g: int, q: int| 0 <= g < out@.len() && 0 <= q < out@[g]@.len()
                    implies #[trigger] out@[g]@[q] < r.len() by {
                    if g < old_out.len() {
                        assert(out@[g] == old_out[g]);
                    } else {
                        assert(out@[g]@ == mv);
                    }
                }
            }
        }
        k = k + 1;
    }
    proof {
        assert(similar_groups(r, threshold) == indices_where(m as int, pg).map_values(
            |k: int| similar_class(r, threshold, k).map_values(|j: int| candidates(r)[j])));
    }
    out
}

} // verus!

verus! {

// ── the full scan ───────────────────────────────────────────────────────

/// Sort key that puts larger groups first.
pub open spec fn size_key(n: nat) -> i64 {
    if n <= i64::MAX {
        (-(n as int)) as i64
    } else {
        i64::MIN
    }
}

/// Positions of the groups, largest first; groups of equal size keep their order.
pub open spec fn size_order(gs: Seq<Seq<int>>) -> Seq<int> {
    sorted_version(Seq::new(gs.len(), |i: int| (size_key(gs[i].len()), i as usize))).map_values(
        |p: (i64, usize)| p.1 as int,
    )
}

/// The groups reordered largest first, stably.
pub open spec fn by_size(gs: Seq<Seq<int>>) -> Seq<Seq<int>> {
    size_order(gs).map_values(|i: int| gs[i])
}

/// Every group of a scan as (kind, rows): bursts, then exact duplicates,
/// then similar photos, each section ordered largest group first.
pub open spec fn scan_groups(rows: Seq<DupRow>, threshold: u32) -> Seq<(Seq<char>, Seq<int>)> {
    by_size(burst_groups(rows)).map_values(|g: Seq<int>| ("burst"@, g))
        + by_size(exact_groups(rows)).map_values(|g: Seq<int>| ("exact"@, g))
        + by_size(similar_groups(rows, threshold)).map_values(|g: Seq<int>| ("similar"@, g))
}

/// `grp` is the group of kind `kind` holding the members of `idx`, in order.
pub open spec fn group_is(rows: Seq<DupRow>, grp: DupGroup, kind: Seq<char>, idx: Seq<int>) -> bool {
    &&& grp.kind@ == kind
    &&& grp.members@.len() == idx.len()
    &&& forall|q: int| 0 <= q < idx.len() ==> #[trigger] grp.members@[q] == rows[idx[q]].member
}

pub open spec fn set_views(sets: Seq<Vec<usize>>) -> Seq<Seq<int>> {
    sets.map_values(|v: Vec<usize>| ints(v@))
}

fn size_key_of(n: usize) -> (k: i64)
    ensures
        k == size_key(n as nat),
{
    let w = n as u64;
    if w <= 0x7fff_ffff_ffff_ffffu64 {
        -(w as i64)
    } else {
        i64::MIN
    }
}

fn make_group(rows: &[DupRow], idx: &Vec<usize>, kind: &str) -> (grp: DupGroup)
    requires
        forall|q: int| 0 <= q < idx@.len() ==> #[trigger] idx@[q] < rows@.len(),
    ensures
        group_is(rows@, grp, kind@, ints(idx@)),
{
    let mut members: Vec<DupMember> = Vec::new();
    let mut q: usize = 0;
    while q < idx.len()
        invariant
            q <= idx@.len(),
            forall|z: int| 0 <= z < idx@.len() ==> #[trigger] idx@[z] < rows@.len(),
            members@.len() == q,
            forall|z: int| 0 <= z < q ==> #[trigger] members@[z] == rows@[idx@[z] as int].member,
        decreases idx@.len() - q,
    {
        let m = rows[idx[q]].member.duplicate();
        members.push(m);
        q = q + 1;
    }
    let grp = DupGroup { kind: String::from_str(kind), members };
    proof {
        assert forall|z: int| 0 <= z < ints(idx@).len() implies #[trigger] grp.members@[z]
            == rows@[ints(idx@)[z]].member by {
            assert(ints(idx@)[z] == idx@[z] as int);
        }
    }
    grp
}

/// Appends the groups of one section, largest first.
fn append_section(rows: &[DupRow], groups: &mut Vec<DupGroup>, sets: &Vec<Vec<usize>>, kind: &str)
    requires
        forall|g: int, q: int| 0 <= g < sets@.len() && 0 <= q < sets@[g]@.len() ==> #[trigger] sets@[g]@[q]
            < rows@.len(),
    ensures
        by_size(set_views(sets@)).len() == sets@.len(),
        final(groups)@.len() == old(groups)@.len() + sets@.len(),
        forall|g: int| 0 <= g < old(groups)@.len() ==> #[trigger] final(groups)@[g] == old(groups)@[g],
        forall|g: int| 0 <= g < sets@.len() ==> group_is(
            rows@,
            #[trigger] final(groups)@[old(groups)@.len() + g],
            kind@,
            by_size(set_views(sets@))[g],
        ),
{
    let ghost sv = set_views(sets@);
    let ghost base = groups@;
    let n = sets.len();
    let mut keys: Vec<(i64, usize)> = Vec::new();
    let mut i: usize = 0;
    while i < n
        invariant
            n == sets@.len(),
            sv == set_views(sets@),
            i <= n,
            keys@ == Seq::new(i as nat, |j: int| (size_key(sv[j].len()), j as usize)),
        decreases n - i,
    {
        let k = size_key_of(sets[i].len());
        keys.push((k, i));
        proof {
            assert(sv[i as int].len() == sets@[i as int]@.len());
            assert(keys@ =~= Seq::new((i + 1) as nat, |j: int| (size_key(sv[j].len()), j as usize)));
        }
        i = i + 1;
    }
    proof {
        assert(distinct_pairs(keys@)) by {
            assert forall|a: int, b: int| 0 <= a < b < keys@.len() implies keys@[a] != keys@[b] by {
                assert(keys@[a].1 == a as usize);
                assert(keys@[b].1 == b as usize);
            }
        }
    }
    let ghost kv = keys@;
    let sorted = sort_distinct_pairs(keys);
    proof {
        assert(kv == Seq::new(sv.len(), |j: int| (size_key(sv[j].len()), j as usize)));
        assert forall|k: int| 0 <= k < sorted@.len() implies (#[trigger] sorted@[k]).1 < n && by_size(sv)[k]
            == sv[sorted@[k].1 as int] by {
            assert(sorted@.contains(sorted@[k]));
            assert(kv.contains(sorted@[k]));
            let w = choose|w: int| 0 <= w < kv.len() && kv[w] == sorted@[k];
            assert(kv[w].1 == w as usize);
        }
    }
    let mut k: usize = 0;
    while k < n
        invariant
            n == sets@.len(),
            n == sorted@.len(),
            sv == set_views(sets@),
            k <= n,
            forall|g: int, q: int| 0 <= g < sets@.len() && 0 <= q < sets@[g]@.len() ==> #[trigger] sets@[g]@[q]
                < rows@.len(),
            forall|j: int| 0 <= j < sorted@.len() ==> (#[trigger] sorted@[j]).1 < n && by_size(sv)[j]
                == sv[sorted@[j].1 as int],
            groups@.len() == base.len() + k,
            forall|g: int| 0 <= g < base.len() ==> #[trigger] groups@[g] == base[g],
            forall|g: int| 0 <= g < k ==> group_is(rows@, #[trigger] groups@[base.len() + g], kind@, by_size(sv)[g]),
        decreases n - k,
    {
        let which = sorted[k].1;
        let set = &sets[which];
        proof {
            assert(sv[which as int] == ints(set@));
        }
        let grp = make_group(rows, set, kind);
        let ghost before = groups@;
        groups.push(grp);
        proof {
            assert forall|g: int| 0 <= g < k + 1 implies group_is(rows@, #[trigger] groups@[base.len() + g], kind@, by_size(sv)[g]) by {
                if g < k {
                    assert(groups@[base.len() + g] == before[base.len() + g]);
                }
            }
        }
        k = k + 1;
    }
    proof {
        assert(by_size(set_views(sets@)) == by_size(sv));
        assert(by_size(sv).len() == sorted@.len());
    }
}

/// Finds every group of duplicates among the rows: bursts of photos, exact
/// copies and visually similar photos (perceptual hashes at most
/// `threshold` bits apart, capped at `MAX_THRESHOLD`).
pub fn scan(rows: &[DupRow], threshold: u32) -> (groups: Vec<DupGroup>)
    ensures
        groups@.len() == scan_groups(rows@, threshold).len(),
        forall|g: int| 0 <= g < groups@.len() ==> group_is(
            rows@,
            #[trigger] groups@[g],
            scan_groups(rows@, threshold)[g].0,
            scan_groups(rows@, threshold)[g].1,
        ),
{
    let burst = bursts(rows);
    let (exact, cands) = exact_and_candidates(rows);
    let similar = similar_sets(rows, &cands, threshold);
    proof {
        assert(set_views(burst@) =~= burst_groups(rows@));
        assert(set_views(exact@) =~= exact_groups(rows@));
        assert(set_views(similar@) =~= similar_groups(rows@, threshold));
    }
    let mut groups: Vec<DupGroup> = Vec::new();
    append_section(rows, &mut groups, &burst, "burst");
    let ghost g1 = groups@;
    append_section(rows, &mut groups, &exact, "exact");
    let ghost g2 = groups@;
    append_section(rows, &mut groups, &similar, "similar");
    proof {
        let spec = scan_groups(rows@, threshold);
        let b = by_size(burst_groups(rows@));
        let e = by_size(exact_groups(rows@));
        let s = by_size(similar_groups(rows@, threshold));
        assert forall|g: int| 0 <= g < groups@.len() implies group_is(
            rows@,
            #[trigger] groups@[g],
            spec[g].0,
            spec[g].1,
        ) by {
            if g < g1.len() {
                assert(groups@[g] == g2[g]);
                assert(g2[g] == g1[g]);
                assert(group_is(rows@, g1[0 + g], "burst"@, b[g]));
            } else if g < g2.len() {
                assert(groups@[g] == g2[g]);
                assert(group_is(rows@, g2[g1.len() + (g - g1.len())], "exact"@, e[g - g1.len()]));
            } else {
                assert(group_is(rows@, groups@[g2.len() + (g - g2.len())], "similar"@, s[g - g2.len()]));
            }
        }
    }
    groups
}

} // verus!

verus! {

// ── laws ────────────────────────────────────────────────────────────────

/// Banding loses no pair: when no bucket is too large to compare, any two
/// candidates whose perceptual hashes lie within the threshold are linked,
/// because they share at least one of the eight bytes.
pub proof fn lemma_banding_complete(ph: Seq<i64>, t: u32, i: int, j: int)
    requires
        0 <= i < ph.len(),
        0 <= j < ph.len(),
        i != j,
        t <= MAX_THRESHOLD,
        hamming_spec(ph[i], ph[j]) <= t,
        forall|band: int, v: u8| 0 <= band < 8 ==> (#[trigger] bucket(ph, band, v)).len() <= MAX_BUCKET,
    ensures
        similar_edge(ph, t, i, j),
        connected(ph, t, i, j),
{
    let band = lemma_close_hashes_share_a_band(ph[i], ph[j]);
    assert(bucket(ph, band, band_of(ph[i], band)).len() <= MAX_BUCKET);
    assert(band_edge(ph, t, i, j, band));
    let path = seq![i, j];
    assert(path[0] == i && path[1] == j);
    assert(is_chain(ph, t, path));
}

/// At the level of a scan: two candidate photos whose perceptual hashes lie
/// within the (capped) threshold fall in the same similarity class whenever
/// they agree on some byte `band` whose bucket holds at most `MAX_BUCKET`
/// candidates (with a threshold of at most 7 they always agree on some
/// byte: `lemma_close_hashes_share_a_band`).
pub proof fn lemma_close_candidates_grouped(rows: Seq<DupRow>, threshold: u32, a: int, b: int, band: int)
    requires
        0 <= a < candidates(rows).len(),
        0 <= b < candidates(rows).len(),
        a != b,
        0 <= band < 8,
        hamming_spec(candidate_hashes(rows)[a], candidate_hashes(rows)[b]) <= effective_threshold(threshold),
        band_of(candidate_hashes(rows)[a], band) == band_of(candidate_hashes(rows)[b], band),
        bucket(candidate_hashes(rows), band, band_of(candidate_hashes(rows)[a], band)).len() <= MAX_BUCKET,
    ensures
        similar_class(rows, threshold, a).contains(b),
        similar_class(rows, threshold, b).contains(a),
{
    let ph = candidate_hashes(rows);
    let t = effective_threshold(threshold);
    lemma_candidates(rows);
    assert(band_edge(ph, t, a, b, band));
    lemma_hamming_sym(ph[a], ph[b]);
    assert(band_edge(ph, t, b, a, band));
    let p1 = seq![a, b];
    assert(p1[0] == a && p1[1] == b);
    assert(is_chain(ph, t, p1));
    let p2 = seq![b, a];
    assert(p2[0] == b && p2[1] == a);
    assert(is_chain(ph, t, p2));
    lemma_indices_where(candidates(rows).len() as int, |j: int| connected(ph, t, a, j));
    lemma_indices_where(candidates(rows).len() as int, |j: int| connected(ph, t, b, j));
}

proof fn lemma_connected_sym(ph: Seq<i64>, t: u32, i: int, j: int)
    requires
        connected(ph, t, i, j),
    ensures
        connected(ph, t, j, i),
{
    let p = choose|path: Seq<int>| #[trigger] is_chain(ph, t, path) && path[0] == i && path.last() == j;
    let r = p.reverse();
    assert forall|k: int| 0 <= k < r.len() - 1 implies #[trigger] similar_edge(ph, t, r[k], r[k + 1]) by {
        let m = p.len() - 2 - k;
        assert(similar_edge(ph, t, p[m], p[m + 1]));
        lemma_edge_sym(ph, t, p[m], p[m + 1]);
    }
    assert forall|k: int| 0 <= k < r.len() implies 0 <= #[trigger] r[k] < ph.len() by {
        assert(r[k] == p[p.len() - 1 - k]);
    }
    assert(is_chain(ph, t, r));
}

proof fn lemma_connected_trans(ph: Seq<i64>, t: u32, x: int, u: int, y: int)
    requires
        connected(ph, t, x, u),
        connected(ph, t, u, y),
    ensures
        connected(ph, t, x, y),
{
    let p2 = choose|path: Seq<int>| #[trigger] is_chain(ph, t, path) && path[0] == u && path.last() == y;
    if p2.len() > 1 {
        let q = p2.drop_first();
        assert forall|k: int| 0 <= k < q.len() - 1 implies #[trigger] similar_edge(ph, t, q[k], q[k + 1]) by {
            assert(q[k] == p2[k + 1] && q[k + 1] == p2[k + 2]);
        }
        assert forall|k: int| 0 <= k < q.len() implies 0 <= #[trigger] q[k] < ph.len() by {
            assert(q[k] == p2[k + 1]);
        }
        assert(is_chain(ph, t, q));
        let k0: int = 0;
        assert(similar_edge(ph, t, p2[k0], p2[k0 + 1]));
        assert(q[0] == p2[k0 + 1]);
        lemma_connected_join(ph, t, x, u, q[0], y);
    }
}

/// What the class of row `i` holds.
proof fn lemma_class(rows: Seq<DupRow>, i: int)
    ensures
        forall|x: int| #[trigger] hash_class(rows, i).contains(x) <==> (0 <= x < rows.len() && same_hash(rows, i, x)),
        forall|k: int| 0 <= k < hash_class(rows, i).len() ==> 0 <= #[trigger] hash_class(rows, i)[k] < rows.len()
            && same_hash(rows, i, hash_class(rows, i)[k]),
{
    lemma_indices_where(rows.len() as int, |j: int| same_hash(rows, i, j));
}

/// Rows with equal content share their class.
proof fn lemma_same_class(rows: Seq<DupRow>, i: int, m: int)
    requires
        0 <= i < rows.len(),
        same_hash(rows, i, m),
    ensures
        hash_class(rows, m) == hash_class(rows, i),
{
    lemma_indices_where_ext(rows.len() as int, |j: int| same_hash(rows, m, j), |j: int| same_hash(rows, i, j));
}

/// Exact duplicates are the contents held twice or more: every exact group
/// holds two or more rows, all with the same content hash, and every row
/// with that hash; every row whose content another row shares is in an
/// exact group; no row is in two of them; a row without a hash is in none.
pub proof fn lemma_exact_groups_are_hash_classes(rows: Seq<DupRow>)
    ensures
        forall|q: int| 0 <= q < exact_groups(rows).len() ==> {
            let g = #[trigger] exact_groups(rows)[q];
            &&& g.len() >= 2
            &&& hash_view(rows[g[0]]) is Some
            &&& g == hash_class(rows, g[0])
        },
        forall|i: int| 0 <= i < rows.len() && #[trigger] hash_class(rows, i).len() >= 2 ==> exists|q: int|
            0 <= q < exact_groups(rows).len() && #[trigger] exact_groups(rows)[q].contains(i),
        forall|q1: int, q2: int, x: int|
            0 <= q1 < exact_groups(rows).len() && 0 <= q2 < exact_groups(rows).len() && q1 != q2 ==> !(
            #[trigger] exact_groups(rows)[q1].contains(x) && #[trigger] exact_groups(rows)[q2].contains(x)),
        forall|q: int, x: int|
            0 <= q < exact_groups(rows).len() && #[trigger] exact_groups(rows)[q].contains(x) ==> hash_view(rows[x])
                is Some && 0 <= x < rows.len(),
{
    let n = rows.len() as int;
    let pf = |i: int| first_of_content(rows, i) && hash_class(rows, i).len() >= 2;
    let f = indices_where(n, pf);
    let eg = exact_groups(rows);
    lemma_indices_where(n, pf);
    assert(eg.len() == f.len());
    assert forall|q: int| 0 <= q < eg.len() implies {
        let g = #[trigger] eg[q];
        &&& g.len() >= 2
        &&& hash_view(rows[g[0]]) is Some
        &&& g == hash_class(rows, g[0])
    } by {
        let i = f[q];
        assert(pf(i));
        lemma_class(rows, i);
        assert(eg[q] == hash_class(rows, i));
        assert(same_hash(rows, i, hash_class(rows, i)[0]));
    }
    assert forall|i: int| 0 <= i < n && #[trigger] hash_class(rows, i).len() >= 2 implies exists|q: int|
        0 <= q < eg.len() && #[trigger] eg[q].contains(i) by {
        lemma_class(rows, i);
        let m = hash_class(rows, i)[0];
        assert(same_hash(rows, i, m));
        lemma_same_class(rows, i, m);
        assert(pf(m));
        assert(f.contains(m));
        let q = choose|q: int| 0 <= q < f.len() && f[q] == m;
        assert(eg[q] == hash_class(rows, m));
        assert(same_hash(rows, i, i));
        assert(eg[q].contains(i));
    }
    assert forall|q1: int, q2: int, x: int|
        0 <= q1 < eg.len() && 0 <= q2 < eg.len() && q1 != q2 implies !(#[trigger] eg[q1].contains(x)
        && #[trigger] eg[q2].contains(x)) by {
        if eg[q1].contains(x) && eg[q2].contains(x) {
            let a = f[q1];
            let b = f[q2];
            assert(pf(a) && pf(b));
            assert(eg[q1] == hash_class(rows, a));
            assert(eg[q2] == hash_class(rows, b));
            lemma_class(rows, a);
            lemma_class(rows, b);
            assert(same_hash(rows, a, x) && same_hash(rows, b, x));
            assert(same_hash(rows, a, b));
            lemma_same_class(rows, a, b);
            assert(a == b);
            if q1 < q2 {
                assert(f[q1] < f[q2]);
            } else {
                assert(f[q2] < f[q1]);
            }
        }
    }
    assert forall|q: int, x: int| 0 <= q < eg.len() && #[trigger] eg[q].contains(x) implies hash_view(rows[x])
        is Some && 0 <= x < n by {
        let a = f[q];
        assert(pf(a));
        lemma_class(rows, a);
        assert(eg[q] == hash_class(rows, a));
    }
}

/// Rows `x` and `y` are candidates joined by a chain of pairs whose
/// perceptual hashes lie within the (capped) threshold.
pub open spec fn linked_rows(rows: Seq<DupRow>, threshold: u32, x: int, y: int) -> bool {
    exists|i: int, j: int|
        0 <= i < candidates(rows).len() && 0 <= j < candidates(rows).len() && #[trigger] candidates(rows)[i] == x
            && #[trigger] candidates(rows)[j] == y && connected(
            candidate_hashes(rows),
            effective_threshold(threshold),
            i,
            j,
        )
}

proof fn lemma_candidates(rows: Seq<DupRow>)
    ensures
        strictly_increasing(candidates(rows)),
        candidate_hashes(rows).len() == candidates(rows).len(),
        forall|k: int| 0 <= k < candidates(rows).len() ==> 0 <= #[trigger] candidates(rows)[k] < rows.len()
            && first_of_content(rows, candidates(rows)[k]) && rows[candidates(rows)[k]].phash is Some,
{
    lemma_indices_where(rows.len() as int, |i: int| first_of_content(rows, i) && rows[i].phash is Some);
}

proof fn lemma_similar_class(rows: Seq<DupRow>, threshold: u32, k: int)
    ensures
        strictly_increasing(similar_class(rows, threshold, k)),
        forall|j: int| 0 <= j < similar_class(rows, threshold, k).len() ==> 0 <= #[trigger] similar_class(
            rows,
            threshold,
            k,
        )[j] < candidates(rows).len() && connected(
            candidate_hashes(rows),
            effective_threshold(threshold),
            k,
            similar_class(rows, threshold, k)[j],
        ),
{
    lemma_indices_where(
        candidates(rows).len() as int,
        |j: int| connected(candidate_hashes(rows), effective_threshold(threshold), k, j),
    );
}

/// Similar photos: every similar group holds two or more photos, each the
/// first row of its content and with a perceptual hash, no two of them with
/// the same content; any two of its photos are linked by a chain of pairs
/// within the threshold; and no photo is in two similar groups.
pub proof fn lemma_similar_groups(rows: Seq<DupRow>, threshold: u32)
    ensures
        forall|q: int| 0 <= q < similar_groups(rows, threshold).len() ==> (#[trigger] similar_groups(
            rows,
            threshold,
        )[q]).len() >= 2,
        forall|q: int, a: int|
            0 <= q < similar_groups(rows, threshold).len() && 0 <= a < similar_groups(rows, threshold)[q].len()
                ==> {
                let x = #[trigger] similar_groups(rows, threshold)[q][a];
                &&& 0 <= x < rows.len()
                &&& first_of_content(rows, x)
                &&& rows[x].phash is Some
            },
        forall|q: int, a: int, b: int|
            0 <= q < similar_groups(rows, threshold).len() && 0 <= a < similar_groups(rows, threshold)[q].len()
                && 0 <= b < similar_groups(rows, threshold)[q].len() ==> {
                let x = #[trigger] similar_groups(rows, threshold)[q][a];
                let y = #[trigger] similar_groups(rows, threshold)[q][b];
                &&& a != b ==> hash_view(rows[x]) != hash_view(rows[y])
                &&& linked_rows(rows, threshold, x, y)
            },
        forall|q1: int, q2: int, x: int|
            0 <= q1 < similar_groups(rows, threshold).len() && 0 <= q2 < similar_groups(rows, threshold).len()
                && q1 != q2 ==> !(#[trigger] similar_groups(rows, threshold)[q1].contains(x)
                && #[trigger] similar_groups(rows, threshold)[q2].contains(x)),
{
    let c = candidates(rows);
    let ph = candidate_hashes(rows);
    let et = effective_threshold(threshold);
    let m = c.len() as int;
    let pg = |k: int| similar_class(rows, threshold, k)[0] == k && similar_class(rows, threshold, k).len() >= 2;
    let gi = indices_where(m, pg);
    let sg = similar_groups(rows, threshold);
    lemma_indices_where(m, pg);
    lemma_candidates(rows);
    assert(sg.len() == gi.len());
    assert forall|q: int| 0 <= q < sg.len() implies (#[trigger] sg[q]).len() >= 2 by {
        assert(pg(gi[q]));
    }
    assert forall|q: int, a: int| 0 <= q < sg.len() && 0 <= a < sg[q].len() implies {
        let x = #[trigger] sg[q][a];
        &&& 0 <= x < rows.len()
        &&& first_of_content(rows, x)
        &&& rows[x].phash is Some
    } by {
        let k = gi[q];
        lemma_similar_class(rows, threshold, k);
        assert(sg[q][a] == c[similar_class(rows, threshold, k)[a]]);
    }
    assert forall|q: int, a: int, b: int|
        0 <= q < sg.len() && 0 <= a < sg[q].len() && 0 <= b < sg[q].len() implies {
        let x = #[trigger] sg[q][a];
        let y = #[trigger] sg[q][b];
        &&& a != b ==> hash_view(rows[x]) != hash_view(rows[y])
        &&& linked_rows(rows, threshold, x, y)
    } by {
        let k = gi[q];
        let sc = similar_class(rows, threshold, k);
        lemma_similar_class(rows, threshold, k);
        let j1 = sc[a];
        let j2 = sc[b];
        let x = c[j1];
        let y = c[j2];
        assert(sg[q][a] == x && sg[q][b] == y);
        lemma_connected_sym(ph, et, k, j1);
        lemma_connected_trans(ph, et, j1, k, j2);
        assert(linked_rows(rows, threshold, x, y));
        if a != b && hash_view(rows[x]) == hash_view(rows[y]) {
            if a < b {
                assert(j1 < j2);
                assert(x < y);
            } else {
                assert(j2 < j1);
                assert(y < x);
            }
            lemma_class(rows, x);
            lemma_class(rows, y);
            assert(hash_class(rows, x).contains(x));
            assert(same_hash(rows, x, x));
            assert(same_hash(rows, x, y));
            lemma_same_class(rows, x, y);
        }
    }
    assert forall|q1: int, q2: int, x: int|
        0 <= q1 < sg.len() && 0 <= q2 < sg.len() && q1 != q2 implies !(#[trigger] sg[q1].contains(x)
        && #[trigger] sg[q2].contains(x)) by {
        if sg[q1].contains(x) && sg[q2].contains(x) {
            let k1 = gi[q1];
            let k2 = gi[q2];
            assert(pg(k1) && pg(k2));
            let s1 = similar_class(rows, threshold, k1);
            let s2 = similar_class(rows, threshold, k2);
            lemma_similar_class(rows, threshold, k1);
            lemma_similar_class(rows, threshold, k2);
            let a = choose|a: int| 0 <= a < sg[q1].len() && sg[q1][a] == x;
            let b = choose|b: int| 0 <= b < sg[q2].len() && sg[q2][b] == x;
            let j1 = s1[a];
            let j2 = s2[b];
            assert(c[j1] == x && c[j2] == x);
            if j1 < j2 {
                assert(c[j1] < c[j2]);
            } else if j2 < j1 {
                assert(c[j2] < c[j1]);
            }
            assert(j1 == j2);
            lemma_connected_sym(ph, et, k2, j2);
            lemma_connected_trans(ph, et, k1, j1, k2);
            lemma_connected_sym(ph, et, k1, k2);
            assert forall|j: int| 0 <= j < m implies #[trigger] connected(ph, et, k1, j) == connected(ph, et, k2, j) by {
                if connected(ph, et, k1, j) {
                    lemma_connected_trans(ph, et, k2, k1, j);
                }
                if connected(ph, et, k2, j) {
                    lemma_connected_trans(ph, et, k1, k2, j);
                }
            }
            lemma_indices_where_ext(m, |j: int| connected(ph, et, k1, j), |j: int| connected(ph, et, k2, j));
            assert(s1 == s2);
            assert(k1 == k2);
            if q1 < q2 {
                assert(gi[q1] < gi[q2]);
            } else {
                assert(gi[q2] < gi[q1]);
            }
        }
    }
}

/// Positions `s..e` of the time-ordered photos form a burst: at least three
/// photos, each taken at most two seconds after the one before, and more
/// than two seconds apart from the photos just outside the run.
pub open spec fn is_burst_run(t: Seq<i64>, s: int, e: int) -> bool {
    &&& 0 <= s
    &&& s + 3 <= e <= t.len()
    &&& forall|k: int| s < k < e ==> !#[trigger] gap(t, k)
    &&& s == 0 || gap(t, s)
    &&& e == t.len() || gap(t, e)
}

proof fn lemma_run_end(t: Seq<i64>, s: int)
    requires
        0 <= s < t.len(),
    ensures
        s < run_end(t, s) <= t.len(),
        forall|k: int| s < k < run_end(t, s) ==> !#[trigger] gap(t, k),
        run_end(t, s) < t.len() ==> gap(t, run_end(t, s)),
    decreases t.len() - s,
{
    if s + 1 < t.len() && !gap(t, s + 1) {
        lemma_run_end(t, s + 1);
    }
}

proof fn lemma_series(t: Seq<i64>, s0: int)
    requires
        0 <= s0,
        s0 == 0 || s0 >= t.len() || gap(t, s0),
    ensures
        forall|q: int| 0 <= q < series_from(t, s0).len() ==> s0 <= (#[trigger] series_from(t, s0)[q]).0
            && is_burst_run(t, series_from(t, s0)[q].0, series_from(t, s0)[q].1),
        forall|q1: int, q2: int| 0 <= q1 < q2 < series_from(t, s0).len() ==> (#[trigger] series_from(t, s0)[q1]).1
            <= (#[trigger] series_from(t, s0)[q2]).0,
    decreases t.len() - s0,
{
    if s0 < t.len() {
        lemma_run_end(t, s0);
        let e = run_end(t, s0);
        lemma_series(t, e);
        let rest = series_from(t, e);
        if e - s0 >= 3 {
            let all = seq![(s0, e)] + rest;
            assert(series_from(t, s0) == all);
            assert forall|q: int| 0 <= q < all.len() implies s0 <= (#[trigger] all[q]).0 && is_burst_run(
                t,
                all[q].0,
                all[q].1,
            ) by {
                if q > 0 {
                    assert(all[q] == rest[q - 1]);
                }
            }
            assert forall|q1: int, q2: int| 0 <= q1 < q2 < all.len() implies (#[trigger] all[q1]).1 <= (
            #[trigger] all[q2]).0 by {
                if q1 > 0 {
                    assert(all[q1] == rest[q1 - 1] && all[q2] == rest[q2 - 1]);
                } else {
                    assert(all[q2] == rest[q2 - 1]);
                }
            }
        }
    }
}

/// Bursts: the dated photos (kind 0, date from EXIF) are taken in order of
/// capture time, ties in row order, and only they; every burst group is a
/// run of those photos, in that order, that is a burst (`is_burst_run`),
/// and the runs follow one another without overlapping.
pub proof fn lemma_bursts_are_runs(rows: Seq<DupRow>)
    requires
        rows.len() <= usize::MAX,
    ensures
        forall|a: int, b: int|
            0 <= a < b < time_order(rows).len() ==> pair_lt(
                time_key(rows, #[trigger] time_order(rows)[a]),
                time_key(rows, #[trigger] time_order(rows)[b]),
            ),
        forall|k: int| 0 <= k < time_order(rows).len() ==> {
            let i = #[trigger] time_order(rows)[k];
            &&& 0 <= i < rows.len()
            &&& rows[i].member.kind == 0
            &&& rows[i].exif_date
            &&& rows[i].member.taken_at is Some
        },
        forall|i: int|
            0 <= i < rows.len() && rows[i].member.kind == 0 && rows[i].exif_date
                && #[trigger] rows[i].member.taken_at is Some ==> time_order(rows).contains(i),
        burst_groups(rows).len() == series_from(times(rows), 0).len(),
        forall|q: int| 0 <= q < burst_groups(rows).len() ==> {
            let r = #[trigger] series_from(times(rows), 0)[q];
            &&& is_burst_run(times(rows), r.0, r.1)
            &&& burst_groups(rows)[q] == time_order(rows).subrange(r.0, r.1)
        },
        forall|q1: int, q2: int|
            0 <= q1 < q2 < burst_groups(rows).len() ==> (#[trigger] series_from(times(rows), 0)[q1]).1 <= (
            #[trigger] series_from(times(rows), 0)[q2]).0,
{
    let n = rows.len() as int;
    let pd = |i: int| rows[i].member.kind == 0 && rows[i].exif_date && rows[i].member.taken_at is Some;
    let d = dated(rows);
    lemma_indices_where(n, pd);
    let keys = d.map_values(|i: int| time_key(rows, i));
    assert forall|a: int, b: int| 0 <= a < b < keys.len() implies keys[a] != keys[b] by {
        assert(d[a] < d[b]);
        assert((d[a] as usize) as int == d[a] && (d[b] as usize) as int == d[b]);
    }
    lemma_sorted_version(keys);
    let sv = sorted_version(keys);
    let to = time_order(rows);
    assert forall|k: int| 0 <= k < to.len() implies {
        &&& 0 <= #[trigger] to[k] < n
        &&& pd(to[k])
        &&& time_key(rows, to[k]) == sv[k]
    } by {
        assert(sv.contains(sv[k]));
        let m = choose|m: int| 0 <= m < keys.len() && keys[m] == sv[k];
        assert(keys[m] == time_key(rows, d[m]));
        assert((d[m] as usize) as int == d[m]);
    }
    assert forall|a: int, b: int| 0 <= a < b < to.len() implies pair_lt(
        time_key(rows, #[trigger] to[a]),
        time_key(rows, #[trigger] to[b]),
    ) by {
        assert(pair_lt(sv[a], sv[b]));
    }
    assert forall|i: int| 0 <= i < n && pd(i) implies to.contains(i) by {
        assert(d.contains(i));
        let m = choose|m: int| 0 <= m < d.len() && d[m] == i;
        assert(keys[m] == time_key(rows, i));
        assert(keys.contains(keys[m]));
        assert(sv.contains(keys[m]));
        let k = choose|k: int| 0 <= k < sv.len() && sv[k] == keys[m];
        assert((i as usize) as int == i);
        assert(to[k] == i);
    }
    lemma_series(times(rows), 0);
}

proof fn lemma_series_len(t: Seq<i64>, s0: int)
    requires
        0 <= s0 <= t.len(),
    ensures
        series_from(t, s0).len() <= t.len() - s0,
    decreases t.len() - s0,
{
    if s0 < t.len() {
        lemma_run_end(t, s0);
        lemma_series_len(t, run_end(t, s0));
    }
}

/// Reordering groups largest first keeps the groups and sorts them by size.
proof fn lemma_by_size(gs: Seq<Seq<int>>)
    requires
        gs.len() <= isize::MAX,
        forall|i: int| 0 <= i < gs.len() ==> (#[trigger] gs[i]).len() <= isize::MAX,
    ensures
        by_size(gs).len() == gs.len(),
        forall|a: int, b: int| 0 <= a < b < gs.len() ==> (#[trigger] by_size(gs)[a]).len() >= (
        #[trigger] by_size(gs)[b]).len(),
        forall|a: int| 0 <= a < gs.len() ==> gs.contains(#[trigger] by_size(gs)[a]),
        forall|i: int| 0 <= i < gs.len() ==> by_size(gs).contains(#[trigger] gs[i]),
{
    let keys = Seq::new(gs.len(), |i: int| (size_key(gs[i].len()), i as usize));
    assert forall|a: int, b: int| 0 <= a < b < keys.len() implies keys[a] != keys[b] by {
        assert((a as usize) as int == a && (b as usize) as int == b);
    }
    lemma_sorted_version(keys);
    let sv = sorted_version(keys);
    let bs = by_size(gs);
    assert forall|a: int| 0 <= a < gs.len() implies 0 <= sv[a].1 < gs.len() && #[trigger] bs[a] == gs[sv[a].1 as int]
        && sv[a].0 == size_key(bs[a].len()) by {
        assert(sv.contains(sv[a]));
        let m = choose|m: int| 0 <= m < keys.len() && keys[m] == sv[a];
        assert((m as usize) as int == m);
    }
    assert forall|a: int, b: int| 0 <= a < b < gs.len() implies (#[trigger] bs[a]).len() >= (#[trigger] bs[b]).len() by {
        assert(pair_lt(sv[a], sv[b]));
    }
    assert forall|a: int| 0 <= a < gs.len() implies gs.contains(#[trigger] bs[a]) by {
        assert(gs[sv[a].1 as int] == bs[a]);
    }
    assert forall|i: int| 0 <= i < gs.len() implies bs.contains(#[trigger] gs[i]) by {
        assert(keys.contains(keys[i]));
        let k = choose|k: int| 0 <= k < sv.len() && sv[k] == keys[i];
        assert((i as usize) as int == i);
        assert(bs[k] == gs[i]);
    }
}

/// No group, of any kind, is larger than the rows, nor are there more
/// groups of one kind than rows.
proof fn lemma_group_bounds(rows: Seq<DupRow>, threshold: u32)
    requires
        rows.len() <= isize::MAX,
    ensures
        burst_groups(rows).len() <= rows.len(),
        exact_groups(rows).len() <= rows.len(),
        similar_groups(rows, threshold).len() <= rows.len(),
        forall|q: int| 0 <= q < burst_groups(rows).len() ==> (#[trigger] burst_groups(rows)[q]).len() <= rows.len(),
        forall|q: int| 0 <= q < exact_groups(rows).len() ==> (#[trigger] exact_groups(rows)[q]).len() <= rows.len(),
        forall|q: int| 0 <= q < similar_groups(rows, threshold).len() ==> (#[trigger] similar_groups(rows, threshold)[q]).len()
            <= rows.len(),
{
    let n = rows.len() as int;
    lemma_bursts_are_runs(rows);
    lemma_indices_where(n, |i: int| rows[i].member.kind == 0 && rows[i].exif_date && rows[i].member.taken_at is Some);
    let keys = dated(rows).map_values(|i: int| time_key(rows, i));
    assert forall|a: int, b: int| 0 <= a < b < keys.len() implies keys[a] != keys[b] by {
        assert(dated(rows)[a] < dated(rows)[b]);
        assert((dated(rows)[a] as usize) as int == dated(rows)[a]);
        assert((dated(rows)[b] as usize) as int == dated(rows)[b]);
    }
    lemma_sorted_version(keys);
    assert(times(rows).len() <= n);
    lemma_series_len(times(rows), 0);
    lemma_exact_groups_are_hash_classes(rows);
    lemma_indices_where(n, |i: int| first_of_content(rows, i) && hash_class(rows, i).len() >= 2);
    assert forall|q: int| 0 <= q < exact_groups(rows).len() implies (#[trigger] exact_groups(rows)[q]).len() <= n by {
        lemma_indices_where(n, |j: int| same_hash(rows, exact_groups(rows)[q][0], j));
    }
    let m = candidates(rows).len() as int;
    lemma_indices_where(n, |i: int| first_of_content(rows, i) && rows[i].phash is Some);
    lemma_indices_where(
        m,
        |k: int| similar_class(rows, threshold, k)[0] == k && similar_class(rows, threshold, k).len() >= 2,
    );
    assert forall|q: int| 0 <= q < similar_groups(rows, threshold).len() implies (#[trigger] similar_groups(
        rows,
        threshold,
    )[q]).len() <= n by {
        let gi = indices_where(
            m,
            |k: int| similar_class(rows, threshold, k)[0] == k && similar_class(rows, threshold, k).len() >= 2,
        );
        lemma_indices_where(
            m,
            |j: int| connected(candidate_hashes(rows), effective_threshold(threshold), gi[q], j),
        );
    }
}

/// The order of a scan's result: first the bursts, then the exact
/// duplicates, then the similar photos; each section holds exactly the
/// groups of its kind, larger groups before smaller ones.
pub proof fn lemma_scan_order(rows: Seq<DupRow>, threshold: u32)
    requires
        rows.len() <= isize::MAX,
    ensures
        ({
            let sg = scan_groups(rows, threshold);
            let nb = burst_groups(rows).len() as int;
            let ne = exact_groups(rows).len() as int;
            &&& sg.len() == nb + ne + similar_groups(rows, threshold).len()
            &&& forall|a: int| 0 <= a < nb ==> (#[trigger] sg[a]).0 == "burst"@ && burst_groups(rows).contains(sg[a].1)
            &&& forall|a: int| nb <= a < nb + ne ==> (#[trigger] sg[a]).0 == "exact"@ && exact_groups(rows).contains(sg[a].1)
            &&& forall|a: int| nb + ne <= a < sg.len() ==> (#[trigger] sg[a]).0 == "similar"@ && similar_groups(
                rows,
                threshold,
            ).contains(sg[a].1)
            &&& forall|a: int, b: int|
                0 <= a < b < sg.len() && (a < nb <==> b < nb) && (a < nb + ne <==> b < nb + ne) ==> (
                #[trigger] sg[a]).1.len() >= (#[trigger] sg[b]).1.len()
        }),
        forall|g: Seq<int>| #[trigger] burst_groups(rows).contains(g) ==> scan_groups(rows, threshold).contains(("burst"@, g)),
        forall|g: Seq<int>| #[trigger] exact_groups(rows).contains(g) ==> scan_groups(rows, threshold).contains(("exact"@, g)),
        forall|g: Seq<int>| #[trigger] similar_groups(rows, threshold).contains(g) ==> scan_groups(rows, threshold).contains(
            ("similar"@, g),
        ),
{
    lemma_group_bounds(rows, threshold);
    let bg = burst_groups(rows);
    let eg = exact_groups(rows);
    let gg = similar_groups(rows, threshold);
    lemma_by_size(bg);
    lemma_by_size(eg);
    lemma_by_size(gg);
    let b = by_size(bg);
    let e = by_size(eg);
    let c = by_size(gg);
    let sb = b.map_values(|g: Seq<int>| ("burst"@, g));
    let se = e.map_values(|g: Seq<int>| ("exact"@, g));
    let sc = c.map_values(|g: Seq<int>| ("similar"@, g));
    let sg = scan_groups(rows, threshold);
    assert(sg == sb + se + sc);
    let nb = bg.len() as int;
    let ne = eg.len() as int;
    assert forall|a: int| 0 <= a < nb implies (#[trigger] sg[a]).0 == "burst"@ && bg.contains(sg[a].1) by {
        assert(sg[a] == sb[a]);
    }
    assert forall|a: int| nb <= a < nb + ne implies (#[trigger] sg[a]).0 == "exact"@ && eg.contains(sg[a].1) by {
        assert(sg[a] == se[a - nb]);
    }
    assert forall|a: int| nb + ne <= a < sg.len() implies (#[trigger] sg[a]).0 == "similar"@ && gg.contains(sg[a].1) by {
        assert(sg[a] == sc[a - nb - ne]);
    }
    assert forall|x: int, y: int|
        0 <= x < y < sg.len() && (x < nb <==> y < nb) && (x < nb + ne <==> y < nb + ne) implies (
        #[trigger] sg[x]).1.len() >= (#[trigger] sg[y]).1.len() by {
        if y < nb {
            assert(sg[x] == sb[x] && sg[y] == sb[y]);
            assert(b[x].len() >= b[y].len());
        } else if y < nb + ne {
            assert(sg[x] == se[x - nb] && sg[y] == se[y - nb]);
            assert(e[x - nb].len() >= e[y - nb].len());
        } else {
            assert(sg[x] == sc[x - nb - ne] && sg[y] == sc[y - nb - ne]);
            assert(c[x - nb - ne].len() >= c[y - nb - ne].len());
        }
    }
    assert forall|g: Seq<int>| #[trigger] bg.contains(g) implies sg.contains(("burst"@, g)) by {
        let i = choose|i: int| 0 <= i < bg.len() && bg[i] == g;
        assert(b.contains(bg[i]));
        let k = choose|k: int| 0 <= k < b.len() && b[k] == g;
        assert(sg[k] == sb[k]);
    }
    assert forall|g: Seq<int>| #[trigger] eg.contains(g) implies sg.contains(("exact"@, g)) by {
        let i = choose|i: int| 0 <= i < eg.len() && eg[i] == g;
        assert(e.contains(eg[i]));
        let k = choose|k: int| 0 <= k < e.len() && e[k] == g;
        assert(sg[nb + k] == se[k]);
    }
    assert forall|g: Seq<int>| #[trigger] gg.contains(g) implies sg.contains(("similar"@, g)) by {
        let i = choose|i: int| 0 <= i < gg.len() && gg[i] == g;
        assert(c.contains(gg[i]));
        let k = choose|k: int| 0 <= k < c.len() && c[k] == g;
        assert(sg[nb + ne + k] == sc[k]);
    }
}

} // verus!

verus! {

// ── perceptual hashes ───────────────────────────────────────────────────

/// The 8×8 mean hash of an image's DCT, from `image_hasher::Hasher::hash_image`
/// (`preproc_dct`, `HashAlg::Mean`), over the RGBA pixels given. The crate
/// documents a hash of `width * height` bits, so eight bytes here; which bits
/// are set comes out of floating-point arithmetic and is left unsaid.
#[verifier::external_body]
fn dct_mean_hash(width: u32, height: u32, rgba: &[u8]) -> (h: Vec<u8>)
    requires
        rgba@.len() == 4 * width * height,
    ensures
        h@.len() == 8,
{
    let img = image::DynamicImage::ImageRgba8(image::RgbaImage::from_raw(width, height, rgba.to_vec()).unwrap());
    let hasher = image_hasher::HasherConfig::new().hash_size(8, 8).preproc_dct().hash_alg(
        image_hasher::HashAlg::Mean,
    ).to_hasher();
    hasher.hash_image(&img).as_bytes().to_vec()
}

/// The 8×8 gradient hash of an image, from `image_hasher::Hasher::hash_image`
/// (`HashAlg::Gradient`), over the RGBA pixels given: eight bytes, as for
/// `dct_mean_hash`; the bits themselves are left unsaid.
#[verifier::external_body]
fn gradient_hash(width: u32, height: u32, rgba: &[u8]) -> (h: Vec<u8>)
    requires
        rgba@.len() == 4 * width * height,
    ensures
        h@.len() == 8,
{
    let img = image::DynamicImage::ImageRgba8(image::RgbaImage::from_raw(width, height, rgba.to_vec()).unwrap());
    let hasher = image_hasher::HasherConfig::new().hash_size(8, 8).hash_alg(image_hasher::HashAlg::Gradient).to_hasher();
    hasher.hash_image(&img).as_bytes().to_vec()
}

/// The perceptual hash (DCT mean) and the difference hash (gradient) of a
/// decoded image given as RGBA pixels, row by row, each as a 64-bit integer
/// read little-endian from the eight hash bytes.
pub fn perceptual_hashes(width: u32, height: u32, rgba: &[u8]) -> (r: (i64, i64))
    requires
        rgba@.len() == 4 * width * height,
    ensures
        exists|p: Seq<u8>, d: Seq<u8>|
            p.len() == 8 && d.len() == 8 && r == (bytes_to_i64_spec(p), bytes_to_i64_spec(d)),
{
    let p = dct_mean_hash(width, height, rgba);
    let d = gradient_hash(width, height, rgba);
    let r = (bytes_to_i64(p.as_slice()), bytes_to_i64(d.as_slice()));
    proof {
        assert(p@.len() == 8 && d@.len() == 8 && r == (bytes_to_i64_spec(p@), bytes_to_i64_spec(d@)));
    }
    r
}

} // verus!
