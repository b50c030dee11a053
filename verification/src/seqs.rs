//! Index sets, stable ordering and other sequence helpers.

use vstd::prelude::*;

verus! {

/// The indices below `n` at which `p` holds, in increasing order.
pub open spec fn indices_where(n: int, p: spec_fn(int) -> bool) -> Seq<int>
    decreases n,
{
    if n <= 0 {
        Seq::empty()
    } else if p(n - 1) {
        indices_where(n - 1, p).push(n - 1)
    } else {
        indices_where(n - 1, p)
    }
}

/// A sequence of integers in strictly increasing order.
pub open spec fn strictly_increasing(s: Seq<int>) -> bool {
    forall|i: int, j: int| 0 <= i < j < s.len() ==> s[i] < s[j]
}

pub proof fn lemma_indices_where(n: int, p: spec_fn(int) -> bool)
    requires
        0 <= n,
    ensures
        strictly_increasing(indices_where(n, p)),
        forall|x: int| #[trigger] indices_where(n, p).contains(x) <==> (0 <= x < n && p(x)),
        forall|k: int| 0 <= k < indices_where(n, p).len() ==> 0 <= #[trigger] indices_where(n, p)[k] < n
            && p(indices_where(n, p)[k]),
        indices_where(n, p).len() <= n,
    decreases n,
{
    if n > 0 {
        lemma_indices_where(n - 1, p);
        let s = indices_where(n - 1, p);
        if p(n - 1) {
            let t = s.push(n - 1);
            assert forall|x: int| #[trigger] t.contains(x) <==> (0 <= x < n && p(x)) by {
                if t.contains(x) {
                    let k = choose|k: int| 0 <= k < t.len() && t[k] == x;
                    if k < s.len() {
                        assert(s[k] == x);
                        assert(s.contains(x));
                    }
                } else {
                    if 0 <= x < n - 1 && p(x) {
                        assert(s.contains(x));
                        let k = choose|k: int| 0 <= k < s.len() && s[k] == x;
                        assert(t[k] == x);
                    }
                    assert(t[s.len() as int] == n - 1);
                }
            }
        }
    }
}

/// Two predicates that agree below `n` select the same indices.
pub proof fn lemma_indices_where_ext(n: int, p: spec_fn(int) -> bool, q: spec_fn(int) -> bool)
    requires
        forall|x: int| 0 <= x < n ==> #[trigger] p(x) == q(x),
    ensures
        indices_where(n, p) == indices_where(n, q),
    decreases n,
{
    if n > 0 {
        lemma_indices_where_ext(n - 1, p, q);
    }
}

/// A strictly increasing sequence is determined by the set of its elements.
pub proof fn lemma_increasing_unique(s: Seq<int>, t: Seq<int>)
    requires
        strictly_increasing(s),
        strictly_increasing(t),
        forall|x: int| s.contains(x) <==> t.contains(x),
    ensures
        s == t,
    decreases s.len(),
{
    if s.len() == 0 {
        if t.len() > 0 {
            assert(t.contains(t[0]));
        }
    } else if t.len() == 0 {
        assert(s.contains(s[0]));
    } else {
        let a = s.last();
        let b = t.last();
        assert(s.contains(a));
        assert(t.contains(b));
        let ka = choose|k: int| 0 <= k < t.len() && t[k] == a;
        let kb = choose|k: int| 0 <= k < s.len() && s[k] == b;
        assert(a == b) by {
            if a < b {
                assert(s[kb] == b);
                assert(kb <= s.len() - 1);
            } else if b < a {
                assert(t[ka] == a);
            }
        }
        let s2 = s.drop_last();
        let t2 = t.drop_last();
        assert forall|x: int| s2.contains(x) <==> t2.contains(x) by {
            if s2.contains(x) {
                let k = choose|k: int| 0 <= k < s2.len() && s2[k] == x;
                assert(s.contains(x));
                assert(x < a);
                let k2 = choose|k2: int| 0 <= k2 < t.len() && t[k2] == x;
                assert(k2 < t.len() - 1);
                assert(t2[k2] == x);
            }
            if t2.contains(x) {
                let k = choose|k: int| 0 <= k < t2.len() && t2[k] == x;
                assert(t.contains(x));
                assert(x < b);
                let k2 = choose|k2: int| 0 <= k2 < s.len() && s[k2] == x;
                assert(k2 < s.len() - 1);
                assert(s2[k2] == x);
            }
        }
        lemma_increasing_unique(s2, t2);
        assert(s =~= s2.push(a));
        assert(t =~= t2.push(b));
    }
}

// ── ordering by key ─────────────────────────────────────────────────────

/// Lexicographic order on (key, tiebreak) pairs.
pub open spec fn pair_lt(x: (i64, usize), y: (i64, usize)) -> bool {
    x.0 < y.0 || (x.0 == y.0 && x.1 < y.1)
}

pub open spec fn sorted_pairs(s: Seq<(i64, usize)>) -> bool {
    forall|i: int, j: int| 0 <= i < j < s.len() ==> pair_lt(s[i], s[j])
}

pub open spec fn distinct_pairs(s: Seq<(i64, usize)>) -> bool {
    forall|i: int, j: int| 0 <= i < j < s.len() ==> s[i] != s[j]
}

fn pair_less(x: (i64, usize), y: (i64, usize)) -> (r: bool)
    ensures
        r == pair_lt(x, y),
{
    x.0 < y.0 || (x.0 == y.0 && x.1 < y.1)
}

fn merge(a: Vec<(i64, usize)>, b: Vec<(i64, usize)>) -> (out: Vec<(i64, usize)>)
    requires
        sorted_pairs(a@),
        sorted_pairs(b@),
        forall|i: int, j: int| 0 <= i < a@.len() && 0 <= j < b@.len() ==> a@[i] != b@[j],
    ensures
        sorted_pairs(out@),
        out@.len() == a@.len() + b@.len(),
        forall|x: (i64, usize)| out@.contains(x) <==> (a@.contains(x) || b@.contains(x)),
{
    let mut out: Vec<(i64, usize)> = Vec::new();
    let mut i: usize = 0;
    let mut j: usize = 0;
    while i < a.len() || j < b.len()
        invariant
            i <= a@.len(),
            j <= b@.len(),
            sorted_pairs(a@),
            sorted_pairs(b@),
            forall|p: int, q: int| 0 <= p < a@.len() && 0 <= q < b@.len() ==> a@[p] != b@[q],
            sorted_pairs(out@),
            out@.len() == i + j,
            forall|k: int| 0 <= k < out@.len() ==> (exists|p: int| 0 <= p < i && a@[p] == #[trigger] out@[k])
                || (exists|q: int| 0 <= q < j && b@[q] == out@[k]),
            forall|p: int| 0 <= p < i ==> out@.contains(#[trigger] a@[p]),
            forall|q: int| 0 <= q < j ==> out@.contains(#[trigger] b@[q]),
            forall|k: int, p: int| 0 <= k < out@.len() && i <= p < a@.len() ==> pair_lt(#[trigger] out@[k], #[trigger] a@[p]),
            forall|k: int, q: int| 0 <= k < out@.len() && j <= q < b@.len() ==> pair_lt(#[trigger] out@[k], #[trigger] b@[q]),
        decreases a@.len() + b@.len() - i - j,
    {
        let take_a = if i < a.len() && j < b.len() {
            pair_less(a[i], b[j])
        } else {
            i < a.len()
        };
        let ghost old_out = out@;
        if take_a {
            let x = a[i];
            out.push(x);
            proof {
                assert forall|k: int, p: int| 0 <= k < out@.len() && i + 1 <= p < a@.len() implies pair_lt(#[trigger] out@[k], #[trigger] a@[p]) by {
                    if k == out@.len() - 1 {
                        assert(pair_lt(a@[i as int], a@[p]));
                    } else {
                        assert(out@[k] == old_out[k]);
                    }
                }
                assert forall|k: int, q: int| 0 <= k < out@.len() && j <= q < b@.len() implies pair_lt(#[trigger] out@[k], #[trigger] b@[q]) by {
                    if k == out@.len() - 1 {
                        if j < b@.len() {
                            assert(a@[i as int] != b@[j as int]);
                            if q > j {
                                assert(pair_lt(b@[j as int], b@[q]));
                            }
                        }
                    } else {
                        assert(out@[k] == old_out[k]);
                    }
                }
                assert forall|p: int| 0 <= p < i + 1 implies out@.contains(#[trigger] a@[p]) by {
                    if p == i {
                        assert(out@[out@.len() - 1] == a@[p]);
                    } else {
                        let k = choose|k: int| 0 <= k < old_out.len() && old_out[k] == a@[p];
                        assert(out@[k] == a@[p]);
                    }
                }
                assert forall|q: int| 0 <= q < j implies out@.contains(#[trigger] b@[q]) by {
                    let k = choose|k: int| 0 <= k < old_out.len() && old_out[k] == b@[q];
                    assert(out@[k] == b@[q]);
                }
                assert forall|k: int| 0 <= k < out@.len() implies (exists|p: int| 0 <= p < i + 1 && a@[p] == #[trigger] out@[k])
                    || (exists|q: int| 0 <= q < j && b@[q] == out@[k]) by {
                    if k == out@.len() - 1 {
                        assert(a@[i as int] == out@[k]);
                    } else {
                        assert(out@[k] == old_out[k]);
                    }
                }
            }
            i = i + 1;
        } else {
            let x = b[j];
            out.push(x);
            proof {
                assert forall|k: int, q: int| 0 <= k < out@.len() && j + 1 <= q < b@.len() implies pair_lt(#[trigger] out@[k], #[trigger] b@[q]) by {
                    if k == out@.len() - 1 {
                        assert(pair_lt(b@[j as int], b@[q]));
                    } else {
                        assert(out@[k] == old_out[k]);
                    }
                }
                assert forall|k: int, p: int| 0 <= k < out@.len() && i <= p < a@.len() implies pair_lt(#[trigger] out@[k], #[trigger] a@[p]) by {
                    if k == out@.len() - 1 {
                        if i < a@.len() {
                            assert(a@[i as int] != b@[j as int]);
                            if p > i {
                                assert(pair_lt(a@[i as int], a@[p]));
                            }
                        }
                    } else {
                        assert(out@[k] == old_out[k]);
                    }
                }
                assert forall|q: int| 0 <= q < j + 1 implies out@.contains(#[trigger] b@[q]) by {
                    if q == j {
                        assert(out@[out@.len() - 1] == b@[q]);
                    } else {
                        let k = choose|k: int| 0 <= k < old_out.len() && old_out[k] == b@[q];
                        assert(out@[k] == b@[q]);
                    }
                }
                assert forall|p: int| 0 <= p < i implies out@.contains(#[trigger] a@[p]) by {
                    let k = choose|k: int| 0 <= k < old_out.len() && old_out[k] == a@[p];
                    assert(out@[k] == a@[p]);
                }
                assert forall|k: int| 0 <= k < out@.len() implies (exists|p: int| 0 <= p < i && a@[p] == #[trigger] out@[k])
                    || (exists|q: int| 0 <= q < j + 1 && b@[q] == out@[k]) by {
                    if k == out@.len() - 1 {
                        assert(b@[j as int] == out@[k]);
                    } else {
                        assert(out@[k] == old_out[k]);
                    }
                }
            }
            j = j + 1;
        }
    }
    proof {
        assert forall|x: (i64, usize)| out@.contains(x) <==> (a@.contains(x) || b@.contains(x)) by {
            if out@.contains(x) {
                let k = choose|k: int| 0 <= k < out@.len() && out@[k] == x;
                if exists|p: int| 0 <= p < i && a@[p] == out@[k] {
                    let p = choose|p: int| 0 <= p < i && a@[p] == out@[k];
                    assert(a@.contains(x));
                } else {
                    let q = choose|q: int| 0 <= q < j && b@[q] == out@[k];
                    assert(b@.contains(x));
                }
            }
            if a@.contains(x) {
                let p = choose|p: int| 0 <= p < a@.len() && a@[p] == x;
                assert(out@.contains(a@[p]));
            }
            if b@.contains(x) {
                let q = choose|q: int| 0 <= q < b@.len() && b@[q] == x;
                assert(out@.contains(b@[q]));
            }
        }
    }
    out
}

/// Sorts distinct (key, tiebreak) pairs into increasing lexicographic order.
pub fn sort_pairs(v: Vec<(i64, usize)>) -> (out: Vec<(i64, usize)>)
    requires
        distinct_pairs(v@),
    ensures
        sorted_pairs(out@),
        out@.len() == v@.len(),
        forall|x: (i64, usize)| out@.contains(x) <==> v@.contains(x),
    decreases v@.len(),
{
    let n = v.len();
    if n <= 1 {
        return v;
    }
    let mut left = v;
    let ghost whole = left@;
    let right = left.split_off(n / 2);
    proof {
        assert(whole =~= left@ + right@);
        assert forall|i: int, j: int| 0 <= i < j < left@.len() implies left@[i] != left@[j] by {
            assert(left@[i] == whole[i] && left@[j] == whole[j]);
        }
        assert forall|i: int, j: int| 0 <= i < j < right@.len() implies right@[i] != right@[j] by {
            assert(right@[i] == whole[i + left@.len()] && right@[j] == whole[j + left@.len()]);
        }
    }
    let ghost lv = left@;
    let ghost rv = right@;
    let sl = sort_pairs(left);
    let sr = sort_pairs(right);
    proof {
        assert forall|i: int, j: int| 0 <= i < sl@.len() && 0 <= j < sr@.len() implies sl@[i] != sr@[j] by {
            assert(sl@.contains(sl@[i]));
            assert(sr@.contains(sr@[j]));
            let p = choose|p: int| 0 <= p < lv.len() && lv[p] == sl@[i];
            let q = choose|q: int| 0 <= q < rv.len() && rv[q] == sr@[j];
            assert(whole[p] == lv[p]);
            assert(whole[q + lv.len()] == rv[q]);
        }
    }
    let out = merge(sl, sr);
    proof {
        assert forall|x: (i64, usize)| out@.contains(x) <==> whole.contains(x) by {
            if lv.contains(x) {
                let p = choose|p: int| 0 <= p < lv.len() && lv[p] == x;
                assert(whole[p] == x);
            }
            if rv.contains(x) {
                let q = choose|q: int| 0 <= q < rv.len() && rv[q] == x;
                assert(whole[q + lv.len()] == x);
            }
            if whole.contains(x) {
                let k = choose|k: int| 0 <= k < whole.len() && whole[k] == x;
                if k < lv.len() {
                    assert(lv[k] == x);
                } else {
                    assert(rv[k - lv.len()] == x);
                }
            }
        }
    }
    out
}


/// The pairs of `s` in increasing lexicographic order.
pub open spec fn sorted_version(s: Seq<(i64, usize)>) -> Seq<(i64, usize)> {
    choose|r: Seq<(i64, usize)>| sorted_pairs(r) && r.len() == s.len()
        && forall|x: (i64, usize)| r.contains(x) <==> s.contains(x)
}

/// Where `x` goes in `r` from position `k` on: the first position whose
/// pair does not come before `x`.
spec fn insert_pos(r: Seq<(i64, usize)>, x: (i64, usize), k: int) -> int
    decreases r.len() - k,
{
    if k < 0 || k >= r.len() {
        r.len() as int
    } else if pair_lt(r[k], x) {
        insert_pos(r, x, k + 1)
    } else {
        k
    }
}

proof fn lemma_insert_pos(r: Seq<(i64, usize)>, x: (i64, usize), k: int)
    requires
        0 <= k <= r.len(),
    ensures
        k <= insert_pos(r, x, k) <= r.len(),
        forall|i: int| k <= i < insert_pos(r, x, k) ==> pair_lt(#[trigger] r[i], x),
        insert_pos(r, x, k) < r.len() ==> !pair_lt(r[insert_pos(r, x, k)], x),
    decreases r.len() - k,
{
    if k < r.len() && pair_lt(r[k], x) {
        lemma_insert_pos(r, x, k + 1);
    }
}

/// A sequence of distinct pairs has a sorted version.
proof fn lemma_sort_exists(s: Seq<(i64, usize)>) -> (r: Seq<(i64, usize)>)
    requires
        distinct_pairs(s),
    ensures
        sorted_pairs(r),
        r.len() == s.len(),
        forall|x: (i64, usize)| r.contains(x) <==> s.contains(x),
    decreases s.len(),
{
    if s.len() == 0 {
        s
    } else {
        let s0 = s.drop_last();
        let x = s.last();
        assert forall|i: int, j: int| 0 <= i < j < s0.len() implies s0[i] != s0[j] by {
            assert(s[i] != s[j]);
        }
        let r0 = lemma_sort_exists(s0);
        assert(!s0.contains(x)) by {
            if s0.contains(x) {
                let k = choose|k: int| 0 <= k < s0.len() && s0[k] == x;
                assert(s[k] == s[s.len() - 1]);
            }
        }
        lemma_insert_pos(r0, x, 0);
        let p = insert_pos(r0, x, 0);
        assert forall|i: int| p <= i < r0.len() implies pair_lt(x, #[trigger] r0[i]) by {
            assert(r0.contains(r0[i]));
            if pair_lt(r0[i], x) {
                if i > p {
                    assert(pair_lt(r0[p], r0[i]));
                }
            }
        }
        let r = r0.insert(p, x);
        assert forall|i: int, j: int| 0 <= i < j < r.len() implies pair_lt(r[i], r[j]) by {
            if j < p {
                assert(r[i] == r0[i] && r[j] == r0[j]);
            } else if j == p {
                assert(r[i] == r0[i]);
            } else if i < p {
                assert(r[i] == r0[i] && r[j] == r0[j - 1]);
                assert(pair_lt(x, r0[j - 1]));
            } else if i == p {
                assert(r[j] == r0[j - 1]);
            } else {
                assert(r[i] == r0[i - 1] && r[j] == r0[j - 1]);
            }
        }
        assert forall|y: (i64, usize)| r.contains(y) <==> s.contains(y) by {
            if r.contains(y) {
                let k = choose|k: int| 0 <= k < r.len() && r[k] == y;
                if k < p {
                    assert(r0[k] == y && r0.contains(y));
                } else if k > p {
                    assert(r0[k - 1] == y && r0.contains(y));
                }
                if y != x {
                    assert(s0.contains(y));
                    let m = choose|m: int| 0 <= m < s0.len() && s0[m] == y;
                    assert(s[m] == y);
                } else {
                    assert(s[s.len() - 1] == y);
                }
            }
            if s.contains(y) {
                let m = choose|m: int| 0 <= m < s.len() && s[m] == y;
                if m < s.len() - 1 {
                    assert(s0[m] == y);
                    assert(r0.contains(y));
                    let k = choose|k: int| 0 <= k < r0.len() && r0[k] == y;
                    if k < p {
                        assert(r[k] == y);
                    } else {
                        assert(r[k + 1] == y);
                    }
                } else {
                    assert(r[p] == y);
                }
            }
        }
        r
    }
}

/// `sorted_version` of distinct pairs is sorted and holds the same pairs.
pub proof fn lemma_sorted_version(s: Seq<(i64, usize)>)
    requires
        distinct_pairs(s),
    ensures
        sorted_pairs(sorted_version(s)),
        sorted_version(s).len() == s.len(),
        forall|x: (i64, usize)| sorted_version(s).contains(x) <==> s.contains(x),
{
    let r = lemma_sort_exists(s);
    assert(sorted_pairs(r) && r.len() == s.len() && forall|x: (i64, usize)| r.contains(x) <==> s.contains(x));
}

/// Sorted sequences with the same elements are equal.
pub proof fn lemma_sorted_pairs_unique(s: Seq<(i64, usize)>, t: Seq<(i64, usize)>)
    requires
        sorted_pairs(s),
        sorted_pairs(t),
        forall|x: (i64, usize)| s.contains(x) <==> t.contains(x),
    ensures
        s == t,
    decreases s.len(),
{
    if s.len() == 0 {
        if t.len() > 0 {
            assert(t.contains(t[0]));
        }
    } else if t.len() == 0 {
        assert(s.contains(s[0]));
    } else {
        let a = s.last();
        let b = t.last();
        assert(s.contains(a));
        assert(t.contains(b));
        let ka = choose|k: int| 0 <= k < t.len() && t[k] == a;
        let kb = choose|k: int| 0 <= k < s.len() && s[k] == b;
        assert(a == b) by {
            if pair_lt(a, b) {
                if kb < s.len() - 1 {
                    assert(pair_lt(s[kb], s[s.len() - 1]));
                }
            } else if pair_lt(b, a) {
                if ka < t.len() - 1 {
                    assert(pair_lt(t[ka], t[t.len() - 1]));
                }
            }
        }
        let s2 = s.drop_last();
        let t2 = t.drop_last();
        assert forall|x: (i64, usize)| s2.contains(x) <==> t2.contains(x) by {
            if s2.contains(x) {
                let k = choose|k: int| 0 <= k < s2.len() && s2[k] == x;
                assert(s[k] == x);
                assert(s.contains(x));
                assert(pair_lt(x, a));
                let k2 = choose|k2: int| 0 <= k2 < t.len() && t[k2] == x;
                assert(k2 < t.len() - 1);
                assert(t2[k2] == x);
            }
            if t2.contains(x) {
                let k = choose|k: int| 0 <= k < t2.len() && t2[k] == x;
                assert(t[k] == x);
                assert(t.contains(x));
                assert(pair_lt(x, b));
                let k2 = choose|k2: int| 0 <= k2 < s.len() && s[k2] == x;
                assert(k2 < s.len() - 1);
                assert(s2[k2] == x);
            }
        }
        lemma_sorted_pairs_unique(s2, t2);
        assert(s =~= s2.push(a));
        assert(t =~= t2.push(b));
    }
}

/// Sorting distinct pairs yields exactly `sorted_version`.
pub fn sort_distinct_pairs(v: Vec<(i64, usize)>) -> (out: Vec<(i64, usize)>)
    requires
        distinct_pairs(v@),
    ensures
        out@ == sorted_version(v@),
        sorted_pairs(out@),
        out@.len() == v@.len(),
        forall|x: (i64, usize)| out@.contains(x) <==> v@.contains(x),
{
    let ghost orig = v@;
    let out = sort_pairs(v);
    proof {
        let r = sorted_version(orig);
        assert(exists|r: Seq<(i64, usize)>| sorted_pairs(r) && r.len() == orig.len()
            && forall|x: (i64, usize)| r.contains(x) <==> orig.contains(x)) by {
            assert(sorted_pairs(out@));
        }
        lemma_sorted_pairs_unique(out@, r);
    }
    out
}


// ── lexicographic order of text ─────────────────────────────────────────

/// `a` sorts before `b`: character by character (by code point), a proper
/// prefix first. This is the order of `String` and `str`.
pub open spec fn chars_lt(a: Seq<char>, b: Seq<char>) -> bool
    decreases a.len(),
{
    if a.len() == 0 {
        b.len() > 0
    } else if b.len() == 0 {
        false
    } else if a[0] != b[0] {
        a[0] < b[0]
    } else {
        chars_lt(a.drop_first(), b.drop_first())
    }
}

pub proof fn lemma_chars_lt_irrefl(a: Seq<char>)
    ensures
        !chars_lt(a, a),
    decreases a.len(),
{
    if a.len() > 0 {
        lemma_chars_lt_irrefl(a.drop_first());
    }
}

pub proof fn lemma_chars_lt_trans(a: Seq<char>, b: Seq<char>, c: Seq<char>)
    requires
        chars_lt(a, b),
        chars_lt(b, c),
    ensures
        chars_lt(a, c),
    decreases a.len(),
{
    if a.len() > 0 && b.len() > 0 && c.len() > 0 {
        if a[0] == b[0] && b[0] == c[0] {
            lemma_chars_lt_trans(a.drop_first(), b.drop_first(), c.drop_first());
        }
    }
}

pub proof fn lemma_chars_lt_total(a: Seq<char>, b: Seq<char>)
    requires
        a != b,
    ensures
        chars_lt(a, b) || chars_lt(b, a),
    decreases a.len(),
{
    if a.len() > 0 && b.len() > 0 && a[0] == b[0] {
        if a.drop_first() == b.drop_first() {
            assert(a =~= seq![a[0]] + a.drop_first());
            assert(b =~= seq![b[0]] + b.drop_first());
        }
        lemma_chars_lt_total(a.drop_first(), b.drop_first());
    } else if a.len() == 0 && b.len() == 0 {
        assert(a =~= b);
    }
}

pub proof fn lemma_chars_lt_asym(a: Seq<char>, b: Seq<char>)
    requires
        chars_lt(a, b),
    ensures
        !chars_lt(b, a),
{
    if chars_lt(b, a) {
        lemma_chars_lt_trans(a, b, a);
        lemma_chars_lt_irrefl(a);
    }
}

proof fn lemma_chars_lt_skip(a: Seq<char>, b: Seq<char>, k: int)
    requires
        0 <= k <= a.len(),
        k <= b.len(),
        a.subrange(0, k) == b.subrange(0, k),
    ensures
        chars_lt(a, b) == chars_lt(a.subrange(k, a.len() as int), b.subrange(k, b.len() as int)),
    decreases k,
{
    if k > 0 {
        assert(a[0] == a.subrange(0, k)[0]);
        assert(b[0] == b.subrange(0, k)[0]);
        assert(a.drop_first().subrange(0, k - 1) =~= a.subrange(0, k).drop_first());
        assert(b.drop_first().subrange(0, k - 1) =~= b.subrange(0, k).drop_first());
        lemma_chars_lt_skip(a.drop_first(), b.drop_first(), k - 1);
        assert(a.drop_first().subrange(k - 1, a.len() - 1) =~= a.subrange(k, a.len() as int));
        assert(b.drop_first().subrange(k - 1, b.len() - 1) =~= b.subrange(k, b.len() as int));
    } else {
        assert(a.subrange(0, a.len() as int) =~= a);
        assert(b.subrange(0, b.len() as int) =~= b);
    }
}

/// Compares two texts in the order of `String`.
pub fn less_chars(a: &Vec<char>, b: &Vec<char>) -> (r: bool)
    ensures
        r == chars_lt(a@, b@),
{
    let mut k: usize = 0;
    while k < a.len() && k < b.len() && a[k] == b[k]
        invariant
            k <= a@.len(),
            k <= b@.len(),
            a@.subrange(0, k as int) == b@.subrange(0, k as int),
        decreases a@.len() - k,
    {
        proof {
            assert(a@.subrange(0, k + 1) =~= a@.subrange(0, k as int).push(a@[k as int]));
            assert(b@.subrange(0, k + 1) =~= b@.subrange(0, k as int).push(b@[k as int]));
        }
        k = k + 1;
    }
    proof {
        lemma_chars_lt_skip(a@, b@, k as int);
    }
    if k == a.len() {
        k < b.len()
    } else if k == b.len() {
        false
    } else {
        a[k] < b[k]
    }
}


// ── ordering positions by text ──────────────────────────────────────────

/// Positions `p` ordered strictly by their texts.
pub open spec fn sorted_by_text(keys: Seq<Seq<char>>, p: Seq<usize>) -> bool {
    forall|a: int, b: int| 0 <= a < b < p.len() ==> chars_lt(keys[p[a] as int], keys[p[b] as int])
}

/// All texts differ.
pub open spec fn distinct_texts(keys: Seq<Seq<char>>) -> bool {
    forall|a: int, b: int| 0 <= a < b < keys.len() ==> keys[a] != keys[b]
}

fn merge_by_text(keys: &Vec<Vec<char>>, a: Vec<usize>, b: Vec<usize>) -> (out: Vec<usize>)
    requires
        forall|i: int| 0 <= i < a@.len() ==> a@[i] < keys@.len(),
        forall|i: int| 0 <= i < b@.len() ==> b@[i] < keys@.len(),
        sorted_by_text(keys@.map_values(|k: Vec<char>| k@), a@),
        sorted_by_text(keys@.map_values(|k: Vec<char>| k@), b@),
        forall|i: int, j: int| 0 <= i < a@.len() && 0 <= j < b@.len() ==> keys@[a@[i] as int]@ != keys@[b@[j] as int]@,
    ensures
        sorted_by_text(keys@.map_values(|k: Vec<char>| k@), out@),
        out@.len() == a@.len() + b@.len(),
        forall|x: usize| out@.contains(x) <==> (a@.contains(x) || b@.contains(x)),
{
    let ghost ks = keys@.map_values(|k: Vec<char>| k@);
    let mut out: Vec<usize> = Vec::new();
    let mut i: usize = 0;
    let mut j: usize = 0;
    while i < a.len() || j < b.len()
        invariant
            ks == keys@.map_values(|k: Vec<char>| k@),
            i <= a@.len(),
            j <= b@.len(),
            forall|q: int| 0 <= q < a@.len() ==> a@[q] < keys@.len(),
            forall|q: int| 0 <= q < b@.len() ==> b@[q] < keys@.len(),
            sorted_by_text(ks, a@),
            sorted_by_text(ks, b@),
            forall|p: int, q: int| 0 <= p < a@.len() && 0 <= q < b@.len() ==> ks[a@[p] as int] != ks[b@[q] as int],
            sorted_by_text(ks, out@),
            out@.len() == i + j,
            forall|k: int| 0 <= k < out@.len() ==> out@[k] < keys@.len(),
            forall|k: int| 0 <= k < out@.len() ==> (exists|p: int| 0 <= p < i && a@[p] == #[trigger] out@[k])
                || (exists|q: int| 0 <= q < j && b@[q] == out@[k]),
            forall|p: int| 0 <= p < i ==> out@.contains(#[trigger] a@[p]),
            forall|q: int| 0 <= q < j ==> out@.contains(#[trigger] b@[q]),
            forall|k: int, p: int| 0 <= k < out@.len() && i <= p < a@.len() ==> chars_lt(
                ks[#[trigger] out@[k] as int],
                ks[#[trigger] a@[p] as int],
            ),
            forall|k: int, q: int| 0 <= k < out@.len() && j <= q < b@.len() ==> chars_lt(
                ks[#[trigger] out@[k] as int],
                ks[#[trigger] b@[q] as int],
            ),
        decreases a@.len() + b@.len() - i - j,
    {
        let take_a = if i < a.len() && j < b.len() {
            crate::seqs::less_chars(&keys[a[i]], &keys[b[j]])
        } else {
            i < a.len()
        };
        proof {
            if i < a.len() && j < b.len() {
                assert(ks[a@[i as int] as int] == keys@[a@[i as int] as int]@);
                assert(ks[b@[j as int] as int] == keys@[b@[j as int] as int]@);
                if !take_a {
                    lemma_chars_lt_total(ks[a@[i as int] as int], ks[b@[j as int] as int]);
                }
            }
        }
        let ghost old_out = out@;
        if take_a {
            let x = a[i];
            out.push(x);
            proof {
                assert forall|k: int, p: int| 0 <= k < out@.len() && i + 1 <= p < a@.len() implies chars_lt(
                    ks[#[trigger] out@[k] as int],
                    ks[#[trigger] a@[p] as int],
                ) by {
                    if k == out@.len() - 1 {
                    } else {
                        assert(out@[k] == old_out[k]);
                    }
                }
                assert forall|k: int, q: int| 0 <= k < out@.len() && j <= q < b@.len() implies chars_lt(
                    ks[#[trigger] out@[k] as int],
                    ks[#[trigger] b@[q] as int],
                ) by {
                    if k == out@.len() - 1 {
                        if q > j {
                            lemma_chars_lt_trans(ks[a@[i as int] as int], ks[b@[j as int] as int], ks[b@[q] as int]);
                        }
                    } else {
                        assert(out@[k] == old_out[k]);
                    }
                }
                assert forall|p: int| 0 <= p < i + 1 implies out@.contains(#[trigger] a@[p]) by {
                    if p == i {
                        assert(out@[out@.len() - 1] == a@[p]);
                    } else {
                        let k = choose|k: int| 0 <= k < old_out.len() && old_out[k] == a@[p];
                        assert(out@[k] == a@[p]);
                    }
                }
                assert forall|q: int| 0 <= q < j implies out@.contains(#[trigger] b@[q]) by {
                    let k = choose|k: int| 0 <= k < old_out.len() && old_out[k] == b@[q];
                    assert(out@[k] == b@[q]);
                }
                assert forall|k: int| 0 <= k < out@.len() implies (exists|p: int| 0 <= p < i + 1 && a@[p]
                    == #[trigger] out@[k]) || (exists|q: int| 0 <= q < j && b@[q] == out@[k]) by {
                    if k == out@.len() - 1 {
                        assert(a@[i as int] == out@[k]);
                    } else {
                        assert(out@[k] == old_out[k]);
                    }
                }
                assert forall|c: int, d: int| 0 <= c < d < out@.len() implies chars_lt(
                    ks[out@[c] as int],
                    ks[out@[d] as int],
                ) by {
                    if d == out@.len() - 1 {
                        assert(out@[c] == old_out[c]);
                    } else {
                        assert(out@[c] == old_out[c] && out@[d] == old_out[d]);
                    }
                }
            }
            i = i + 1;
        } else {
            let x = b[j];
            out.push(x);
            proof {
                assert forall|k: int, q: int| 0 <= k < out@.len() && j + 1 <= q < b@.len() implies chars_lt(
                    ks[#[trigger] out@[k] as int],
                    ks[#[trigger] b@[q] as int],
                ) by {
                    if k == out@.len() - 1 {
                    } else {
                        assert(out@[k] == old_out[k]);
                    }
                }
                assert forall|k: int, p: int| 0 <= k < out@.len() && i <= p < a@.len() implies chars_lt(
                    ks[#[trigger] out@[k] as int],
                    ks[#[trigger] a@[p] as int],
                ) by {
                    if k == out@.len() - 1 {
                        if p > i {
                            lemma_chars_lt_trans(ks[b@[j as int] as int], ks[a@[i as int] as int], ks[a@[p] as int]);
                        }
                    } else {
                        assert(out@[k] == old_out[k]);
                    }
                }
                assert forall|q: int| 0 <= q < j + 1 implies out@.contains(#[trigger] b@[q]) by {
                    if q == j {
                        assert(out@[out@.len() - 1] == b@[q]);
                    } else {
                        let k = choose|k: int| 0 <= k < old_out.len() && old_out[k] == b@[q];
                        assert(out@[k] == b@[q]);
                    }
                }
                assert forall|p: int| 0 <= p < i implies out@.contains(#[trigger] a@[p]) by {
                    let k = choose|k: int| 0 <= k < old_out.len() && old_out[k] == a@[p];
                    assert(out@[k] == a@[p]);
                }
                assert forall|k: int| 0 <= k < out@.len() implies (exists|p: int| 0 <= p < i && a@[p]
                    == #[trigger] out@[k]) || (exists|q: int| 0 <= q < j + 1 && b@[q] == out@[k]) by {
                    if k == out@.len() - 1 {
                        assert(b@[j as int] == out@[k]);
                    } else {
                        assert(out@[k] == old_out[k]);
                    }
                }
                assert forall|c: int, d: int| 0 <= c < d < out@.len() implies chars_lt(
                    ks[out@[c] as int],
                    ks[out@[d] as int],
                ) by {
                    if d == out@.len() - 1 {
                        assert(out@[c] == old_out[c]);
                    } else {
                        assert(out@[c] == old_out[c] && out@[d] == old_out[d]);
                    }
                }
            }
            j = j + 1;
        }
    }
    proof {
        assert forall|x: usize| out@.contains(x) <==> (a@.contains(x) || b@.contains(x)) by {
            if out@.contains(x) {
                let k = choose|k: int| 0 <= k < out@.len() && out@[k] == x;
                if exists|p: int| 0 <= p < i && a@[p] == out@[k] {
                    let p = choose|p: int| 0 <= p < i && a@[p] == out@[k];
                    assert(a@.contains(x));
                } else {
                    let q = choose|q: int| 0 <= q < j && b@[q] == out@[k];
                    assert(b@.contains(x));
                }
            }
            if a@.contains(x) {
                let p = choose|p: int| 0 <= p < a@.len() && a@[p] == x;
                assert(out@.contains(a@[p]));
            }
            if b@.contains(x) {
                let q = choose|q: int| 0 <= q < b@.len() && b@[q] == x;
                assert(out@.contains(b@[q]));
            }
        }
    }
    out
}

fn sort_range_by_text(keys: &Vec<Vec<char>>, lo: usize, hi: usize) -> (out: Vec<usize>)
    requires
        lo <= hi <= keys@.len(),
        distinct_texts(keys@.map_values(|k: Vec<char>| k@)),
    ensures
        sorted_by_text(keys@.map_values(|k: Vec<char>| k@), out@),
        out@.len() == hi - lo,
        forall|x: usize| out@.contains(x) <==> lo <= x < hi,
    decreases hi - lo,
{
    let ghost ks = keys@.map_values(|k: Vec<char>| k@);
    if hi - lo <= 1 {
        let mut out: Vec<usize> = Vec::new();
        if hi > lo {
            out.push(lo);
        }
        proof {
            assert forall|x: usize| out@.contains(x) <==> lo <= x < hi by {
                if out@.contains(x) {
                    let k = choose|k: int| 0 <= k < out@.len() && out@[k] == x;
                }
                if lo <= x < hi {
                    assert(out@[0] == x);
                }
            }
        }
        return out;
    }
    let mid = lo + (hi - lo) / 2;
    let a = sort_range_by_text(keys, lo, mid);
    let b = sort_range_by_text(keys, mid, hi);
    proof {
        assert forall|i: int| 0 <= i < a@.len() implies a@[i] < keys@.len() by {
            assert(a@.contains(a@[i]));
        }
        assert forall|i: int| 0 <= i < b@.len() implies b@[i] < keys@.len() by {
            assert(b@.contains(b@[i]));
        }
        assert forall|i: int, j: int| 0 <= i < a@.len() && 0 <= j < b@.len() implies keys@[a@[i] as int]@
            != keys@[b@[j] as int]@ by {
            assert(a@.contains(a@[i]));
            assert(b@.contains(b@[j]));
            let x = a@[i] as int;
            let y = b@[j] as int;
            assert(ks[x] == keys@[x]@ && ks[y] == keys@[y]@);
            assert(x < y);
        }
    }
    merge_by_text(keys, a, b)
}

/// The positions `0..keys.len()` ordered by their texts, which all differ.
pub fn sort_by_text(keys: &Vec<Vec<char>>) -> (out: Vec<usize>)
    requires
        distinct_texts(keys@.map_values(|k: Vec<char>| k@)),
    ensures
        sorted_by_text(keys@.map_values(|k: Vec<char>| k@), out@),
        out@.len() == keys@.len(),
        forall|x: usize| out@.contains(x) <==> x < keys@.len(),
{
    sort_range_by_text(keys, 0, keys.len())
}

/// Finds the position holding `target` in a sorted order of texts.
pub fn find_text(keys: &Vec<Vec<char>>, order: &Vec<usize>, target: &Vec<char>) -> (r: Option<usize>)
    requires
        sorted_by_text(keys@.map_values(|k: Vec<char>| k@), order@),
        forall|i: int| 0 <= i < order@.len() ==> order@[i] < keys@.len(),
    ensures
        match r {
            Some(k) => k < keys@.len() && keys@[k as int]@ == target@ && order@.contains(k),
            None => forall|i: int| 0 <= i < order@.len() ==> keys@[order@[i] as int]@ != target@,
        },
{
    let ghost ks = keys@.map_values(|k: Vec<char>| k@);
    let mut lo: usize = 0;
    let mut hi: usize = order.len();
    while lo < hi
        invariant
            ks == keys@.map_values(|k: Vec<char>| k@),
            lo <= hi <= order@.len(),
            sorted_by_text(ks, order@),
            forall|i: int| 0 <= i < order@.len() ==> order@[i] < keys@.len(),
            forall|i: int| 0 <= i < lo ==> chars_lt(#[trigger] ks[order@[i] as int], target@),
            forall|i: int| hi <= i < order@.len() ==> !chars_lt(#[trigger] ks[order@[i] as int], target@),
        decreases hi - lo,
    {
        let mid = lo + (hi - lo) / 2;
        let k = order[mid];
        proof {
            assert(ks[k as int] == keys@[k as int]@);
        }
        if less_chars(&keys[k], target) {
            proof {
                assert forall|i: int| 0 <= i < mid + 1 implies chars_lt(#[trigger] ks[order@[i] as int], target@) by {
                    if i < mid {
                        lemma_chars_lt_trans(ks[order@[i] as int], ks[k as int], target@);
                    }
                }
            }
            lo = mid + 1;
        } else {
            proof {
                assert forall|i: int| mid <= i < order@.len() implies !chars_lt(#[trigger] ks[order@[i] as int], target@) by {
                    if i > mid && chars_lt(ks[order@[i] as int], target@) {
                        lemma_chars_lt_trans(ks[k as int], ks[order@[i] as int], target@);
                    }
                }
            }
            hi = mid;
        }
    }
    if lo < order.len() {
        let k = order[lo];
        if crate::text::chars_eq(&keys[k], target) {
            proof {
                assert(order@[lo as int] == k);
            }
            return Some(k);
        }
        proof {
            assert(ks[k as int] == keys@[k as int]@);
            assert(ks[k as int] != target@);
            lemma_chars_lt_total(ks[k as int], target@);
            assert forall|i: int| 0 <= i < order@.len() implies keys@[order@[i] as int]@ != target@ by {
                assert(ks[order@[i] as int] == keys@[order@[i] as int]@);
                if i < lo {
                    lemma_chars_lt_irrefl(target@);
                } else if i > lo {
                    if ks[order@[i] as int] == target@ {
                        lemma_chars_lt_trans(ks[k as int], target@, ks[k as int]);
                        lemma_chars_lt_irrefl(ks[k as int]);
                    }
                }
            }
        }
        return None;
    }
    proof {
        assert forall|i: int| 0 <= i < order@.len() implies keys@[order@[i] as int]@ != target@ by {
            assert(ks[order@[i] as int] == keys@[order@[i] as int]@);
            lemma_chars_lt_irrefl(target@);
        }
    }
    None
}

} // verus!
