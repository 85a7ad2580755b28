//! The engine's similarity space: fixed-point cosine similarity and the
//! ordering of scored results shared by both vector indexes.

use vstd::prelude::*;
use vstd::pervasive::VecAdditionalExecFns;
use vstd::seq_lib::group_to_multiset_ensures;
use vstd::seq_lib::to_multiset_update;
use crate::types::{DIM_MAX, SCALE, wf_components};

pub mod flat;
pub mod hnsw;

verus! {

/// Sum of `a[i] * b[i]` over the first `n` components.
pub open spec fn dot_prefix(a: Seq<i64>, b: Seq<i64>, n: int) -> int
    decreases n,
{
    if n <= 0 {
        0
    } else {
        dot_prefix(a, b, n - 1) + a[n - 1] * b[n - 1]
    }
}

/// Dot product of two equal-length vectors.
pub open spec fn dot_s(a: Seq<i64>, b: Seq<i64>) -> int {
    dot_prefix(a, b, a.len() as int)
}

/// Squared L2 norm.
pub open spec fn norm2_s(a: Seq<i64>) -> int {
    dot_s(a, a)
}

pub open spec fn abs_val(x: int) -> int {
    if x < 0 {
        -x
    } else {
        x
    }
}

/// `r` is the floor of the square root of `x`.
pub open spec fn is_sqrt_floor(x: int, r: int) -> bool {
    0 <= r && r * r <= x && x < (r + 1) * (r + 1)
}

/// Floor of the square root (well defined for `x >= 0`).
pub open spec fn sqrt_floor(x: int) -> int {
    choose|r: int| is_sqrt_floor(x, r)
}

/// Ceiling of the square root (well defined for `x >= 0`).
pub open spec fn ceil_sqrt(x: int) -> int {
    if sqrt_floor(x) * sqrt_floor(x) == x {
        sqrt_floor(x)
    } else {
        sqrt_floor(x) + 1
    }
}

/// Cosine similarity in fixed point: the dot product scaled by `SCALE` and
/// divided by the product of the ceiling square roots of the squared norms,
/// clamped to `[-SCALE, SCALE]`; zero when either norm is zero, so the
/// similarity is total and never divides by zero.
pub open spec fn cosine_s(a: Seq<i64>, b: Seq<i64>) -> int {
    let d = dot_s(a, b);
    let na = norm2_s(a);
    let nb = norm2_s(b);
    if na == 0 || nb == 0 {
        0
    } else {
        let den = ceil_sqrt(na) * ceil_sqrt(nb);
        let mag = (abs_val(d) * (SCALE as int)) / den;
        let m = if mag > SCALE as int {
            SCALE as int
        } else {
            mag
        };
        if d < 0 {
            -m
        } else {
            m
        }
    }
}

pub proof fn lemma_is_sqrt_floor_unique(x: int, r1: int, r2: int)
    requires
        is_sqrt_floor(x, r1),
        is_sqrt_floor(x, r2),
    ensures
        r1 == r2,
{
    assert(r1 == r2) by (nonlinear_arith)
        requires
            0 <= r1,
            0 <= r2,
            r1 * r1 <= x,
            x < (r1 + 1) * (r1 + 1),
            r2 * r2 <= x,
            x < (r2 + 1) * (r2 + 1),
    ;
}

pub proof fn lemma_sqrt_floor_is(x: int, r: int)
    requires
        is_sqrt_floor(x, r),
    ensures
        sqrt_floor(x) == r,
{
    assert(is_sqrt_floor(x, sqrt_floor(x)));
    lemma_is_sqrt_floor_unique(x, sqrt_floor(x), r);
}

/// Floor of the square root of `x`, by binary search.
pub fn isqrt64(x: u64) -> (r: u64)
    ensures
        is_sqrt_floor(x as int, r as int),
        r == sqrt_floor(x as int),
{
    let mut lo: u64 = 0;
    let mut hi: u64 = 0x1_0000_0000;
    while lo + 1 < hi
        invariant
            lo < hi <= 0x1_0000_0000,
            (lo as int) * (lo as int) <= x as int,
            (x as int) < (hi as int) * (hi as int),
        decreases hi - lo,
    {
        let mid = lo + (hi - lo) / 2;
        proof {
            assert((mid as int) * (mid as int) <= (0x1_0000_0000 * 0x1_0000_0000))
                by (nonlinear_arith)
                requires
                    0 <= mid <= 0x1_0000_0000,
            ;
        }
        let m2: u128 = (mid as u128) * (mid as u128);
        if m2 <= x as u128 {
            lo = mid;
        } else {
            hi = mid;
        }
    }
    proof {
        lemma_sqrt_floor_is(x as int, lo as int);
    }
    lo
}

/// Fixed-point cosine similarity of two well-formed equal-length vectors.
/// Matches `cosine_s` exactly and therefore always lies in `[-SCALE, SCALE]`.
pub fn cosine(a: &Vec<i64>, b: &Vec<i64>) -> (r: i64)
    requires
        a@.len() == b@.len(),
        a@.len() <= DIM_MAX,
        wf_components(a@),
        wf_components(b@),
    ensures
        r == cosine_s(a@, b@),
        -SCALE <= r <= SCALE,
{
    let n = a.len();
    let mut dot: i64 = 0;
    let mut na: i64 = 0;
    let mut nb: i64 = 0;
    let mut i: usize = 0;
    while i < n
        invariant
            i <= n,
            n == a@.len() == b@.len(),
            n <= DIM_MAX,
            wf_components(a@),
            wf_components(b@),
            dot == dot_prefix(a@, b@, i as int),
            na == dot_prefix(a@, a@, i as int),
            nb == dot_prefix(b@, b@, i as int),
            -(i as int) * 1000000000000int <= dot as int <= (i as int) * 1000000000000int,
            0 <= na as int <= (i as int) * 1000000000000int,
            0 <= nb as int <= (i as int) * 1000000000000int,
        decreases n - i,
    {
        let ai = a[i];
        let bi = b[i];
        proof {
            assert(-1000000000000int <= ai * bi <= 1000000000000int) by (nonlinear_arith)
                requires
                    -1000000 <= ai <= 1000000,
                    -1000000 <= bi <= 1000000,
            ;
            assert(0 <= ai * ai <= 1000000000000int) by (nonlinear_arith)
                requires
                    -1000000 <= ai <= 1000000,
            ;
            assert(0 <= bi * bi <= 1000000000000int) by (nonlinear_arith)
                requires
                    -1000000 <= bi <= 1000000,
            ;
        }
        dot = dot + ai * bi;
        na = na + ai * ai;
        nb = nb + bi * bi;
        i = i + 1;
    }
    proof {
        assert(dot == dot_s(a@, b@));
        assert(na == norm2_s(a@));
        assert(nb == norm2_s(b@));
        assert((n as int) * 1000000000000int <= 65536000000000000int);
    }
    if na == 0 || nb == 0 {
        return 0;
    }
    let sa = isqrt64(na as u64);
    let sb = isqrt64(nb as u64);
    proof {
        assert(sa as int <= 0x1_0000_0000) by (nonlinear_arith)
            requires
                0 <= sa,
                (sa as int) * (sa as int) <= na as int,
                (na as int) < (0x1_0000_0000 * 0x1_0000_0000),
        ;
        assert(sb as int <= 0x1_0000_0000) by (nonlinear_arith)
            requires
                0 <= sb,
                (sb as int) * (sb as int) <= nb as int,
                (nb as int) < (0x1_0000_0000 * 0x1_0000_0000),
        ;
    }
    let csa: u64 = if sa as u128 * sa as u128 == na as u128 {
        sa
    } else {
        sa + 1
    };
    let csb: u64 = if sb as u128 * sb as u128 == nb as u128 {
        sb
    } else {
        sb + 1
    };
    proof {
        assert(csa as int == ceil_sqrt(na as int));
        assert(csb as int == ceil_sqrt(nb as int));
        assert(csa >= 1) by (nonlinear_arith)
            requires
                na as int >= 1,
                (na as int) < ((sa as int + 1) * (sa as int + 1)),
                sa >= 0,
                csa as int == if (sa as int) * (sa as int) == na as int {
                    sa as int
                } else {
                    sa as int + 1
                },
        ;
        assert(csb >= 1) by (nonlinear_arith)
            requires
                nb as int >= 1,
                (nb as int) < ((sb as int + 1) * (sb as int + 1)),
                sb >= 0,
                csb as int == if (sb as int) * (sb as int) == nb as int {
                    sb as int
                } else {
                    sb as int + 1
                },
        ;
    }
    proof {
        assert(1 <= (csa as int) * (csb as int) <= (0x1_0000_0001 * 0x1_0000_0001))
            by (nonlinear_arith)
            requires
                1 <= csa <= 0x1_0000_0001,
                1 <= csb <= 0x1_0000_0001,
        ;
    }
    let den: u128 = (csa as u128) * (csb as u128);
    let dabs: u64 = if dot < 0 {
        (-dot) as u64
    } else {
        dot as u64
    };
    proof {
        assert(0 <= (dabs as int) * (SCALE as int) <= 65536000000000000000000int)
            by (nonlinear_arith)
            requires
                0 <= dabs <= 65536000000000000,
                SCALE == 1_000_000,
        ;
    }
    let num: u128 = (dabs as u128) * (SCALE as u128);
    let mag: u128 = num / den;
    let magc: i64 = if mag > SCALE as u128 {
        SCALE
    } else {
        mag as i64
    };
    let r = if dot < 0 {
        -magc
    } else {
        magc
    };
    proof {
        assert(dabs as int == abs_val(dot as int));
        assert(num as int == abs_val(dot as int) * (SCALE as int));
        assert(mag as int == abs_val(dot as int) * (SCALE as int) / ((csa as int) * (csb as int)));
        assert(r == cosine_s(a@, b@));
    }
    r
}

/// Two sequences with equal multisets hold the same elements: anything
/// found in one occurs somewhere in the other.
pub proof fn lemma_multiset_elems<T>(a: Seq<T>, b: Seq<T>)
    requires
        a.to_multiset() == b.to_multiset(),
    ensures
        forall|i: int| 0 <= i < b.len() ==> a.contains(#[trigger] b[i]),
{
    broadcast use group_to_multiset_ensures;

    assert forall|i: int| 0 <= i < b.len() implies a.contains(#[trigger] b[i]) by {
        assert(b.contains(b[i]));
        assert(b.to_multiset().count(b[i]) > 0);
        assert(a.to_multiset().count(b[i]) > 0);
    }
}

/// Scores in non-increasing order.
pub open spec fn sorted_desc<T>(s: Seq<(T, i64)>) -> bool {
    forall|i: int, j: int| 0 <= i <= j < s.len() ==> (#[trigger] s[i]).1 >= (#[trigger] s[j]).1
}

/// In-place insertion sort of `(id, score)` pairs by non-increasing
/// score; the contract states that the result is a reordering of the
/// input (equal multisets) in non-increasing order. An element moves left
/// only past strictly smaller scores, so the sort never swaps equals.
pub fn sort_pairs_desc<T: Copy>(v: &mut Vec<(T, i64)>)
    ensures
        final(v)@.len() == old(v)@.len(),
        final(v)@.to_multiset() == old(v)@.to_multiset(),
        sorted_desc(final(v)@),
{
    let len = v.len();
    if len <= 1 {
        return ;
    }
    let mut i: usize = 1;
    while i < len
        invariant
            len == v@.len(),
            1 <= i <= len,
            v@.to_multiset() == old(v)@.to_multiset(),
            forall|p: int, q: int|
                0 <= p <= q < i as int ==> (#[trigger] v@[p]).1 >= (#[trigger] v@[q]).1,
        decreases len - i,
    {
        let mut j: usize = i;
        while j > 0 && v[j - 1].1 < v[j].1
            invariant
                len == v@.len(),
                0 <= j <= i < len,
                v@.to_multiset() == old(v)@.to_multiset(),
                forall|p: int, q: int|
                    0 <= p <= q <= i as int && q != j as int ==> (#[trigger] v@[p]).1 >= (
                    #[trigger] v@[q]).1,
                forall|q: int| (j as int) < q <= i as int ==> v@[j as int].1 > (#[trigger] v@[q]).1,
            decreases j,
        {
            let x = v[j - 1];
            let y = v[j];
            let ghost pre = v@;
            v.set(j - 1, y);
            v.set(j, x);
            proof {
                broadcast use group_to_multiset_ensures, to_multiset_update,
                    vstd::multiset::group_multiset_axioms;

                assert(v@ == pre.update(j - 1, pre[j as int]).update(j as int, pre[j - 1]));
                assert(v@.to_multiset() =~= pre.to_multiset());
            }
            j = j - 1;
        }
        proof {
            assert forall|p: int, q: int| 0 <= p <= q <= i as int implies (#[trigger] v@[p]).1 >= (
            #[trigger] v@[q]).1 by {
                if q == j as int && p < q {
                    assert(v@[p].1 >= v@[j as int - 1].1);
                    assert(v@[j as int - 1].1 >= v@[j as int].1);
                }
            }
        }
        i = i + 1;
    }
}

} // verus!
