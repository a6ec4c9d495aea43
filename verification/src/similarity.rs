//! Cosine-similarity kernel on fixed-point vectors.
//!
//! Vector components are micro-unit values (`1_000_000` stands for `1.0`).
//! The score of two equal-length non-zero vectors is their cosine
//! similarity, clamped into `[-SCALE, SCALE]`; empty or length-mismatched
//! inputs score `0`, as does any pair in which one vector has zero norm.

use vstd::prelude::*;
use crate::fixed::{
    SCALE, SCALE_U, sqrt_floor, isqrt, lemma_sqrt_floor_props, lemma_mul_le,
};

verus! {

/// Largest magnitude a vector component may carry (`1_000_000.0` in real
/// units): keeps every intermediate product inside `u128`.
pub const VEC_COMP_MAX: i64 = 1_000_000_000_000;

/// Largest vector length the kernel accepts, for the same reason.
pub const VEC_LEN_MAX: usize = 1_000_000;

/// A vector the fixed-point kernel can process without overflow.
pub open spec fn wf_vector(v: Seq<i64>) -> bool {
    &&& v.len() <= VEC_LEN_MAX
    &&& forall|i: int|
        0 <= i < v.len() ==> -VEC_COMP_MAX <= #[trigger] v[i] <= VEC_COMP_MAX
}

/// Dot product of the first `k` components.
pub open spec fn dot_prefix(a: Seq<i64>, b: Seq<i64>, k: int) -> int
    decreases k,
{
    if k <= 0 {
        0
    } else {
        dot_prefix(a, b, k - 1) + a[k - 1] * b[k - 1]
    }
}

/// Dot product of two equal-length vectors.
pub open spec fn dot_spec(a: Seq<i64>, b: Seq<i64>) -> int {
    dot_prefix(a, b, a.len() as int)
}

/// Squared Euclidean norm.
pub open spec fn norm_sq(v: Seq<i64>) -> int {
    dot_spec(v, v)
}

/// The similarity score: cosine of the angle between `a` and `b` in
/// micro-units, computed with floor square roots and clamped into
/// `[-SCALE, SCALE]`; `0` for empty, mismatched, or zero-norm input.
pub open spec fn similarity_spec(a: Seq<i64>, b: Seq<i64>) -> int {
    if a.len() == 0 || b.len() == 0 || a.len() != b.len() {
        0
    } else {
        let na = sqrt_floor(norm_sq(a));
        let nb = sqrt_floor(norm_sq(b));
        if na == 0 || nb == 0 {
            0
        } else {
            let d = dot_spec(a, b);
            let mag = if d >= 0 {
                d
            } else {
                -d
            };
            let q = mag * SCALE / (na * nb);
            let qc = if q > SCALE {
                SCALE as int
            } else {
                q
            };
            if d >= 0 {
                qc
            } else {
                -qc
            }
        }
    }
}

/// Bounds the product of two components.
proof fn lemma_comp_mul_bound(x: i64, y: i64)
    requires
        -VEC_COMP_MAX <= x <= VEC_COMP_MAX,
        -VEC_COMP_MAX <= y <= VEC_COMP_MAX,
    ensures
        -1_000_000_000_000_000_000_000_000 <= x * y <= 1_000_000_000_000_000_000_000_000,
{
    assert(-1_000_000_000_000_000_000_000_000 <= x * y
        <= 1_000_000_000_000_000_000_000_000) by (nonlinear_arith)
        requires
            -VEC_COMP_MAX <= x <= VEC_COMP_MAX,
            -VEC_COMP_MAX <= y <= VEC_COMP_MAX,
    ;
}

/// Bounds a dot-product prefix of two well-formed vectors.
proof fn lemma_dot_prefix_bound(a: Seq<i64>, b: Seq<i64>, k: int)
    requires
        wf_vector(a),
        wf_vector(b),
        0 <= k <= a.len(),
        k <= b.len(),
    ensures
        -k * 1_000_000_000_000_000_000_000_000 <= dot_prefix(a, b, k),
        dot_prefix(a, b, k) <= k * 1_000_000_000_000_000_000_000_000,
    decreases k,
{
    if k > 0 {
        lemma_dot_prefix_bound(a, b, k - 1);
        lemma_comp_mul_bound(a[k - 1], b[k - 1]);
    }
}

/// A prefix of squares is non-negative, and positive past a non-zero
/// component.
proof fn lemma_sq_prefix_pos(v: Seq<i64>, k: int)
    requires
        k <= v.len(),
    ensures
        0 <= dot_prefix(v, v, k),
        forall|i: int| 0 <= i < k && v[i] != 0 ==> dot_prefix(v, v, k) > 0,
    decreases k,
{
    if k > 0 {
        lemma_sq_prefix_pos(v, k - 1);
        assert(v[k - 1] * v[k - 1] >= 0) by (nonlinear_arith);
        if v[k - 1] != 0 {
            assert(v[k - 1] * v[k - 1] > 0) by (nonlinear_arith)
                requires
                    v[k - 1] != 0,
            ;
        }
    }
}

/// The similarity score is symmetric in its arguments.
///
/// Law: for all vectors `a` and `b`, `similarity(a, b) == similarity(b, a)`.
pub proof fn lemma_similarity_symmetric(a: Seq<i64>, b: Seq<i64>)
    ensures
        similarity_spec(a, b) == similarity_spec(b, a),
{
    lemma_dot_prefix_symmetric(a, b, if a.len() <= b.len() {
        a.len() as int
    } else {
        b.len() as int
    });
}

/// Dot-product prefixes are symmetric.
proof fn lemma_dot_prefix_symmetric(a: Seq<i64>, b: Seq<i64>, k: int)
    requires
        k <= a.len(),
        k <= b.len(),
    ensures
        dot_prefix(a, b, k) == dot_prefix(b, a, k),
    decreases k,
{
    if k > 0 {
        lemma_dot_prefix_symmetric(a, b, k - 1);
    }
}

/// The similarity score stays within `[-SCALE, SCALE]`, and is exactly `0`
/// on empty or length-mismatched input.
///
/// Law: `-1.0 <= similarity(a, b) <= 1.0` for every pair of vectors.
pub proof fn lemma_similarity_bounds(a: Seq<i64>, b: Seq<i64>)
    ensures
        -SCALE <= similarity_spec(a, b) <= SCALE,
        a.len() == 0 || b.len() == 0 || a.len() != b.len() ==> similarity_spec(a, b) == 0,
{
    if a.len() == 0 || b.len() == 0 || a.len() != b.len() {
    } else {
        let na = sqrt_floor(norm_sq(a));
        let nb = sqrt_floor(norm_sq(b));
        lemma_sq_prefix_pos(a, a.len() as int);
        lemma_sq_prefix_pos(b, b.len() as int);
        lemma_sqrt_floor_props(norm_sq(a));
        lemma_sqrt_floor_props(norm_sq(b));
        if na != 0 && nb != 0 {
            let d = dot_spec(a, b);
            let mag = if d >= 0 {
                d
            } else {
                -d
            };
            assert(na * nb > 0) by (nonlinear_arith)
                requires
                    na > 0,
                    nb > 0,
            ;
            assert(mag * SCALE >= 0) by (nonlinear_arith)
                requires
                    mag >= 0,
            ;
            vstd::arithmetic::div_mod::lemma_div_pos_is_pos(mag * SCALE, na * nb);
        }
    }
}

/// A non-zero vector has similarity exactly `SCALE` (`1.0`) with itself.
///
/// Law: `similarity(v, v) == 1.0` for every well-formed vector with at
/// least one non-zero component.
pub proof fn lemma_similarity_self(v: Seq<i64>)
    requires
        wf_vector(v),
        v.len() > 0,
        exists|i: int| 0 <= i < v.len() && v[i] != 0,
    ensures
        similarity_spec(v, v) == SCALE,
{
    let ns = norm_sq(v);
    lemma_sq_prefix_pos(v, v.len() as int);
    assert(ns > 0);
    lemma_sqrt_floor_props(ns);
    let s = sqrt_floor(ns);
    if s == 0 {
        assert(ns < (0 + 1) * (0 + 1));
    }
    assert(s >= 1);
    assert(s * s > 0) by (nonlinear_arith)
        requires
            s >= 1,
    ;
    assert(ns * SCALE >= (s * s) * SCALE) by (nonlinear_arith)
        requires
            s * s <= ns,
    ;
    vstd::arithmetic::div_mod::lemma_div_is_ordered((s * s) * SCALE, ns * SCALE, s * s);
    vstd::arithmetic::div_mod::lemma_div_multiples_vanish(SCALE as int, s * s);
    assert((s * s) * SCALE == (s * s) * SCALE);
    assert(ns * SCALE / (s * s) >= SCALE);
}

/// Computes the cosine similarity of two fixed-point vectors.
///
/// Returns `0` if either vector is empty, the lengths differ, or either
/// norm is zero; otherwise the cosine similarity in micro-units, clamped
/// into `[-SCALE, SCALE]`.
pub fn cosine_similarity(a: &[i64], b: &[i64]) -> (r: i64)
    requires
        wf_vector(a@),
        wf_vector(b@),
    ensures
        r == similarity_spec(a@, b@),
        -SCALE <= r <= SCALE,
{
    proof {
        lemma_similarity_bounds(a@, b@);
    }
    if a.len() == 0 || b.len() == 0 || a.len() != b.len() {
        return 0;
    }

    let n = a.len();
    let mut dot: i128 = 0;
    let mut na2: i128 = 0;
    let mut nb2: i128 = 0;
    let mut j: usize = 0;
    while j < n
        invariant
            j <= n,
            n == a@.len(),
            n == b@.len(),
            wf_vector(a@),
            wf_vector(b@),
            dot == dot_prefix(a@, b@, j as int),
            na2 == dot_prefix(a@, a@, j as int),
            nb2 == dot_prefix(b@, b@, j as int),
            -(j as int) * 1_000_000_000_000_000_000_000_000 <= dot,
            dot <= (j as int) * 1_000_000_000_000_000_000_000_000,
            0 <= na2 <= (j as int) * 1_000_000_000_000_000_000_000_000,
            0 <= nb2 <= (j as int) * 1_000_000_000_000_000_000_000_000,
        decreases n - j,
    {
        let x = a[j];
        let y = b[j];
        proof {
            lemma_comp_mul_bound(x, y);
            lemma_comp_mul_bound(x, x);
            lemma_comp_mul_bound(y, y);
            lemma_sq_prefix_pos(a@, (j + 1) as int);
            lemma_sq_prefix_pos(b@, (j + 1) as int);
            assert((j as int) * 1_000_000_000_000_000_000_000_000
                + 1_000_000_000_000_000_000_000_000 == ((j + 1) as int)
                * 1_000_000_000_000_000_000_000_000) by (nonlinear_arith);
        }
        dot = dot + (x as i128) * (y as i128);
        na2 = na2 + (x as i128) * (x as i128);
        nb2 = nb2 + (y as i128) * (y as i128);
        j = j + 1;
    }
    proof {
        assert((n as int) * 1_000_000_000_000_000_000_000_000
            <= 1_000_000_000_000_000_000_000_000_000_000) by (nonlinear_arith)
            requires
                n <= 1_000_000,
        ;
    }

    let sa: u128 = isqrt(na2 as u128);
    let sb: u128 = isqrt(nb2 as u128);
    if sa == 0 || sb == 0 {
        return 0;
    }
    proof {
        lemma_sqrt_floor_props(na2 as int);
        lemma_sqrt_floor_props(nb2 as int);
        assert(sa <= 1_000_000_000_000_000) by (nonlinear_arith)
            requires
                sa * sa <= 1_000_000_000_000_000_000_000_000_000_000,
        ;
        assert(sb <= 1_000_000_000_000_000) by (nonlinear_arith)
            requires
                sb * sb <= 1_000_000_000_000_000_000_000_000_000_000,
        ;
        lemma_mul_le(sa as int, sb as int, 1_000_000_000_000_000, 1_000_000_000_000_000);
        assert(sa * sb > 0) by (nonlinear_arith)
            requires
                sa > 0,
                sb > 0,
        ;
    }
    let neg: bool = dot < 0;
    let mag: u128 = if dot < 0 {
        (-dot) as u128
    } else {
        dot as u128
    };
    proof {
        lemma_mul_le(mag as int, SCALE as int, 1_000_000_000_000_000_000_000_000_000_000, SCALE as int);
    }
    let q: u128 = mag * SCALE_U / (sa * sb);
    let qc: i64 = if q > SCALE_U {
        SCALE
    } else {
        q as i64
    };
    if neg {
        -qc
    } else {
        qc
    }
}

/// Converts a non-negative distance reported by an external
/// nearest-neighbour index into a similarity-compatible score
/// `1 / (1 + distance)`, in micro-units.
pub fn similarity_from_distance(distance: i64) -> (r: i64)
    requires
        0 <= distance,
    ensures
        r == SCALE * SCALE / (SCALE + distance),
        0 <= r <= SCALE,
{
    let d: u128 = distance as u128;
    proof {
        vstd::arithmetic::div_mod::lemma_div_pos_is_pos((SCALE * SCALE) as int, (SCALE + d) as int);
        vstd::arithmetic::div_mod::lemma_div_is_ordered_by_denominator(
            (SCALE * SCALE) as int,
            SCALE as int,
            (SCALE + d) as int,
        );
        vstd::arithmetic::div_mod::lemma_div_multiples_vanish(SCALE as int, SCALE as int);
    }
    let r: u128 = SCALE_U * SCALE_U / (SCALE_U + d);
    r as i64
}

} // verus!
