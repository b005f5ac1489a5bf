use vstd::prelude::*;

verus! {

/// Largest number of components a stored vector may have.
pub const DIM_LIMIT: usize = 4096;

/// Bound on the magnitude of one fixed-point vector component.
pub const COMPONENT_LIMIT: i32 = 32768;

/// The similarity measure an index ranks its records by.
#[derive(Clone, Copy, Debug, PartialEq, Eq, Structural)]
pub enum MetricKind {
    Dot,
    Cosine,
    Euclidean,
}

pub open spec fn component_ok(c: i32) -> bool {
    -COMPONENT_LIMIT <= c <= COMPONENT_LIMIT
}

/// A vector of `dim` fixed-point components, each within the component bound.
pub open spec fn valid_vector(v: Seq<i32>, dim: nat) -> bool {
    &&& v.len() == dim
    &&& dim <= DIM_LIMIT
    &&& forall|i: int| 0 <= i < v.len() ==> component_ok(#[trigger] v[i])
}

/// Inner product of the first `n` components.
pub open spec fn dot(a: Seq<i32>, b: Seq<i32>, n: nat) -> int
    decreases n,
{
    if n == 0 {
        0
    } else {
        dot(a, b, (n - 1) as nat) + a[n - 1] * b[n - 1]
    }
}

/// Squared Euclidean distance over the first `n` components.
pub open spec fn dist2(a: Seq<i32>, b: Seq<i32>, n: nat) -> int
    decreases n,
{
    if n == 0 {
        0
    } else {
        dist2(a, b, (n - 1) as nat) + (a[n - 1] - b[n - 1]) * (a[n - 1] - b[n - 1])
    }
}

/// The rank of `v` against query `q` as a fraction `(num, den)` with `den > 0`:
/// a larger fraction is a better match.
/// Dot ranks by the inner product, Euclidean by the negated squared distance,
/// and Cosine by `sign(d) * d^2 / |v|^2` with `d` the inner product, which orders
/// records exactly as the cosine of the angle to `q` does (a zero vector scores 0).
pub open spec fn rank_key(metric: MetricKind, v: Seq<i32>, q: Seq<i32>) -> (int, int) {
    let n = q.len();
    match metric {
        MetricKind::Dot => (dot(v, q, n), 1),
        MetricKind::Euclidean => (-dist2(v, q, n), 1),
        MetricKind::Cosine => {
            let d = dot(v, q, n);
            let m = dot(v, v, n);
            if m == 0 {
                (0, 1)
            } else if d >= 0 {
                (d * d, m)
            } else {
                (-(d * d), m)
            }
        },
    }
}

/// `a` is a strictly better match for `q` than `b` under `metric`.
pub open spec fn ranks_above(metric: MetricKind, q: Seq<i32>, a: Seq<i32>, b: Seq<i32>) -> bool {
    let ka = rank_key(metric, a, q);
    let kb = rank_key(metric, b, q);
    ka.0 * kb.1 > kb.0 * ka.1
}

proof fn lemma_fraction_order(a: int, x: int, b: int, y: int, c: int, z: int)
    requires
        x > 0,
        y > 0,
        z > 0,
        a * y <= b * x,
        b * z <= c * y,
    ensures
        a * z <= c * x,
{
    assert(a * y * z <= b * x * z) by (nonlinear_arith)
        requires
            a * y <= b * x,
            z > 0,
    ;
    assert(b * z * x <= c * y * x) by (nonlinear_arith)
        requires
            b * z <= c * y,
            x > 0,
    ;
    assert(y * (a * z) <= y * (c * x)) by (nonlinear_arith)
        requires
            a * y * z <= b * x * z,
            b * z * x <= c * y * x,
    ;
    assert(a * z <= c * x) by (nonlinear_arith)
        requires
            y * (a * z) <= y * (c * x),
            y > 0,
    ;
}

proof fn lemma_key_den_positive(metric: MetricKind, v: Seq<i32>, q: Seq<i32>)
    ensures
        rank_key(metric, v, q).1 > 0,
{
    let n = q.len();
    if metric == MetricKind::Cosine && dot(v, v, n) != 0 {
        lemma_norm_nonneg(v, n);
    }
}

proof fn lemma_norm_nonneg(v: Seq<i32>, n: nat)
    ensures
        dot(v, v, n) >= 0,
    decreases n,
{
    if n > 0 {
        lemma_norm_nonneg(v, (n - 1) as nat);
        assert(v[n - 1] * v[n - 1] >= 0) by (nonlinear_arith);
    }
}

/// Being no better than is transitive: the ranking is a total preorder.
pub proof fn lemma_not_above_transitive(
    metric: MetricKind,
    q: Seq<i32>,
    a: Seq<i32>,
    b: Seq<i32>,
    c: Seq<i32>,
)
    requires
        !ranks_above(metric, q, a, b),
        !ranks_above(metric, q, b, c),
    ensures
        !ranks_above(metric, q, a, c),
{
    let ka = rank_key(metric, a, q);
    let kb = rank_key(metric, b, q);
    let kc = rank_key(metric, c, q);
    lemma_key_den_positive(metric, a, q);
    lemma_key_den_positive(metric, b, q);
    lemma_key_den_positive(metric, c, q);
    lemma_fraction_order(ka.0, ka.1, kb.0, kb.1, kc.0, kc.1);
}

proof fn lemma_term_bounds(x: i32, y: i32)
    requires
        component_ok(x),
        component_ok(y),
    ensures
        -0x4000_0000 <= x * y <= 0x4000_0000,
        0 <= (x - y) * (x - y) <= 0x1_0000_0000,
{
    assert(-0x4000_0000 <= x * y <= 0x4000_0000) by (nonlinear_arith)
        requires
            -32768 <= x <= 32768,
            -32768 <= y <= 32768,
    ;
    assert(0 <= (x - y) * (x - y) <= 0x1_0000_0000) by (nonlinear_arith)
        requires
            -65536 <= x - y <= 65536,
    ;
}

/// Inner product of two vectors of equal length.
fn dot_exec(a: &Vec<i32>, b: &Vec<i32>) -> (r: i64)
    requires
        valid_vector(a@, b@.len()),
        valid_vector(b@, b@.len()),
    ensures
        r == dot(a@, b@, b@.len()),
        -0x400_0000_0000 <= r <= 0x400_0000_0000,
{
    let mut acc: i64 = 0;
    let mut i: usize = 0;
    while i < b.len()
        invariant
            valid_vector(a@, b@.len()),
            valid_vector(b@, b@.len()),
            i <= b@.len(),
            acc == dot(a@, b@, i as nat),
            -0x4000_0000 * i <= acc <= 0x4000_0000 * i,
        decreases b@.len() - i,
    {
        proof {
            lemma_term_bounds(a@[i as int], b@[i as int]);
        }
        acc = acc + (a[i] as i64) * (b[i] as i64);
        i = i + 1;
    }
    acc
}

/// Squared distance between two vectors of equal length.
fn dist2_exec(a: &Vec<i32>, b: &Vec<i32>) -> (r: i64)
    requires
        valid_vector(a@, b@.len()),
        valid_vector(b@, b@.len()),
    ensures
        r == dist2(a@, b@, b@.len()),
        0 <= r <= 0x1000_0000_0000,
{
    let mut acc: i64 = 0;
    let mut i: usize = 0;
    while i < b.len()
        invariant
            valid_vector(a@, b@.len()),
            valid_vector(b@, b@.len()),
            i <= b@.len(),
            acc == dist2(a@, b@, i as nat),
            0 <= acc <= 0x1_0000_0000 * i,
        decreases b@.len() - i,
    {
        proof {
            lemma_term_bounds(a@[i as int], b@[i as int]);
        }
        let d: i64 = (a[i] as i64) - (b[i] as i64);
        acc = acc + d * d;
        i = i + 1;
    }
    acc
}

/// Computes `rank_key(metric, v, q)`.
pub fn rank_key_exec(metric: MetricKind, v: &Vec<i32>, q: &Vec<i32>) -> (r: (i128, i128))
    requires
        valid_vector(v@, q@.len()),
        valid_vector(q@, q@.len()),
    ensures
        r.0 == rank_key(metric, v@, q@).0,
        r.1 == rank_key(metric, v@, q@).1,
        0 < r.1 <= 0x400_0000_0000,
        -0x10_0000_0000_0000_0000_0000 <= r.0 <= 0x10_0000_0000_0000_0000_0000,
{
    match metric {
        MetricKind::Dot => (dot_exec(v, q) as i128, 1),
        MetricKind::Euclidean => (-(dist2_exec(v, q) as i128), 1),
        MetricKind::Cosine => {
            let d = dot_exec(v, q) as i128;
            let m = dot_exec(v, v) as i128;
            proof {
                lemma_norm_nonneg(v@, q@.len());
                assert(d * d <= 0x10_0000_0000_0000_0000_0000) by (nonlinear_arith)
                    requires
                        -0x400_0000_0000 <= d <= 0x400_0000_0000,
                ;
                assert(d * d >= 0) by (nonlinear_arith);
            }
            if m == 0 {
                (0, 1)
            } else if d >= 0 {
                (d * d, m)
            } else {
                (-(d * d), m)
            }
        },
    }
}

/// Tells whether key `a` ranks strictly above key `b`.
pub fn key_above(a: (i128, i128), b: (i128, i128)) -> (r: bool)
    requires
        0 < a.1 <= 0x400_0000_0000,
        0 < b.1 <= 0x400_0000_0000,
        -0x10_0000_0000_0000_0000_0000 <= a.0 <= 0x10_0000_0000_0000_0000_0000,
        -0x10_0000_0000_0000_0000_0000 <= b.0 <= 0x10_0000_0000_0000_0000_0000,
    ensures
        r == (a.0 * b.1 > b.0 * a.1),
{
    proof {
        assert(-0x4000_0000_0000_0000_0000_0000_0000_0000 <= a.0 * b.1 <= 0x4000_0000_0000_0000_0000_0000_0000_0000) by (nonlinear_arith)
            requires
                0 < b.1 <= 0x400_0000_0000,
                -0x10_0000_0000_0000_0000_0000 <= a.0 <= 0x10_0000_0000_0000_0000_0000,
        ;
        assert(-0x4000_0000_0000_0000_0000_0000_0000_0000 <= b.0 * a.1 <= 0x4000_0000_0000_0000_0000_0000_0000_0000) by (nonlinear_arith)
            requires
                0 < a.1 <= 0x400_0000_0000,
                -0x10_0000_0000_0000_0000_0000 <= b.0 <= 0x10_0000_0000_0000_0000_0000,
        ;
    }
    a.0 * b.1 > b.0 * a.1
}

} // verus!
