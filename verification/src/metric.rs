//! Distances between quantized vectors, in exact integer arithmetic.

use vstd::prelude::*;
use crate::error::Error;

verus! {

/// How two embeddings are compared.
#[derive(Debug, Clone, Copy, PartialEq, Eq, Structural)]
pub enum Metric {
    /// Squared Euclidean distance; smaller is nearer.
    Euclidean,
    /// Inner product; larger is nearer.
    DotProduct,
    /// Cosine distance in millionths; smaller is nearer.
    Cosine,
}

/// The fixed-point value that stands for a cosine similarity of one.
pub const COSINE_SCALE: i128 = 1_000_000;

/// The largest magnitude of a product of two components.
pub const PRODUCT_BOUND: i128 = 0x4000_0000;

/// The largest square of a difference of two components.
pub const SQUARE_BOUND: i128 = 0x1_0000_0000;

/// The sum of `a[i] * b[i]` over the first `n` components.
pub open spec fn dot_prefix(a: Seq<i16>, b: Seq<i16>, n: nat) -> int
    decreases n,
{
    if n == 0 {
        0
    } else {
        dot_prefix(a, b, (n - 1) as nat) + a[n - 1] * b[n - 1]
    }
}

/// The inner product of two vectors of one length.
pub open spec fn dot_product(a: Seq<i16>, b: Seq<i16>) -> int {
    dot_prefix(a, b, a.len())
}

/// The sum of `(a[i] - b[i])^2` over the first `n` components.
pub open spec fn squared_prefix(a: Seq<i16>, b: Seq<i16>, n: nat) -> int
    decreases n,
{
    if n == 0 {
        0
    } else {
        squared_prefix(a, b, (n - 1) as nat) + (a[n - 1] - b[n - 1]) * (a[n - 1] - b[n - 1])
    }
}

/// The squared Euclidean distance of two vectors of one length.
pub open spec fn squared_euclidean(a: Seq<i16>, b: Seq<i16>) -> int {
    squared_prefix(a, b, a.len())
}

/// Whether `r` is the square root of `n`, rounded down.
pub open spec fn is_floor_sqrt(n: int, r: int) -> bool {
    0 <= r && r * r <= n && n < (r + 1) * (r + 1)
}

/// The square root of `n`, rounded down.
pub open spec fn floor_sqrt(n: int) -> int {
    choose|r: int| is_floor_sqrt(n, r)
}

/// The length of a vector, rounded down to a whole number.
pub open spec fn norm(a: Seq<i16>) -> int {
    floor_sqrt(dot_product(a, a))
}

/// The cosine similarity of two vectors in millionths: the inner product
/// over the product of the two rounded norms, rounded towards zero. A vector
/// whose rounded norm is zero has similarity zero with every vector.
pub open spec fn cosine_similarity(a: Seq<i16>, b: Seq<i16>) -> int {
    let d = dot_product(a, b);
    let den = norm(a) * norm(b);
    if den <= 0 {
        0
    } else if d >= 0 {
        (d * COSINE_SCALE) / den
    } else {
        -((-d * COSINE_SCALE) / den)
    }
}

/// The number by which candidates are ranked under `metric`: the smaller it
/// is, the nearer `b` is to `a`.
pub open spec fn distance_key(metric: Metric, a: Seq<i16>, b: Seq<i16>) -> int {
    match metric {
        Metric::Euclidean => squared_euclidean(a, b),
        Metric::DotProduct => -dot_product(a, b),
        Metric::Cosine => COSINE_SCALE - cosine_similarity(a, b),
    }
}

/// What `dot` returns.
pub open spec fn dot_outcome(a: Seq<i16>, b: Seq<i16>) -> Result<i128, Error> {
    if a.len() == b.len() {
        Ok(dot_product(a, b) as i128)
    } else {
        Err(Error::DimensionMismatch)
    }
}

/// What `distance` returns.
pub open spec fn distance_outcome(metric: Metric, a: Seq<i16>, b: Seq<i16>) -> Result<i128, Error> {
    if a.len() == b.len() {
        Ok(distance_key(metric, a, b) as i128)
    } else {
        Err(Error::DimensionMismatch)
    }
}

/// A sum of `n` products of components is within `n` times the largest.
pub proof fn lemma_dot_prefix_bounds(a: Seq<i16>, b: Seq<i16>, n: nat)
    requires
        n <= a.len(),
        n <= b.len(),
    ensures
        -n * PRODUCT_BOUND <= dot_prefix(a, b, n) <= n * PRODUCT_BOUND,
    decreases n,
{
    if n > 0 {
        lemma_dot_prefix_bounds(a, b, (n - 1) as nat);
        let x = a[n - 1] as int;
        let y = b[n - 1] as int;
        assert(-0x4000_0000 <= x * y <= 0x4000_0000) by (nonlinear_arith)
            requires
                -32768 <= x <= 32767,
                -32768 <= y <= 32767,
        ;
    }
}

/// A sum of `n` squared differences is within `n` times the largest.
pub proof fn lemma_squared_prefix_bounds(a: Seq<i16>, b: Seq<i16>, n: nat)
    requires
        n <= a.len(),
        n <= b.len(),
    ensures
        0 <= squared_prefix(a, b, n) <= n * SQUARE_BOUND,
    decreases n,
{
    if n > 0 {
        lemma_squared_prefix_bounds(a, b, (n - 1) as nat);
        let x = a[n - 1] - b[n - 1];
        assert(0 <= x * x <= 0x1_0000_0000) by (nonlinear_arith)
            requires
                -65535 <= x <= 65535,
        ;
    }
}

/// The inner product of a vector with itself is not negative.
pub proof fn lemma_self_dot_nonnegative(a: Seq<i16>, n: nat)
    requires
        n <= a.len(),
    ensures
        0 <= dot_prefix(a, a, n),
    decreases n,
{
    if n > 0 {
        lemma_self_dot_nonnegative(a, (n - 1) as nat);
        let x = a[n - 1] as int;
        assert(0 <= x * x) by (nonlinear_arith);
    }
}

/// The sum of products does not depend on the order of the two vectors.
pub proof fn lemma_dot_prefix_symmetric(a: Seq<i16>, b: Seq<i16>, n: nat)
    ensures
        dot_prefix(a, b, n) == dot_prefix(b, a, n),
    decreases n,
{
    if n > 0 {
        lemma_dot_prefix_symmetric(a, b, (n - 1) as nat);
        let x = a[n - 1] as int;
        let y = b[n - 1] as int;
    }
}

/// The sum of squared differences does not depend on the order of the two
/// vectors.
pub proof fn lemma_squared_prefix_symmetric(a: Seq<i16>, b: Seq<i16>, n: nat)
    ensures
        squared_prefix(a, b, n) == squared_prefix(b, a, n),
    decreases n,
{
    if n > 0 {
        lemma_squared_prefix_symmetric(a, b, (n - 1) as nat);
        let x = a[n - 1] - b[n - 1];
        let y = b[n - 1] - a[n - 1];
        assert(x * x == y * y) by (nonlinear_arith)
            requires
                y == -x,
        ;
    }
}

/// The distance key of two vectors of one length, which a machine can
/// hold, is a 128-bit number.
pub proof fn lemma_distance_key_fits(metric: Metric, a: Seq<i16>, b: Seq<i16>)
    requires
        a.len() == b.len(),
        a.len() <= usize::MAX,
    ensures
        i128::MIN <= distance_key(metric, a, b) <= i128::MAX,
        distance_key(metric, a, b) as i128 == distance_key(metric, a, b),
{
    lemma_dot_prefix_bounds(a, b, a.len());
    lemma_squared_prefix_bounds(a, b, a.len());
    let d = dot_product(a, b);
    let den = norm(a) * norm(b);
    if den > 0 {
        if d >= 0 {
            assert(0 <= (d * COSINE_SCALE) / den <= d * COSINE_SCALE) by (nonlinear_arith)
                requires
                    d >= 0,
                    den > 0,
            ;
        } else {
            assert(0 <= (-d * COSINE_SCALE) / den <= -d * COSINE_SCALE) by (nonlinear_arith)
                requires
                    d < 0,
                    den > 0,
            ;
        }
    }
}

/// A number has one rounded square root only.
pub proof fn lemma_floor_sqrt_unique(n: int, r: int, s: int)
    requires
        is_floor_sqrt(n, r),
        is_floor_sqrt(n, s),
    ensures
        r == s,
{
    if r < s {
        assert((r + 1) * (r + 1) <= s * s) by (nonlinear_arith)
            requires
                0 <= r + 1 <= s,
        ;
    }
    if s < r {
        assert((s + 1) * (s + 1) <= r * r) by (nonlinear_arith)
            requires
                0 <= s + 1 <= r,
        ;
    }
}

/// The square root of `n`, rounded down.
pub fn integer_sqrt(n: u128) -> (r: u128)
    ensures
        is_floor_sqrt(n as int, r as int),
        r == floor_sqrt(n as int),
        r < 0x1_0000_0000_0000_0000,
{
    let mut low: u128 = 0;
    let mut high: u128 = 0x1_0000_0000_0000_0000;
    assert(high * high > n) by (nonlinear_arith)
        requires
            high == 0x1_0000_0000_0000_0000,
            n <= u128::MAX,
    ;
    while high - low > 1
        invariant
            low < high <= 0x1_0000_0000_0000_0000,
            low * low <= n,
            n < high * high,
        decreases high - low,
    {
        let mid: u128 = low + (high - low) / 2;
        assert(mid * mid <= 0xffff_ffff_ffff_ffff * 0xffff_ffff_ffff_ffff) by (nonlinear_arith)
            requires
                0 <= mid <= 0xffff_ffff_ffff_ffff,
        ;
        if mid * mid <= n {
            low = mid;
        } else {
            high = mid;
        }
    }
    proof {
        lemma_floor_sqrt_unique(n as int, low as int, floor_sqrt(n as int));
    }
    low
}

/// The inner product of two vectors of one length.
pub fn inner_product(a: &[i16], b: &[i16]) -> (r: i128)
    requires
        a.len() == b.len(),
    ensures
        r == dot_product(a@, b@),
{
    let n = a.len();
    let mut acc: i128 = 0;
    let mut i: usize = 0;
    while i < n
        invariant
            i <= n,
            n == a.len(),
            n == b.len(),
            acc == dot_prefix(a@, b@, i as nat),
            -i * PRODUCT_BOUND <= acc <= i * PRODUCT_BOUND,
        decreases n - i,
    {
        let x: i128 = a[i] as i128;
        let y: i128 = b[i] as i128;
        assert(-0x4000_0000 <= x * y <= 0x4000_0000) by (nonlinear_arith)
            requires
                -32768 <= x <= 32767,
                -32768 <= y <= 32767,
        ;
        acc = acc + x * y;
        i += 1;
    }
    acc
}

/// The squared Euclidean distance of two vectors of one length.
pub fn squared_distance(a: &[i16], b: &[i16]) -> (r: i128)
    requires
        a.len() == b.len(),
    ensures
        r == squared_euclidean(a@, b@),
{
    let n = a.len();
    let mut acc: i128 = 0;
    let mut i: usize = 0;
    while i < n
        invariant
            i <= n,
            n == a.len(),
            n == b.len(),
            acc == squared_prefix(a@, b@, i as nat),
            0 <= acc <= i * SQUARE_BOUND,
        decreases n - i,
    {
        let x: i128 = a[i] as i128 - b[i] as i128;
        assert(0 <= x * x <= 0x1_0000_0000) by (nonlinear_arith)
            requires
                -65535 <= x <= 65535,
        ;
        acc = acc + x * x;
        i += 1;
    }
    acc
}

/// The cosine similarity of two vectors of one length, in millionths.
pub fn cosine(a: &[i16], b: &[i16]) -> (r: i128)
    requires
        a.len() == b.len(),
    ensures
        r == cosine_similarity(a@, b@),
        -0x4000_0000_0000_0000_0000_0000_0000_0000 < r < 0x4000_0000_0000_0000_0000_0000_0000_0000,
{
    let d = inner_product(a, b);
    let na = inner_product(a, a);
    let nb = inner_product(b, b);
    proof {
        lemma_dot_prefix_bounds(a@, b@, a@.len());
        lemma_self_dot_nonnegative(a@, a@.len());
        lemma_self_dot_nonnegative(b@, b@.len());
    }
    let ra = integer_sqrt(na as u128);
    let rb = integer_sqrt(nb as u128);
    assert(ra * rb < 0x1_0000_0000_0000_0000 * 0x1_0000_0000_0000_0000) by (nonlinear_arith)
        requires
            0 <= ra < 0x1_0000_0000_0000_0000,
            0 <= rb < 0x1_0000_0000_0000_0000,
    ;
    let den: u128 = ra * rb;
    if den == 0 {
        return 0;
    }
    let magnitude: u128 = if d >= 0 {
        d as u128
    } else {
        (-d) as u128
    };
    let scaled: u128 = magnitude * 1_000_000;
    let q: u128 = scaled / den;
    assert(q <= scaled) by (nonlinear_arith)
        requires
            q == scaled / den,
            den > 0,
            scaled >= 0,
    ;
    if d >= 0 {
        q as i128
    } else {
        -(q as i128)
    }
}

/// The number by which candidates are ranked under `metric`.
pub fn ranking_key(metric: Metric, a: &[i16], b: &[i16]) -> (r: i128)
    requires
        a.len() == b.len(),
    ensures
        r == distance_key(metric, a@, b@),
{
    proof {
        lemma_dot_prefix_bounds(a@, b@, a@.len());
    }
    match metric {
        Metric::Euclidean => squared_distance(a, b),
        Metric::DotProduct => -inner_product(a, b),
        Metric::Cosine => COSINE_SCALE - cosine(a, b),
    }
}

/// The inner product of two vectors, or `DimensionMismatch` where their
/// lengths differ.
pub fn dot(a: &[i16], b: &[i16]) -> (r: Result<i128, Error>)
    ensures
        r == dot_outcome(a@, b@),
        a.len() == b.len() ==> r is Ok && r->Ok_0 == dot_product(a@, b@),
{
    if a.len() != b.len() {
        return Err(Error::DimensionMismatch);
    }
    Ok(inner_product(a, b))
}

/// The distance of two vectors under `metric`, or `DimensionMismatch` where
/// their lengths differ. Under `DotProduct` the distance is the negated
/// inner product, so that under every metric the nearer vector has the
/// smaller distance.
pub fn distance(metric: Metric, a: &[i16], b: &[i16]) -> (r: Result<i128, Error>)
    ensures
        r == distance_outcome(metric, a@, b@),
        a.len() == b.len() ==> r is Ok && r->Ok_0 == distance_key(metric, a@, b@),
{
    if a.len() != b.len() {
        return Err(Error::DimensionMismatch);
    }
    Ok(ranking_key(metric, a, b))
}

/// Every distance is symmetric: it does not depend on the order of the two
/// vectors.
pub proof fn lemma_distance_symmetric(metric: Metric, a: Seq<i16>, b: Seq<i16>)
    ensures
        distance_outcome(metric, a, b) == distance_outcome(metric, b, a),
        a.len() == b.len() ==> distance_key(metric, a, b) == distance_key(metric, b, a),
{
    if a.len() == b.len() {
        lemma_dot_prefix_symmetric(a, b, a.len());
        lemma_squared_prefix_symmetric(a, b, a.len());
    }
}

/// The inner product is symmetric.
pub proof fn lemma_dot_symmetric(a: Seq<i16>, b: Seq<i16>)
    ensures
        dot_outcome(a, b) == dot_outcome(b, a),
        a.len() == b.len() ==> dot_product(a, b) == dot_product(b, a),
{
    if a.len() == b.len() {
        lemma_dot_prefix_symmetric(a, b, a.len());
    }
}

} // verus!
