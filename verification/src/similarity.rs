//! Exact cosine similarity of signatures, and the threshold test on it.
//!
//! A signature is a vector of signed bytes, so its dot products are integers.
//! The cosine of the angle between `a` and `b` is `a·b / (|a| |b|)`; whether
//! it exceeds a threshold given in percent is decided on the squares, in
//! integers, without rounding.
use crate::shared::CompareTask;
use crate::shared::Pairing;
use vstd::prelude::*;

verus! {

/// The longest signature that can be compared.
pub const MAX_DIMENSION: u64 = 0x200_0000_0000;

/// The largest magnitude of a dot product of two signatures.
pub const MAX_PRODUCT: u64 = 0x80_0000_0000_0000;

/// The sum of the products of the first `n` components of `a` and `b`.
pub open spec fn dot_prefix(a: Seq<i8>, b: Seq<i8>, n: nat) -> int
    decreases n,
{
    if n == 0 {
        0
    } else {
        dot_prefix(a, b, (n - 1) as nat) + a[n - 1] * b[n - 1]
    }
}

/// The dot product of two signatures of one length.
pub open spec fn dot_product(a: Seq<i8>, b: Seq<i8>) -> int {
    dot_prefix(a, b, a.len())
}

/// Whether a similarity with dot product `dot` between vectors of squared
/// lengths `norm1` and `norm2` lies strictly above `threshold` percent.
///
/// The similarity is `dot / sqrt(norm1 * norm2)`.  A vector of length zero
/// has no similarity to anything and never exceeds a threshold.  Otherwise
/// `dot / sqrt(norm1 * norm2) > threshold / 100` holds exactly when `dot` is
/// positive and `100² dot² > threshold² norm1 norm2`.
pub open spec fn ratio_exceeds(dot: int, norm1: int, norm2: int, threshold: int) -> bool {
    &&& norm1 > 0
    &&& norm2 > 0
    &&& dot > 0
    &&& 10000 * (dot * dot) > (threshold * threshold) * (norm1 * norm2)
}

/// Whether the cosine similarity of `a` and `b` lies strictly above
/// `threshold` percent.
pub open spec fn cosine_exceeds(a: Seq<i8>, b: Seq<i8>, threshold: int) -> bool {
    ratio_exceeds(dot_product(a, b), dot_product(a, a), dot_product(b, b), threshold)
}

/// Whether two signatures can be compared: they have one length, and it is
/// short enough for the products to be computed.
pub open spec fn comparable(a: Seq<i8>, b: Seq<i8>) -> bool {
    a.len() == b.len() && a.len() <= MAX_DIMENSION
}

/// The cosine similarity of two vectors, held exactly: their dot product and
/// the squares of their lengths.
#[derive(Debug, Clone, Copy)]
pub struct Similarity {
    dot: i64,
    norm1: u64,
    norm2: u64,
}

impl Similarity {
    /// The dot product of the two vectors.
    pub closed spec fn dot(self) -> int {
        self.dot as int
    }

    /// The squared length of the first vector.
    pub closed spec fn norm1(self) -> int {
        self.norm1 as int
    }

    /// The squared length of the second vector.
    pub closed spec fn norm2(self) -> int {
        self.norm2 as int
    }

    #[verifier::type_invariant]
    spec fn within_limits(self) -> bool {
        Self::holds(self.dot as int, self.norm1 as int, self.norm2 as int)
    }

    /// Whether the parts are those of a similarity that can be held: they
    /// are no larger than [`MAX_PRODUCT`], and the similarity lies between
    /// minus one and one, as that of two vectors does.
    pub open spec fn holds(dot: int, norm1: int, norm2: int) -> bool {
        &&& -(MAX_PRODUCT as int) <= dot <= MAX_PRODUCT
        &&& 0 <= norm1 <= MAX_PRODUCT
        &&& 0 <= norm2 <= MAX_PRODUCT
        &&& dot * dot <= norm1 * norm2
    }

    /// Whether this similarity lies strictly above `threshold` percent.
    pub open spec fn is_above(self, threshold: int) -> bool {
        ratio_exceeds(self.dot(), self.norm1(), self.norm2(), threshold)
    }

    /// A similarity from its parts: the dot product and the two squared
    /// lengths.  `None` where a part is beyond [`MAX_PRODUCT`], or where the
    /// parts are those of no two vectors because the similarity would lie
    /// beyond one.
    pub fn from_parts(dot: i64, norm1: u64, norm2: u64) -> (result: Option<Similarity>)
        ensures
            result is Some <==> Self::holds(dot as int, norm1 as int, norm2 as int),
            result matches Some(s) ==> s.dot() == dot && s.norm1() == norm1 && s.norm2() == norm2,
    {
        if dot < -(MAX_PRODUCT as i64) || dot > MAX_PRODUCT as i64 || norm1 > MAX_PRODUCT || norm2
            > MAX_PRODUCT {
            return None;
        }
        let wide: i128 = dot as i128;
        assert(0 <= wide * wide <= 0x80_0000_0000_0000 * 0x80_0000_0000_0000) by (nonlinear_arith)
            requires
                -0x80_0000_0000_0000 <= wide <= 0x80_0000_0000_0000,
        ;
        assert(norm1 * norm2 <= 0x80_0000_0000_0000 * 0x80_0000_0000_0000) by (nonlinear_arith)
            requires
                0 <= norm1 <= 0x80_0000_0000_0000,
                0 <= norm2 <= 0x80_0000_0000_0000,
        ;
        if wide * wide > (norm1 as i128) * (norm2 as i128) {
            None
        } else {
            Some(Similarity { dot, norm1, norm2 })
        }
    }

    /// The dot product of the two vectors.
    pub fn dot_value(&self) -> (dot: i64)
        ensures
            dot == self.dot(),
    {
        self.dot
    }

    /// The squared lengths of the two vectors.
    pub fn norms(&self) -> (norms: (u64, u64))
        ensures
            norms.0 == self.norm1(),
            norms.1 == self.norm2(),
    {
        (self.norm1, self.norm2)
    }

    /// Whether this similarity lies strictly above `threshold` percent.  A
    /// similarity equal to the threshold does not.
    pub fn exceeds(&self, threshold: u8) -> (above: bool)
        ensures
            above == self.is_above(threshold as int),
    {
        proof {
            use_type_invariant(self);
        }
        if self.norm1 == 0 || self.norm2 == 0 || self.dot <= 0 {
            return false;
        }
        let dot: u128 = self.dot as u128;
        let norm1: u128 = self.norm1 as u128;
        let norm2: u128 = self.norm2 as u128;
        let percent: u128 = threshold as u128;
        assert(dot * dot <= 0x80_0000_0000_0000 * 0x80_0000_0000_0000) by (nonlinear_arith)
            requires
                0 <= dot <= 0x80_0000_0000_0000,
        ;
        assert(norm1 * norm2 <= 0x80_0000_0000_0000 * 0x80_0000_0000_0000) by (nonlinear_arith)
            requires
                0 <= norm1 <= 0x80_0000_0000_0000,
                0 <= norm2 <= 0x80_0000_0000_0000,
        ;
        assert(percent * percent <= 255 * 255) by (nonlinear_arith)
            requires
                0 <= percent <= 255,
        ;
        let square: u128 = dot * dot;
        let norms: u128 = norm1 * norm2;
        let scale: u128 = percent * percent;
        assert(scale * norms <= 65025 * (0x80_0000_0000_0000 * 0x80_0000_0000_0000))
            by (nonlinear_arith)
            requires
                0 <= scale <= 65025,
                0 <= norms <= 0x80_0000_0000_0000 * 0x80_0000_0000_0000,
        ;
        10000 * square > scale * norms
    }
}

/// The dot product does not depend on the order of the two vectors.
pub proof fn lemma_dot_prefix_symmetric(a: Seq<i8>, b: Seq<i8>, n: nat)
    ensures
        dot_prefix(a, b, n) == dot_prefix(b, a, n),
    decreases n,
{
    if n > 0 {
        lemma_dot_prefix_symmetric(a, b, (n - 1) as nat);
        assert(a[n - 1] * b[n - 1] == b[n - 1] * a[n - 1]) by (nonlinear_arith);
    }
}

/// Cosine similarity is symmetric: comparing `b` with `a` accepts exactly
/// what comparing `a` with `b` accepts.
pub proof fn lemma_cosine_symmetric(a: Seq<i8>, b: Seq<i8>, threshold: int)
    requires
        a.len() == b.len(),
    ensures
        dot_product(a, b) == dot_product(b, a),
        cosine_exceeds(a, b, threshold) == cosine_exceeds(b, a, threshold),
{
    lemma_dot_prefix_symmetric(a, b, a.len());
    let dot = dot_product(a, b);
    let norm1 = dot_product(a, a);
    let norm2 = dot_product(b, b);
    assert(norm1 * norm2 == norm2 * norm1) by (nonlinear_arith);
}

proof fn lemma_bound_step(c: int, aa: int, bb: int, x: int, y: int)
    requires
        aa >= 0,
        bb >= 0,
        c * c <= aa * bb,
    ensures
        (c + x * y) * (c + x * y) <= (aa + x * x) * (bb + y * y),
{
    let u = x * x;
    let v = y * y;
    let w = x * y;
    let p = aa * v + bb * u;
    let q = 2 * (c * w);
    assert(u >= 0 && v >= 0) by (nonlinear_arith)
        requires
            u == x * x,
            v == y * y,
    ;
    assert(w * w == u * v) by (nonlinear_arith)
        requires
            u == x * x,
            v == y * y,
            w == x * y,
    ;
    assert(p >= 0) by (nonlinear_arith)
        requires
            p == aa * v + bb * u,
            aa >= 0,
            bb >= 0,
            u >= 0,
            v >= 0,
    ;
    assert((c * c) * (u * v) <= (aa * bb) * (u * v)) by (nonlinear_arith)
        requires
            c * c <= aa * bb,
            u >= 0,
            v >= 0,
    ;
    assert(q * q == 4 * ((c * c) * (u * v))) by (nonlinear_arith)
        requires
            q == 2 * (c * w),
            w * w == u * v,
    ;
    assert(p * p - 4 * ((aa * bb) * (u * v)) == (aa * v - bb * u) * (aa * v - bb * u))
        by (nonlinear_arith)
        requires
            p == aa * v + bb * u,
    ;
    assert((aa * v - bb * u) * (aa * v - bb * u) >= 0) by (nonlinear_arith);
    assert(q * q <= p * p);
    assert(q <= p) by (nonlinear_arith)
        requires
            q * q <= p * p,
            p >= 0,
    ;
    assert((c + w) * (c + w) == c * c + q + u * v) by (nonlinear_arith)
        requires
            q == 2 * (c * w),
            w * w == u * v,
    ;
    assert((aa + u) * (bb + v) == aa * bb + p + u * v) by (nonlinear_arith)
        requires
            p == aa * v + bb * u,
    ;
}

/// The square of a dot product is at most the product of the squared
/// lengths, which are not negative.
pub proof fn lemma_dot_prefix_bounded(a: Seq<i8>, b: Seq<i8>, n: nat)
    ensures
        dot_prefix(a, a, n) >= 0,
        dot_prefix(b, b, n) >= 0,
        dot_prefix(a, b, n) * dot_prefix(a, b, n) <= dot_prefix(a, a, n) * dot_prefix(b, b, n),
    decreases n,
{
    if n > 0 {
        let m = (n - 1) as nat;
        lemma_dot_prefix_bounded(a, b, m);
        let x = a[n - 1] as int;
        let y = b[n - 1] as int;
        lemma_bound_step(dot_prefix(a, b, m), dot_prefix(a, a, m), dot_prefix(b, b, m), x, y);
        assert(x * x >= 0 && y * y >= 0) by (nonlinear_arith);
    }
}

/// A cosine similarity is at most one: no pair of signatures exceeds a
/// threshold of one hundred percent or more.
pub proof fn lemma_similarity_at_most_one(a: Seq<i8>, b: Seq<i8>, threshold: int)
    requires
        a.len() == b.len(),
        threshold >= 100,
    ensures
        !cosine_exceeds(a, b, threshold),
{
    lemma_dot_prefix_bounded(a, b, a.len());
    let dot = dot_product(a, b);
    let norms = dot_product(a, a) * dot_product(b, b);
    assert(norms >= 0) by (nonlinear_arith)
        requires
            norms == dot_product(a, a) * dot_product(b, b),
            dot_product(a, a) >= 0,
            dot_product(b, b) >= 0,
    ;
    assert(threshold * threshold >= 10000) by (nonlinear_arith)
        requires
            threshold >= 100,
    ;
    assert((threshold * threshold) * norms >= 10000 * norms) by (nonlinear_arith)
        requires
            threshold * threshold >= 10000,
            norms >= 0,
    ;
}

/// The threshold is strict: a similarity that equals the threshold does not
/// exceed it.
pub proof fn lemma_threshold_is_strict(dot: int, norm1: int, norm2: int, threshold: int)
    requires
        10000 * (dot * dot) == (threshold * threshold) * (norm1 * norm2),
    ensures
        !ratio_exceeds(dot, norm1, norm2, threshold),
{
}

/// A similarity that exceeds a threshold exceeds every lower one.
pub proof fn lemma_exceeds_lower_threshold(dot: int, norm1: int, norm2: int, lower: int, higher: int)
    requires
        0 <= lower <= higher,
        ratio_exceeds(dot, norm1, norm2, higher),
    ensures
        ratio_exceeds(dot, norm1, norm2, lower),
{
    assert(lower * lower <= higher * higher) by (nonlinear_arith)
        requires
            0 <= lower <= higher,
    ;
    assert((lower * lower) * (norm1 * norm2) <= (higher * higher) * (norm1 * norm2))
        by (nonlinear_arith)
        requires
            lower * lower <= higher * higher,
            norm1 > 0,
            norm2 > 0,
    ;
}

proof fn lemma_component_product(x: i8, y: i8)
    ensures
        -16384 <= x * y <= 16384,
{
    assert(-16384 <= x * y <= 16384) by (nonlinear_arith)
        requires
            -128 <= x <= 127,
            -128 <= y <= 127,
    ;
}

proof fn lemma_square_nonnegative(x: i8)
    ensures
        0 <= x * x <= 16384,
{
    assert(0 <= x * x <= 16384) by (nonlinear_arith)
        requires
            -128 <= x <= 127,
    ;
}

/// Computes the cosine similarity of two signatures, exactly.
///
/// `None` where the signatures cannot be compared: their lengths differ, or
/// they are longer than [`MAX_DIMENSION`].
pub fn cosine_similarity(a: &Vec<i8>, b: &Vec<i8>) -> (result: Option<Similarity>)
    ensures
        result is Some <==> comparable(a@, b@),
        result matches Some(s) ==> {
            &&& s.dot() == dot_product(a@, b@)
            &&& s.norm1() == dot_product(a@, a@)
            &&& s.norm2() == dot_product(b@, b@)
            &&& Similarity::holds(s.dot(), s.norm1(), s.norm2())
        },
{
    if a.len() != b.len() || a.len() as u64 > MAX_DIMENSION {
        return None;
    }
    let mut dot: i64 = 0;
    let mut norm1: u64 = 0;
    let mut norm2: u64 = 0;
    let mut i: usize = 0;
    while i < a.len()
        invariant
            0 <= i <= a.len(),
            a.len() == b.len(),
            a.len() <= MAX_DIMENSION,
            dot == dot_prefix(a@, b@, i as nat),
            norm1 == dot_prefix(a@, a@, i as nat),
            norm2 == dot_prefix(b@, b@, i as nat),
            -16384 * i <= dot <= 16384 * i,
            norm1 <= 16384 * i,
            norm2 <= 16384 * i,
        decreases a.len() - i,
    {
        let x: i64 = a[i] as i64;
        let y: i64 = b[i] as i64;
        proof {
            lemma_component_product(a[i as int], b[i as int]);
            lemma_square_nonnegative(a[i as int]);
            lemma_square_nonnegative(b[i as int]);
        }
        dot = dot + x * y;
        norm1 = norm1 + (x * x) as u64;
        norm2 = norm2 + (y * y) as u64;
        i += 1;
    }
    proof {
        lemma_dot_prefix_bounded(a@, b@, a@.len());
    }
    Some(Similarity { dot, norm1, norm2 })
}

/// Compares the two signatures of a candidate pair and accepts the pair
/// where their similarity lies strictly above `threshold` percent.
///
/// A pair whose signatures cannot be compared, or one of whose signatures
/// has length zero, is rejected.
pub fn verify_pair(task: &CompareTask, signature1: &Vec<i8>, signature2: &Vec<i8>, threshold: u8) -> (result:
    Option<Pairing>)
    ensures
        result is Some <==> comparable(signature1@, signature2@) && cosine_exceeds(
            signature1@,
            signature2@,
            threshold as int,
        ),
        result matches Some(pairing) ==> {
            &&& pairing.index1 == task.index1
            &&& pairing.index2 == task.index2
            &&& pairing.score.dot() == dot_product(signature1@, signature2@)
            &&& pairing.score.norm1() == dot_product(signature1@, signature1@)
            &&& pairing.score.norm2() == dot_product(signature2@, signature2@)
        },
{
    match cosine_similarity(signature1, signature2) {
        Some(score) => {
            if score.exceeds(threshold) {
                Some(Pairing { index1: task.index1, index2: task.index2, score })
            } else {
                None
            }
        },
        None => None,
    }
}

} // verus!
