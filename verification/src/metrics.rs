//! Exact integer model of cosine-distance ranking.
//!
//! Embedding vectors hold fixed-point components (small integers).  The
//! cosine similarity of two vectors `a`, `b` is `dot(a,b) / sqrt(|a|^2 * |b|^2)`;
//! no integer can hold that quotient, but the *ordering* of similarities is
//! decidable exactly over integers: each comparison is carried out on a
//! [`Score`] (the dot product together with the product of the squared norms)
//! by comparing signs and cross-multiplied squares, which never rounds.

use vstd::prelude::*;

verus! {

/// Largest magnitude allowed for one embedding component.
pub const MAX_COMPONENT: i64 = 2048;

/// Largest embedding dimension supported.
pub const MAX_DIM: usize = 512;

/// Bound on any dot product of two in-range embeddings:
/// `MAX_DIM * MAX_COMPONENT * MAX_COMPONENT`.
pub const DOT_BOUND: i64 = 512 * 2048 * 2048;

/// Bound on the product of two squared norms of in-range embeddings:
/// `DOT_BOUND * DOT_BOUND`.
pub const NORM_PROD_BOUND: i128 = 4611686018427387904;

/// Mathematical dot product of two equal-length vectors.
pub open spec fn dot(a: Seq<i64>, b: Seq<i64>) -> int
    recommends
        a.len() == b.len(),
    decreases a.len(),
{
    if a.len() == 0 {
        0
    } else {
        dot(a.drop_last(), b.drop_last()) + a.last() * b.last()
    }
}

/// Squared Euclidean norm of a vector.
pub open spec fn norm_sq(a: Seq<i64>) -> int {
    dot(a, a)
}

/// An in-range embedding: bounded dimension, bounded components, and a
/// nonzero norm (the cosine of an all-zero vector is undefined).
pub open spec fn valid_embedding(e: Seq<i64>) -> bool {
    &&& e.len() <= MAX_DIM
    &&& (forall|i: int| 0 <= i < e.len() ==> -MAX_COMPONENT <= #[trigger] e[i] <= MAX_COMPONENT)
    &&& norm_sq(e) >= 1
}

/// The similarity of a query embedding and a document embedding, in a form
/// that orders exactly as cosine similarity does: `dot` is the dot product of
/// the two vectors and `norm_prod` the product of their squared norms, so the
/// similarity itself is `dot / sqrt(norm_prod)`.
#[derive(Clone, Copy, PartialEq, Eq, Structural, Debug)]
pub struct Score {
    pub dot: i128,
    pub norm_prod: i128,
}

/// Ranges under which every product taken while comparing two scores fits
/// in an `i128`.
pub open spec fn score_wf(s: Score) -> bool {
    &&& -(DOT_BOUND as int) <= s.dot <= DOT_BOUND as int
    &&& 1 <= s.norm_prod <= NORM_PROD_BOUND as int
}

/// The score of a query embedding against a document embedding.
pub open spec fn spec_score(q: Seq<i64>, e: Seq<i64>) -> Score {
    Score { dot: dot(q, e) as i128, norm_prod: (norm_sq(q) * norm_sq(e)) as i128 }
}

/// Cosine similarity of `a` is at most that of `b`:
/// `a.dot / sqrt(a.norm_prod) <= b.dot / sqrt(b.norm_prod)`, decided without
/// square roots by comparing signs first and squared cross-products after.
pub open spec fn sim_le(a: Score, b: Score) -> bool {
    if a.dot < 0 && b.dot >= 0 {
        true
    } else if a.dot >= 0 && b.dot < 0 {
        false
    } else if a.dot >= 0 {
        a.dot * a.dot * b.norm_prod <= b.dot * b.dot * a.norm_prod
    } else {
        b.dot * b.dot * a.norm_prod <= a.dot * a.dot * b.norm_prod
    }
}

/// Cosine distance (one minus cosine similarity) of `a` is at most that of
/// `b`; distance orders opposite to similarity.
pub open spec fn dist_le(a: Score, b: Score) -> bool {
    sim_le(b, a)
}

/// Cosine distance of `a` is strictly below that of `b`.
pub open spec fn dist_lt(a: Score, b: Score) -> bool {
    !dist_le(b, a)
}

/// The dot product is symmetric.
pub proof fn lemma_dot_comm(a: Seq<i64>, b: Seq<i64>)
    requires
        a.len() == b.len(),
    ensures
        dot(a, b) == dot(b, a),
    decreases a.len(),
{
    if a.len() > 0 {
        lemma_dot_comm(a.drop_last(), b.drop_last());
    }
}

proof fn lemma_mul_cancel(x: int, y: int, k: int)
    by (nonlinear_arith)
    requires
        x * k <= y * k,
        k >= 1,
    ensures
        x <= y,
{
}

proof fn lemma_mul_range(x: int, y: int, bx: int, by_: int)
    by (nonlinear_arith)
    requires
        0 <= x <= bx,
        0 <= y <= by_,
    ensures
        0 <= x * y <= bx * by_,
{
}

proof fn lemma_abs_mul_bound(x: int, y: int, bx: int, by_: int)
    by (nonlinear_arith)
    requires
        -bx <= x <= bx,
        -by_ <= y <= by_,
        bx >= 0,
        by_ >= 0,
    ensures
        -(bx * by_) <= x * y <= bx * by_,
{
}

/// A dot product of vectors with components bounded by `bound` is itself
/// bounded by `len * bound * bound`.
pub proof fn lemma_dot_bound(a: Seq<i64>, b: Seq<i64>, bound: int)
    requires
        a.len() == b.len(),
        bound >= 0,
        forall|i: int| 0 <= i < a.len() ==> -bound <= #[trigger] a[i] <= bound,
        forall|i: int| 0 <= i < b.len() ==> -bound <= #[trigger] b[i] <= bound,
    ensures
        -(a.len() * bound * bound) <= dot(a, b) <= a.len() * bound * bound,
    decreases a.len(),
{
    if a.len() == 0 {
        assert(0 * bound * bound == 0) by (nonlinear_arith);
    } else {
        let a1 = a.drop_last();
        let b1 = b.drop_last();
        lemma_dot_bound(a1, b1, bound);
        lemma_abs_mul_bound(a.last() as int, b.last() as int, bound, bound);
        assert(a1.len() * bound * bound + bound * bound == a.len() * bound * bound)
            by (nonlinear_arith)
            requires a1.len() + 1 == a.len();
    }
}

/// Squared norms are never negative.
pub proof fn lemma_norm_nonneg(a: Seq<i64>)
    ensures
        norm_sq(a) >= 0,
    decreases a.len(),
{
    if a.len() > 0 {
        lemma_norm_nonneg(a.drop_last());
        assert(a.last() * a.last() >= 0) by (nonlinear_arith);
    }
}

/// Cauchy-Schwarz: the squared dot product never exceeds the product of the
/// squared norms.  This is what makes a vector's similarity to itself the
/// best achievable.
pub proof fn lemma_cauchy_schwarz(a: Seq<i64>, b: Seq<i64>)
    requires
        a.len() == b.len(),
    ensures
        dot(a, b) * dot(a, b) <= norm_sq(a) * norm_sq(b),
    decreases a.len(),
{
    if a.len() == 0 {
    } else {
        let a1 = a.drop_last();
        let b1 = b.drop_last();
        let x = a.last() as int;
        let y = b.last() as int;
        let d = dot(a1, b1);
        let na = norm_sq(a1);
        let nb = norm_sq(b1);
        lemma_cauchy_schwarz(a1, b1);
        lemma_norm_nonneg(a1);
        lemma_norm_nonneg(b1);
        let s = x * y;
        let p = na * y * y;
        let q = nb * x * x;
        assert(p + q >= 0) by (nonlinear_arith)
            requires na >= 0, nb >= 0, p == na * y * y, q == nb * x * x;
        assert((p + q) * (p + q) >= 4 * (na * nb) * s * s) by (nonlinear_arith)
            requires p == na * y * y, q == nb * x * x, s == x * y;
        assert(4 * (na * nb) * s * s >= 4 * (d * d) * s * s) by (nonlinear_arith)
            requires d * d <= na * nb;
        assert((p + q) * (p + q) >= (2 * d * s) * (2 * d * s)) by (nonlinear_arith)
            requires (p + q) * (p + q) >= 4 * (d * d) * s * s;
        assert(p + q >= 2 * d * s) by (nonlinear_arith)
            requires
                p + q >= 0,
                (p + q) * (p + q) >= (2 * d * s) * (2 * d * s);
        assert((d + s) * (d + s) == d * d + 2 * d * s + s * s) by (nonlinear_arith);
        assert((na + x * x) * (nb + y * y)
            == na * nb + na * y * y + nb * x * x + (x * x) * (y * y)) by (nonlinear_arith);
        assert(s * s == (x * x) * (y * y)) by (nonlinear_arith)
            requires s == x * y;
        assert((d + s) * (d + s) <= (na + x * x) * (nb + y * y));
        assert(norm_sq(a) == na + x * x);
        assert(norm_sq(b) == nb + y * y);
        assert(dot(a, b) == d + x * y);
    }
}

/// Any two scores are comparable: distance is a total preorder.
pub proof fn lemma_dist_le_total(a: Score, b: Score)
    ensures
        dist_le(a, b) || dist_le(b, a),
{
}

/// Distance comparison is transitive.
pub proof fn lemma_dist_le_trans(a: Score, b: Score, c: Score)
    requires
        score_wf(a),
        score_wf(b),
        score_wf(c),
        dist_le(a, b),
        dist_le(b, c),
    ensures
        dist_le(a, c),
{
    // dist_le flips the arguments: c is at least as similar as b, which is at
    // least as similar as a; show c is at least as similar as a.
    let ad = a.dot as int;
    let bd = b.dot as int;
    let cd = c.dot as int;
    let pa = a.norm_prod as int;
    let pb = b.norm_prod as int;
    let pc = c.norm_prod as int;
    if cd >= 0 && bd >= 0 && ad >= 0 {
        // sim_le(c, b): cd^2 * pb <= bd^2 * pc; sim_le(b, a): bd^2 * pa <= ad^2 * pb.
        // Goal sim_le(c, a): cd^2 * pa <= ad^2 * pc.
        assert((cd * cd * pb) * pa <= (bd * bd * pc) * pa) by (nonlinear_arith)
            requires cd * cd * pb <= bd * bd * pc, pa >= 1;
        assert((bd * bd * pa) * pc <= (ad * ad * pb) * pc) by (nonlinear_arith)
            requires bd * bd * pa <= ad * ad * pb, pc >= 1;
        assert((bd * bd * pc) * pa == (bd * bd * pa) * pc) by (nonlinear_arith);
        assert((cd * cd * pa) * pb <= (ad * ad * pc) * pb) by (nonlinear_arith)
            requires (cd * cd * pb) * pa <= (ad * ad * pb) * pc;
        lemma_mul_cancel(cd * cd * pa, ad * ad * pc, pb);
    } else if cd < 0 && bd < 0 && ad < 0 {
        // sim_le(c, b): bd^2 * pc <= cd^2 * pb; sim_le(b, a): ad^2 * pb <= bd^2 * pa.
        // Goal sim_le(c, a): ad^2 * pc <= cd^2 * pa.
        assert((ad * ad * pb) * pc <= (bd * bd * pa) * pc) by (nonlinear_arith)
            requires ad * ad * pb <= bd * bd * pa, pc >= 1;
        assert((bd * bd * pc) * pa <= (cd * cd * pb) * pa) by (nonlinear_arith)
            requires bd * bd * pc <= cd * cd * pb, pa >= 1;
        assert((bd * bd * pa) * pc == (bd * bd * pc) * pa) by (nonlinear_arith);
        assert((ad * ad * pc) * pb <= (cd * cd * pa) * pb) by (nonlinear_arith)
            requires (ad * ad * pb) * pc <= (cd * cd * pb) * pa;
        assert(pb >= 1);
        lemma_mul_cancel(ad * ad * pc, cd * cd * pa, pb);
    }
}

/// The score of two valid, equal-length embeddings is within the ranges that
/// exact comparison needs.
pub proof fn lemma_spec_score_wf(q: Seq<i64>, e: Seq<i64>)
    requires
        valid_embedding(q),
        valid_embedding(e),
        q.len() == e.len(),
    ensures
        score_wf(spec_score(q, e)),
        spec_score(q, e).dot == dot(q, e),
        spec_score(q, e).norm_prod == norm_sq(q) * norm_sq(e),
{
    lemma_dot_bound(q, e, MAX_COMPONENT as int);
    lemma_dot_bound(q, q, MAX_COMPONENT as int);
    lemma_dot_bound(e, e, MAX_COMPONENT as int);
    assert(q.len() * MAX_COMPONENT * MAX_COMPONENT <= DOT_BOUND) by (nonlinear_arith)
        requires q.len() <= 512;
    lemma_norm_nonneg(q);
    lemma_norm_nonneg(e);
    lemma_mul_range(norm_sq(q), norm_sq(e), DOT_BOUND as int, DOT_BOUND as int);
    assert((DOT_BOUND as int) * (DOT_BOUND as int) == NORM_PROD_BOUND as int);
    assert(norm_sq(q) * norm_sq(e) >= 1 * 1) by (nonlinear_arith)
        requires norm_sq(q) >= 1, norm_sq(e) >= 1;
}

proof fn lemma_square_range(x: int, bx: int)
    by (nonlinear_arith)
    requires
        -bx <= x <= bx,
        bx >= 0,
    ensures
        0 <= x * x <= bx * bx,
{
}

/// Compute the score of a query embedding against a document embedding.
pub fn score_of(q: &Vec<i64>, e: &Vec<i64>) -> (r: Score)
    requires
        valid_embedding(q@),
        valid_embedding(e@),
        q@.len() == e@.len(),
    ensures
        r == spec_score(q@, e@),
        score_wf(r),
{
    let n = q.len();
    let mut d: i64 = 0;
    let mut nq: i64 = 0;
    let mut ne: i64 = 0;
    let mut i: usize = 0;
    while i < n
        invariant
            i <= n,
            n == q@.len(),
            n == e@.len(),
            valid_embedding(q@),
            valid_embedding(e@),
            d == dot(q@.take(i as int), e@.take(i as int)),
            nq == dot(q@.take(i as int), q@.take(i as int)),
            ne == dot(e@.take(i as int), e@.take(i as int)),
        decreases n - i,
    {
        proof {
            let qp = q@.take(i as int);
            let ep = e@.take(i as int);
            lemma_dot_bound(qp, ep, MAX_COMPONENT as int);
            lemma_dot_bound(qp, qp, MAX_COMPONENT as int);
            lemma_dot_bound(ep, ep, MAX_COMPONENT as int);
            lemma_abs_mul_bound(q@[i as int] as int, e@[i as int] as int,
                MAX_COMPONENT as int, MAX_COMPONENT as int);
            lemma_abs_mul_bound(q@[i as int] as int, q@[i as int] as int,
                MAX_COMPONENT as int, MAX_COMPONENT as int);
            lemma_abs_mul_bound(e@[i as int] as int, e@[i as int] as int,
                MAX_COMPONENT as int, MAX_COMPONENT as int);
            assert(i * (MAX_COMPONENT as int) * (MAX_COMPONENT as int)
                <= 512 * (MAX_COMPONENT as int) * (MAX_COMPONENT as int)) by (nonlinear_arith)
                requires i <= 512;
            assert(q@.take(i + 1).drop_last() =~= q@.take(i as int));
            assert(e@.take(i + 1).drop_last() =~= e@.take(i as int));
        }
        d = d + q[i] * e[i];
        nq = nq + q[i] * q[i];
        ne = ne + e[i] * e[i];
        i = i + 1;
    }
    proof {
        assert(q@.take(n as int) =~= q@);
        assert(e@.take(n as int) =~= e@);
        lemma_spec_score_wf(q@, e@);
    }
    let norm_prod: i128 = (nq as i128) * (ne as i128);
    Score { dot: d as i128, norm_prod }
}

/// Decide whether the cosine distance of `a` is at most that of `b`,
/// exactly, without floating point.
pub fn score_le(a: &Score, b: &Score) -> (r: bool)
    requires
        score_wf(*a),
        score_wf(*b),
    ensures
        r == dist_le(*a, *b),
{
    if b.dot < 0 && a.dot >= 0 {
        true
    } else if b.dot >= 0 && a.dot < 0 {
        false
    } else {
        proof {
            lemma_square_range(a.dot as int, DOT_BOUND as int);
            lemma_square_range(b.dot as int, DOT_BOUND as int);
            assert((DOT_BOUND as int) * (DOT_BOUND as int) == NORM_PROD_BOUND as int);
            lemma_mul_range((a.dot as int) * (a.dot as int), b.norm_prod as int,
                NORM_PROD_BOUND as int, NORM_PROD_BOUND as int);
            lemma_mul_range((b.dot as int) * (b.dot as int), a.norm_prod as int,
                NORM_PROD_BOUND as int, NORM_PROD_BOUND as int);
            assert((NORM_PROD_BOUND as int) * (NORM_PROD_BOUND as int) < i128::MAX);
        }
        if b.dot >= 0 {
            (b.dot * b.dot) * a.norm_prod <= (a.dot * a.dot) * b.norm_prod
        } else {
            (a.dot * a.dot) * b.norm_prod <= (b.dot * b.dot) * a.norm_prod
        }
    }
}

/// Cosine distance is symmetric: scoring `a` against `b` gives the same
/// score as scoring `b` against `a`.
pub proof fn lemma_score_symmetric(a: Seq<i64>, b: Seq<i64>)
    requires
        a.len() == b.len(),
    ensures
        spec_score(a, b) == spec_score(b, a),
{
    lemma_dot_comm(a, b);
}

/// Self-distance is the metric's minimum: a query is at least as close to
/// itself as to any other embedding.
pub proof fn lemma_self_distance_min(q: Seq<i64>, e: Seq<i64>)
    requires
        valid_embedding(q),
        valid_embedding(e),
        q.len() == e.len(),
    ensures
        dist_le(spec_score(q, q), spec_score(q, e)),
{
    lemma_spec_score_wf(q, q);
    lemma_spec_score_wf(q, e);
    lemma_cauchy_schwarz(q, e);
    lemma_norm_nonneg(q);
    lemma_norm_nonneg(e);
    let d = dot(q, e);
    let nq = norm_sq(q);
    let ne = norm_sq(e);
    // dist_le(score(q,q), score(q,e)) is sim_le(score(q,e), score(q,q)).
    if d >= 0 {
        assert(d * d * (nq * nq) <= (nq * ne) * (nq * nq)) by (nonlinear_arith)
            requires d * d <= nq * ne, nq >= 0;
        assert((nq * ne) * (nq * nq) == (nq * nq) * (nq * ne)) by (nonlinear_arith);
    }
}

} // verus!
