//! Embeddings and cosine-similarity scores.
//!
//! An embedding is a fixed-dimension vector of bounded integer coordinates
//! (a fixed-point representation). Cosine similarity of vectors `a`, `b` is
//! `dot(a,b) / (|a| * |b|)`, with the guard that the similarity is 0 when
//! either norm is zero. A [`Score`] keeps the dot product and the two
//! squared norms, so scores are compared exactly — by sign, then by
//! cross-multiplied squares — without ever dividing or taking a root.

use vstd::prelude::*;
use vstd::string::StrSliceExecFns;

use crate::models::DiscoveryError;

verus! {

/// Largest magnitude a coordinate may have.
pub const COORD_BOUND: i64 = 4096;

/// Largest embedding dimension an index may be constructed with.
pub const DIM_BOUND: usize = 128;

/// Largest magnitude a dot product or squared norm may reach:
/// `DIM_BOUND * COORD_BOUND * COORD_BOUND`.
pub const SCORE_BOUND: i128 = 2147483648;

/// The dot product, folded from the tail.
pub open spec fn dot(a: Seq<i64>, b: Seq<i64>) -> int
    decreases a.len(),
{
    if a.len() == 0 || b.len() == 0 {
        0
    } else {
        a.last() * b.last() + dot(a.drop_last(), b.drop_last())
    }
}

/// The squared Euclidean norm.
pub open spec fn norm2(a: Seq<i64>) -> int {
    dot(a, a)
}

/// Every coordinate lies in `[-COORD_BOUND, COORD_BOUND]`.
pub open spec fn coords_bounded(a: Seq<i64>) -> bool {
    forall|i: int| 0 <= i < a.len() ==> -(COORD_BOUND as int) <= #[trigger] a[i] <= COORD_BOUND as int
}

/// `|x * y| <= cx * cy` when `|x| <= cx` and `|y| <= cy`.
proof fn lemma_mul_bound(x: int, y: int, cx: int, cy: int)
    requires
        -cx <= x <= cx,
        -cy <= y <= cy,
        0 <= cx,
        0 <= cy,
    ensures
        -(cx * cy) <= x * y <= cx * cy,
{
    assert(-(cx * cy) <= x * y <= cx * cy) by (nonlinear_arith)
        requires
            -cx <= x <= cx,
            -cy <= y <= cy,
            0 <= cx,
            0 <= cy,
    ;
}

/// A squared norm is never negative.
pub proof fn lemma_norm2_nonneg(a: Seq<i64>)
    ensures
        norm2(a) >= 0,
    decreases a.len(),
{
    if a.len() > 0 {
        lemma_norm2_nonneg(a.drop_last());
        assert(a.last() * a.last() >= 0) by (nonlinear_arith);
    }
}

/// The dot product of equal-length bounded vectors is bounded by
/// `len * COORD_BOUND^2`.
pub proof fn lemma_dot_bound(a: Seq<i64>, b: Seq<i64>)
    requires
        a.len() == b.len(),
        coords_bounded(a),
        coords_bounded(b),
    ensures
        -(a.len() * (COORD_BOUND as int) * (COORD_BOUND as int)) <= dot(a, b) <= a.len() * (
        COORD_BOUND as int) * (COORD_BOUND as int),
    decreases a.len(),
{
    let c = COORD_BOUND as int;
    if a.len() == 0 {
    } else {
        let a0 = a.drop_last();
        let b0 = b.drop_last();
        assert(coords_bounded(a0));
        assert(coords_bounded(b0));
        lemma_dot_bound(a0, b0);
        lemma_mul_bound(a.last() as int, b.last() as int, c, c);
        assert(a.len() * c * c == a0.len() * c * c + c * c) by (nonlinear_arith)
            requires
                a.len() == a0.len() + 1,
        ;
    }
}

/// A vector of zero norm has a zero dot product with anything.
pub proof fn lemma_zero_norm_dot_zero(a: Seq<i64>, q: Seq<i64>)
    requires
        norm2(q) == 0,
    ensures
        dot(a, q) == 0,
    decreases q.len(),
{
    if a.len() == 0 || q.len() == 0 {
    } else {
        let l = q.last() as int;
        lemma_norm2_nonneg(q.drop_last());
        assert(l * l >= 0) by (nonlinear_arith);
        assert(l * l + dot(q.drop_last(), q.drop_last()) == 0);
        assert(l == 0) by (nonlinear_arith)
            requires
                l * l == 0,
        ;
        assert(a.last() * l == 0) by (nonlinear_arith)
            requires
                l == 0,
        ;
        lemma_zero_norm_dot_zero(a.drop_last(), q.drop_last());
    }
}

/// A fixed-point embedding: integer coordinates, each within
/// `[-COORD_BOUND, COORD_BOUND]`.
#[derive(Debug)]
pub struct Embedding {
    coords: Vec<i64>,
}

impl View for Embedding {
    type V = Seq<i64>;

    closed spec fn view(&self) -> Seq<i64> {
        self.coords@
    }
}

impl Embedding {
    /// Every coordinate is within bounds; established by the constructors.
    pub open spec fn wf(&self) -> bool {
        coords_bounded(self@)
    }

    /// Wraps the coordinates, rejecting any out-of-range coordinate.
    pub fn new(coords: Vec<i64>) -> (r: Result<Embedding, DiscoveryError>)
        ensures
            match r {
                Ok(e) => e@ == coords@ && e.wf(),
                Err(err) => err == DiscoveryError::InvalidInput && !coords_bounded(coords@),
            },
    {
        let mut i: usize = 0;
        while i < coords.len()
            invariant
                i <= coords.len(),
                forall|j: int|
                    0 <= j < i ==> -(COORD_BOUND as int) <= #[trigger] coords@[j] <= COORD_BOUND
                        as int,
            decreases coords.len() - i,
        {
            if coords[i] > COORD_BOUND || coords[i] < -COORD_BOUND {
                return Err(DiscoveryError::InvalidInput);
            }
            i += 1;
        }
        Ok(Embedding { coords })
    }

    /// The dimension.
    pub fn len(&self) -> (n: usize)
        ensures
            n == self@.len(),
    {
        self.coords.len()
    }

    /// The coordinates.
    pub fn coords(&self) -> (r: &Vec<i64>)
        ensures
            r@ == self@,
    {
        &self.coords
    }

    /// An owned copy.
    pub fn duplicate(&self) -> (r: Embedding)
        ensures
            r@ == self@,
    {
        Embedding { coords: self.coords.clone() }
    }
}

/// A similarity score: the dot product of a record embedding with the query
/// embedding, and both squared norms. The represented similarity is
/// `dot / (sqrt(rec_norm2) * sqrt(query_norm2))`, or 0 when either norm is
/// zero.
#[derive(Debug, Clone, Copy, PartialEq, Eq, Structural)]
pub struct Score {
    pub dot: i128,
    pub rec_norm2: i128,
    pub query_norm2: i128,
}

/// Fields small enough that comparing scores cannot overflow.
pub open spec fn score_wf(s: Score) -> bool {
    &&& -SCORE_BOUND <= s.dot <= SCORE_BOUND
    &&& 0 <= s.rec_norm2 <= SCORE_BOUND
    &&& 0 <= s.query_norm2 <= SCORE_BOUND
}

/// The sign of the represented similarity: 0 when either norm is zero (the
/// zero-vector guard), else the sign of the dot product.
pub open spec fn sim_sign(s: Score) -> int {
    if s.rec_norm2 == 0 || s.query_norm2 == 0 || s.dot == 0 {
        0
    } else if s.dot > 0 {
        1
    } else {
        -1
    }
}

/// `a.dot^2` cross-multiplied with the norm product of `b`.
pub open spec fn mag2_cross(a: Score, b: Score) -> int {
    (a.dot * a.dot) * (b.rec_norm2 * b.query_norm2)
}

/// The represented similarity of `a` is at most that of `b`: compare signs
/// first, then the squares cross-multiplied by the (positive) norm products.
pub open spec fn score_le(a: Score, b: Score) -> bool {
    if sim_sign(a) != sim_sign(b) {
        sim_sign(a) < sim_sign(b)
    } else if sim_sign(a) == 1 {
        mag2_cross(a, b) <= mag2_cross(b, a)
    } else if sim_sign(a) == -1 {
        mag2_cross(b, a) <= mag2_cross(a, b)
    } else {
        true
    }
}

/// Non-increasing order: the represented similarity of `a` is at least that
/// of `b`.
pub open spec fn score_ge(a: Score, b: Score) -> bool {
    score_le(b, a)
}

/// The exact score of a record embedding against a query embedding.
pub open spec fn spec_score_of(a: Seq<i64>, q: Seq<i64>) -> Score {
    Score {
        dot: dot(a, q) as i128,
        rec_norm2: norm2(a) as i128,
        query_norm2: norm2(q) as i128,
    }
}

/// Computes the score of a record embedding against a query embedding.
pub fn compute_score(a: &Embedding, q: &Embedding) -> (r: Score)
    requires
        a.wf(),
        q.wf(),
        a@.len() == q@.len(),
        a@.len() <= DIM_BOUND,
    ensures
        r.dot == dot(a@, q@),
        r.rec_norm2 == norm2(a@),
        r.query_norm2 == norm2(q@),
        r == spec_score_of(a@, q@),
        score_wf(r),
{
    let ghost c = COORD_BOUND as int;
    let av = a.coords();
    let qv = q.coords();
    let n = av.len();
    let mut d: i128 = 0;
    let mut na: i128 = 0;
    let mut nq: i128 = 0;
    let mut i: usize = 0;
    while i < n
        invariant
            c == COORD_BOUND as int,
            i <= n,
            n == a@.len() == q@.len(),
            n <= DIM_BOUND,
            av@ == a@,
            qv@ == q@,
            coords_bounded(a@),
            coords_bounded(q@),
            d == dot(a@.take(i as int), q@.take(i as int)),
            na == norm2(a@.take(i as int)),
            nq == norm2(q@.take(i as int)),
            -(i * c * c) <= d <= i * c * c,
            0 <= na <= i * c * c,
            0 <= nq <= i * c * c,
        decreases n - i,
    {
        let x = av[i];
        let y = qv[i];
        proof {
            assert(x == a@[i as int]);
            assert(y == q@[i as int]);
            lemma_mul_bound(x as int, y as int, c, c);
            lemma_mul_bound(x as int, x as int, c, c);
            lemma_mul_bound(y as int, y as int, c, c);
            assert(x as int * x as int >= 0) by (nonlinear_arith);
            assert(y as int * y as int >= 0) by (nonlinear_arith);
            assert((i + 1) * c * c == i * c * c + c * c) by (nonlinear_arith);
            assert(i * c * c <= DIM_BOUND * c * c) by (nonlinear_arith)
                requires
                    0 <= i <= DIM_BOUND as int,
                    c == COORD_BOUND as int,
            ;
            let ta = a@.take(i + 1);
            let tq = q@.take(i + 1);
            assert(ta.drop_last() =~= a@.take(i as int));
            assert(tq.drop_last() =~= q@.take(i as int));
            assert(ta.last() == a@[i as int]);
            assert(tq.last() == q@[i as int]);
        }
        d = d + (x as i128) * (y as i128);
        na = na + (x as i128) * (x as i128);
        nq = nq + (y as i128) * (y as i128);
        i += 1;
    }
    proof {
        assert(a@.take(n as int) =~= a@);
        assert(q@.take(n as int) =~= q@);
        assert(n * c * c <= DIM_BOUND * c * c) by (nonlinear_arith)
            requires
                0 <= n <= DIM_BOUND as int,
                c == COORD_BOUND as int,
        ;
    }
    Score { dot: d, rec_norm2: na, query_norm2: nq }
}

/// Decides `score_le` executably, by exact integer arithmetic.
pub fn score_le_exec(a: &Score, b: &Score) -> (r: bool)
    requires
        score_wf(*a),
        score_wf(*b),
    ensures
        r == score_le(*a, *b),
{
    let sa: i32 = if a.rec_norm2 == 0 || a.query_norm2 == 0 || a.dot == 0 {
        0
    } else if a.dot > 0 {
        1
    } else {
        -1
    };
    let sb: i32 = if b.rec_norm2 == 0 || b.query_norm2 == 0 || b.dot == 0 {
        0
    } else if b.dot > 0 {
        1
    } else {
        -1
    };
    if sa != sb {
        sa < sb
    } else if sa == 0 {
        true
    } else {
        proof {
            lemma_mul_bound(a.dot as int, a.dot as int, SCORE_BOUND as int, SCORE_BOUND as int);
            lemma_mul_bound(b.dot as int, b.dot as int, SCORE_BOUND as int, SCORE_BOUND as int);
            lemma_mul_bound(
                a.rec_norm2 as int,
                a.query_norm2 as int,
                SCORE_BOUND as int,
                SCORE_BOUND as int,
            );
            lemma_mul_bound(
                b.rec_norm2 as int,
                b.query_norm2 as int,
                SCORE_BOUND as int,
                SCORE_BOUND as int,
            );
            lemma_mul_bound(
                (a.dot * a.dot) as int,
                (b.rec_norm2 * b.query_norm2) as int,
                SCORE_BOUND as int * SCORE_BOUND as int,
                SCORE_BOUND as int * SCORE_BOUND as int,
            );
            lemma_mul_bound(
                (b.dot * b.dot) as int,
                (a.rec_norm2 * a.query_norm2) as int,
                SCORE_BOUND as int * SCORE_BOUND as int,
                SCORE_BOUND as int * SCORE_BOUND as int,
            );
        }
        let left = (a.dot * a.dot) * (b.rec_norm2 * b.query_norm2);
        let right = (b.dot * b.dot) * (a.rec_norm2 * a.query_norm2);
        if sa == 1 {
            left <= right
        } else {
            right <= left
        }
    }
}

/// The score order is total: two scores can always be compared.
pub proof fn lemma_score_le_total(a: Score, b: Score)
    ensures
        score_le(a, b) || score_le(b, a),
{
}

/// The score order is transitive.
pub proof fn lemma_score_le_trans(a: Score, b: Score, c: Score)
    requires
        score_wf(a),
        score_wf(b),
        score_wf(c),
        score_le(a, b),
        score_le(b, c),
    ensures
        score_le(a, c),
{
    if sim_sign(a) == sim_sign(b) && sim_sign(b) == sim_sign(c) {
        if sim_sign(a) == 1 {
            let xa = a.dot * a.dot;
            let xb = b.dot * b.dot;
            let xc = c.dot * c.dot;
            let ya = a.rec_norm2 * a.query_norm2;
            let yb = b.rec_norm2 * b.query_norm2;
            let yc = c.rec_norm2 * c.query_norm2;
            assert(a.rec_norm2 * a.query_norm2 > 0) by (nonlinear_arith)
                requires
                    a.rec_norm2 > 0 && a.query_norm2 > 0,
            ;
            assert(b.rec_norm2 * b.query_norm2 > 0) by (nonlinear_arith)
                requires
                    b.rec_norm2 > 0 && b.query_norm2 > 0,
            ;
            assert(c.rec_norm2 * c.query_norm2 > 0) by (nonlinear_arith)
                requires
                    c.rec_norm2 > 0 && c.query_norm2 > 0,
            ;
            assert(xa * yc <= xc * ya) by (nonlinear_arith)
                requires
                    xa * yb <= xb * ya,
                    xb * yc <= xc * yb,
                    ya > 0,
                    yb > 0,
                    yc > 0,
            ;
        } else if sim_sign(a) == -1 {
            let xa = a.dot * a.dot;
            let xb = b.dot * b.dot;
            let xc = c.dot * c.dot;
            let ya = a.rec_norm2 * a.query_norm2;
            let yb = b.rec_norm2 * b.query_norm2;
            let yc = c.rec_norm2 * c.query_norm2;
            assert(a.rec_norm2 * a.query_norm2 > 0) by (nonlinear_arith)
                requires
                    a.rec_norm2 > 0 && a.query_norm2 > 0,
            ;
            assert(b.rec_norm2 * b.query_norm2 > 0) by (nonlinear_arith)
                requires
                    b.rec_norm2 > 0 && b.query_norm2 > 0,
            ;
            assert(c.rec_norm2 * c.query_norm2 > 0) by (nonlinear_arith)
                requires
                    c.rec_norm2 > 0 && c.query_norm2 > 0,
            ;
            assert(xc * ya <= xa * yc) by (nonlinear_arith)
                requires
                    xb * ya <= xa * yb,
                    xc * yb <= xb * yc,
                    ya > 0,
                    yb > 0,
                    yc > 0,
            ;
        }
    }
}

/// In a list of scores that is non-increasing between neighbours, every
/// earlier score is at least every later one.
pub proof fn lemma_sorted_scores_pairwise(s: Seq<Score>, i: int, j: int)
    requires
        forall|t: int| 0 <= t < s.len() ==> score_wf(#[trigger] s[t]),
        forall|t: int| 0 <= t < s.len() - 1 ==> score_ge(#[trigger] s[t], s[t + 1]),
        0 <= i <= j < s.len(),
    ensures
        score_ge(s[i], s[j]),
    decreases j - i,
{
    if i == j {
    } else {
        lemma_sorted_scores_pairwise(s, i, j - 1);
        lemma_score_le_trans(s[j], s[j - 1], s[i]);
    }
}

/// Cosine similarity of a non-zero vector with itself is exactly 1: the
/// score's sign is positive and its squared value equals 1, that is,
/// `dot^2 == rec_norm2 * query_norm2`.
pub proof fn lemma_self_similarity_is_one(s: Score, v: Seq<i64>)
    requires
        s.dot == dot(v, v),
        s.rec_norm2 == norm2(v),
        s.query_norm2 == norm2(v),
        norm2(v) != 0,
    ensures
        sim_sign(s) == 1,
        s.dot * s.dot == s.rec_norm2 * s.query_norm2,
{
    lemma_norm2_nonneg(v);
}

/// Similarity against a zero-norm vector is the defined 0, never an error:
/// the score's sign is 0 and even its dot product vanishes.
pub proof fn lemma_zero_vector_similarity(s: Score, v: Seq<i64>, q: Seq<i64>)
    requires
        s.dot == dot(v, q),
        s.rec_norm2 == norm2(v),
        s.query_norm2 == norm2(q),
        norm2(q) == 0,
    ensures
        sim_sign(s) == 0,
        s.dot == 0,
{
    lemma_zero_norm_dot_zero(v, q);
}

/// What the built-in placeholder embedder returns for a text: the first
/// coordinate is the character count (capped at `COORD_BOUND`), all others
/// are zero.
pub open spec fn stub_embedding(text: Seq<char>, dim: int) -> Seq<i64> {
    Seq::new(
        dim as nat,
        |i: int|
            if i == 0 {
                (if text.len() > COORD_BOUND as int {
                    COORD_BOUND as int
                } else {
                    text.len() as int
                }) as i64
            } else {
                0i64
            },
    )
}

/// A deterministic placeholder embedder, keyed on the text's length alone:
/// the first coordinate is the character count (capped at `COORD_BOUND`),
/// all others are zero. A real embedder is supplied from outside; this one
/// keeps the directory usable without it.
pub fn generate_embedding(text: &str, dim: usize) -> (r: Embedding)
    requires
        1 <= dim <= DIM_BOUND,
    ensures
        r.wf(),
        r@ == stub_embedding(text@, dim as int),
        r@.len() == dim,
{
    let l = text.unicode_len();
    let first: i64 = if l > 4096 {
        4096
    } else {
        l as i64
    };
    let mut coords: Vec<i64> = Vec::new();
    coords.push(first);
    let mut i: usize = 1;
    while i < dim
        invariant
            1 <= i <= dim,
            coords@.len() == i,
            coords@[0] == first,
            forall|j: int| 1 <= j < i ==> coords@[j] == 0,
        decreases dim - i,
    {
        coords.push(0);
        i += 1;
    }
    proof {
        assert(coords@ =~= stub_embedding(text@, dim as int));
        assert forall|j: int|
            0 <= j < coords@.len() implies -(COORD_BOUND as int) <= #[trigger] coords@[j]
            <= COORD_BOUND as int by {
            if j > 0 {
                assert(coords@[j] == 0);
            }
        }
    }
    Embedding { coords }
}

} // verus!
