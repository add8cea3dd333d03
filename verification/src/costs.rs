//! Fixed-dimension cost-vector arithmetic.
//!
//! Every edge carries a vector of `COST_DIMENSION` non-negative integer
//! cost components. A caller-supplied weight vector of the same dimension
//! turns a cost vector into the single ordering scalar by a dot product.
//! All arithmetic saturates at `u64::MAX`, which doubles as the "infinite
//! distance" marker of the search, so a saturated sum stays saturated and
//! the scalar accumulated in lock-step with the vector never diverges from
//! the scalarization of that vector.

use vstd::prelude::*;

verus! {

/// Number of cost criteria carried by every edge (for example distance,
/// elevation gain, unsuitability).
pub const COST_DIMENSION: usize = 3;

/// Scalar distance standing for "unreached"; saturating arithmetic keeps
/// every genuine scalar strictly below it or pinned at it.
pub const INFINITY: u64 = u64::MAX;

/// The human-readable tags of the cost criteria, one per dimension.
pub fn get_cost_tags() -> (r: Vec<String>)
    ensures
        r@.len() == COST_DIMENSION,
        r@[0]@ == "Distance"@,
        r@[1]@ == "Height"@,
        r@[2]@ == "Unsuitability"@,
{
    let mut r: Vec<String> = Vec::new();
    r.push("Distance".to_owned());
    r.push("Height".to_owned());
    r.push("Unsuitability".to_owned());
    r
}

/// Clamp a mathematical integer into the representable range.
pub open spec fn clip(x: int) -> int {
    if x > u64::MAX as int {
        u64::MAX as int
    } else {
        x
    }
}

/// Exact (unclipped) dot product of two vectors.
pub open spec fn dot(v: Seq<u64>, w: Seq<u64>) -> int
    decreases v.len(),
{
    if v.len() == 0 || w.len() == 0 {
        0
    } else {
        dot(v.drop_last(), w.drop_last()) + v.last() * w.last()
    }
}

/// Saturating scalarization: what the executable dot product computes.
pub open spec fn scal(v: Seq<u64>, w: Seq<u64>) -> int {
    clip(dot(v, w))
}

/// Componentwise saturating vector sum.
pub open spec fn sat_add_seq(a: Seq<u64>, b: Seq<u64>) -> Seq<u64> {
    Seq::new(a.len(), |i: int| clip(a[i] + b[i]) as u64)
}

/// The all-zero cost vector of a given dimension.
pub open spec fn zero_seq(n: nat) -> Seq<u64> {
    Seq::new(n, |i: int| 0u64)
}

/// Saturating scalar addition.
pub fn sat_add(a: u64, b: u64) -> (r: u64)
    ensures
        r as int == clip(a as int + b as int),
{
    match a.checked_add(b) {
        Some(c) => c,
        None => u64::MAX,
    }
}

/// Saturating scalar multiplication.
pub fn sat_mul(a: u64, b: u64) -> (r: u64)
    ensures
        r as int == clip(a as int * b as int),
{
    match a.checked_mul(b) {
        Some(c) => c,
        None => u64::MAX,
    }
}

/// Componentwise saturating sum of two cost vectors of equal dimension.
pub fn add_edge_costs(a: &Vec<u64>, b: &Vec<u64>) -> (r: Vec<u64>)
    requires
        a@.len() == b@.len(),
    ensures
        r@ == sat_add_seq(a@, b@),
{
    let mut r: Vec<u64> = Vec::new();
    let mut i: usize = 0;
    while i < a.len()
        invariant
            i <= a@.len(),
            a@.len() == b@.len(),
            r@.len() == i,
            forall|j: int| 0 <= j < i ==> r@[j] as int == clip(a@[j] + b@[j]),
        decreases a@.len() - i,
    {
        r.push(sat_add(a[i], b[i]));
        i = i + 1;
    }
    proof {
        assert(r@ =~= sat_add_seq(a@, b@));
    }
    r
}

/// Fresh all-zero cost vector of the engine's dimension.
pub fn zero_costs() -> (r: Vec<u64>)
    ensures
        r@ == zero_seq(COST_DIMENSION as nat),
{
    let mut r: Vec<u64> = Vec::new();
    let mut i: usize = 0;
    while i < COST_DIMENSION
        invariant
            i <= COST_DIMENSION,
            r@.len() == i,
            forall|j: int| 0 <= j < i ==> r@[j] == 0u64,
        decreases COST_DIMENSION - i,
    {
        r.push(0);
        i = i + 1;
    }
    proof {
        assert(r@ =~= zero_seq(COST_DIMENSION as nat));
    }
    r
}

/// Saturating dot product of a cost vector with the weight vector.
pub fn scalarize(v: &Vec<u64>, w: &Vec<u64>) -> (r: u64)
    requires
        v@.len() == w@.len(),
    ensures
        r as int == scal(v@, w@),
{
    let mut acc: u64 = 0;
    let mut i: usize = 0;
    while i < v.len()
        invariant
            i <= v@.len(),
            v@.len() == w@.len(),
            acc as int == clip(dot(v@.take(i as int), w@.take(i as int))),
        decreases v@.len() - i,
    {
        proof {
            lemma_dot_nonneg(v@.take(i as int), w@.take(i as int));
            lemma_dot_take_snoc(v@, w@, i as int);
            vstd::arithmetic::mul::lemma_mul_nonnegative(v@[i as int] as int, w@[i as int] as int);
        }
        acc = sat_add(acc, sat_mul(v[i], w[i]));
        i = i + 1;
    }
    proof {
        assert(v@.take(v@.len() as int) =~= v@);
        assert(w@.take(w@.len() as int) =~= w@);
    }
    acc
}

/// The dot product of non-negative vectors is non-negative.
pub proof fn lemma_dot_nonneg(v: Seq<u64>, w: Seq<u64>)
    ensures
        dot(v, w) >= 0,
    decreases v.len(),
{
    if v.len() != 0 && w.len() != 0 {
        lemma_dot_nonneg(v.drop_last(), w.drop_last());
        vstd::arithmetic::mul::lemma_mul_nonnegative(v.last() as int, w.last() as int);
    }
}

/// Extending both vectors by one entry adds that entry's product.
pub proof fn lemma_dot_take_snoc(v: Seq<u64>, w: Seq<u64>, i: int)
    requires
        0 <= i < v.len(),
        v.len() == w.len(),
    ensures
        dot(v.take(i + 1), w.take(i + 1)) == dot(v.take(i), w.take(i)) + v[i] * w[i],
{
    assert(v.take(i + 1).drop_last() =~= v.take(i));
    assert(w.take(i + 1).drop_last() =~= w.take(i));
    assert(v.take(i + 1).last() == v[i]);
    assert(w.take(i + 1).last() == w[i]);
}

/// A weighted sum over the all-zero vector is zero.
pub proof fn lemma_dot_zero(w: Seq<u64>)
    ensures
        dot(zero_seq(w.len()), w) == 0,
    decreases w.len(),
{
    if w.len() != 0 {
        assert(zero_seq(w.len()).drop_last() =~= zero_seq((w.len() - 1) as nat));
        lemma_dot_zero(w.drop_last());
        assert(zero_seq(w.len()).last() == 0u64);
        assert(0u64 * w.last() == 0) by (nonlinear_arith);
    }
}

/// Clipping commutes with addition of non-negative clipped summands.
pub proof fn lemma_clip_add(x: int, y: int)
    requires
        x >= 0,
        y >= 0,
    ensures
        clip(clip(x) + clip(y)) == clip(x + y),
{
}

/// Core compatibility of the two accumulators: scalarizing a saturating
/// vector sum gives the same result as a saturating sum of the two
/// scalarizations. Stated over the exact dot products: either nothing
/// relevant saturated and the dot products agree, or both sides are
/// already pinned at the representable maximum.
proof fn lemma_dot_sat_add(a: Seq<u64>, b: Seq<u64>, w: Seq<u64>)
    requires
        a.len() == b.len(),
        b.len() == w.len(),
    ensures
        dot(sat_add_seq(a, b), w) == dot(a, w) + dot(b, w) || (dot(sat_add_seq(a, b), w)
            >= u64::MAX && dot(a, w) + dot(b, w) >= u64::MAX),
    decreases a.len(),
{
    let s = sat_add_seq(a, b);
    if a.len() == 0 {
        assert(s.len() == 0);
    } else {
        let a1 = a.drop_last();
        let b1 = b.drop_last();
        let w1 = w.drop_last();
        assert(s.drop_last() =~= sat_add_seq(a1, b1));
        lemma_dot_sat_add(a1, b1, w1);
        lemma_dot_nonneg(a1, w1);
        lemma_dot_nonneg(b1, w1);
        lemma_dot_nonneg(sat_add_seq(a1, b1), w1);
        let x = a.last() as int;
        let y = b.last() as int;
        let wl = w.last() as int;
        assert(s.last() as int == clip(x + y));
        vstd::arithmetic::mul::lemma_mul_nonnegative(wl, x);
        vstd::arithmetic::mul::lemma_mul_nonnegative(wl, y);
        vstd::arithmetic::mul::lemma_mul_nonnegative(wl, clip(x + y));
        if x + y <= u64::MAX as int {
            assert(wl * clip(x + y) == wl * x + wl * y) by (nonlinear_arith)
                requires
                    clip(x + y) == x + y,
            ;
        } else {
            if wl == 0 {
                assert(wl * clip(x + y) == 0 && wl * x == 0 && wl * y == 0) by (nonlinear_arith)
                    requires
                        wl == 0,
                ;
            } else {
                assert(wl * clip(x + y) >= u64::MAX as int && wl * x + wl * y >= u64::MAX as int)
                    by (nonlinear_arith)
                    requires
                        wl >= 1,
                        x >= 0,
                        y >= 0,
                        x + y > u64::MAX as int,
                        clip(x + y) == u64::MAX as int,
                ;
            }
        }
    }
}

/// The scalar accumulated in lock-step with the cost vector equals the
/// scalarization of the accumulated vector: adding an edge's scalarized
/// cost to a scalar total matches scalarizing the saturating vector sum.
pub proof fn lemma_scal_sat_add(a: Seq<u64>, b: Seq<u64>, w: Seq<u64>)
    requires
        a.len() == b.len(),
        b.len() == w.len(),
    ensures
        scal(sat_add_seq(a, b), w) == clip(scal(a, w) + scal(b, w)),
{
    lemma_dot_sat_add(a, b, w);
    lemma_dot_nonneg(a, w);
    lemma_dot_nonneg(b, w);
    lemma_clip_add(dot(a, w), dot(b, w));
}

/// Scalarizing the zero vector under any weights gives zero.
pub proof fn lemma_scal_zero(w: Seq<u64>)
    ensures
        scal(zero_seq(w.len()), w) == 0,
{
    lemma_dot_zero(w);
}


/// Adding the zero vector changes nothing.
pub proof fn lemma_sat_add_seq_zero(a: Seq<u64>)
    ensures
        sat_add_seq(zero_seq(a.len()), a) == a,
        sat_add_seq(a, zero_seq(a.len())) == a,
{
    assert(sat_add_seq(zero_seq(a.len()), a) =~= a);
    assert(sat_add_seq(a, zero_seq(a.len())) =~= a);
}

/// Saturating vector addition is associative.
pub proof fn lemma_sat_add_seq_assoc(a: Seq<u64>, b: Seq<u64>, c: Seq<u64>)
    requires
        a.len() == b.len(),
        b.len() == c.len(),
    ensures
        sat_add_seq(sat_add_seq(a, b), c) == sat_add_seq(a, sat_add_seq(b, c)),
{
    assert forall|i: int| 0 <= i < a.len() implies sat_add_seq(sat_add_seq(a, b), c)[i]
        == sat_add_seq(a, sat_add_seq(b, c))[i] by {
        lemma_clip_add(a[i] + b[i], c[i] as int);
        lemma_clip_add(a[i] as int, b[i] + c[i]);
    }
    assert(sat_add_seq(sat_add_seq(a, b), c) =~= sat_add_seq(a, sat_add_seq(b, c)));
}


/// Raising weight components never lowers a dot product.
pub proof fn lemma_dot_monotone(v: Seq<u64>, w1: Seq<u64>, w2: Seq<u64>)
    requires
        w1.len() == w2.len(),
        forall|i: int| 0 <= i < w1.len() ==> w1[i] <= w2[i],
    ensures
        dot(v, w1) <= dot(v, w2),
    decreases v.len(),
{
    if v.len() != 0 && w1.len() != 0 {
        lemma_dot_monotone(v.drop_last(), w1.drop_last(), w2.drop_last());
        assert(w1.last() <= w2.last());
        assert(v.last() * w1.last() <= v.last() * w2.last()) by (nonlinear_arith)
            requires
                w1.last() <= w2.last(),
                v.last() >= 0,
        ;
    }
}

/// Raising weight components never lowers a scalarization.
pub proof fn lemma_scal_monotone(v: Seq<u64>, w1: Seq<u64>, w2: Seq<u64>)
    requires
        w1.len() == w2.len(),
        forall|i: int| 0 <= i < w1.len() ==> w1[i] <= w2[i],
    ensures
        scal(v, w1) <= scal(v, w2),
{
    lemma_dot_monotone(v, w1, w2);
}

} // verus!
