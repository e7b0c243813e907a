//! Row-major index arithmetic: multi-index to linear offset and back.
use vstd::prelude::*;
use vstd::arithmetic::div_mod::{lemma_div_denominator, lemma_fundamental_div_mod, lemma_fundamental_div_mod_converse};

verus! {

/// The number of cells of a grid with the given extents; the empty list gives one cell.
pub open spec fn extent_product(e: Seq<usize>) -> nat
    decreases e.len(),
{
    if e.len() == 0 {
        1
    } else {
        extent_product(e.drop_last()) * (e.last() as nat)
    }
}

/// The row-major offset of a multi-index: the last axis varies fastest, so each
/// coordinate is weighted by the product of the extents of the axes after it.
pub open spec fn row_major_offset(idx: Seq<usize>, e: Seq<usize>) -> nat
    decreases idx.len(),
{
    if idx.len() == 0 || e.len() == 0 {
        0
    } else {
        row_major_offset(idx.drop_last(), e.drop_last()) * (e.last() as nat) + (idx.last() as nat)
    }
}

/// One coordinate per axis, each below the extent of its axis.
pub open spec fn in_bounds(idx: Seq<usize>, e: Seq<usize>) -> bool {
    &&& idx.len() == e.len()
    &&& forall|i: int| 0 <= i < idx.len() ==> #[trigger] idx[i] < e[i]
}

/// The multi-index at linear offset `off`: working from the last axis, each
/// coordinate is the remainder by that axis's extent, and the quotient moves on
/// to the axes before it.
pub open spec fn unflatten(off: nat, e: Seq<usize>) -> Seq<usize>
    decreases e.len(),
{
    if e.len() == 0 {
        seq![]
    } else {
        unflatten(off / (e.last() as nat), e.drop_last()).push((off % (e.last() as nat)) as usize)
    }
}

/// `a` comes before `b` in row-major (lexicographic) order; both have the same length.
pub open spec fn lex_less(a: Seq<usize>, b: Seq<usize>) -> bool
    decreases a.len(),
{
    &&& a.len() == b.len()
    &&& a.len() > 0
    &&& (lex_less(a.drop_last(), b.drop_last()) || (a.drop_last() == b.drop_last() && a.last() < b.last()))
}

/// A grid with cells has no zero extent.
pub proof fn lemma_positive_extents(e: Seq<usize>)
    requires
        extent_product(e) > 0,
    ensures
        forall|i: int| 0 <= i < e.len() ==> #[trigger] e[i] > 0,
    decreases e.len(),
{
    if e.len() > 0 {
        let p = extent_product(e.drop_last());
        let m = e.last() as nat;
        assert(p > 0 && m > 0) by (nonlinear_arith)
            requires
                p * m > 0,
        ;
        lemma_positive_extents(e.drop_last());
        assert forall|i: int| 0 <= i < e.len() implies #[trigger] e[i] > 0 by {
            if i < e.len() - 1 {
                assert(e[i] == e.drop_last()[i]);
            }
        }
    }
}

/// An in-bounds multi-index lands inside the buffer.
pub proof fn lemma_offset_in_range(idx: Seq<usize>, e: Seq<usize>)
    requires
        in_bounds(idx, e),
    ensures
        row_major_offset(idx, e) < extent_product(e),
    decreases idx.len(),
{
    if idx.len() > 0 {
        let a = idx.drop_last();
        let d = e.drop_last();
        assert forall|i: int| 0 <= i < a.len() implies #[trigger] a[i] < d[i] by {
            assert(a[i] == idx[i] && d[i] == e[i]);
        }
        lemma_offset_in_range(a, d);
        let q = row_major_offset(a, d);
        let p = extent_product(d);
        let m = e.last() as nat;
        let x = idx.last() as nat;
        assert(idx[idx.len() - 1] < e[idx.len() - 1]);
        assert(q * m + x < p * m) by (nonlinear_arith)
            requires
                q < p,
                x < m,
        ;
    }
}

/// Going back from the offset of an in-bounds multi-index gives that multi-index.
pub proof fn lemma_round_trip(idx: Seq<usize>, e: Seq<usize>)
    requires
        in_bounds(idx, e),
    ensures
        unflatten(row_major_offset(idx, e), e) == idx,
    decreases idx.len(),
{
    if idx.len() > 0 {
        let a = idx.drop_last();
        let d = e.drop_last();
        assert forall|i: int| 0 <= i < a.len() implies #[trigger] a[i] < d[i] by {
            assert(a[i] == idx[i] && d[i] == e[i]);
        }
        lemma_round_trip(a, d);
        let q = row_major_offset(a, d);
        let m = e.last() as nat;
        let x = idx.last() as nat;
        assert(idx[idx.len() - 1] < e[idx.len() - 1]);
        lemma_fundamental_div_mod_converse((q * m + x) as int, m as int, q as int, x as int);
        assert(unflatten(row_major_offset(idx, e), e) =~= idx);
    }
}

/// Every offset inside the buffer is the offset of exactly the in-bounds
/// multi-index that going back from it gives.
pub proof fn lemma_unflatten_inverse(off: nat, e: Seq<usize>)
    requires
        off < extent_product(e),
    ensures
        in_bounds(unflatten(off, e), e),
        row_major_offset(unflatten(off, e), e) == off,
    decreases e.len(),
{
    if e.len() > 0 {
        let d = e.drop_last();
        let m = e.last() as nat;
        let p = extent_product(d);
        lemma_positive_extents(e);
        assert(e[e.len() - 1] > 0);
        let q = off / m;
        let r = off % m;
        lemma_fundamental_div_mod(off as int, m as int);
        assert(q < p) by (nonlinear_arith)
            requires
                off < p * m,
                off == m * q + r,
                0 <= r,
                m > 0,
        ;
        lemma_unflatten_inverse(q, d);
        let u = unflatten(off, e);
        assert(u.drop_last() =~= unflatten(q, d));
        assert forall|i: int| 0 <= i < u.len() implies #[trigger] u[i] < e[i] by {
            if i < u.len() - 1 {
                assert(u[i] == unflatten(q, d)[i]);
            }
        }
    }
}

/// Raising the last coordinate by one, without leaving its axis, raises the offset by one.
pub proof fn lemma_offset_step(idx: Seq<usize>, e: Seq<usize>)
    requires
        in_bounds(idx, e),
        idx.len() > 0,
        idx.last() + 1 < e.last(),
    ensures
        row_major_offset(idx.update(idx.len() - 1, (idx.last() + 1) as usize), e)
            == row_major_offset(idx, e) + 1,
{
    let n = idx.update(idx.len() - 1, (idx.last() + 1) as usize);
    assert(n.drop_last() =~= idx.drop_last());
}

/// Row-major order of in-bounds multi-indices is the order of their offsets.
pub proof fn lemma_offset_monotone(a: Seq<usize>, b: Seq<usize>, e: Seq<usize>)
    requires
        in_bounds(a, e),
        in_bounds(b, e),
        lex_less(a, b),
    ensures
        row_major_offset(a, e) < row_major_offset(b, e),
    decreases a.len(),
{
    let a0 = a.drop_last();
    let b0 = b.drop_last();
    let d = e.drop_last();
    let m = e.last() as nat;
    let x = a.last() as nat;
    let y = b.last() as nat;
    assert(a[a.len() - 1] < e[a.len() - 1]);
    assert(b[b.len() - 1] < e[b.len() - 1]);
    assert forall|i: int| 0 <= i < a0.len() implies #[trigger] a0[i] < d[i] by {
        assert(a0[i] == a[i] && d[i] == e[i]);
    }
    assert forall|i: int| 0 <= i < b0.len() implies #[trigger] b0[i] < d[i] by {
        assert(b0[i] == b[i] && d[i] == e[i]);
    }
    let p = row_major_offset(a0, d);
    let q = row_major_offset(b0, d);
    if lex_less(a0, b0) {
        lemma_offset_monotone(a0, b0, d);
        assert(p * m + x < q * m + y) by (nonlinear_arith)
            requires
                p < q,
                x < m,
        ;
    }
}

/// The weight of axis `i`: the product of the extents of the axes after it.
pub open spec fn weight(e: Seq<usize>, i: int) -> nat {
    extent_product(e.subrange(i + 1, e.len() as int))
}

/// The sum of each coordinate of `idx` times the weight of its axis.
pub open spec fn weighted_sum(idx: Seq<usize>, e: Seq<usize>) -> nat
    decreases idx.len(),
{
    if idx.len() == 0 {
        0
    } else {
        weighted_sum(idx.drop_last(), e) + (idx.last() as nat) * weight(e, idx.len() - 1)
    }
}

/// The last axis has weight one; an earlier axis weighs the last extent times
/// what it weighs without the last axis.
proof fn lemma_weight_split(e: Seq<usize>, i: int)
    requires
        0 <= i < e.len(),
    ensures
        i == e.len() - 1 ==> weight(e, i) == 1,
        i < e.len() - 1 ==> weight(e, i) == weight(e.drop_last(), i) * (e.last() as nat),
{
    let sub = e.subrange(i + 1, e.len() as int);
    if i < e.len() - 1 {
        assert(sub.drop_last() =~= e.drop_last().subrange(i + 1, e.len() - 1));
        assert(sub.last() == e.last());
    } else {
        assert(sub.len() == 0);
    }
}

/// Over the axes before the last, the weighted sum is the last extent times the
/// weighted sum without the last axis.
proof fn lemma_weighted_sum_prefix(idx: Seq<usize>, e: Seq<usize>, k: int)
    requires
        idx.len() == e.len(),
        0 <= k < e.len(),
    ensures
        weighted_sum(idx.subrange(0, k), e)
            == weighted_sum(idx.drop_last().subrange(0, k), e.drop_last()) * (e.last() as nat),
    decreases k,
{
    if k == 0 {
        assert(weighted_sum(idx.subrange(0, 0), e) == 0);
        assert(weighted_sum(idx.drop_last().subrange(0, 0), e.drop_last()) == 0);
    } else {
        lemma_weighted_sum_prefix(idx, e, k - 1);
        let a = idx.subrange(0, k);
        let b = idx.drop_last().subrange(0, k);
        assert(a.drop_last() =~= idx.subrange(0, k - 1));
        assert(b.drop_last() =~= idx.drop_last().subrange(0, k - 1));
        assert(a.last() == b.last());
        lemma_weight_split(e, k - 1);
        let s = weighted_sum(b.drop_last(), e.drop_last());
        let w = weight(e.drop_last(), k - 1);
        let m = e.last() as nat;
        let x = a.last() as nat;
        assert(weighted_sum(a, e) == weighted_sum(a.drop_last(), e) + x * weight(e, k - 1));
        assert(weighted_sum(b, e.drop_last()) == s + x * w);
        assert(weighted_sum(a.drop_last(), e) == s * m);
        assert(weight(e, k - 1) == w * m);
        assert(s * m + x * (w * m) == (s + x * w) * m) by (nonlinear_arith);
    }
}

/// The row-major offset is the sum of each coordinate times the weight of its axis.
pub proof fn lemma_offset_is_weighted_sum(idx: Seq<usize>, e: Seq<usize>)
    requires
        idx.len() == e.len(),
    ensures
        row_major_offset(idx, e) == weighted_sum(idx, e),
    decreases idx.len(),
{
    if idx.len() > 0 {
        let n = idx.len() as int;
        lemma_offset_is_weighted_sum(idx.drop_last(), e.drop_last());
        lemma_weighted_sum_prefix(idx, e, n - 1);
        assert(idx.subrange(0, n - 1) =~= idx.drop_last());
        assert(idx.drop_last().subrange(0, n - 1) =~= idx.drop_last());
        lemma_weight_split(e, n - 1);
    }
}

/// Going back from an offset gives one coordinate per axis.
pub proof fn lemma_unflatten_len(off: nat, e: Seq<usize>)
    requires
        forall|j: int| 0 <= j < e.len() ==> #[trigger] e[j] > 0,
    ensures
        unflatten(off, e).len() == e.len(),
    decreases e.len(),
{
    if e.len() > 0 {
        let d = e.drop_last();
        assert(e[e.len() - 1] > 0);
        assert forall|j: int| 0 <= j < d.len() implies #[trigger] d[j] > 0 by {
            assert(d[j] == e[j]);
        }
        lemma_unflatten_len(off / (e.last() as nat), d);
    }
}

/// Going back from an offset, the coordinate at axis `i` is the offset divided
/// by the weight of that axis, taken modulo its extent.
pub proof fn lemma_unflatten_closed_form(off: nat, e: Seq<usize>, i: int)
    requires
        forall|j: int| 0 <= j < e.len() ==> #[trigger] e[j] > 0,
        0 <= i < e.len(),
    ensures
        weight(e, i) > 0,
        unflatten(off, e)[i] as nat == (off / weight(e, i)) % (e[i] as nat),
    decreases e.len(),
{
    let n = e.len() as int;
    let d = e.drop_last();
    let m = e.last() as nat;
    assert(e[n - 1] > 0);
    lemma_weight_split(e, i);
    lemma_unflatten_len(off / m, d);
    if i == n - 1 {
        assert(off / 1 == off);
    } else {
        assert forall|j: int| 0 <= j < d.len() implies #[trigger] d[j] > 0 by {
            assert(d[j] == e[j]);
        }
        lemma_unflatten_closed_form(off / m, d, i);
        assert(unflatten(off, e)[i] == unflatten(off / m, d)[i]);
        lemma_div_denominator(off as int, m as int, weight(d, i) as int);
        assert(m * weight(d, i) == weight(d, i) * m) by (nonlinear_arith);
        assert(weight(d, i) * m > 0) by (nonlinear_arith)
            requires
                weight(d, i) > 0,
                m > 0,
        ;
    }
}

/// The multi-index at linear offset `index` of a grid with the given extents.
pub fn false_index(index: usize, dimensions: &[usize]) -> (r: Vec<usize>)
    requires
        index < extent_product(dimensions@),
    ensures
        r@ == unflatten(index as nat, dimensions@),
        in_bounds(r@, dimensions@),
        row_major_offset(r@, dimensions@) == index,
        forall|i: int| 0 <= i < r@.len() ==> #[trigger] r@[i] as nat == (index as nat / weight(dimensions@, i)) % (dimensions@[i] as nat),
{
    proof {
        lemma_positive_extents(dimensions@);
        lemma_unflatten_inverse(index as nat, dimensions@);
        assert forall|i: int| 0 <= i < dimensions@.len() implies
            #[trigger] unflatten(index as nat, dimensions@)[i] as nat == (index as nat / weight(dimensions@, i)) % (dimensions@[i] as nat) by {
            lemma_unflatten_closed_form(index as nat, dimensions@, i);
        }
    }
    let n = dimensions.len();
    let mut coords: Vec<usize> = Vec::with_capacity(n);
    let mut i: usize = 0;
    while i < n
        invariant
            i <= n,
            coords@.len() == i,
        decreases n - i,
    {
        coords.push(0);
        i = i + 1;
    }
    let mut rest: usize = index;
    let mut k: usize = n;
    assert(dimensions@.subrange(0, n as int) =~= dimensions@);
    assert(coords@.subrange(n as int, n as int) =~= seq![]);
    assert(unflatten(index as nat, dimensions@) + seq![] =~= unflatten(index as nat, dimensions@));
    while k > 0
        invariant
            k <= n,
            n == dimensions@.len(),
            coords@.len() == n,
            forall|j: int| 0 <= j < n ==> #[trigger] dimensions@[j] > 0,
            unflatten(index as nat, dimensions@)
                == unflatten(rest as nat, dimensions@.subrange(0, k as int)) + coords@.subrange(k as int, n as int),
        decreases k,
    {
        let m = dimensions[k - 1];
        proof {
            let d = dimensions@.subrange(0, k as int);
            assert(d.drop_last() == dimensions@.subrange(0, k - 1));
            assert(d.last() == m);
        }
        let ghost before = coords@;
        coords.set(k - 1, rest % m);
        proof {
            assert(coords@.subrange(k - 1, n as int) =~= seq![(rest % m) as usize] + before.subrange(k as int, n as int));
            let u = unflatten((rest / m) as nat, dimensions@.subrange(0, k - 1));
            assert(u.push((rest % m) as usize) + before.subrange(k as int, n as int)
                =~= u + coords@.subrange(k - 1, n as int));
        }
        rest = rest / m;
        k = k - 1;
    }
    assert(unflatten(rest as nat, dimensions@.subrange(0, 0)) =~= seq![]);
    assert(coords@.subrange(0, n as int) =~= coords@);
    coords
}

/// `x` clamped to the largest `usize`.
pub open spec fn saturate(x: nat) -> nat {
    if x > usize::MAX {
        usize::MAX as nat
    } else {
        x
    }
}

/// Clamping a factor before a product clamps the same as clamping the product.
pub proof fn lemma_saturate_mul(a: nat, b: nat)
    ensures
        saturate(saturate(a) * b) == saturate(a * b),
{
    if a > usize::MAX && b > 0 {
        assert(a * b >= a) by (nonlinear_arith)
            requires
                b > 0,
        ;
        assert(usize::MAX as nat * b >= usize::MAX as nat) by (nonlinear_arith)
            requires
                b > 0,
        ;
    }
}

/// Clamping a summand before a sum clamps the same as clamping the sum.
pub proof fn lemma_saturate_add(a: nat, b: nat)
    ensures
        saturate(saturate(a) + b) == saturate(a + b),
{
}

/// The product `a * b`, clamped to the largest `usize`.
pub(crate) fn saturating_product(a: usize, b: usize) -> (r: usize)
    ensures
        r as nat == saturate(a as nat * b as nat),
{
    match a.checked_mul(b) {
        Some(p) => p,
        None => usize::MAX,
    }
}

/// The product of the extents, clamped to the largest `usize`.
pub(crate) fn clamped_product(e: &[usize]) -> (r: usize)
    ensures
        r as nat == saturate(extent_product(e@)),
{
    let mut size: usize = 1;
    let mut k: usize = 0;
    while k < e.len()
        invariant
            k <= e@.len(),
            size as nat == saturate(extent_product(e@.subrange(0, k as int))),
        decreases e@.len() - k,
    {
        proof {
            let p = e@.subrange(0, k as int + 1);
            assert(p.drop_last() == e@.subrange(0, k as int));
            lemma_saturate_mul(extent_product(e@.subrange(0, k as int)), e@[k as int] as nat);
        }
        size = saturating_product(size, e[k]);
        k = k + 1;
    }
    assert(e@.subrange(0, e@.len() as int) == e@);
    size
}

} // verus!
