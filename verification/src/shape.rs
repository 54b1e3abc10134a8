//! Shapes: products of extents and row-major index arithmetic.

use vstd::prelude::*;

verus! {

/// Product of the extents of a shape; 1 for the empty shape.
pub open spec fn product(shape: Seq<usize>) -> nat
    decreases shape.len(),
{
    if shape.len() == 0 {
        1
    } else {
        product(shape.drop_last()) * (shape.last() as nat)
    }
}

/// Number of storage cells in one major cell: the product of all extents
/// but the first.
pub open spec fn cell_size(shape: Seq<usize>) -> nat {
    product(shape.skip(1))
}

/// The extents as mathematical integers.
pub open spec fn as_ints(s: Seq<usize>) -> Seq<int> {
    Seq::new(s.len(), |j: int| s[j] as int)
}

/// `idx` is a multi-index into an array of the given shape.
pub open spec fn in_bounds(shape: Seq<usize>, idx: Seq<int>) -> bool {
    &&& idx.len() == shape.len()
    &&& forall|j: int| 0 <= j < shape.len() ==> 0 <= #[trigger] idx[j] < shape[j]
}

/// Row-major position of a multi-index (last axis fastest).
pub open spec fn ravel(shape: Seq<usize>, idx: Seq<int>) -> int
    decreases shape.len(),
{
    if shape.len() == 0 {
        0
    } else {
        ravel(shape.drop_last(), idx.drop_last()) * (shape.last() as int) + idx.last()
    }
}

/// The multi-index of a row-major position.
pub open spec fn unravel(shape: Seq<usize>, t: int) -> Seq<int>
    decreases shape.len(),
{
    if shape.len() == 0 {
        Seq::empty()
    } else {
        unravel(shape.drop_last(), t / (shape.last() as int)).push(t % (shape.last() as int))
    }
}

pub proof fn lemma_product_concat(a: Seq<usize>, b: Seq<usize>)
    ensures
        product(a + b) == product(a) * product(b),
    decreases b.len(),
{
    if b.len() == 0 {
        assert(a + b =~= a);
        assert(product(b) == 1);
        assert(product(a) * 1 == product(a)) by (nonlinear_arith);
    } else {
        lemma_product_concat(a, b.drop_last());
        assert((a + b).drop_last() =~= a + b.drop_last());
        assert((a + b).last() == b.last());
        let x = product(a) as int;
        let y = product(b.drop_last()) as int;
        let z = b.last() as int;
        assert(product(a + b) == product((a + b).drop_last()) * (b.last() as nat));
        assert(product(b) == y * z);
        assert((x * y) * z == x * (y * z)) by (nonlinear_arith);
    }
}

pub proof fn lemma_product_one(x: usize)
    ensures
        product(seq![x]) == x,
{
    assert(seq![x].drop_last() =~= Seq::<usize>::empty());
    assert(product(Seq::<usize>::empty()) == 1);
    assert(seq![x].last() == x);
    assert(product(seq![x]) == product(seq![x].drop_last()) * (x as nat));
    assert(1 * (x as nat) == x) by (nonlinear_arith);
}

/// The product is the first extent times the size of a major cell.
pub proof fn lemma_product_first(shape: Seq<usize>)
    requires
        shape.len() > 0,
    ensures
        product(shape) == shape[0] * cell_size(shape),
{
    assert(shape =~= seq![shape[0]] + shape.skip(1));
    lemma_product_concat(seq![shape[0]], shape.skip(1));
    lemma_product_one(shape[0]);
}

/// A shape with a positive product has no zero extent.
pub proof fn lemma_product_positive(shape: Seq<usize>)
    requires
        product(shape) > 0,
    ensures
        forall|j: int| 0 <= j < shape.len() ==> #[trigger] shape[j] > 0,
    decreases shape.len(),
{
    if shape.len() > 0 {
        let p = product(shape.drop_last()) as int;
        let s = shape.last() as int;
        assert(p > 0 && s > 0) by (nonlinear_arith)
            requires
                p * s > 0,
                p >= 0,
                s >= 0,
        ;
        lemma_product_positive(shape.drop_last());
        assert forall|j: int| 0 <= j < shape.len() implies #[trigger] shape[j] > 0 by {
            if j < shape.len() - 1 {
                assert(shape.drop_last()[j] == shape[j]);
            }
        }
    }
}

/// A shape without a zero extent has a positive product.
pub proof fn lemma_product_of_positive(shape: Seq<usize>)
    requires
        forall|j: int| 0 <= j < shape.len() ==> #[trigger] shape[j] > 0,
    ensures
        product(shape) > 0,
    decreases shape.len(),
{
    if shape.len() > 0 {
        assert forall|j: int| 0 <= j < shape.drop_last().len() implies #[trigger] shape.drop_last()[j]
            > 0 by {
            assert(shape.drop_last()[j] == shape[j]);
        }
        lemma_product_of_positive(shape.drop_last());
        let p = product(shape.drop_last()) as int;
        let s = shape.last() as int;
        assert(p * s > 0) by (nonlinear_arith)
            requires
                p > 0,
                s > 0,
        ;
    }
}

/// A shape with a zero extent has product 0.
pub proof fn lemma_product_zero(shape: Seq<usize>, j: int)
    requires
        0 <= j < shape.len(),
        shape[j] == 0,
    ensures
        product(shape) == 0,
{
    if product(shape) > 0 {
        lemma_product_positive(shape);
    }
}

/// A prefix of a shape without zero extents has no larger product.
pub proof fn lemma_product_prefix(shape: Seq<usize>, j: int)
    requires
        0 <= j <= shape.len(),
        forall|i: int| j <= i < shape.len() ==> #[trigger] shape[i] > 0,
    ensures
        product(shape.take(j)) <= product(shape),
{
    assert(shape =~= shape.take(j) + shape.skip(j));
    lemma_product_concat(shape.take(j), shape.skip(j));
    assert forall|i: int| 0 <= i < shape.skip(j).len() implies #[trigger] shape.skip(j)[i] > 0 by {
        assert(shape.skip(j)[i] == shape[i + j]);
    }
    lemma_product_of_positive(shape.skip(j));
    let x = product(shape.take(j)) as int;
    let y = product(shape.skip(j)) as int;
    assert(x <= x * y) by (nonlinear_arith)
        requires
            x >= 0,
            y >= 1,
    ;
}

/// A multi-index within bounds has a position within the storage.
pub proof fn lemma_ravel_bounds(shape: Seq<usize>, idx: Seq<int>)
    requires
        in_bounds(shape, idx),
    ensures
        0 <= ravel(shape, idx) < product(shape),
    decreases shape.len(),
{
    if shape.len() > 0 {
        assert forall|j: int| 0 <= j < shape.drop_last().len() implies 0 <= #[trigger] idx.drop_last()[j]
            < shape.drop_last()[j] by {
            assert(idx.drop_last()[j] == idx[j]);
            assert(shape.drop_last()[j] == shape[j]);
        }
        lemma_ravel_bounds(shape.drop_last(), idx.drop_last());
        let r = ravel(shape.drop_last(), idx.drop_last());
        let p = product(shape.drop_last()) as int;
        let s = shape.last() as int;
        let i = idx.last();
        assert(0 <= r * s + i < p * s) by (nonlinear_arith)
            requires
                0 <= r < p,
                0 <= i < s,
        ;
    }
}

/// A position within the storage has a multi-index within bounds.
pub proof fn lemma_unravel_bounds(shape: Seq<usize>, t: int)
    requires
        0 <= t < product(shape),
    ensures
        in_bounds(shape, unravel(shape, t)),
    decreases shape.len(),
{
    if shape.len() > 0 {
        let p = product(shape.drop_last()) as int;
        let s = shape.last() as int;
        assert(s > 0 && 0 <= t / s < p && 0 <= t % s < s) by (nonlinear_arith)
            requires
                0 <= t < p * s,
                p >= 0,
                s >= 0,
        ;
        lemma_unravel_bounds(shape.drop_last(), t / s);
        let u = unravel(shape, t);
        let v = unravel(shape.drop_last(), t / s);
        assert(u == v.push(t % s));
        assert forall|j: int| 0 <= j < shape.len() implies 0 <= #[trigger] u[j] < shape[j] by {
            if j < shape.len() - 1 {
                assert(u[j] == v[j]);
                assert(shape.drop_last()[j] == shape[j]);
            }
        }
    }
}

/// The position of the multi-index of a position is that position.
pub proof fn lemma_ravel_unravel(shape: Seq<usize>, t: int)
    requires
        0 <= t < product(shape),
    ensures
        ravel(shape, unravel(shape, t)) == t,
    decreases shape.len(),
{
    if shape.len() > 0 {
        let p = product(shape.drop_last()) as int;
        let s = shape.last() as int;
        assert(s > 0 && 0 <= t / s < p && (t / s) * s + t % s == t) by (nonlinear_arith)
            requires
                0 <= t < p * s,
                p >= 0,
                s >= 0,
        ;
        lemma_ravel_unravel(shape.drop_last(), t / s);
        let v = unravel(shape.drop_last(), t / s);
        assert(v.push(t % s).drop_last() =~= v);
    } else {
        assert(product(shape) == 1);
    }
}

/// The multi-index of the position of a multi-index is that multi-index.
pub proof fn lemma_unravel_ravel(shape: Seq<usize>, idx: Seq<int>)
    requires
        in_bounds(shape, idx),
    ensures
        unravel(shape, ravel(shape, idx)) == idx,
    decreases shape.len(),
{
    if shape.len() > 0 {
        assert forall|j: int| 0 <= j < shape.drop_last().len() implies 0 <= #[trigger] idx.drop_last()[j]
            < shape.drop_last()[j] by {
            assert(idx.drop_last()[j] == idx[j]);
            assert(shape.drop_last()[j] == shape[j]);
        }
        lemma_unravel_ravel(shape.drop_last(), idx.drop_last());
        let r = ravel(shape.drop_last(), idx.drop_last());
        let s = shape.last() as int;
        let i = idx.last();
        assert((r * s + i) / s == r && (r * s + i) % s == i) by (nonlinear_arith)
            requires
                0 <= i < s,
        ;
        assert(idx.drop_last().push(i) =~= idx);
    } else {
        assert(idx =~= Seq::<int>::empty());
    }
}

/// Every digit of a position is at most the position.
pub proof fn lemma_unravel_le(shape: Seq<usize>, t: int)
    requires
        0 <= t < product(shape),
    ensures
        forall|j: int| 0 <= j < shape.len() ==> 0 <= #[trigger] unravel(shape, t)[j] <= t,
    decreases shape.len(),
{
    if shape.len() > 0 {
        let p = product(shape.drop_last()) as int;
        let s = shape.last() as int;
        assert(s > 0 && 0 <= t / s < p && 0 <= t % s <= t && t / s <= t) by (nonlinear_arith)
            requires
                0 <= t < p * s,
                p >= 0,
                s >= 0,
        ;
        lemma_unravel_le(shape.drop_last(), t / s);
        let u = unravel(shape, t);
        let v = unravel(shape.drop_last(), t / s);
        lemma_unravel_bounds(shape.drop_last(), t / s);
        assert(u == v.push(t % s));
        assert forall|j: int| 0 <= j < shape.len() implies 0 <= #[trigger] u[j] <= t by {
            if j < shape.len() - 1 {
                assert(u[j] == v[j]);
            }
        }
    }
}

/// Number of storage cells in one major cell of a rectangular array with
/// at least one major cell.
pub fn major_stride(shape: &[usize], len: usize) -> (cs: usize)
    requires
        shape@.len() > 0,
        shape@[0] > 0,
        len == product(shape@),
    ensures
        cs == cell_size(shape@),
        shape@[0] * cs == len,
{
    proof {
        lemma_product_first(shape@);
        let s = shape@[0] as int;
        let c = cell_size(shape@) as int;
        assert((s * c) / s == c) by (nonlinear_arith)
            requires
                s > 0,
        ;
    }
    len / shape[0]
}

/// The product of the extents, unless it exceeds `usize`.
pub fn checked_product(shape: &[usize]) -> (r: Option<usize>)
    ensures
        r matches Some(p) ==> p == product(shape@),
        r is None ==> product(shape@) > usize::MAX,
{
    let mut j: usize = 0;
    while j < shape.len()
        invariant
            j <= shape.len(),
            forall|i: int| 0 <= i < j ==> #[trigger] shape@[i] > 0,
        decreases shape.len() - j,
    {
        if shape[j] == 0 {
            proof {
                lemma_product_zero(shape@, j as int);
            }
            return Some(0);
        }
        j += 1;
    }
    let mut p: usize = 1;
    j = 0;
    proof {
        assert(shape@.take(0) =~= Seq::<usize>::empty());
    }
    while j < shape.len()
        invariant
            j <= shape.len(),
            forall|i: int| 0 <= i < shape.len() ==> #[trigger] shape@[i] > 0,
            p == product(shape@.take(j as int)),
        decreases shape.len() - j,
    {
        proof {
            assert(shape@.take(j + 1).drop_last() =~= shape@.take(j as int));
            assert(shape@.take(j + 1).last() == shape@[j as int]);
            lemma_product_prefix(shape@, j + 1);
        }
        match p.checked_mul(shape[j]) {
            Some(q) => {
                p = q;
            },
            None => {
                return None;
            },
        }
        j += 1;
    }
    proof {
        assert(shape@.take(shape.len() as int) =~= shape@);
    }
    Some(p)
}

/// The multi-index of position `t`.
pub fn unravel_index(shape: &[usize], t: usize) -> (r: Vec<usize>)
    requires
        t < product(shape@),
    ensures
        as_ints(r@) == unravel(shape@, t as int),
        r@.len() == shape@.len(),
{
    proof {
        lemma_product_positive(shape@);
    }
    let rank = shape.len();
    let mut digits: Vec<usize> = Vec::new();
    let mut j: usize = 0;
    while j < rank
        invariant
            j <= rank,
            digits@.len() == j,
        decreases rank - j,
    {
        digits.push(0);
        j += 1;
    }
    let mut rem: usize = t;
    proof {
        assert(shape@.take(rank as int) =~= shape@);
        assert(as_ints(digits@.skip(rank as int)) =~= Seq::<int>::empty());
        assert(unravel(shape@, t as int) + Seq::<int>::empty() =~= unravel(shape@, t as int));
    }
    while j > 0
        invariant
            j <= rank,
            rank == shape@.len(),
            digits@.len() == rank,
            forall|i: int| 0 <= i < shape@.len() ==> #[trigger] shape@[i] > 0,
            unravel(shape@, t as int) =~= unravel(shape@.take(j as int), rem as int) + as_ints(
                digits@.skip(j as int),
            ),
        decreases j,
    {
        j -= 1;
        let s = shape[j];
        let ghost before = digits@;
        digits.set(j, rem % s);
        proof {
            assert(shape@.take(j + 1).drop_last() =~= shape@.take(j as int));
            assert(shape@.take(j + 1).last() == s);
            assert(as_ints(digits@.skip(j as int)) =~= seq![(rem % s) as int] + as_ints(
                before.skip(j + 1),
            ));
            let u = unravel(shape@.take(j as int), (rem / s) as int);
            assert(u.push((rem % s) as int) + as_ints(before.skip(j + 1)) =~= u + (seq![
                (rem % s) as int,
            ] + as_ints(before.skip(j + 1))));
        }
        rem = rem / s;
    }
    proof {
        assert(shape@.take(0) =~= Seq::<usize>::empty());
        assert(digits@.skip(0) =~= digits@);
        assert(Seq::<int>::empty() + as_ints(digits@) =~= as_ints(digits@));
    }
    digits
}

/// The position of a multi-index within bounds.
pub fn ravel_index(shape: &[usize], idx: &Vec<usize>) -> (r: usize)
    requires
        in_bounds(shape@, as_ints(idx@)),
        product(shape@) <= usize::MAX,
    ensures
        r == ravel(shape@, as_ints(idx@)),
        r < product(shape@),
{
    let rank = shape.len();
    let mut acc: usize = 0;
    let mut j: usize = 0;
    let ghost ints = as_ints(idx@);
    proof {
        assert forall|i: int| 0 <= i < shape@.len() implies #[trigger] shape@[i] > 0 by {
            assert(0 <= ints[i] < shape@[i]);
        }
    }
    while j < rank
        invariant
            j <= rank,
            rank == shape@.len(),
            idx@.len() == rank,
            ints == as_ints(idx@),
            in_bounds(shape@, ints),
            forall|i: int| 0 <= i < shape@.len() ==> #[trigger] shape@[i] > 0,
            product(shape@) <= usize::MAX,
            acc == ravel(shape@.take(j as int), ints.take(j as int)),
        decreases rank - j,
    {
        proof {
            let sh = shape@.take(j + 1);
            let ix = ints.take(j + 1);
            assert(sh.drop_last() =~= shape@.take(j as int));
            assert(ix.drop_last() =~= ints.take(j as int));
            assert(sh.last() == shape@[j as int]);
            assert(ix.last() == idx@[j as int]);
            assert(0 <= ints[j as int] < shape@[j as int]);
            assert forall|i: int| 0 <= i < sh.len() implies 0 <= #[trigger] ix[i] < sh[i] by {
                assert(0 <= ints[i] < shape@[i]);
            }
            lemma_ravel_bounds(sh, ix);
            lemma_product_prefix(shape@, j + 1);
        }
        acc = acc * shape[j] + idx[j];
        j += 1;
    }
    proof {
        assert(shape@.take(rank as int) =~= shape@);
        assert(ints.take(rank as int) =~= ints);
        lemma_ravel_bounds(shape@, ints);
    }
    acc
}

} // verus!
