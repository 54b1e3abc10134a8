//! Rotation of the cells along the leading axes.

use vstd::prelude::*;
use vstd::arithmetic::div_mod::{lemma_fundamental_div_mod, lemma_fundamental_div_mod_converse, lemma_add_mod_noop_right, lemma_mod_bound};
use crate::error::{Env, ErrorKind, RuntimeError, settles};
use crate::kernel::gather;
use crate::shape::{product, as_ints, in_bounds, ravel, unravel, unravel_index, ravel_index, lemma_unravel_bounds, lemma_ravel_bounds};
use crate::value::{Array, ArrayType, ArrayView, Value, ValueView, views};

verus! {

/// The multi-index from which the cell at multi-index `m` of the rotated
/// array comes: along each axis that has an offset, the offset is added
/// and the sum wraps around the extent.
pub open spec fn rotated_coords(index: Seq<int>, shape: Seq<usize>, m: Seq<int>) -> Seq<int> {
    Seq::new(
        m.len(),
        |j: int|
            if j < index.len() {
                (m[j] + index[j]) % (shape[j] as int)
            } else {
                m[j]
            },
    )
}

/// The position from which the cell at position `t` of the rotated array
/// comes.
pub open spec fn rotated_source(index: Seq<int>, shape: Seq<usize>, t: int) -> int {
    ravel(shape, rotated_coords(index, shape, unravel(shape, t)))
}

/// The cells rotated by the offsets of `index` along the leading axes.
pub open spec fn rotated<T>(index: Seq<int>, shape: Seq<usize>, cells: Seq<T>) -> Seq<T> {
    Seq::new(cells.len(), |t: int| cells[rotated_source(index, shape, t)])
}

/// The offsets as mathematical integers.
pub open spec fn offsets(index: Seq<isize>) -> Seq<int> {
    Seq::new(index.len(), |j: int| index[j] as int)
}

/// The source multi-index of a multi-index within bounds is within
/// bounds.
pub proof fn lemma_rotated_coords(index: Seq<int>, shape: Seq<usize>, m: Seq<int>)
    requires
        in_bounds(shape, m),
    ensures
        in_bounds(shape, rotated_coords(index, shape, m)),
{
    let c = rotated_coords(index, shape, m);
    assert forall|j: int| 0 <= j < shape.len() implies 0 <= #[trigger] c[j] < shape[j] by {
        assert(0 <= m[j] < shape[j]);
        if j < index.len() {
            lemma_mod_bound(m[j] + index[j], shape[j] as int);
        }
    }
}

/// The source of a position of the rotated array is a position of the
/// array.
pub proof fn lemma_rotated_source(index: Seq<int>, shape: Seq<usize>, t: int)
    requires
        0 <= t < product(shape),
    ensures
        0 <= rotated_source(index, shape, t) < product(shape),
{
    lemma_unravel_bounds(shape, t);
    lemma_rotated_coords(index, shape, unravel(shape, t));
    lemma_ravel_bounds(shape, rotated_coords(index, shape, unravel(shape, t)));
}

impl ValueView {
    /// `target` with its cells rotated by the offsets that `self` stands
    /// for: along the first axis by the first offset, along the second
    /// by the second, and so on; offsets beyond the rank are ignored. A
    /// scalar is its own rotation.
    pub open spec fn rotate(self, target: ValueView) -> Result<ValueView, ErrorKind> {
        match self.decode_indices() {
            None => Err(ErrorKind::ShapeDecode),
            Some(index) => match target {
                ValueView::Array(a) => Ok(
                    ValueView::Array(
                        ArrayView {
                            shape: a.shape,
                            ty: a.ty,
                            cells: rotated(offsets(index), a.shape, a.cells),
                        },
                    ),
                ),
                _ => Ok(target),
            },
        }
    }
}

/// Rotating keeps an array well formed.
pub proof fn lemma_rotated_wf(index: Seq<int>, a: ArrayView)
    requires
        a.wf(),
    ensures
        (ArrayView { shape: a.shape, ty: a.ty, cells: rotated(index, a.shape, a.cells) }).wf(),
{
    let c = rotated(index, a.shape, a.cells);
    assert forall|t: int| 0 <= t < c.len() implies (#[trigger] c[t]).wf() && (a.ty == ArrayType::Num
        ==> c[t] is Num) && (a.ty == ArrayType::Char ==> c[t] is Char) by {
        lemma_rotated_source(index, a.shape, t);
        assert(a.cells[rotated_source(index, a.shape, t)].wf());
    }
}

/// The position `(m + o) mod s` along an axis of extent `s`.
pub fn wrap(m: usize, o: isize, s: usize) -> (r: usize)
    requires
        m < s,
    ensures
        r == (m + o) % (s as int),
        r < s,
{
    let wide: u128 = s as u128;
    let ghost d = s as int;
    let shift: u128 = if o >= 0 {
        (o as u128) % wide
    } else {
        let a: u128 = (-(o as i128)) as u128;
        let neg: u128 = a % wide;
        proof {
            lemma_fundamental_div_mod(a as int, d);
            let q = (a as int) / d;
            assert(o as int == (-q - 1) * d + (d - neg)) by (nonlinear_arith)
                requires
                    a as int == d * q + neg,
                    o as int == -(a as int),
            ;
            if neg > 0 {
                lemma_fundamental_div_mod_converse(o as int, d, -q - 1, d - neg);
            } else {
                assert(o as int == (-q) * d + 0) by (nonlinear_arith)
                    requires
                        o as int == (-q - 1) * d + d,
                ;
                lemma_fundamental_div_mod_converse(o as int, d, -q, 0);
            }
        }
        if neg == 0 {
            0
        } else {
            wide - neg
        }
    };
    assert(shift == (o as int) % d);
    proof {
        lemma_add_mod_noop_right(m as int, o as int, d);
        lemma_mod_bound(m + o, d);
    }
    (((m as u128) + shift) % wide) as usize
}

/// Rotates the cells by the offsets of `index` along the leading axes.
pub fn rotate(index: &Vec<isize>, shape: &[usize], data: &mut Vec<Value>)
    requires
        old(data)@.len() == product(shape@),
    ensures
        views(final(data)@) == rotated(offsets(index@), shape@, views(old(data)@)),
{
    let len = data.len();
    let rank = shape.len();
    let ghost ints = offsets(index@);
    let mut sources: Vec<usize> = Vec::new();
    let mut t: usize = 0;
    while t < len
        invariant
            t <= len,
            len == product(shape@),
            len == data@.len(),
            rank == shape@.len(),
            ints == offsets(index@),
            sources@.len() == t,
            forall|k: int|
                0 <= k < t ==> #[trigger] sources@[k] == rotated_source(ints, shape@, k) && sources@[k]
                    < len,
        decreases len - t,
    {
        let m = unravel_index(shape, t);
        proof {
            lemma_unravel_bounds(shape@, t as int);
            lemma_rotated_coords(ints, shape@, unravel(shape@, t as int));
        }
        let ghost want = rotated_coords(ints, shape@, unravel(shape@, t as int));
        let mut c: Vec<usize> = Vec::new();
        let mut j: usize = 0;
        while j < rank
            invariant
                j <= rank,
                rank == shape@.len(),
                m@.len() == rank,
                as_ints(m@) == unravel(shape@, t as int),
                in_bounds(shape@, unravel(shape@, t as int)),
                ints == offsets(index@),
                want == rotated_coords(ints, shape@, unravel(shape@, t as int)),
                c@.len() == j,
                forall|i: int| 0 <= i < j ==> #[trigger] c@[i] == want[i],
            decreases rank - j,
        {
            assert(as_ints(m@)[j as int] == m@[j as int]);
            assert(0 <= unravel(shape@, t as int)[j as int] < shape@[j as int]);
            if j < index.len() {
                assert(ints[j as int] == index@[j as int]);
                c.push(wrap(m[j], index[j], shape[j]));
            } else {
                c.push(m[j]);
            }
            j += 1;
        }
        proof {
            assert(as_ints(c@) =~= want);
            lemma_ravel_bounds(shape@, want);
        }
        sources.push(ravel_index(shape, &c));
        t += 1;
    }
    let out = gather(data, &sources);
    proof {
        assert(views(out@) =~= rotated(ints, shape@, views(data@)));
    }
    *data = out;
}

impl Value {
    /// Replaces the value, read as a list of offsets, by `target` with
    /// its cells rotated by them.
    pub fn rotate(&mut self, target: Value, env: &Env) -> (r: Result<(), RuntimeError>)
        requires
            old(self)@.wf(),
            target@.wf(),
        ensures
            settles(old(self)@, final(self)@, r, old(self)@.rotate(target@)),
            final(self)@.wf(),
    {
        let index = match self.as_indices(env, "Index must be a list of integers") {
            Ok(i) => i,
            Err(e) => {
                return Err(e);
            },
        };
        match target {
            Value::Array(a) => {
                proof {
                    lemma_rotated_wf(offsets(index@), a@);
                }
                let (shape, ty, mut cells) = a.into_parts();
                rotate(&index, shape.as_slice(), &mut cells);
                *self = Value::Array(Array::assemble(shape, ty, cells));
            },
            other => {
                *self = other;
            },
        }
        Ok(())
    }
}

} // verus!
