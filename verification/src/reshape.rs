//! Verbs that make or reshape an array: range, reshape, deshape,
//! transpose, reverse.

use vstd::prelude::*;
use crate::error::{Env, ErrorKind, RuntimeError, settles};
use crate::kernel::{cycled, force_length, is_range, range, reverse, reversed, rotated_shape, transpose, transposed, transposes, lemma_reversed_source, lemma_transposed_source};
use crate::number::EXACT_LIMIT;
use crate::shape::{product, checked_product, lemma_product_one};
use crate::value::{Array, ArrayType, ArrayView, Value, ValueView, views};

verus! {

impl ValueView {
    /// The value with its major cells in reverse order; a scalar is its
    /// own reverse.
    pub open spec fn reverse(self) -> ValueView {
        match self {
            ValueView::Array(a) => ValueView::Array(
                ArrayView { shape: a.shape, ty: a.ty, cells: reversed(a.shape, a.cells) },
            ),
            _ => self,
        }
    }

    /// The value as a list of all its storage cells.
    pub open spec fn deshape(self) -> ValueView {
        let a = self.coerce();
        ValueView::Array(
            ArrayView { shape: seq![a.cells.len() as usize], ty: a.ty, cells: a.cells },
        )
    }

    /// The value as an array whose first axis became the last.
    pub open spec fn transpose(self) -> ValueView {
        let a = self.coerce();
        ValueView::Array(
            ArrayView {
                shape: if transposes(a.shape) {
                    rotated_shape(a.shape)
                } else {
                    a.shape
                },
                ty: a.ty,
                cells: transposed(a.shape, a.cells),
            },
        )
    }

    /// `data` forced into the shape that `self` stands for: its storage
    /// is cut or repeated from its start to fill the shape.
    pub open spec fn reshape(self, data: ValueView) -> Result<ValueView, ErrorKind> {
        match self.decode_shape() {
            None => Err(ErrorKind::ShapeDecode),
            Some(s) => {
                let a = data.coerce();
                if product(s) > usize::MAX {
                    Err(ErrorKind::SizeOverflow)
                } else if a.cells.len() == 0 && product(s) > 0 {
                    Err(ErrorKind::EmptyHasNoFirst)
                } else {
                    Ok(
                        ValueView::Array(
                            ArrayView { shape: s, ty: a.ty, cells: cycled(a.cells, product(s)) },
                        ),
                    )
                }
            },
        }
    }

    /// How `after` and the result `r` relate to `self` when `self` is
    /// replaced by the range over the shape it stands for. The range has
    /// that shape; it is an array of numbers at rank 1 and an array of
    /// index vectors otherwise. A shape that asks for 2^53 cells or more,
    /// or for more than can be addressed, is refused.
    pub open spec fn ranges(self, after: ValueView, r: Result<(), RuntimeError>) -> bool {
        match self.decode_shape() {
            None => r is Err && r->Err_0.kind == ErrorKind::ShapeDecode && after == self,
            Some(s) => if product(s) >= 0x20_0000_0000_0000 || product(s) > usize::MAX {
                r is Err && r->Err_0.kind == ErrorKind::SizeOverflow && after == self
            } else {
                &&& r is Ok
                &&& after matches ValueView::Array(a)
                &&& a.shape == s
                &&& a.ty == if s.len() == 1 {
                    ArrayType::Num
                } else {
                    ArrayType::Value
                }
                &&& is_range(s, a.cells)
            },
        }
    }
}

/// Cutting or repeating the storage of a well-formed array gives cells
/// that are well formed and of the array's kind.
pub proof fn lemma_cycled_wf(a: ArrayView, shape: Seq<usize>)
    requires
        a.wf(),
        a.cells.len() > 0 || product(shape) == 0,
    ensures
        (ArrayView { shape, ty: a.ty, cells: cycled(a.cells, product(shape)) }).wf(),
{
    let c = cycled(a.cells, product(shape));
    let n = a.cells.len() as int;
    assert forall|i: int| 0 <= i < c.len() implies (#[trigger] c[i]).wf() && (a.ty == ArrayType::Num
        ==> c[i] is Num) && (a.ty == ArrayType::Char ==> c[i] is Char) by {
        assert(0 <= i % n < n) by (nonlinear_arith)
            requires
                n > 0,
                i >= 0,
        ;
        assert(a.cells[i % n].wf());
    }
}

/// Reversing keeps an array well formed.
pub proof fn lemma_reversed_wf(a: ArrayView)
    requires
        a.wf(),
    ensures
        (ArrayView { shape: a.shape, ty: a.ty, cells: reversed(a.shape, a.cells) }).wf(),
{
    let c = reversed(a.shape, a.cells);
    if a.shape.len() > 0 {
        assert forall|i: int| 0 <= i < c.len() implies (#[trigger] c[i]).wf() && (a.ty
            == ArrayType::Num ==> c[i] is Num) && (a.ty == ArrayType::Char ==> c[i] is Char) by {
            lemma_reversed_source(a.shape, i);
            assert(a.cells[crate::kernel::reversed_source(a.shape, i)].wf());
        }
    }
}

/// Transposing keeps the cells well formed and of the array's kind.
pub proof fn lemma_transposed_cells(a: ArrayView)
    requires
        a.wf(),
    ensures
        forall|i: int|
            0 <= i < a.cells.len() ==> (#[trigger] transposed(a.shape, a.cells)[i]).wf() && (a.ty
                == ArrayType::Num ==> transposed(a.shape, a.cells)[i] is Num) && (a.ty
                == ArrayType::Char ==> transposed(a.shape, a.cells)[i] is Char),
        transposed(a.shape, a.cells).len() == a.cells.len(),
{
    let c = transposed(a.shape, a.cells);
    assert forall|i: int| 0 <= i < a.cells.len() implies (#[trigger] c[i]).wf() && (a.ty
        == ArrayType::Num ==> c[i] is Num) && (a.ty == ArrayType::Char ==> c[i] is Char) by {
        if transposes(a.shape) {
            lemma_transposed_source(a.shape, i);
            assert(a.cells[crate::kernel::transposed_source(a.shape, i)].wf());
        } else {
            assert(a.cells[i].wf());
        }
    }
}

impl Value {
    /// Replaces the value, read as a shape, by the range over that shape.
    pub fn range(&mut self, env: &Env) -> (r: Result<(), RuntimeError>)
        requires
            old(self)@.wf(),
        ensures
            old(self)@.ranges(final(self)@, r),
            final(self)@.wf(),
    {
        let shape = match self.as_shape(
            env,
            "Range only accepts a single natural number or a list of natural numbers",
        ) {
            Ok(s) => s,
            Err(e) => {
                return Err(e);
            },
        };
        let total = match checked_product(shape.as_slice()) {
            Some(p) => p,
            None => {
                return Err(env.error(ErrorKind::SizeOverflow, "Range is too large"));
            },
        };
        if total as u64 >= EXACT_LIMIT {
            return Err(env.error(ErrorKind::SizeOverflow, "Range is too large"));
        }
        let data = range(shape.as_slice());
        let ty = if shape.len() == 1 {
            ArrayType::Num
        } else {
            ArrayType::Value
        };
        proof {
            let c = views(data@);
            assert forall|i: int| 0 <= i < c.len() && ty == ArrayType::Num implies #[trigger] c[i] is Num by {
                assert(crate::kernel::denotes(c[i], i));
            }
        }
        *self = Value::Array(Array::assemble(shape, ty, data));
        Ok(())
    }

    /// Reverses the order of the major cells.
    pub fn reverse(&mut self)
        requires
            old(self)@.wf(),
        ensures
            final(self)@ == old(self)@.reverse(),
            final(self)@.wf(),
    {
        if self.is_array() {
            let v = self.take_value();
            match v {
                Value::Array(a) => {
                    proof {
                        lemma_reversed_wf(a@);
                    }
                    let (shape, ty, mut cells) = a.into_parts();
                    reverse(shape.as_slice(), &mut cells);
                    *self = Value::Array(Array::assemble(shape, ty, cells));
                },
                other => {
                    *self = other;
                },
            }
        }
    }

    /// Turns the value into the list of all its storage cells.
    pub fn deshape(&mut self)
        requires
            old(self)@.wf(),
        ensures
            final(self)@ == old(self)@.deshape(),
            final(self)@.wf(),
    {
        let v = self.take_value();
        let a = v.coerce_into_array();
        let (_, ty, cells) = a.into_parts();
        let mut shape: Vec<usize> = Vec::new();
        shape.push(cells.len());
        proof {
            assert(shape@ =~= seq![cells@.len() as usize]);
            lemma_product_one(cells@.len() as usize);
        }
        *self = Value::Array(Array::assemble(shape, ty, cells));
    }

    /// Replaces the value, read as a shape, by `other` forced into that
    /// shape.
    pub fn reshape(&mut self, other: Value, env: &Env) -> (r: Result<(), RuntimeError>)
        requires
            old(self)@.wf(),
            other@.wf(),
        ensures
            settles(old(self)@, final(self)@, r, old(self)@.reshape(other@)),
            final(self)@.wf(),
    {
        let shape = match self.as_shape(env, "Shape must be a list of natural numbers") {
            Ok(s) => s,
            Err(e) => {
                return Err(e);
            },
        };
        let total = match checked_product(shape.as_slice()) {
            Some(p) => p,
            None => {
                return Err(env.error(ErrorKind::SizeOverflow, "Shape is too large"));
            },
        };
        let a = other.coerce_into_array();
        if a.count() == 0 && total > 0 {
            return Err(env.error(ErrorKind::EmptyHasNoFirst, "Cannot reshape an empty array"));
        }
        proof {
            lemma_cycled_wf(a@, shape@);
        }
        let (_, ty, mut cells) = a.into_parts();
        force_length(&mut cells, total);
        *self = Value::Array(Array::assemble(shape, ty, cells));
        Ok(())
    }

    /// Makes the first axis the last.
    pub fn transpose(&mut self)
        requires
            old(self)@.wf(),
        ensures
            final(self)@ == old(self)@.transpose(),
            final(self)@.wf(),
    {
        let v = self.take_value();
        let a = v.coerce_into_array();
        proof {
            lemma_transposed_cells(a@);
        }
        let (mut shape, ty, mut cells) = a.into_parts();
        transpose(&mut shape, &mut cells);
        *self = Value::Array(Array::assemble(shape, ty, cells));
    }
}

} // verus!
