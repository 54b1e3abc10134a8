//! Verbs that put values together: enclose, pair, couple, join; and
//! first, which takes the first major cell out.

use vstd::prelude::*;
use crate::error::{Env, ErrorKind, RuntimeError, settles};
use crate::normalize::{same_shape, same_type};
use crate::shape::{product, lemma_product_one, lemma_product_first, lemma_product_concat};
use crate::value::{Array, ArrayType, ArrayView, Value, ValueView, views, clone_tail};

verus! {

/// The storage kind that holds the cells of two arrays: their common
/// kind, or boxed values.
pub open spec fn merged_type(a: ArrayType, b: ArrayType) -> ArrayType {
    if a == b {
        a
    } else {
        ArrayType::Value
    }
}

impl ValueView {
    /// The rank-0 box around the value.
    pub open spec fn enclose(self) -> ValueView {
        ValueView::Array(
            (ArrayView { shape: Seq::empty(), ty: ArrayType::Value, cells: seq![self] }).normalize(
                0,
            ),
        )
    }

    /// The list of the two values.
    pub open spec fn pair(self, other: ValueView) -> ValueView {
        ValueView::Array(
            (ArrayView { shape: seq![2usize], ty: ArrayType::Value, cells: seq![self, other] })
                .normalize(0),
        )
    }

    /// The array whose two major cells are `self` and `other`, which
    /// must be of one shape. A function handle cannot be coupled.
    pub open spec fn couple(self, other: ValueView) -> Result<ValueView, ErrorKind> {
        if self is Function || other is Function {
            Err(ErrorKind::TypeError)
        } else {
            let a = self.coerce();
            let b = other.coerce();
            if a.shape != b.shape {
                Err(ErrorKind::LengthMismatch)
            } else {
                Ok(
                    ValueView::Array(
                        ArrayView {
                            shape: seq![2usize] + a.shape,
                            ty: merged_type(a.ty, b.ty),
                            cells: a.cells + b.cells,
                        },
                    ),
                )
            }
        }
    }

    /// The value as an operand of join: an array of rank 1 or more, a
    /// scalar or rank-0 array counting as a list of one cell.
    pub open spec fn join_operand(self) -> ArrayView {
        let a = self.coerce();
        if a.shape.len() == 0 {
            ArrayView { shape: seq![1usize], ty: a.ty, cells: a.cells }
        } else {
            a
        }
    }

    /// The two values joined along the first axis. Of equal rank, their
    /// major cells follow one another; where the ranks differ by one, the
    /// value of lower rank is one more major cell of the other.
    pub open spec fn join(self, other: ValueView) -> Result<ValueView, ErrorKind> {
        let a = self.join_operand();
        let b = other.join_operand();
        let ty = merged_type(a.ty, b.ty);
        let cells = a.cells + b.cells;
        let (fits, count, tail) = if a.shape.len() == b.shape.len() {
            (a.shape.skip(1) == b.shape.skip(1), a.shape[0] + b.shape[0], a.shape.skip(1))
        } else if a.shape.len() == b.shape.len() + 1 {
            (a.shape.skip(1) == b.shape, a.shape[0] + 1, b.shape)
        } else if b.shape.len() == a.shape.len() + 1 {
            (b.shape.skip(1) == a.shape, b.shape[0] + 1, a.shape)
        } else {
            (false, 0, a.shape)
        };
        if !fits {
            Err(ErrorKind::LengthMismatch)
        } else if count > usize::MAX {
            Err(ErrorKind::SizeOverflow)
        } else {
            Ok(
                ValueView::Array(
                    (ArrayView { shape: seq![count as usize] + tail, ty, cells }).normalize(0),
                ),
            )
        }
    }

    /// The first major cell of an array; a scalar is its own first.
    pub open spec fn first(self) -> Result<ValueView, ErrorKind> {
        match self {
            ValueView::Array(a) => if a.len() == 0 {
                Err(ErrorKind::EmptyHasNoFirst)
            } else {
                Ok(a.major(0))
            },
            _ => Ok(self),
        }
    }
}

/// The cells of two well-formed arrays, one after the other, are well
/// formed and of the merged kind.
pub proof fn lemma_joined_cells(a: ArrayView, b: ArrayView)
    requires
        a.wf(),
        b.wf(),
    ensures
        forall|i: int|
            0 <= i < (a.cells + b.cells).len() ==> {
                &&& (#[trigger] (a.cells + b.cells)[i]).wf()
                &&& merged_type(a.ty, b.ty) == ArrayType::Num ==> (a.cells + b.cells)[i] is Num
                &&& merged_type(a.ty, b.ty) == ArrayType::Char ==> (a.cells + b.cells)[i] is Char
            },
{
    assert forall|i: int| 0 <= i < (a.cells + b.cells).len() implies {
        &&& (#[trigger] (a.cells + b.cells)[i]).wf()
        &&& merged_type(a.ty, b.ty) == ArrayType::Num ==> (a.cells + b.cells)[i] is Num
        &&& merged_type(a.ty, b.ty) == ArrayType::Char ==> (a.cells + b.cells)[i] is Char
    } by {
        if i < a.cells.len() {
            assert(a.cells[i].wf());
        } else {
            assert(b.cells[i - a.cells.len()].wf());
        }
    }
}

/// The product of a shape with one more extent in front.
pub proof fn lemma_product_cons(n: usize, tail: Seq<usize>)
    ensures
        product(seq![n] + tail) == n * product(tail),
{
    lemma_product_concat(seq![n], tail);
    lemma_product_one(n);
}

/// The shape that starts with `n` and goes on with `tail`.
fn cons_shape(n: usize, tail: &Vec<usize>, from: usize) -> (r: Vec<usize>)
    requires
        from <= tail@.len(),
    ensures
        r@ == seq![n] + tail@.skip(from as int),
{
    let mut shape: Vec<usize> = Vec::new();
    shape.push(n);
    let mut i: usize = from;
    while i < tail.len()
        invariant
            from <= i <= tail@.len(),
            shape@.len() == 1 + i - from,
            shape@[0] == n,
            forall|k: int| 1 <= k < shape@.len() ==> #[trigger] shape@[k] == tail@[from + k - 1],
        decreases tail@.len() - i,
    {
        shape.push(tail[i]);
        i += 1;
    }
    assert(shape@ =~= seq![n] + tail@.skip(from as int));
    shape
}

/// Whether `a[from_a..]` and `b[from_b..]` are the same.
fn same_tail(a: &Vec<usize>, from_a: usize, b: &Vec<usize>, from_b: usize) -> (r: bool)
    requires
        from_a <= a@.len(),
        from_b <= b@.len(),
    ensures
        r == (a@.skip(from_a as int) == b@.skip(from_b as int)),
{
    let x = clone_tail(a, from_a);
    let y = clone_tail(b, from_b);
    same_shape(&x, &y)
}

impl Value {
    /// Puts the value into a rank-0 box.
    pub fn enclose(&mut self)
        requires
            old(self)@.wf(),
        ensures
            final(self)@ == old(self)@.enclose(),
            final(self)@.wf(),
    {
        let v = self.take_value();
        let mut cells: Vec<Value> = Vec::new();
        cells.push(v);
        let shape: Vec<usize> = Vec::new();
        proof {
            assert(views(cells@) =~= seq![v@]);
            assert(shape@ =~= Seq::<usize>::empty());
            assert(product(shape@) == 1);
        }
        *self = Value::Array(Array::assemble(shape, ArrayType::Value, cells).normalized(0));
    }

    /// Replaces the value by the list of itself and `other`.
    pub fn pair(&mut self, other: Value)
        requires
            old(self)@.wf(),
            other@.wf(),
        ensures
            final(self)@ == old(self)@.pair(other@),
            final(self)@.wf(),
    {
        let v = self.take_value();
        let mut cells: Vec<Value> = Vec::new();
        cells.push(v);
        cells.push(other);
        let mut shape: Vec<usize> = Vec::new();
        shape.push(2);
        proof {
            assert(views(cells@) =~= seq![v@, other@]);
            assert(shape@ =~= seq![2usize]);
            lemma_product_one(2);
        }
        *self = Value::Array(Array::assemble(shape, ArrayType::Value, cells).normalized(0));
    }

    /// Replaces the value by the array whose two major cells are itself
    /// and `other`.
    pub fn couple(&mut self, other: Value, env: &Env) -> (r: Result<(), RuntimeError>)
        requires
            old(self)@.wf(),
            other@.wf(),
        ensures
            settles(old(self)@, final(self)@, r, old(self)@.couple(other@)),
            final(self)@.wf(),
    {
        match self {
            Value::Function(_) => {
                return Err(env.error(ErrorKind::TypeError, "Cannot couple a function"));
            },
            _ => {},
        }
        match &other {
            Value::Function(_) => {
                return Err(env.error(ErrorKind::TypeError, "Cannot couple a function"));
            },
            _ => {},
        }
        let fits = match self {
            Value::Array(a) => match &other {
                Value::Array(b) => same_shape(a.shape(), b.shape()),
                _ => a.rank() == 0,
            },
            _ => match &other {
                Value::Array(b) => b.rank() == 0,
                _ => true,
            },
        };
        proof {
            let a = self@.coerce();
            let b = other@.coerce();
            if a.shape.len() == 0 && b.shape.len() == 0 {
                assert(a.shape =~= b.shape);
            }
        }
        if !fits {
            return Err(
                env.error(ErrorKind::LengthMismatch, "Cannot couple arrays of different shapes"),
            );
        }
        let v = self.take_value();
        let a = v.coerce_into_array();
        let b = other.coerce_into_array();
        proof {
            lemma_joined_cells(a@, b@);
            lemma_product_cons(2, a@.shape);
        }
        let ty = if same_type(a.ty(), b.ty()) {
            a.ty()
        } else {
            ArrayType::Value
        };
        let (tail, _, mut cells) = a.into_parts();
        let (_, _, mut more) = b.into_parts();
        let ghost left = views(cells@);
        let ghost right = views(more@);
        cells.append(&mut more);
        let shape = cons_shape(2, &tail, 0);
        proof {
            assert(views(cells@) =~= left + right);
            assert(tail@.skip(0) =~= tail@);
        }
        *self = Value::Array(Array::assemble(shape, ty, cells));
        Ok(())
    }

    /// The shape of the value as an operand of join.
    fn join_shape(&self) -> (r: Vec<usize>)
        ensures
            r@ == self@.join_operand().shape,
            r@.len() >= 1,
    {
        if self.rank() == 0 {
            let mut shape: Vec<usize> = Vec::new();
            shape.push(1);
            assert(shape@ =~= seq![1usize]);
            shape
        } else {
            self.shape()
        }
    }

    /// The value as an operand of join.
    fn into_join_operand(self) -> (r: Array)
        requires
            self@.wf(),
        ensures
            r@ == self@.join_operand(),
            r@.wf(),
            r@.shape.len() >= 1,
    {
        let a = self.coerce_into_array();
        if a.rank() == 0 {
            let (_, ty, cells) = a.into_parts();
            let mut shape: Vec<usize> = Vec::new();
            shape.push(1);
            proof {
                assert(shape@ =~= seq![1usize]);
                lemma_product_one(1);
                assert(product(Seq::<usize>::empty()) == 1);
            }
            Array::assemble(shape, ty, cells)
        } else {
            a
        }
    }

    /// Joins `other` to the value along the first axis.
    pub fn join(&mut self, other: Value, env: &Env) -> (r: Result<(), RuntimeError>)
        requires
            old(self)@.wf(),
            other@.wf(),
        ensures
            settles(old(self)@, final(self)@, r, old(self)@.join(other@)),
            final(self)@.wf(),
    {
        let sa = self.join_shape();
        let sb = other.join_shape();
        let ra = sa.len();
        let rb = sb.len();
        proof {
            assert(sa@.skip(0) =~= sa@);
            assert(sb@.skip(0) =~= sb@);
        }
        let (fits, count) = if ra == rb {
            (same_tail(&sa, 1, &sb, 1), sa[0].checked_add(sb[0]))
        } else if rb < ra && ra - rb == 1 {
            (same_tail(&sa, 1, &sb, 0), sa[0].checked_add(1))
        } else if ra < rb && rb - ra == 1 {
            (same_tail(&sb, 1, &sa, 0), sb[0].checked_add(1))
        } else {
            (false, Some(0usize))
        };
        if !fits {
            return Err(
                env.error(ErrorKind::LengthMismatch, "Cannot join arrays of different shapes"),
            );
        }
        let n = match count {
            Some(n) => n,
            None => {
                return Err(env.error(ErrorKind::SizeOverflow, "Joined array is too long"));
            },
        };
        let v = self.take_value();
        let a = v.into_join_operand();
        let b = other.into_join_operand();
        let shape = if ra == rb {
            cons_shape(n, a.shape(), 1)
        } else if rb < ra {
            cons_shape(n, b.shape(), 0)
        } else {
            cons_shape(n, a.shape(), 0)
        };
        proof {
            lemma_joined_cells(a@, b@);
            lemma_product_first(a@.shape);
            lemma_product_first(b@.shape);
            let x = a@.shape[0] as int;
            let y = b@.shape[0] as int;
            if ra == rb {
                let tail = a@.shape.skip(1);
                assert(shape@ == seq![n] + tail);
                lemma_product_cons(n, tail);
                let p = product(tail) as int;
                assert((x + y) * p == x * p + y * p) by (nonlinear_arith);
            } else if rb < ra {
                let tail = b@.shape;
                assert(shape@ == seq![n] + tail);
                lemma_product_cons(n, tail);
                let p = product(tail) as int;
                assert((x + 1) * p == x * p + p) by (nonlinear_arith);
            } else {
                let tail = a@.shape;
                assert(shape@ == seq![n] + tail);
                lemma_product_cons(n, tail);
                let p = product(tail) as int;
                assert((y + 1) * p == p + y * p) by (nonlinear_arith);
            }
        }
        let ty = if same_type(a.ty(), b.ty()) {
            a.ty()
        } else {
            ArrayType::Value
        };
        let (_, _, mut cells) = a.into_parts();
        let (_, _, mut more) = b.into_parts();
        let ghost left = views(cells@);
        let ghost right = views(more@);
        cells.append(&mut more);
        proof {
            assert(views(cells@) =~= left + right);
        }
        *self = Value::Array(Array::assemble(shape, ty, cells).normalized(0));
        Ok(())
    }

    /// Replaces an array by its first major cell.
    pub fn first(&mut self, env: &Env) -> (r: Result<(), RuntimeError>)
        requires
            old(self)@.wf(),
        ensures
            settles(old(self)@, final(self)@, r, old(self)@.first()),
            final(self)@.wf(),
    {
        let cell = match self {
            Value::Array(a) => {
                if a.len() == 0 {
                    return Err(env.error(ErrorKind::EmptyHasNoFirst, "Empty array has no first"));
                }
                a.major_cell(0)
            },
            _ => {
                return Ok(());
            },
        };
        *self = cell;
        Ok(())
    }
}

} // verus!
