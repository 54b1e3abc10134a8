//! Classify and member: which major cells hold the same place in the
//! order.

use vstd::prelude::*;
use crate::error::{Env, ErrorKind, RuntimeError};
use crate::kernel::denotes;
use crate::number::{Comparison, Number, EXACT_LIMIT};
use crate::shape::{product, cell_size, as_ints, major_stride, lemma_product_one};
use crate::sort::{chunk_order, chunk_compare, lists, index_values};
use crate::value::{Array, ArrayType, ArrayView, Value, ValueView, views};

verus! {

/// Major cells `i` and `j` hold the same place in the order.
pub open spec fn alike(shape: Seq<usize>, cells: Seq<ValueView>, i: int, j: int) -> bool {
    chunk_order(shape, cells, i, j) == Comparison::Equal
}

/// The position of the first major cell from position `from` on that is
/// alike to major cell `i`; `i` itself if none comes earlier.
pub open spec fn first_alike(shape: Seq<usize>, cells: Seq<ValueView>, i: int, from: int) -> int
    decreases i - from,
{
    if from >= i {
        i
    } else if alike(shape, cells, from, i) {
        from
    } else {
        first_alike(shape, cells, i, from + 1)
    }
}

/// Major cell `i` is the first of its kind: none before it is alike.
pub open spec fn is_first(shape: Seq<usize>, cells: Seq<ValueView>, i: int) -> bool {
    first_alike(shape, cells, i, 0) == i
}

/// How many of the major cells before position `i` are the first of
/// their kind.
pub open spec fn firsts_below(shape: Seq<usize>, cells: Seq<ValueView>, i: int) -> nat
    decreases i,
{
    if i <= 0 {
        0
    } else {
        firsts_below(shape, cells, i - 1) + if is_first(shape, cells, i - 1) {
            1nat
        } else {
            0nat
        }
    }
}

/// The class of major cell `i`: that of the first cell alike to it, and
/// for the first of a kind the number of kinds that came before.
pub open spec fn class_of(shape: Seq<usize>, cells: Seq<ValueView>, i: int) -> nat
    decreases i,
{
    let f = first_alike(shape, cells, i, 0);
    if 0 <= f < i {
        class_of(shape, cells, f)
    } else {
        firsts_below(shape, cells, i)
    }
}

/// The classes of all major cells.
pub open spec fn classes(shape: Seq<usize>, cells: Seq<ValueView>) -> Seq<int> {
    Seq::new(shape[0] as nat, |i: int| class_of(shape, cells, i) as int)
}

/// There are at most as many first cells before a position as cells.
pub proof fn lemma_firsts_below_bound(shape: Seq<usize>, cells: Seq<ValueView>, i: int)
    requires
        0 <= i,
    ensures
        firsts_below(shape, cells, i) <= i,
    decreases i,
{
    if i > 0 {
        lemma_firsts_below_bound(shape, cells, i - 1);
    }
}

impl ArrayView {
    /// Whether some major cell holds the same place as `v`.
    pub open spec fn occurs(self, v: ValueView) -> bool {
        exists|j: int| 0 <= j < self.len() && v.same(#[trigger] self.major(j))
    }
}

impl ValueView {
    /// How `after` and the result `r` relate to `self` when `self` is
    /// replaced by the classes of its major cells, an array of numbers.
    /// A scalar has no classes, and an array of 2^53 major cells or more
    /// is refused.
    pub open spec fn classifies(self, after: ValueView, r: Result<(), RuntimeError>) -> bool {
        if self.rank() < 1 {
            r is Err && r->Err_0.kind == ErrorKind::RankMismatch && after == self
        } else if self.len() >= 0x20_0000_0000_0000 {
            r is Err && r->Err_0.kind == ErrorKind::SizeOverflow && after == self
        } else {
            let a = self->Array_0;
            &&& r is Ok
            &&& after matches ValueView::Array(g)
            &&& g.shape == seq![a.shape[0]]
            &&& g.ty == ArrayType::Num
            &&& lists(g.cells, classes(a.shape, a.cells))
        }
    }

    /// The mask of the storage cells of `self` that occur among the
    /// major cells of `of`: an array of the shape of `self` that holds 1
    /// where the cell occurs and 0 where it does not.
    pub open spec fn member(self, of: ValueView) -> ValueView {
        let a = self.coerce();
        let b = of.coerce();
        ValueView::Array(
            ArrayView {
                shape: a.shape,
                ty: ArrayType::Num,
                cells: Seq::new(
                    a.cells.len(),
                    |i: int|
                        ValueView::Num(
                            if b.occurs(a.cells[i]) {
                                Number::one_view()
                            } else {
                                Number::zero_view()
                            },
                        ),
                ),
            },
        )
    }
}

impl Value {
    /// Replaces the value by the classes of its major cells.
    pub fn classify(&mut self, env: &Env) -> (r: Result<(), RuntimeError>)
        requires
            old(self)@.wf(),
        ensures
            old(self)@.classifies(final(self)@, r),
            final(self)@.wf(),
    {
        let found = match self {
            Value::Array(a) => {
                if a.rank() < 1 {
                    return Err(
                        env.error(ErrorKind::RankMismatch, "Cannot classify rank less than 1"),
                    );
                }
                let n = a.len();
                if n as u64 >= EXACT_LIMIT {
                    return Err(env.error(ErrorKind::SizeOverflow, "Array is too long to classify"));
                }
                let mut found: Vec<usize> = Vec::new();
                if n > 0 {
                    let shape = a.shape().as_slice();
                    let cells = a.cells();
                    let cs = major_stride(shape, cells.len());
                    let ghost vs = views(cells@);
                    let mut next: usize = 0;
                    let mut i: usize = 0;
                    while i < n
                        invariant
                            i <= n,
                            n == shape@[0],
                            shape@.len() >= 1,
                            cells@.len() == product(shape@),
                            cs == cell_size(shape@),
                            vs == views(cells@),
                            next == firsts_below(shape@, vs, i as int),
                            found@.len() == i,
                            forall|k: int| 0 <= k < i ==> #[trigger] found@[k] == class_of(shape@, vs, k),
                        decreases n - i,
                    {
                        let mut j: usize = 0;
                        let mut first: usize = i;
                        while j < i
                            invariant_except_break
                                i == first,
                            invariant
                                j <= i < n,
                                n == shape@[0],
                                shape@.len() >= 1,
                                cells@.len() == product(shape@),
                                cs == cell_size(shape@),
                                vs == views(cells@),
                                first_alike(shape@, vs, i as int, 0) == first_alike(
                                    shape@,
                                    vs,
                                    i as int,
                                    j as int,
                                ),
                            ensures
                                first == first_alike(shape@, vs, i as int, 0),
                                first <= i,
                            decreases i - j,
                        {
                            match chunk_compare(shape, cells, cs, j, i) {
                                Comparison::Equal => {
                                    first = j;
                                    break ;
                                },
                                _ => {},
                            }
                            j += 1;
                        }
                        proof {
                            lemma_firsts_below_bound(shape@, vs, i as int);
                        }
                        if first < i {
                            let c = found[first];
                            found.push(c);
                        } else {
                            found.push(next);
                            next += 1;
                        }
                        i += 1;
                    }
                    proof {
                        assert(as_ints(found@) =~= classes(shape@, vs));
                        assert forall|k: int| 0 <= k < found@.len() implies #[trigger] found@[k]
                            < 0x20_0000_0000_0000 by {
                            lemma_class_bound(shape@, vs, k);
                        }
                    }
                } else {
                    assert(as_ints(found@) =~= classes(a@.shape, a@.cells));
                }
                found
            },
            _ => {
                return Err(env.error(ErrorKind::RankMismatch, "Cannot classify rank less than 1"));
            },
        };
        let numbers = index_values(&found);
        let mut shape: Vec<usize> = Vec::new();
        shape.push(found.len());
        proof {
            assert(shape@ =~= seq![found@.len() as usize]);
            lemma_product_one(found@.len() as usize);
            assert forall|i: int| 0 <= i < views(numbers@).len() implies (#[trigger] views(
                numbers@,
            )[i]) is Num by {
                assert(denotes(views(numbers@)[i], as_ints(found@)[i]));
            }
        }
        *self = Value::Array(Array::assemble(shape, ArrayType::Num, numbers));
        Ok(())
    }

    /// Replaces the value by the mask of its storage cells that occur
    /// among the major cells of `of`.
    pub fn member(&mut self, of: Value)
        requires
            old(self)@.wf(),
            of@.wf(),
        ensures
            final(self)@ == old(self)@.member(of@),
            final(self)@.wf(),
    {
        let ghost before = self@;
        let set = of.coerce_into_array();
        let mut majors: Vec<Value> = Vec::new();
        let mut j: usize = 0;
        while j < set.len()
            invariant
                j <= set@.len(),
                set@.wf(),
                majors@.len() == j,
                forall|k: int| 0 <= k < j ==> (#[trigger] majors@[k])@ == set@.major(k),
            decreases set@.len() - j,
        {
            majors.push(set.major_cell(j));
            j += 1;
        }
        let v = self.take_value();
        let members = v.coerce_into_array();
        let (shape, _, cells) = members.into_parts();
        let ghost a = members@;
        let mut mask: Vec<Value> = Vec::new();
        let mut i: usize = 0;
        while i < cells.len()
            invariant
                i <= cells@.len(),
                views(cells@) == a.cells,
                majors@.len() == set@.len(),
                forall|k: int| 0 <= k < majors@.len() ==> (#[trigger] majors@[k])@ == set@.major(k),
                mask@.len() == i,
                forall|k: int|
                    0 <= k < i ==> (#[trigger] mask@[k])@ == ValueView::Num(
                        if set@.occurs(a.cells[k]) {
                            Number::one_view()
                        } else {
                            Number::zero_view()
                        },
                    ),
            decreases cells@.len() - i,
        {
            assert(views(cells@)[i as int] == cells@[i as int]@);
            let mut hit = false;
            let mut k: usize = 0;
            while k < majors.len()
                invariant_except_break
                    !hit,
                    forall|e: int| 0 <= e < k ==> !cells@[i as int]@.same(#[trigger] set@.major(e)),
                invariant
                    k <= majors@.len(),
                    i < cells@.len(),
                    majors@.len() == set@.len(),
                    forall|e: int| 0 <= e < majors@.len() ==> (#[trigger] majors@[e])@ == set@.major(e),
                ensures
                    hit == set@.occurs(cells@[i as int]@),
                decreases majors@.len() - k,
            {
                match cells[i].compare(&majors[k]) {
                    Comparison::Equal => {
                        hit = true;
                        assert(cells@[i as int]@.same(set@.major(k as int)));
                        break ;
                    },
                    _ => {},
                }
                k += 1;
            }
            mask.push(
                Value::Num(
                    if hit {
                        Number::one()
                    } else {
                        Number::zero()
                    },
                ),
            );
            i += 1;
        }
        proof {
            assert(before.coerce() == a);
            assert(views(mask@) =~= before.member(of@)->Array_0.cells);
        }
        *self = Value::Array(Array::assemble(shape, ArrayType::Num, mask));
    }
}

/// The class of a major cell is at most its position.
pub proof fn lemma_class_bound(shape: Seq<usize>, cells: Seq<ValueView>, i: int)
    requires
        0 <= i,
    ensures
        class_of(shape, cells, i) <= i,
    decreases i,
{
    let f = first_alike(shape, cells, i, 0);
    if 0 <= f < i {
        lemma_class_bound(shape, cells, f);
    } else {
        lemma_firsts_below_bound(shape, cells, i);
    }
}

} // verus!
