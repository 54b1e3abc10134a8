//! Take and drop along the leading axes, and the fill values that pad an
//! overlong take.

use vstd::prelude::*;
use crate::error::{Env, ErrorKind, RuntimeError, settles};
use crate::number::Number;
use crate::pick::produces;
use crate::rotate::offsets;
use crate::shape::{product, as_ints, in_bounds, ravel, unravel, unravel_index, ravel_index, checked_product, lemma_unravel_bounds, lemma_ravel_bounds};
use crate::value::{Array, ArrayType, ArrayView, Value, ValueView, views, char_view};

verus! {

/// The absolute value.
pub open spec fn abs(i: int) -> int {
    if i < 0 {
        -i
    } else {
        i
    }
}

impl ValueView {
    /// The fill value: zero for a number, a space for a character, for an
    /// array the array of the fill values of its cells. A function has
    /// none, nor has an array that holds one.
    pub open spec fn fill(self) -> Option<ValueView>
        decreases self,
    {
        match self {
            ValueView::Num(_) => Some(ValueView::Num(Number::zero_view())),
            ValueView::Char(_) => Some(char_view(' ')),
            ValueView::Function(_) => None,
            ValueView::Array(a) => if forall|i: int|
                0 <= i < a.cells.len() ==> (#[trigger] a.cells[i]).fill() is Some {
                Some(
                    ValueView::Array(
                        ArrayView {
                            shape: a.shape,
                            ty: a.ty,
                            cells: Seq::new(
                                a.cells.len(),
                                |i: int|
                                    if 0 <= i < a.cells.len() {
                                        a.cells[i].fill()->0
                                    } else {
                                        arbitrary()
                                    },
                            ),
                        },
                    ),
                )
            } else {
                None
            },
        }
    }
}

/// A fill value is well formed and of the kind of what it fills in for.
pub proof fn lemma_fill_wf(v: ValueView)
    requires
        v.wf(),
        v.fill() is Some,
    ensures
        v.fill()->0.wf(),
        v is Num ==> v.fill()->0 is Num,
        v is Char ==> v.fill()->0 is Char,
    decreases v,
{
    match v {
        ValueView::Array(a) => {
            let f = v.fill()->0->Array_0;
            assert forall|i: int| 0 <= i < f.cells.len() implies (#[trigger] f.cells[i]).wf() && (
            f.ty == ArrayType::Num ==> f.cells[i] is Num) && (f.ty == ArrayType::Char
                ==> f.cells[i] is Char) by {
                assert(a.cells[i].wf());
                assert(a.cells[i].fill() is Some);
                lemma_fill_wf(a.cells[i]);
            }
        },
        _ => {},
    }
}

/// The shape after a take: the leading extents are the absolute values
/// of the indices.
pub open spec fn taken_shape(index: Seq<int>, shape: Seq<usize>) -> Seq<usize> {
    Seq::new(
        shape.len(),
        |j: int|
            if j < index.len() {
                abs(index[j]) as usize
            } else {
                shape[j]
            },
    )
}

/// The position along an axis of extent `s` from which position `m` of
/// the axis after a take by index `i` comes; it lies outside the axis
/// where the take pads.
pub open spec fn taken_coord(i: int, s: int, m: int) -> int {
    if i >= 0 {
        m
    } else {
        m + s + i
    }
}

/// Whether the cell at multi-index `m` of the result comes out of the
/// array rather than being padding.
pub open spec fn taken_inside(index: Seq<int>, shape: Seq<usize>, m: Seq<int>) -> bool {
    forall|j: int|
        0 <= j < index.len() ==> 0 <= taken_coord(#[trigger] index[j], shape[j] as int, m[j])
            < shape[j]
}

/// The multi-index of the cell that the cell at multi-index `m` of the
/// result comes from or, for padding, is the fill value of: along an
/// axis on which `m` lies outside, the first position.
pub open spec fn taken_coords(index: Seq<int>, shape: Seq<usize>, m: Seq<int>) -> Seq<int> {
    Seq::new(
        m.len(),
        |j: int|
            if j < index.len() {
                let c = taken_coord(index[j], shape[j] as int, m[j]);
                if 0 <= c < shape[j] {
                    c
                } else {
                    0
                }
            } else {
                m[j]
            },
    )
}

/// The indices that turn a drop into a take: a drop of `i` cells from
/// the front keeps the last `s - i`, a drop from the back keeps the
/// first `s + i`; a drop of the whole axis or more keeps nothing.
pub open spec fn dropped_index(i: int, s: int) -> int {
    if i >= 0 {
        if i - s < 0 {
            i - s
        } else {
            0
        }
    } else {
        if s + i > 0 {
            s + i
        } else {
            0
        }
    }
}

/// The 128-bit integers as mathematical integers.
pub open spec fn wide(index: Seq<i128>) -> Seq<int> {
    Seq::new(index.len(), |j: int| index[j] as int)
}

impl ArrayView {
    /// The cell at position `t` of the result of a take, if it has one:
    /// a cell of the array, or padding. Padding an array of numbers is
    /// zero, padding an array of characters a space, padding a boxed
    /// array the fill value of the cell at the same place of the first
    /// cell along the padded axis.
    pub open spec fn taken_cell(self, index: Seq<int>, t: int) -> Option<ValueView> {
        let m = unravel(taken_shape(index, self.shape), t);
        let c = taken_coords(index, self.shape, m);
        if taken_inside(index, self.shape, m) {
            Some(self.cells[ravel(self.shape, c)])
        } else {
            match self.ty {
                ArrayType::Num => Some(ValueView::Num(Number::zero_view())),
                ArrayType::Char => Some(char_view(' ')),
                ArrayType::Value => if in_bounds(self.shape, c) {
                    self.cells[ravel(self.shape, c)].fill()
                } else {
                    None
                },
            }
        }
    }

    /// Whether the extents of the result of a take can be counted.
    pub open spec fn take_fits(self, index: Seq<int>) -> bool {
        &&& forall|j: int| 0 <= j < index.len() ==> abs(#[trigger] index[j]) <= usize::MAX
        &&& product(taken_shape(index, self.shape)) <= usize::MAX
    }

    /// The array after a take: along axis `j` the first `index[j]` cells,
    /// or for a negative index the last, padded to that length where the
    /// axis is shorter. Axes without an index stay whole.
    pub open spec fn take(self, index: Seq<int>) -> Result<ArrayView, ErrorKind> {
        let shape = taken_shape(index, self.shape);
        if index.len() > self.shape.len() {
            Err(ErrorKind::RankMismatch)
        } else if !self.take_fits(index) {
            Err(ErrorKind::SizeOverflow)
        } else if exists|t: int| 0 <= t < product(shape) && (#[trigger] self.taken_cell(index, t)) is None {
            Err(ErrorKind::NoFillValue)
        } else {
            Ok(
                ArrayView {
                    shape,
                    ty: self.ty,
                    cells: Seq::new(product(shape), |t: int| self.taken_cell(index, t)->0),
                },
            )
        }
    }

    /// The indices that turn a drop by `index` into a take.
    pub open spec fn dropped(self, index: Seq<int>) -> Seq<int> {
        Seq::new(index.len(), |j: int| dropped_index(index[j], self.shape[j] as int))
    }
}

impl ValueView {
    /// The depth at which take and drop normalize their result.
    pub open spec fn take_depth(self) -> nat {
        if self.rank() > 1 {
            1
        } else {
            0
        }
    }

    /// The take from `from` by the indices that `self` stands for.
    pub open spec fn take(self, from: ValueView) -> Result<ValueView, ErrorKind> {
        if !(from is Array) || from.rank() == 0 {
            Err(ErrorKind::RankMismatch)
        } else {
            match self.decode_indices() {
                None => Err(ErrorKind::ShapeDecode),
                Some(index) => match from->Array_0.take(offsets(index)) {
                    Err(e) => Err(e),
                    Ok(r) => Ok(ValueView::Array(r.normalize(from.take_depth()))),
                },
            }
        }
    }

    /// The drop from `from` by the indices that `self` stands for.
    pub open spec fn drop(self, from: ValueView) -> Result<ValueView, ErrorKind> {
        if !(from is Array) || from.rank() == 0 {
            Err(ErrorKind::RankMismatch)
        } else {
            match self.decode_indices() {
                None => Err(ErrorKind::ShapeDecode),
                Some(index) => if index.len() > from.rank() {
                    Err(ErrorKind::RankMismatch)
                } else {
                    match from->Array_0.take(from->Array_0.dropped(offsets(index))) {
                        Err(e) => Err(e),
                        Ok(r) => Ok(ValueView::Array(r.normalize(from.take_depth()))),
                    }
                },
            }
        }
    }
}

impl Value {
    /// The fill value of the value.
    pub fn fill_value(&self, env: &Env) -> (r: Result<Value, RuntimeError>)
        requires
            self@.wf(),
        ensures
            produces(
                r,
                match self@.fill() {
                    Some(v) => Ok(v),
                    None => Err(ErrorKind::NoFillValue),
                },
            ),
            r is Ok ==> r->Ok_0@.wf(),
        decreases self@,
    {
        match self {
            Value::Num(_) => Ok(Value::Num(Number::zero())),
            Value::Char(_) => Ok(Value::from_char(' ')),
            Value::Function(_) => Err(
                env.error(ErrorKind::NoFillValue, "Functions do not have a fill value"),
            ),
            Value::Array(a) => {
                let cells = a.cells();
                let mut fills: Vec<Value> = Vec::new();
                let mut i: usize = 0;
                while i < cells.len()
                    invariant
                        i <= cells@.len(),
                        views(cells@) == a@.cells,
                        a@.wf(),
                        self@ == ValueView::Array(a@),
                        fills@.len() == i,
                        forall|k: int|
                            0 <= k < i ==> (#[trigger] a@.cells[k]).fill() == Some(fills@[k]@),
                    decreases cells@.len() - i,
                {
                    assert(views(cells@)[i as int] == cells@[i as int]@);
                    assert(a@.cells[i as int].wf());
                    match cells[i].fill_value(env) {
                        Ok(v) => {
                            fills.push(v);
                        },
                        Err(e) => {
                            assert(a@.cells[i as int].fill() is None);
                            return Err(e);
                        },
                    }
                    i += 1;
                }
                proof {
                    lemma_fill_wf(self@);
                    assert(views(fills@) =~= self@.fill()->0->Array_0.cells);
                }
                Ok(Value::Array(Array::assemble(a.shape().clone(), a.ty(), fills)))
            },
        }
    }
}

/// The source position along one axis of a take, and whether it lies on
/// the axis: for position `m` of the result, index `i` and extent `s`.
fn axis_source(i: i128, s: usize, m: usize) -> (r: (usize, bool))
    requires
        abs(i as int) <= usize::MAX,
    ensures
        r.1 == (0 <= taken_coord(i as int, s as int, m as int) < s),
        r.0 == if r.1 {
            taken_coord(i as int, s as int, m as int)
        } else {
            0
        },
{
    if i >= 0 {
        if m < s {
            (m, true)
        } else {
            (0, false)
        }
    } else {
        let v: i128 = m as i128 + s as i128 + i;
        if 0 <= v && v < s as i128 {
            (v as usize, true)
        } else {
            (0, false)
        }
    }
}

/// The extents of the result of a take, unless one cannot be counted.
fn taken_extents(index: &Vec<i128>, shape: &Vec<usize>) -> (r: Option<Vec<usize>>)
    requires
        index@.len() <= shape@.len(),
    ensures
        r is Some <==> (forall|j: int| 0 <= j < index@.len() ==> abs(#[trigger] wide(index@)[j]) <= usize::MAX),
        r matches Some(e) ==> e@ == taken_shape(wide(index@), shape@),
{
    let mut out: Vec<usize> = Vec::new();
    let mut j: usize = 0;
    while j < shape.len()
        invariant
            j <= shape@.len(),
            index@.len() <= shape@.len(),
            out@.len() == j,
            forall|i: int| 0 <= i < j && i < index@.len() ==> abs(#[trigger] wide(index@)[i]) <= usize::MAX,
            forall|i: int| 0 <= i < j ==> #[trigger] out@[i] == taken_shape(wide(index@), shape@)[i],
        decreases shape@.len() - j,
    {
        if j < index.len() {
            let i = index[j];
            assert(wide(index@)[j as int] == i);
            let n: i128 = if i < 0 {
                if i == i128::MIN {
                    return None;
                }
                -i
            } else {
                i
            };
            if n > usize::MAX as i128 {
                return None;
            }
            out.push(n as usize);
        } else {
            out.push(shape[j]);
        }
        j += 1;
    }
    assert(out@ =~= taken_shape(wide(index@), shape@));
    Some(out)
}

/// The array after a take by `index`.
pub fn take_array(index: &Vec<i128>, array: &Array, env: &Env) -> (r: Result<Array, RuntimeError>)
    requires
        array@.wf(),
    ensures
        match array@.take(wide(index@)) {
            Ok(a) => r is Ok && r->Ok_0@ == a && a.wf(),
            Err(k) => r is Err && r->Err_0.kind == k,
        },
{
    let ghost a = array@;
    let ghost ints = wide(index@);
    if index.len() > array.rank() {
        return Err(env.error(ErrorKind::RankMismatch, "Cannot take with index of greater rank"));
    }
    let shape = array.shape();
    let rank = shape.len();
    let extents = match taken_extents(index, shape) {
        Some(e) => e,
        None => {
            return Err(env.error(ErrorKind::SizeOverflow, "Taken array is too large"));
        },
    };
    let total = match checked_product(extents.as_slice()) {
        Some(p) => p,
        None => {
            return Err(env.error(ErrorKind::SizeOverflow, "Taken array is too large"));
        },
    };
    assert(a.take_fits(ints));
    let cells = array.cells();
    let ty = array.ty();
    let count = cells.len();
    let mut out: Vec<Value> = Vec::new();
    let mut t: usize = 0;
    while t < total
        invariant
            t <= total,
            a == array@,
            a.wf(),
            ints == wide(index@),
            index@.len() <= rank,
            rank == shape@.len(),
            shape@ == a.shape,
            ty == a.ty,
            views(cells@) == a.cells,
            extents@ == taken_shape(ints, a.shape),
            total == product(extents@),
            a.take_fits(ints),
            out@.len() == t,
            cells@.len() == product(a.shape),
            cells@.len() <= usize::MAX,
            forall|k: int| 0 <= k < t ==> #[trigger] a.taken_cell(ints, k) == Some(views(out@)[k]),
            forall|k: int|
                0 <= k < t ==> (#[trigger] views(out@)[k]).wf() && (ty == ArrayType::Num ==> views(
                    out@,
                )[k] is Num) && (ty == ArrayType::Char ==> views(out@)[k] is Char),
        decreases total - t,
    {
        let m = unravel_index(extents.as_slice(), t);
        proof {
            lemma_unravel_bounds(extents@, t as int);
        }
        let ghost mm = unravel(extents@, t as int);
        let ghost want = taken_coords(ints, a.shape, mm);
        let mut c: Vec<usize> = Vec::new();
        let mut inside = true;
        let mut valid = true;
        let mut j: usize = 0;
        while j < rank
            invariant
                j <= rank,
                rank == shape@.len(),
                index@.len() <= rank,
                shape@ == a.shape,
                ints == wide(index@),
                m@.len() == rank,
                as_ints(m@) == mm,
                extents@ == taken_shape(ints, a.shape),
                in_bounds(extents@, mm),
                forall|i: int| 0 <= i < index@.len() ==> abs(#[trigger] ints[i]) <= usize::MAX,
                want == taken_coords(ints, a.shape, mm),
                c@.len() == j,
                forall|i: int| 0 <= i < j ==> #[trigger] c@[i] == want[i],
                inside == (forall|i: int|
                    0 <= i < j && i < index@.len() ==> 0 <= taken_coord(
                        #[trigger] ints[i],
                        shape@[i] as int,
                        mm[i],
                    ) < shape@[i]),
                valid == (forall|i: int| 0 <= i < j ==> 0 <= #[trigger] want[i] < shape@[i]),
            decreases rank - j,
        {
            assert(as_ints(m@)[j as int] == m@[j as int]);
            assert(0 <= mm[j as int] < extents@[j as int]);
            if j < index.len() {
                assert(ints[j as int] == index@[j as int]);
                assert(abs(ints[j as int]) <= usize::MAX);
                let (src, on) = axis_source(index[j], shape[j], m[j]);
                assert(want[j as int] == src);
                c.push(src);
                if !on {
                    inside = false;
                }
                if src >= shape[j] {
                    valid = false;
                }
            } else {
                assert(extents@[j as int] == shape@[j as int]);
                assert(want[j as int] == mm[j as int]);
                c.push(m[j]);
            }
            j += 1;
        }
        assert(as_ints(c@) =~= want);
        assert(inside == taken_inside(ints, a.shape, mm));
        assert(valid == in_bounds(a.shape, want));
        let ghost before = views(out@);
        let cell = if inside {
            proof {
                assert(valid) by {
                    assert forall|i: int| 0 <= i < rank implies 0 <= #[trigger] want[i] < shape@[i] by {
                        if i < index@.len() {
                            assert(0 <= taken_coord(ints[i], shape@[i] as int, mm[i]) < shape@[i]);
                        } else {
                            assert(0 <= mm[i] < extents@[i]);
                        }
                    }
                }
                lemma_ravel_bounds(a.shape, want);
            }
            let src = ravel_index(shape.as_slice(), &c);
            assert(views(cells@)[src as int] == cells@[src as int]@);
            assert(a.cells[src as int].wf());
            cells[src].clone()
        } else {
            match ty {
                ArrayType::Num => Value::Num(Number::zero()),
                ArrayType::Char => Value::from_char(' '),
                ArrayType::Value => {
                    if !valid {
                        assert(a.taken_cell(ints, t as int) is None);
                        return Err(env.error(ErrorKind::NoFillValue, "Empty array has no fill value"));
                    }
                    proof {
                        lemma_ravel_bounds(a.shape, want);
                    }
                    let src = ravel_index(shape.as_slice(), &c);
                    assert(views(cells@)[src as int] == cells@[src as int]@);
                    assert(a.cells[src as int].wf());
                    match cells[src].fill_value(env) {
                        Ok(v) => v,
                        Err(e) => {
                            assert(a.taken_cell(ints, t as int) is None);
                            return Err(e);
                        },
                    }
                },
            }
        };
        assert(a.taken_cell(ints, t as int) == Some(cell@));
        out.push(cell);
        proof {
            assert forall|k: int| 0 <= k < t + 1 implies #[trigger] a.taken_cell(ints, k) == Some(
                views(out@)[k],
            ) && views(out@)[k].wf() && (ty == ArrayType::Num ==> views(out@)[k] is Num) && (ty
                == ArrayType::Char ==> views(out@)[k] is Char) by {
                if k < t {
                    assert(views(out@)[k] == before[k]);
                } else {
                    assert(views(out@)[k] == cell@);
                }
            }
            assert forall|k: int| 0 <= k < t + 1 implies (#[trigger] views(out@)[k]).wf() && (ty
                == ArrayType::Num ==> views(out@)[k] is Num) && (ty == ArrayType::Char ==> views(
                out@,
            )[k] is Char) by {
                assert(a.taken_cell(ints, k) == Some(views(out@)[k]));
                if k < t {
                    assert(views(out@)[k] == before[k]);
                } else {
                    assert(views(out@)[k] == cell@);
                }
            }
        }
        t += 1;
    }
    proof {
        assert(views(out@) =~= Seq::new(product(extents@), |t: int| a.taken_cell(ints, t)->0));
    }
    Ok(Array::assemble(extents, ty, out))
}

/// The indices as 128-bit integers.
fn widen(index: &Vec<isize>) -> (r: Vec<i128>)
    ensures
        wide(r@) == offsets(index@),
{
    let mut out: Vec<i128> = Vec::new();
    let mut j: usize = 0;
    while j < index.len()
        invariant
            j <= index@.len(),
            out@.len() == j,
            forall|i: int| 0 <= i < j ==> #[trigger] out@[i] == index@[i],
        decreases index@.len() - j,
    {
        out.push(index[j] as i128);
        j += 1;
    }
    assert(wide(out@) =~= offsets(index@));
    out
}

impl Value {
    /// Replaces the value, read as an index list, by the take from
    /// `from`.
    pub fn take(&mut self, from: Value, env: &Env) -> (r: Result<(), RuntimeError>)
        requires
            old(self)@.wf(),
            from@.wf(),
        ensures
            settles(old(self)@, final(self)@, r, old(self)@.take(from@)),
            final(self)@.wf(),
    {
        match &from {
            Value::Array(array) => {
                if array.rank() == 0 {
                    return Err(
                        env.error(ErrorKind::RankMismatch, "Cannot take from rank less than 1"),
                    );
                }
                let index = match self.as_indices(env, "Index must be a list of integers") {
                    Ok(i) => i,
                    Err(e) => {
                        return Err(e);
                    },
                };
                let depth: usize = if array.rank() > 1 {
                    1
                } else {
                    0
                };
                match take_array(&widen(&index), array, env) {
                    Ok(taken) => {
                        *self = Value::Array(taken.normalized(depth));
                        Ok(())
                    },
                    Err(e) => Err(e),
                }
            },
            _ => Err(env.error(ErrorKind::RankMismatch, "Cannot take from rank less than 1")),
        }
    }

    /// Replaces the value, read as an index list, by the drop from
    /// `from`.
    pub fn drop(&mut self, from: Value, env: &Env) -> (r: Result<(), RuntimeError>)
        requires
            old(self)@.wf(),
            from@.wf(),
        ensures
            settles(old(self)@, final(self)@, r, old(self)@.drop(from@)),
            final(self)@.wf(),
    {
        match &from {
            Value::Array(array) => {
                if array.rank() == 0 {
                    return Err(
                        env.error(ErrorKind::RankMismatch, "Cannot drop from rank less than 1"),
                    );
                }
                let index = match self.as_indices(env, "Index must be a list of integers") {
                    Ok(i) => i,
                    Err(e) => {
                        return Err(e);
                    },
                };
                if index.len() > array.rank() {
                    return Err(
                        env.error(ErrorKind::RankMismatch, "Cannot drop with index of greater rank"),
                    );
                }
                let shape = array.shape();
                let mut kept: Vec<i128> = Vec::new();
                let mut j: usize = 0;
                while j < index.len()
                    invariant
                        j <= index@.len(),
                        index@.len() <= shape@.len(),
                        shape@ == array@.shape,
                        kept@.len() == j,
                        forall|i: int|
                            0 <= i < j ==> #[trigger] kept@[i] == dropped_index(
                                index@[i] as int,
                                shape@[i] as int,
                            ),
                    decreases index@.len() - j,
                {
                    let i: i128 = index[j] as i128;
                    let s: i128 = shape[j] as i128;
                    let k: i128 = if i >= 0 {
                        if i - s < 0 {
                            i - s
                        } else {
                            0
                        }
                    } else {
                        if s + i > 0 {
                            s + i
                        } else {
                            0
                        }
                    };
                    kept.push(k);
                    j += 1;
                }
                assert(wide(kept@) =~= array@.dropped(offsets(index@)));
                let depth: usize = if array.rank() > 1 {
                    1
                } else {
                    0
                };
                match take_array(&kept, array, env) {
                    Ok(taken) => {
                        *self = Value::Array(taken.normalized(depth));
                        Ok(())
                    },
                    Err(e) => Err(e),
                }
            },
            _ => Err(env.error(ErrorKind::RankMismatch, "Cannot drop from rank less than 1")),
        }
    }
}

} // verus!
