//! Values and arrays, and their mathematical models.
//!
//! An array holds its cells in one flat row-major sequence together with a
//! tag that says whether all of them are numbers, all of them characters,
//! or anything at all (boxed values). The model of an array keeps all
//! three: extents, tag and cells.

use vstd::prelude::*;
use crate::number::Number;
use crate::shape::{product, cell_size, checked_product, lemma_product_first, lemma_product_one};

verus! {

/// Which kind of cell an array's storage holds.
#[derive(Clone, Copy, Debug, PartialEq, Eq, Structural)]
pub enum ArrayType {
    Num,
    Char,
    Value,
}

/// Which kind of value a value is.
#[derive(Clone, Copy, Debug, PartialEq, Eq, Structural)]
pub enum Type {
    Num,
    Char,
    Function,
    Array,
}

/// An opaque handle to a callable.
#[derive(Clone, Copy, Debug, PartialEq, Eq, Structural)]
pub struct Function {
    pub id: u64,
}

/// The mathematical model of a value.
pub enum ValueView {
    Num(Number),
    Char(char),
    Function(Function),
    Array(ArrayView),
}

/// The mathematical model of an array: extents, storage kind and the flat
/// row-major sequence of cells.
pub struct ArrayView {
    pub shape: Seq<usize>,
    pub ty: ArrayType,
    pub cells: Seq<ValueView>,
}

impl ValueView {
    /// Every array inside the value is rectangular and true to its tag.
    pub open spec fn wf(self) -> bool
        decreases self,
    {
        match self {
            ValueView::Array(a) => a.wf(),
            _ => true,
        }
    }

    /// The kind of the value.
    pub open spec fn ty(self) -> Type {
        match self {
            ValueView::Num(_) => Type::Num,
            ValueView::Char(_) => Type::Char,
            ValueView::Function(_) => Type::Function,
            ValueView::Array(_) => Type::Array,
        }
    }

    /// The storage kind that holds this value unboxed, if there is one.
    pub open spec fn storage(self) -> ArrayType {
        match self {
            ValueView::Num(_) => ArrayType::Num,
            ValueView::Char(_) => ArrayType::Char,
            _ => ArrayType::Value,
        }
    }

    /// Number of axes; 0 for a scalar.
    pub open spec fn rank(self) -> nat {
        match self {
            ValueView::Array(a) => a.rank(),
            _ => 0,
        }
    }

    /// Number of major cells; 1 for a scalar.
    pub open spec fn len(self) -> nat {
        match self {
            ValueView::Array(a) => a.len(),
            _ => 1,
        }
    }

    /// The extents; none for a scalar.
    pub open spec fn shape(self) -> Seq<usize> {
        match self {
            ValueView::Array(a) => a.shape,
            _ => Seq::empty(),
        }
    }

    /// The value as an array: itself, or the rank-0 array that holds it.
    pub open spec fn coerce(self) -> ArrayView {
        match self {
            ValueView::Array(a) => a,
            _ => ArrayView::scalar(self),
        }
    }
}

impl ArrayView {
    /// Rectangular, true to its tag, and so are all arrays inside.
    pub open spec fn wf(self) -> bool
        decreases self,
    {
        &&& self.cells.len() == product(self.shape)
        &&& self.ty == ArrayType::Num ==> forall|i: int|
            0 <= i < self.cells.len() ==> #[trigger] self.cells[i] is Num
        &&& self.ty == ArrayType::Char ==> forall|i: int|
            0 <= i < self.cells.len() ==> #[trigger] self.cells[i] is Char
        &&& forall|i: int| 0 <= i < self.cells.len() ==> (#[trigger] self.cells[i]).wf()
    }

    /// Number of axes.
    pub open spec fn rank(self) -> nat {
        self.shape.len()
    }

    /// Number of major cells: the first extent, or 1 at rank 0.
    pub open spec fn len(self) -> nat {
        if self.shape.len() == 0 {
            1
        } else {
            self.shape[0] as nat
        }
    }

    /// Number of storage cells in one major cell.
    pub open spec fn stride(self) -> nat {
        cell_size(self.shape)
    }

    /// The rank-0 array that holds `v`.
    pub open spec fn scalar(v: ValueView) -> ArrayView {
        ArrayView { shape: Seq::empty(), ty: v.storage(), cells: seq![v] }
    }

    /// The boxed rank-1 array of the given cells.
    pub open spec fn list(cells: Seq<ValueView>) -> ArrayView {
        ArrayView { shape: seq![cells.len() as usize], ty: ArrayType::Value, cells }
    }

    /// Major cell `i`: at rank 0 or 1 the storage cell itself, otherwise
    /// the array of the remaining extents over the cell's run of storage.
    pub open spec fn major(self, i: int) -> ValueView {
        if self.shape.len() <= 1 {
            self.cells[i]
        } else {
            ValueView::Array(
                ArrayView {
                    shape: self.shape.skip(1),
                    ty: self.ty,
                    cells: self.cells.subrange(i * self.stride(), (i + 1) * self.stride()),
                },
            )
        }
    }

    /// All major cells in order.
    pub open spec fn majors(self) -> Seq<ValueView> {
        Seq::new(self.len(), |i: int| self.major(i))
    }
}

/// A value: a number, a character, a function handle or an array.
#[derive(Debug, PartialEq)]
pub enum Value {
    Num(Number),
    Char(char),
    Function(Function),
    Array(Array),
}

/// A rectangular array.
#[derive(Debug, PartialEq)]
pub struct Array {
    shape: Vec<usize>,
    ty: ArrayType,
    cells: Vec<Value>,
}

/// The models of a sequence of values.
pub open spec fn views(s: Seq<Value>) -> Seq<ValueView> {
    Seq::new(s.len(), |i: int| s[i]@)
}

/// The numbers of a sequence as values.
pub open spec fn number_views(s: Seq<Number>) -> Seq<ValueView> {
    Seq::new(s.len(), |i: int| ValueView::Num(s[i]))
}

/// The characters of a sequence as values.
pub open spec fn char_views(s: Seq<char>) -> Seq<ValueView> {
    Seq::new(s.len(), |i: int| char_view(s[i]))
}

/// A character as a value.
pub open spec fn char_view(c: char) -> ValueView {
    ValueView::Char(c)
}

impl View for Value {
    type V = ValueView;

    open spec fn view(&self) -> ValueView
        decreases self,
    {
        match self {
            Value::Num(n) => ValueView::Num(*n),
            Value::Char(c) => ValueView::Char(*c),
            Value::Function(f) => ValueView::Function(*f),
            Value::Array(a) => ValueView::Array(a.view()),
        }
    }
}

impl View for Array {
    type V = ArrayView;

    closed spec fn view(&self) -> ArrayView
        decreases self,
    {
        ArrayView {
            shape: self.shape@,
            ty: self.ty,
            cells: Seq::new(
                self.cells@.len(),
                |i: int|
                    if 0 <= i < self.cells@.len() {
                        self.cells@[i].view()
                    } else {
                        arbitrary()
                    },
            ),
        }
    }
}

impl Clone for Value {
    /// A deep copy.
    fn clone(&self) -> (r: Self)
        ensures
            r@ == self@,
        decreases self,
    {
        match self {
            Value::Num(n) => Value::Num(*n),
            Value::Char(c) => Value::Char(*c),
            Value::Function(f) => Value::Function(*f),
            Value::Array(a) => Value::Array(a.clone()),
        }
    }
}

impl Clone for Array {
    /// A deep copy.
    fn clone(&self) -> (r: Self)
        ensures
            r@ == self@,
        decreases self,
    {
        let mut cells: Vec<Value> = Vec::new();
        let mut i: usize = 0;
        while i < self.cells.len()
            invariant
                i <= self.cells.len(),
                cells.len() == i,
                forall|k: int| 0 <= k < i ==> cells@[k]@ == self.cells@[k]@,
            decreases self.cells.len() - i,
        {
            cells.push(self.cells[i].clone());
            i += 1;
        }
        let r = Array { shape: self.shape.clone(), ty: self.ty, cells };
        assert(r@.cells =~= self@.cells);
        r
    }
}

/// Copies of the values in `cells[from..to]`.
pub fn clone_range(cells: &Vec<Value>, from: usize, to: usize) -> (r: Vec<Value>)
    requires
        from <= to <= cells@.len(),
    ensures
        views(r@) == views(cells@).subrange(from as int, to as int),
{
    let mut out: Vec<Value> = Vec::new();
    let mut i: usize = from;
    while i < to
        invariant
            from <= i <= to <= cells@.len(),
            out@.len() == i - from,
            forall|k: int| 0 <= k < out@.len() ==> out@[k]@ == cells@[from + k]@,
        decreases to - i,
    {
        out.push(cells[i].clone());
        i += 1;
    }
    assert(views(out@) =~= views(cells@).subrange(from as int, to as int));
    out
}

/// A copy of the extents from position `from` on.
pub fn clone_tail(v: &Vec<usize>, from: usize) -> (r: Vec<usize>)
    requires
        from <= v@.len(),
    ensures
        r@ == v@.skip(from as int),
{
    let mut out: Vec<usize> = Vec::new();
    let mut i: usize = from;
    while i < v.len()
        invariant
            from <= i <= v@.len(),
            out@.len() == i - from,
            forall|k: int| 0 <= k < out@.len() ==> out@[k] == v@[from + k],
        decreases v.len() - i,
    {
        out.push(v[i]);
        i += 1;
    }
    assert(out@ =~= v@.skip(from as int));
    out
}

impl Array {
    /// The array of the given shape, tag and cells.
    pub(crate) fn assemble(shape: Vec<usize>, ty: ArrayType, cells: Vec<Value>) -> (r: Array)
        requires
            (ArrayView { shape: shape@, ty, cells: views(cells@) }).wf(),
        ensures
            r@ == (ArrayView { shape: shape@, ty, cells: views(cells@) }),
            r@.wf(),
    {
        let r = Array { shape, ty, cells };
        assert(r@.cells =~= views(cells@));
        r
    }

    /// The boxed array of the given shape and cells, if there are as many
    /// cells as the shape asks for.
    pub fn new(shape: Vec<usize>, cells: Vec<Value>) -> (r: Option<Array>)
        requires
            forall|i: int| 0 <= i < cells@.len() ==> (#[trigger] cells@[i])@.wf(),
        ensures
            r is Some <==> cells@.len() == product(shape@),
            r matches Some(a) ==> a@ == (ArrayView {
                shape: shape@,
                ty: ArrayType::Value,
                cells: views(cells@),
            }) && a@.wf(),
    {
        let total = cells.len();
        match checked_product(shape.as_slice()) {
            Some(p) => {
                if p == total {
                    assert forall|i: int| 0 <= i < views(cells@).len() implies (#[trigger] views(
                        cells@,
                    )[i]).wf() by {
                        assert(cells@[i]@.wf());
                    }
                    Some(Array::assemble(shape, ArrayType::Value, cells))
                } else {
                    None
                }
            },
            None => {
                assert(product(shape@) > usize::MAX);
                None
            },
        }
    }

    /// The array of numbers of the given shape, if there are as many
    /// numbers as the shape asks for.
    pub fn from_numbers(shape: Vec<usize>, numbers: Vec<Number>) -> (r: Option<Array>)
        ensures
            r is Some <==> numbers@.len() == product(shape@),
            r matches Some(a) ==> a@ == (ArrayView {
                shape: shape@,
                ty: ArrayType::Num,
                cells: number_views(numbers@),
            }) && a@.wf(),
    {
        let total = numbers.len();
        match checked_product(shape.as_slice()) {
            Some(p) => {
                if p == total {
                    let mut cells: Vec<Value> = Vec::new();
                    let mut i: usize = 0;
                    while i < numbers.len()
                        invariant
                            i <= numbers.len(),
                            cells@.len() == i,
                            forall|k: int|
                                0 <= k < i ==> (#[trigger] cells@[k])@ == ValueView::Num(
                                    numbers@[k],
                                ),
                        decreases numbers.len() - i,
                    {
                        cells.push(Value::Num(numbers[i]));
                        i += 1;
                    }
                    assert(views(cells@) =~= number_views(numbers@));
                    Some(Array::assemble(shape, ArrayType::Num, cells))
                } else {
                    None
                }
            },
            None => {
                assert(product(shape@) > usize::MAX);
                None
            },
        }
    }

    /// The array of characters of the given shape, if there are as many
    /// characters as the shape asks for.
    pub fn from_chars(shape: Vec<usize>, letters: Vec<char>) -> (r: Option<Array>)
        ensures
            r is Some <==> letters@.len() == product(shape@),
            r matches Some(a) ==> a@ == (ArrayView {
                shape: shape@,
                ty: ArrayType::Char,
                cells: char_views(letters@),
            }) && a@.wf(),
    {
        let total = letters.len();
        match checked_product(shape.as_slice()) {
            Some(p) => {
                if p == total {
                    let mut cells: Vec<Value> = Vec::new();
                    let mut i: usize = 0;
                    while i < letters.len()
                        invariant
                            i <= letters.len(),
                            cells@.len() == i,
                            forall|k: int|
                                0 <= k < i ==> (#[trigger] cells@[k])@ == char_view(letters@[k]),
                        decreases letters.len() - i,
                    {
                        cells.push(Value::from_char(letters[i]));
                        i += 1;
                    }
                    assert(views(cells@) =~= char_views(letters@));
                    Some(Array::assemble(shape, ArrayType::Char, cells))
                } else {
                    None
                }
            },
            None => {
                assert(product(shape@) > usize::MAX);
                None
            },
        }
    }

    /// The boxed rank-1 array of the given cells.
    pub fn list(cells: Vec<Value>) -> (r: Array)
        requires
            forall|i: int| 0 <= i < cells@.len() ==> (#[trigger] cells@[i])@.wf(),
        ensures
            r@ == ArrayView::list(views(cells@)),
            r@.wf(),
    {
        let mut shape: Vec<usize> = Vec::new();
        shape.push(cells.len());
        proof {
            assert(shape@ =~= seq![cells@.len() as usize]);
            lemma_product_one(cells@.len() as usize);
            assert forall|i: int| 0 <= i < views(cells@).len() implies (#[trigger] views(
                cells@,
            )[i]).wf() by {
                assert(cells@[i]@.wf());
            }
        }
        Array::assemble(shape, ArrayType::Value, cells)
    }

    /// The rank-0 array that holds `v`.
    pub fn scalar(v: Value) -> (r: Array)
        requires
            v@.wf(),
        ensures
            r@ == ArrayView::scalar(v@),
            r@.wf(),
    {
        let ty = match &v {
            Value::Num(_) => ArrayType::Num,
            Value::Char(_) => ArrayType::Char,
            _ => ArrayType::Value,
        };
        let shape: Vec<usize> = Vec::new();
        let mut cells: Vec<Value> = Vec::new();
        cells.push(v);
        proof {
            assert(views(cells@) =~= seq![v@]);
            assert(shape@ =~= Seq::<usize>::empty());
            assert(product(shape@) == 1);
        }
        Array::assemble(shape, ty, cells)
    }

    /// The extents.
    pub fn shape(&self) -> (r: &Vec<usize>)
        ensures
            r@ == self@.shape,
    {
        &self.shape
    }

    /// The storage kind.
    pub fn ty(&self) -> (r: ArrayType)
        ensures
            r == self@.ty,
    {
        self.ty
    }

    /// The flat row-major storage.
    pub fn cells(&self) -> (r: &Vec<Value>)
        ensures
            views(r@) == self@.cells,
    {
        assert(views(self.cells@) =~= self@.cells);
        &self.cells
    }

    /// Extents, storage kind and cells, taken apart.
    pub fn into_parts(self) -> (r: (Vec<usize>, ArrayType, Vec<Value>))
        ensures
            r.0@ == self@.shape,
            r.1 == self@.ty,
            views(r.2@) == self@.cells,
    {
        assert(views(self.cells@) =~= self@.cells);
        (self.shape, self.ty, self.cells)
    }

    /// Number of axes.
    pub fn rank(&self) -> (r: usize)
        ensures
            r == self@.rank(),
    {
        self.shape.len()
    }

    /// Number of major cells.
    pub fn len(&self) -> (r: usize)
        ensures
            r == self@.len(),
    {
        if self.shape.len() == 0 {
            1
        } else {
            self.shape[0]
        }
    }

    /// Number of storage cells.
    pub fn count(&self) -> (r: usize)
        ensures
            r == self@.cells.len(),
    {
        self.cells.len()
    }

    /// Whether the storage holds numbers only.
    pub fn is_numbers(&self) -> (r: bool)
        ensures
            r == (self@.ty == ArrayType::Num),
    {
        match self.ty {
            ArrayType::Num => true,
            _ => false,
        }
    }

    /// Number of storage cells in one major cell, for an array with at
    /// least one major cell.
    pub fn stride(&self) -> (r: usize)
        requires
            self@.wf(),
            self@.rank() >= 1,
            self@.len() > 0,
        ensures
            r == self@.stride(),
            self@.len() * r == self@.cells.len(),
    {
        proof {
            lemma_product_first(self@.shape);
        }
        let s = self.shape[0];
        let n = self.cells.len();
        proof {
            let c = cell_size(self@.shape) as int;
            assert((s * c) / (s as int) == c) by (nonlinear_arith)
                requires
                    s > 0,
            ;
        }
        n / s
    }

    /// A copy of major cell `i`.
    pub fn major_cell(&self, i: usize) -> (r: Value)
        requires
            self@.wf(),
            i < self@.len(),
        ensures
            r@ == self@.major(i as int),
            r@.wf(),
    {
        if self.shape.len() <= 1 {
            proof {
                if self.shape.len() == 1 {
                    assert(self@.shape =~= seq![self@.shape[0]]);
                    lemma_product_one(self@.shape[0]);
                } else {
                    assert(product(self@.shape) == 1);
                }
            }
            assert(self@.cells[i as int] == self.cells@[i as int]@);
            self.cells[i].clone()
        } else {
            let cs = self.stride();
            proof {
                assert(views(self.cells@) =~= self@.cells);
                assert(self.cells@.len() == self@.len() * cs);
                let n = self@.len() as int;
                assert(0 <= i * cs && i * cs + cs <= n * cs) by (nonlinear_arith)
                    requires
                        0 <= i < n,
                        cs >= 0,
                ;
                assert(self.cells.len() <= usize::MAX);
                assert((i + 1) * cs == i * cs + cs) by (nonlinear_arith);
            }
            let chunk = clone_range(&self.cells, i * cs, i * cs + cs);
            let shape = clone_tail(&self.shape, 1);
            proof {
                assert(views(self.cells@) =~= self@.cells);
                lemma_product_first(self@.shape);
                let sub = views(chunk@);
                assert forall|k: int| 0 <= k < sub.len() implies (#[trigger] sub[k]).wf() && (
                self@.ty == ArrayType::Num ==> sub[k] is Num) && (self@.ty == ArrayType::Char
                    ==> sub[k] is Char) by {
                    assert(sub[k] == self@.cells[i * cs + k]);
                }
            }
            Value::Array(Array::assemble(shape, self.ty, chunk))
        }
    }
}

impl Value {
    /// The value that is the character `c`.
    pub fn from_char(c: char) -> (r: Value)
        ensures
            r@ == char_view(c),
    {
        Value::Char(c)
    }

    /// Whether the value is an array.
    pub fn is_array(&self) -> (r: bool)
        ensures
            r == (self@ is Array),
    {
        match self {
            Value::Array(_) => true,
            _ => false,
        }
    }

    /// Whether the value is a number.
    pub fn is_num(&self) -> (r: bool)
        ensures
            r == (self@ is Num),
    {
        match self {
            Value::Num(_) => true,
            _ => false,
        }
    }

    /// Whether the value is a number equal to a whole number that is not
    /// negative.
    pub fn is_nat(&self) -> (r: bool)
        ensures
            r == (self@ matches ValueView::Num(n) && n.integral() && n.int_value() >= 0),
    {
        match self {
            Value::Num(n) => n.is_nat(),
            _ => false,
        }
    }

    /// The kind of the value.
    pub fn ty(&self) -> (r: Type)
        ensures
            r == self@.ty(),
    {
        match self {
            Value::Num(_) => Type::Num,
            Value::Char(_) => Type::Char,
            Value::Function(_) => Type::Function,
            Value::Array(_) => Type::Array,
        }
    }

    /// Number of major cells; 1 for a scalar.
    pub fn len(&self) -> (r: usize)
        ensures
            r == self@.len(),
    {
        match self {
            Value::Array(a) => a.len(),
            _ => 1,
        }
    }

    /// Number of axes; 0 for a scalar.
    pub fn rank(&self) -> (r: usize)
        ensures
            r == self@.rank(),
    {
        match self {
            Value::Array(a) => a.rank(),
            _ => 0,
        }
    }

    /// The extents; none for a scalar.
    pub fn shape(&self) -> (r: Vec<usize>)
        ensures
            r@ == self@.shape(),
    {
        match self {
            Value::Array(a) => a.shape().clone(),
            _ => Vec::new(),
        }
    }

    /// Takes the value out and leaves the number zero in its place.
    pub fn take_value(&mut self) -> (r: Value)
        ensures
            r == *old(self),
            final(self)@ == ValueView::Num(Number::zero_view()),
    {
        let mut out = Value::Num(Number::zero());
        core::mem::swap(self, &mut out);
        out
    }

    /// Turns a scalar into the rank-0 array that holds it; an array stays
    /// as it is. Returns the array, which the value holds from then on.
    pub fn coerce_array(&mut self) -> (r: &mut Array)
        requires
            old(self)@.wf(),
        ensures
            r@ == old(self)@.coerce(),
            r@.wf(),
            final(self)@ == ValueView::Array(final(r)@),
    {
        if !self.is_array() {
            let v = self.take_value();
            *self = Value::Array(Array::scalar(v));
        }
        match self {
            Value::Array(a) => a,
            _ => vstd::pervasive::unreached(),
        }
    }

    /// The value as an array: itself, or the rank-0 array that holds it.
    pub fn coerce_into_array(self) -> (r: Array)
        requires
            self@.wf(),
        ensures
            r@ == self@.coerce(),
            r@.wf(),
    {
        match self {
            Value::Array(a) => a,
            v => Array::scalar(v),
        }
    }
}

} // verus!
