//! Storage normalization: a boxed array whose cells turn out to be all of
//! one kind is stored as that kind.

use vstd::prelude::*;
use crate::shape::{lemma_product_concat};
use crate::value::{Array, ArrayType, ArrayView, Value, ValueView, views, clone_range};

verus! {

impl ArrayView {
    /// Every cell is a number.
    pub open spec fn all_numbers(self) -> bool {
        forall|i: int| 0 <= i < self.cells.len() ==> #[trigger] self.cells[i] is Num
    }

    /// Every cell is a character.
    pub open spec fn all_chars(self) -> bool {
        forall|i: int| 0 <= i < self.cells.len() ==> #[trigger] self.cells[i] is Char
    }

    /// There is a cell, and every cell is an array of numbers or of
    /// characters with the shape and storage kind of the first.
    pub open spec fn uniform_arrays(self) -> bool {
        &&& self.cells.len() > 0
        &&& self.cells[0] is Array
        &&& self.cells[0]->Array_0.ty != ArrayType::Value
        &&& forall|i: int|
            0 <= i < self.cells.len() ==> {
                &&& #[trigger] self.cells[i] is Array
                &&& self.cells[i]->Array_0.shape == self.cells[0]->Array_0.shape
                &&& self.cells[i]->Array_0.ty == self.cells[0]->Array_0.ty
            }
    }

    /// The array of uniform arrays as one array: the cells' shape is
    /// appended to the outer shape and their storage is laid end to end.
    pub open spec fn folded(self) -> ArrayView {
        let first = self.cells[0]->Array_0;
        let width = first.cells.len() as int;
        ArrayView {
            shape: self.shape + first.shape,
            ty: first.ty,
            cells: Seq::new(
                (self.cells.len() * width) as nat,
                |k: int| self.cells[k / width]->Array_0.cells[k % width],
            ),
        }
    }

    /// The array with the given storage kind.
    pub open spec fn retagged(self, ty: ArrayType) -> ArrayView {
        ArrayView { shape: self.shape, ty, cells: self.cells }
    }

    /// The normalized array. A boxed array with at least one cell becomes
    /// an array of numbers or of characters when all its cells are of that
    /// kind; at depth 1 or more, a boxed array of uniform arrays is folded
    /// into one array. Every other array stays as it is.
    pub open spec fn normalize(self, depth: nat) -> ArrayView {
        if self.ty != ArrayType::Value || self.cells.len() == 0 {
            self
        } else if self.all_numbers() {
            self.retagged(ArrayType::Num)
        } else if self.all_chars() {
            self.retagged(ArrayType::Char)
        } else if depth >= 1 && self.uniform_arrays() {
            self.folded()
        } else {
            self
        }
    }

    /// Normalizing changes nothing.
    pub open spec fn is_normal(self, depth: nat) -> bool {
        self.normalize(depth) == self
    }
}

/// Folding keeps an array well formed.
pub proof fn lemma_folded_wf(a: ArrayView)
    requires
        a.wf(),
        a.uniform_arrays(),
    ensures
        a.folded().wf(),
        a.folded().cells.len() == a.cells.len() * a.cells[0]->Array_0.cells.len(),
{
    let first = a.cells[0]->Array_0;
    let width = first.cells.len() as int;
    let n = a.cells.len() as int;
    let f = a.folded();
    assert(a.cells[0].wf());
    lemma_product_concat(a.shape, first.shape);
    assert(n * width >= 0) by (nonlinear_arith)
        requires
            n >= 0,
            width >= 0,
    ;
    assert forall|k: int| 0 <= k < f.cells.len() implies (#[trigger] f.cells[k]).wf() && (f.ty
        == ArrayType::Num ==> f.cells[k] is Num) && (f.ty == ArrayType::Char ==> f.cells[k] is Char) by {
        assert(width > 0 && 0 <= k / width < n && 0 <= k % width < width) by (nonlinear_arith)
            requires
                0 <= k < n * width,
                n >= 0,
                width >= 0,
        ;
        let c = a.cells[k / width]->Array_0;
        assert(a.cells[k / width].wf());
        assert(c.shape == first.shape);
        assert(c.cells.len() == width);
        assert(c.cells[k % width].wf());
    }
}

/// Normalizing keeps an array well formed.
pub proof fn lemma_normalize_wf(a: ArrayView, depth: nat)
    requires
        a.wf(),
    ensures
        a.normalize(depth).wf(),
{
    if a.ty == ArrayType::Value && a.cells.len() > 0 && !a.all_numbers() && !a.all_chars() && depth
        >= 1 && a.uniform_arrays() {
        lemma_folded_wf(a);
    }
}

/// Whether two shapes are the same.
pub fn same_shape(a: &Vec<usize>, b: &Vec<usize>) -> (r: bool)
    ensures
        r == (a@ == b@),
{
    if a.len() != b.len() {
        return false;
    }
    let mut i: usize = 0;
    while i < a.len()
        invariant
            i <= a@.len(),
            a@.len() == b@.len(),
            forall|k: int| 0 <= k < i ==> a@[k] == b@[k],
        decreases a@.len() - i,
    {
        if a[i] != b[i] {
            return false;
        }
        i += 1;
    }
    assert(a@ =~= b@);
    true
}

/// Whether two storage kinds are the same.
pub fn same_type(a: ArrayType, b: ArrayType) -> (r: bool)
    ensures
        r == (a == b),
{
    match a {
        ArrayType::Num => match b {
            ArrayType::Num => true,
            _ => false,
        },
        ArrayType::Char => match b {
            ArrayType::Char => true,
            _ => false,
        },
        ArrayType::Value => match b {
            ArrayType::Value => true,
            _ => false,
        },
    }
}

/// Whether every cell is a number.
fn all_numbers(cells: &Vec<Value>) -> (r: bool)
    ensures
        r == (forall|i: int| 0 <= i < cells@.len() ==> #[trigger] views(cells@)[i] is Num),
{
    let mut i: usize = 0;
    while i < cells.len()
        invariant
            i <= cells@.len(),
            forall|k: int| 0 <= k < i ==> #[trigger] views(cells@)[k] is Num,
        decreases cells@.len() - i,
    {
        if !cells[i].is_num() {
            assert(!(views(cells@)[i as int] is Num));
            return false;
        }
        i += 1;
    }
    true
}

/// Whether every cell is a character.
fn all_chars(cells: &Vec<Value>) -> (r: bool)
    ensures
        r == (forall|i: int| 0 <= i < cells@.len() ==> #[trigger] views(cells@)[i] is Char),
{
    let mut i: usize = 0;
    while i < cells.len()
        invariant
            i <= cells@.len(),
            forall|k: int| 0 <= k < i ==> #[trigger] views(cells@)[k] is Char,
        decreases cells@.len() - i,
    {
        match &cells[i] {
            Value::Char(_) => {},
            _ => {
                assert(!(views(cells@)[i as int] is Char));
                return false;
            },
        }
        i += 1;
    }
    true
}

/// Whether the cells are uniform arrays.
fn uniform_arrays(cells: &Vec<Value>) -> (r: bool)
    requires
        cells@.len() > 0,
    ensures
        r == (ArrayView { shape: Seq::empty(), ty: ArrayType::Value, cells: views(cells@) })
            .uniform_arrays(),
{
    let ghost a = ArrayView { shape: Seq::empty(), ty: ArrayType::Value, cells: views(cells@) };
    match &cells[0] {
        Value::Array(first) => {
            assert(views(cells@)[0] == cells@[0]@);
            if same_type(first.ty(), ArrayType::Value) {
                return false;
            }
            let mut i: usize = 0;
            while i < cells.len()
                invariant
                    i <= cells@.len(),
                    cells@.len() > 0,
                    a.cells == views(cells@),
                    cells@[0]@ == ValueView::Array(first@),
                    forall|k: int|
                        0 <= k < i ==> {
                            &&& #[trigger] a.cells[k] is Array
                            &&& a.cells[k]->Array_0.shape == first@.shape
                            &&& a.cells[k]->Array_0.ty == first@.ty
                        },
                decreases cells@.len() - i,
            {
                assert(a.cells[i as int] == cells@[i as int]@);
                match &cells[i] {
                    Value::Array(c) => {
                        if !same_shape(c.shape(), first.shape()) || !same_type(c.ty(), first.ty()) {
                            return false;
                        }
                    },
                    _ => {
                        return false;
                    },
                }
                i += 1;
            }
            true
        },
        _ => {
            assert(views(cells@)[0] == cells@[0]@);
            false
        },
    }
}

impl Array {
    /// The normalized array.
    pub fn normalized(self, depth: usize) -> (r: Array)
        requires
            self@.wf(),
        ensures
            r@ == self@.normalize(depth as nat),
            r@.wf(),
    {
        let ghost a = self@;
        proof {
            lemma_normalize_wf(a, depth as nat);
        }
        let (mut shape, ty, cells) = self.into_parts();
        if !same_type(ty, ArrayType::Value) || cells.len() == 0 {
            return Array::assemble(shape, ty, cells);
        }
        if all_numbers(&cells) {
            return Array::assemble(shape, ArrayType::Num, cells);
        }
        if all_chars(&cells) {
            return Array::assemble(shape, ArrayType::Char, cells);
        }
        if depth == 0 || !uniform_arrays(&cells) {
            assert(a.uniform_arrays() == (ArrayView {
                shape: Seq::empty(),
                ty: ArrayType::Value,
                cells: views(cells@),
            }).uniform_arrays());
            return Array::assemble(shape, ty, cells);
        }
        assert(a.uniform_arrays());
        proof {
            lemma_folded_wf(a);
        }
        let ghost first = a.cells[0]->Array_0;
        let ghost width = first.cells.len() as int;
        let mut out: Vec<Value> = Vec::new();
        let mut inner_type = ArrayType::Num;
        let mut i: usize = 0;
        while i < cells.len()
            invariant
                i <= cells@.len(),
                a.wf(),
                a.uniform_arrays(),
                a.cells == views(cells@),
                first == a.cells[0]->Array_0,
                width == first.cells.len(),
                i > 0 ==> inner_type == first.ty,
                shape@ == if i == 0 {
                    a.shape
                } else {
                    a.shape + first.shape
                },
                out@.len() == i * width,
                forall|k: int|
                    0 <= k < out@.len() ==> (#[trigger] out@[k])@ == a.cells[k / width]->Array_0.cells[k
                        % width],
            decreases cells@.len() - i,
        {
            assert(a.cells[i as int] == cells@[i as int]@);
            assert(a.cells[i as int].wf());
            assert(a.cells[0].wf());
            match &cells[i] {
                Value::Array(c) => {
                    if i == 0 {
                        inner_type = c.ty();
                        let tail = c.shape();
                        let mut j: usize = 0;
                        assert(a.shape + tail@.take(0) =~= a.shape);
                        while j < tail.len()
                            invariant
                                j <= tail@.len(),
                                shape@ == a.shape + tail@.take(j as int),
                            decreases tail@.len() - j,
                        {
                            shape.push(tail[j]);
                            assert(a.shape + tail@.take(j + 1) =~= (a.shape + tail@.take(
                                j as int,
                            )).push(tail@[j as int]));
                            j += 1;
                        }
                        assert(tail@.take(tail@.len() as int) =~= tail@);
                    }
                    let ghost before = out@;
                    let src = c.cells();
                    let mut part = clone_range(src, 0, src.len());
                    let ghost copied = part@;
                    assert(views(copied) =~= c@.cells);
                    assert(c@.cells.len() == width);
                    out.append(&mut part);
                    assert forall|k: int| 0 <= k < out@.len() implies (#[trigger] out@[k])@
                        == a.cells[k / width]->Array_0.cells[k % width] by {
                        if k >= before.len() {
                            let e = k - i * width;
                            assert(out@[k] == copied[e]);
                            assert(views(copied)[e] == copied[e]@);
                            assert(k / width == i && k % width == e) by (nonlinear_arith)
                                requires
                                    k == i * width + e,
                                    0 <= e < width,
                            ;
                        } else {
                            assert(out@[k] == before[k]);
                        }
                    }
                    assert((i + 1) * width == i * width + width) by (nonlinear_arith);
                },
                _ => {
                    assert(false);
                },
            }
            i += 1;
        }
        proof {
            assert(views(out@) =~= a.folded().cells);
        }
        Array::assemble(shape, inner_type, out)
    }

    /// Normalizes the array in place.
    pub fn normalize(&mut self, depth: usize)
        requires
            old(self)@.wf(),
        ensures
            final(self)@ == old(self)@.normalize(depth as nat),
            final(self)@.wf(),
    {
        let mut taken = Array::list(Vec::new());
        core::mem::swap(self, &mut taken);
        *self = taken.normalized(depth);
    }
}

} // verus!
