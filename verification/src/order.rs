//! The total order on values.
//!
//! Numbers come before characters, characters before function handles,
//! and those before arrays. Numbers order by value (negative zero just
//! before positive zero), characters by code point, handles by their
//! number, arrays by shape and then cell by cell. The storage kind of an
//! array plays no part.

use vstd::prelude::*;
use crate::number::Comparison;
use crate::value::{Value, ValueView, Array, views};

verus! {

/// The order of two integers.
pub open spec fn compare_ints(a: int, b: int) -> Comparison {
    if a < b {
        Comparison::Less
    } else if a == b {
        Comparison::Equal
    } else {
        Comparison::Greater
    }
}

/// The outcome of the comparison with the operands exchanged.
pub open spec fn flip(c: Comparison) -> Comparison {
    match c {
        Comparison::Less => Comparison::Greater,
        Comparison::Equal => Comparison::Equal,
        Comparison::Greater => Comparison::Less,
    }
}

/// What two comparisons say of the outer pair, if the order is transitive:
/// `ab` compares a with b, `bc` b with c, `ac` a with c.
pub open spec fn chains(ab: Comparison, bc: Comparison, ac: Comparison) -> bool {
    &&& (ab != Comparison::Greater && bc != Comparison::Greater) ==> ac != Comparison::Greater
    &&& (ab != Comparison::Greater && bc != Comparison::Greater && (ab == Comparison::Less || bc
        == Comparison::Less)) ==> ac == Comparison::Less
    &&& (ab != Comparison::Less && bc != Comparison::Less) ==> ac != Comparison::Less
    &&& (ab != Comparison::Less && bc != Comparison::Less && (ab == Comparison::Greater || bc
        == Comparison::Greater)) ==> ac == Comparison::Greater
}

/// Lexicographic order of two shapes from axis `i` on, a proper prefix
/// coming first.
pub open spec fn compare_shapes_from(a: Seq<usize>, b: Seq<usize>, i: int) -> Comparison
    decreases a.len() - i,
{
    if i < 0 || i >= a.len() || i >= b.len() {
        compare_ints(a.len() as int, b.len() as int)
    } else if a[i] != b[i] {
        compare_ints(a[i] as int, b[i] as int)
    } else {
        compare_shapes_from(a, b, i + 1)
    }
}

/// Lexicographic order of two cell sequences from position `i` on, a
/// proper prefix coming first.
pub open spec fn compare_cells_from(a: Seq<ValueView>, b: Seq<ValueView>, i: int) -> Comparison
    decreases a, a.len() - i,
{
    if i < 0 || i >= a.len() || i >= b.len() {
        compare_ints(a.len() as int, b.len() as int)
    } else {
        let c = a[i].compare(b[i]);
        if c != Comparison::Equal {
            c
        } else {
            compare_cells_from(a, b, i + 1)
        }
    }
}

impl ValueView {
    /// The rank of the value's kind in the order.
    pub open spec fn tag(self) -> int {
        match self {
            ValueView::Num(_) => 0,
            ValueView::Char(_) => 1,
            ValueView::Function(_) => 2,
            ValueView::Array(_) => 3,
        }
    }

    /// The order of `self` and `other`.
    pub open spec fn compare(self, other: ValueView) -> Comparison
        decreases self, 0nat,
    {
        match self {
            ValueView::Num(a) => match other {
                ValueView::Num(b) => compare_ints(a.key(), b.key()),
                _ => compare_ints(0, other.tag()),
            },
            ValueView::Char(a) => match other {
                ValueView::Char(b) => compare_ints(a as u32 as int, b as u32 as int),
                _ => compare_ints(1, other.tag()),
            },
            ValueView::Function(f) => match other {
                ValueView::Function(g) => compare_ints(f.id as int, g.id as int),
                _ => compare_ints(2, other.tag()),
            },
            ValueView::Array(a) => match other {
                ValueView::Array(b) => {
                    let s = compare_shapes_from(a.shape, b.shape, 0);
                    if s != Comparison::Equal {
                        s
                    } else {
                        compare_cells_from(a.cells, b.cells, 0)
                    }
                },
                _ => Comparison::Greater,
            },
        }
    }

    /// The two values hold the same place in the order.
    pub open spec fn same(self, other: ValueView) -> bool {
        self.compare(other) == Comparison::Equal
    }
}

pub proof fn lemma_shapes_reflexive(a: Seq<usize>, i: int)
    ensures
        compare_shapes_from(a, a, i) == Comparison::Equal,
    decreases a.len() - i,
{
    if !(i < 0 || i >= a.len()) {
        lemma_shapes_reflexive(a, i + 1);
    }
}

pub proof fn lemma_shapes_flip(a: Seq<usize>, b: Seq<usize>, i: int)
    ensures
        compare_shapes_from(a, b, i) == flip(compare_shapes_from(b, a, i)),
    decreases a.len() - i,
{
    if !(i < 0 || i >= a.len() || i >= b.len()) && a[i] == b[i] {
        lemma_shapes_flip(a, b, i + 1);
    }
}

pub proof fn lemma_shapes_chain(a: Seq<usize>, b: Seq<usize>, c: Seq<usize>, i: int)
    ensures
        chains(
            compare_shapes_from(a, b, i),
            compare_shapes_from(b, c, i),
            compare_shapes_from(a, c, i),
        ),
    decreases a.len() - i,
{
    if !(i < 0 || i >= a.len() || i >= b.len() || i >= c.len()) {
        if a[i] == b[i] && b[i] == c[i] {
            lemma_shapes_chain(a, b, c, i + 1);
        }
    }
}

/// Every value holds the same place as itself.
pub proof fn lemma_reflexive(a: ValueView)
    ensures
        a.compare(a) == Comparison::Equal,
    decreases a, 0nat,
{
    match a {
        ValueView::Array(x) => {
            lemma_shapes_reflexive(x.shape, 0);
            lemma_cells_reflexive(x.cells, 0);
        },
        _ => {},
    }
}

pub proof fn lemma_cells_reflexive(a: Seq<ValueView>, i: int)
    ensures
        compare_cells_from(a, a, i) == Comparison::Equal,
    decreases a, a.len() - i,
{
    if !(i < 0 || i >= a.len()) {
        lemma_reflexive(a[i]);
        lemma_cells_reflexive(a, i + 1);
    }
}

/// Exchanging the operands exchanges `Less` and `Greater`.
pub proof fn lemma_flip(a: ValueView, b: ValueView)
    ensures
        a.compare(b) == flip(b.compare(a)),
    decreases a, 0nat,
{
    match a {
        ValueView::Array(x) => {
            match b {
                ValueView::Array(y) => {
                    lemma_shapes_flip(x.shape, y.shape, 0);
                    lemma_cells_flip(x.cells, y.cells, 0);
                },
                _ => {},
            }
        },
        _ => {},
    }
}

pub proof fn lemma_cells_flip(a: Seq<ValueView>, b: Seq<ValueView>, i: int)
    ensures
        compare_cells_from(a, b, i) == flip(compare_cells_from(b, a, i)),
    decreases a, a.len() - i,
{
    if !(i < 0 || i >= a.len() || i >= b.len()) {
        lemma_flip(a[i], b[i]);
        lemma_cells_flip(a, b, i + 1);
    }
}

/// The order is transitive.
pub proof fn lemma_chain(a: ValueView, b: ValueView, c: ValueView)
    ensures
        chains(a.compare(b), b.compare(c), a.compare(c)),
    decreases a, 0nat,
{
    match a {
        ValueView::Array(x) => {
            match b {
                ValueView::Array(y) => {
                    match c {
                        ValueView::Array(z) => {
                            lemma_shapes_chain(x.shape, y.shape, z.shape, 0);
                            lemma_cells_chain(x.cells, y.cells, z.cells, 0);
                        },
                        _ => {},
                    }
                },
                _ => {},
            }
        },
        _ => {},
    }
}

pub proof fn lemma_cells_chain(a: Seq<ValueView>, b: Seq<ValueView>, c: Seq<ValueView>, i: int)
    ensures
        chains(
            compare_cells_from(a, b, i),
            compare_cells_from(b, c, i),
            compare_cells_from(a, c, i),
        ),
    decreases a, a.len() - i,
{
    if !(i < 0 || i >= a.len() || i >= b.len() || i >= c.len()) {
        lemma_chain(a[i], b[i], c[i]);
        lemma_cells_chain(a, b, c, i + 1);
    }
}

/// Compares two shapes.
pub fn compare_shapes(a: &Vec<usize>, b: &Vec<usize>) -> (r: Comparison)
    ensures
        r == compare_shapes_from(a@, b@, 0),
{
    let mut i: usize = 0;
    while i < a.len() && i < b.len()
        invariant
            i <= a@.len(),
            i <= b@.len(),
            compare_shapes_from(a@, b@, 0) == compare_shapes_from(a@, b@, i as int),
        decreases a@.len() - i,
    {
        if a[i] < b[i] {
            return Comparison::Less;
        }
        if a[i] > b[i] {
            return Comparison::Greater;
        }
        i += 1;
    }
    if a.len() < b.len() {
        Comparison::Less
    } else if a.len() == b.len() {
        Comparison::Equal
    } else {
        Comparison::Greater
    }
}

/// Compares two runs of cells of equal length, cell by cell:
/// `a[from_a..from_a + n]` with `b[from_b..from_b + n]`.
pub fn compare_runs(a: &Vec<Value>, from_a: usize, b: &Vec<Value>, from_b: usize, n: usize) -> (r:
    Comparison)
    requires
        from_a + n <= a@.len(),
        from_b + n <= b@.len(),
    ensures
        r == compare_cells_from(
            views(a@).subrange(from_a as int, from_a + n),
            views(b@).subrange(from_b as int, from_b + n),
            0,
        ),
    decreases views(a@), 0nat,
{
    let ghost x = views(a@).subrange(from_a as int, from_a + n);
    let ghost y = views(b@).subrange(from_b as int, from_b + n);
    let mut i: usize = 0;
    let len_a = a.len();
    let len_b = b.len();
    while i < n
        invariant
            i <= n,
            len_a == a@.len(),
            len_b == b@.len(),
            from_a + n <= a@.len(),
            from_b + n <= b@.len(),
            x == views(a@).subrange(from_a as int, from_a + n),
            y == views(b@).subrange(from_b as int, from_b + n),
            compare_cells_from(x, y, 0) == compare_cells_from(x, y, i as int),
        decreases n - i,
    {
        assert(x[i as int] == a@[from_a + i]@);
        assert(y[i as int] == b@[from_b + i]@);
        assert(views(a@)[from_a + i] == a@[from_a + i]@);
        let c = a[from_a + i].compare(&b[from_b + i]);
        match c {
            Comparison::Equal => {},
            _ => {
                return c;
            },
        }
        i += 1;
    }
    Comparison::Equal
}

/// Compares two sequences of cells, cell by cell.
pub fn compare_cells(a: &Vec<Value>, b: &Vec<Value>) -> (r: Comparison)
    ensures
        r == compare_cells_from(views(a@), views(b@), 0),
    decreases views(a@), 0nat,
{
    let ghost x = views(a@);
    let ghost y = views(b@);
    let mut i: usize = 0;
    while i < a.len() && i < b.len()
        invariant
            i <= a@.len(),
            i <= b@.len(),
            x == views(a@),
            y == views(b@),
            compare_cells_from(x, y, 0) == compare_cells_from(x, y, i as int),
        decreases a@.len() - i,
    {
        assert(x[i as int] == a@[i as int]@);
        assert(y[i as int] == b@[i as int]@);
        let c = a[i].compare(&b[i]);
        match c {
            Comparison::Equal => {},
            _ => {
                return c;
            },
        }
        i += 1;
    }
    if a.len() < b.len() {
        Comparison::Less
    } else if a.len() == b.len() {
        Comparison::Equal
    } else {
        Comparison::Greater
    }
}

impl Value {
    /// Compares two values under the total order.
    pub fn compare(&self, other: &Value) -> (r: Comparison)
        ensures
            r == self@.compare(other@),
        decreases self@, 1nat,
    {
        match self {
            Value::Num(a) => match other {
                Value::Num(b) => a.compare(b),
                _ => Comparison::Less,
            },
            Value::Char(a) => match other {
                Value::Num(_) => Comparison::Greater,
                Value::Char(b) => {
                    let x: u32 = *a as u32;
                    let y: u32 = *b as u32;
                    if x < y {
                        Comparison::Less
                    } else if x == y {
                        Comparison::Equal
                    } else {
                        Comparison::Greater
                    }
                },
                _ => Comparison::Less,
            },
            Value::Function(f) => match other {
                Value::Function(g) => {
                    if f.id < g.id {
                        Comparison::Less
                    } else if f.id == g.id {
                        Comparison::Equal
                    } else {
                        Comparison::Greater
                    }
                },
                Value::Array(_) => Comparison::Less,
                _ => Comparison::Greater,
            },
            Value::Array(a) => match other {
                Value::Array(b) => {
                    let s = compare_shapes(a.shape(), b.shape());
                    match s {
                        Comparison::Equal => {
                            compare_cells(a.cells(), b.cells())
                        },
                        _ => s,
                    }
                },
                _ => Comparison::Greater,
            },
        }
    }
}

} // verus!
