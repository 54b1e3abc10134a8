//! Sliding windows along the leading axes.

use vstd::prelude::*;
use crate::error::{Env, ErrorKind, RuntimeError, settles};
use crate::kernel::gather;
use crate::shape::{product, as_ints, in_bounds, ravel, unravel, unravel_index, ravel_index, checked_product, lemma_unravel_bounds, lemma_ravel_bounds};
use crate::value::{Array, ArrayType, ArrayView, Value, ValueView, views};

verus! {

/// The shape of the array of windows: first the number of windows along
/// each windowed axis, then the extent of a window along each, then the
/// extents of the axes that are not windowed.
pub open spec fn windowed_shape(sizes: Seq<usize>, shape: Seq<usize>) -> Seq<usize> {
    let k = sizes.len() as int;
    Seq::new(
        shape.len() + sizes.len(),
        |j: int|
            if j < k {
                (shape[j] - sizes[j] + 1) as usize
            } else if j < 2 * k {
                sizes[j - k]
            } else {
                shape[j - k]
            },
    )
}

/// The multi-index of the array from which the cell at multi-index `m`
/// of the array of windows comes: along a windowed axis, the start of
/// the window plus the position within it.
pub open spec fn window_coords(k: int, m: Seq<int>) -> Seq<int> {
    Seq::new(
        (m.len() - k) as nat,
        |j: int|
            if j < k {
                m[j] + m[k + j]
            } else {
                m[k + j]
            },
    )
}

/// The position from which the cell at position `t` of the array of
/// windows comes.
pub open spec fn windowed_source(sizes: Seq<usize>, shape: Seq<usize>, t: int) -> int {
    ravel(shape, window_coords(sizes.len() as int, unravel(windowed_shape(sizes, shape), t)))
}

/// Whether every window fits its axis.
pub open spec fn windows_fit(sizes: Seq<usize>, shape: Seq<usize>) -> bool {
    &&& sizes.len() <= shape.len()
    &&& forall|j: int| 0 <= j < sizes.len() ==> #[trigger] sizes[j] <= shape[j]
}

/// The source multi-index of a multi-index of the array of windows lies
/// within the array.
pub proof fn lemma_window_coords(sizes: Seq<usize>, shape: Seq<usize>, m: Seq<int>)
    requires
        windows_fit(sizes, shape),
        in_bounds(windowed_shape(sizes, shape), m),
    ensures
        in_bounds(shape, window_coords(sizes.len() as int, m)),
{
    let k = sizes.len() as int;
    let ws = windowed_shape(sizes, shape);
    let c = window_coords(k, m);
    assert forall|j: int| 0 <= j < shape.len() implies 0 <= #[trigger] c[j] < shape[j] by {
        if j < k {
            assert(0 <= m[j] < ws[j]);
            assert(0 <= m[k + j] < ws[k + j]);
            assert(sizes[j] <= shape[j]);
        } else {
            assert(0 <= m[k + j] < ws[k + j]);
        }
    }
}

/// The source of a position of the array of windows is a position of
/// the array.
pub proof fn lemma_windowed_source(sizes: Seq<usize>, shape: Seq<usize>, t: int)
    requires
        windows_fit(sizes, shape),
        0 <= t < product(windowed_shape(sizes, shape)),
    ensures
        0 <= windowed_source(sizes, shape, t) < product(shape),
{
    let ws = windowed_shape(sizes, shape);
    lemma_unravel_bounds(ws, t);
    lemma_window_coords(sizes, shape, unravel(ws, t));
    lemma_ravel_bounds(shape, window_coords(sizes.len() as int, unravel(ws, t)));
}

impl ArrayView {
    /// The array of all windows of the given sizes, in the order of
    /// their starts.
    pub open spec fn windows(self, sizes: Seq<usize>) -> Result<ArrayView, ErrorKind> {
        let shape = windowed_shape(sizes, self.shape);
        if sizes.len() > self.shape.len() {
            Err(ErrorKind::RankMismatch)
        } else if !windows_fit(sizes, self.shape) {
            Err(ErrorKind::WindowTooLarge)
        } else if product(shape) > usize::MAX {
            Err(ErrorKind::SizeOverflow)
        } else {
            Ok(
                ArrayView {
                    shape,
                    ty: self.ty,
                    cells: Seq::new(
                        product(shape),
                        |t: int| self.cells[windowed_source(sizes, self.shape, t)],
                    ),
                },
            )
        }
    }
}

impl ValueView {
    /// The array of all windows of `from` of the sizes that `self`
    /// stands for. A size must be positive.
    pub open spec fn windows(self, from: ValueView) -> Result<ValueView, ErrorKind> {
        match self.decode_positives() {
            None => Err(ErrorKind::ShapeDecode),
            Some(sizes) => if exists|j: int| 0 <= j < sizes.len() && #[trigger] sizes[j] == 0 {
                Err(ErrorKind::ShapeDecode)
            } else {
                match from.coerce().windows(sizes) {
                    Err(e) => Err(e),
                    Ok(r) => Ok(ValueView::Array(r)),
                }
            },
        }
    }
}

/// The array of all windows of `array` of the given sizes, which are
/// positive.
pub fn array_windows(sizes: &Vec<usize>, array: &Array, env: &Env) -> (r: Result<Array, RuntimeError>)
    requires
        array@.wf(),
        forall|j: int| 0 <= j < sizes@.len() ==> #[trigger] sizes@[j] > 0,
    ensures
        match array@.windows(sizes@) {
            Ok(a) => r is Ok && r->Ok_0@ == a && a.wf(),
            Err(k) => r is Err && r->Err_0.kind == k,
        },
{
    let ghost a = array@;
    let k = sizes.len();
    let shape = array.shape();
    let rank = shape.len();
    if k > rank {
        return Err(env.error(ErrorKind::RankMismatch, "Cannot window with sizes of greater rank"));
    }
    let mut extents: Vec<usize> = Vec::new();
    let mut j: usize = 0;
    while j < k
        invariant
            j <= k,
            k == sizes@.len(),
            k <= rank,
            rank == shape@.len(),
            shape@ == a.shape,
            a == array@,
            forall|i: int| 0 <= i < sizes@.len() ==> #[trigger] sizes@[i] > 0,
            extents@.len() == j,
            forall|i: int| 0 <= i < j ==> #[trigger] sizes@[i] <= shape@[i],
            forall|i: int| 0 <= i < j ==> #[trigger] extents@[i] == shape@[i] - sizes@[i] + 1,
        decreases k - j,
    {
        if sizes[j] > shape[j] {
            return Err(env.error(ErrorKind::WindowTooLarge, "Window size is too large"));
        }
        assert(sizes@[j as int] > 0);
        extents.push(shape[j] - sizes[j] + 1);
        j += 1;
    }
    j = 0;
    while j < k
        invariant
            j <= k,
            k == sizes@.len(),
            extents@.len() == k + j,
            forall|i: int| 0 <= i < k ==> #[trigger] extents@[i] == shape@[i] - sizes@[i] + 1,
            forall|i: int| 0 <= i < j ==> #[trigger] extents@[k + i] == sizes@[i],
        decreases k - j,
    {
        extents.push(sizes[j]);
        j += 1;
    }
    j = k;
    while j < rank
        invariant
            k <= j <= rank,
            k == sizes@.len(),
            rank == shape@.len(),
            extents@.len() == k + j,
            forall|i: int| 0 <= i < k ==> #[trigger] extents@[i] == shape@[i] - sizes@[i] + 1,
            forall|i: int| 0 <= i < k ==> #[trigger] extents@[k + i] == sizes@[i],
            forall|i: int| k <= i < j ==> #[trigger] extents@[k + i] == shape@[i],
        decreases rank - j,
    {
        extents.push(shape[j]);
        j += 1;
    }
    proof {
        let ws = windowed_shape(sizes@, shape@);
        assert(extents@.len() == ws.len());
        assert forall|i: int| 0 <= i < ws.len() implies extents@[i] == ws[i] by {
            if i < k {
            } else if i < 2 * k {
                assert(extents@[k + (i - k)] == sizes@[i - k]);
            } else {
                assert(extents@[k + (i - k)] == shape@[i - k]);
            }
        }
        assert(extents@ =~= ws);
        assert(windows_fit(sizes@, shape@));
    }
    let total = match checked_product(extents.as_slice()) {
        Some(p) => p,
        None => {
            return Err(env.error(ErrorKind::SizeOverflow, "Array of windows is too large"));
        },
    };
    let cells = array.cells();
    let count = cells.len();
    let mut sources: Vec<usize> = Vec::new();
    let mut t: usize = 0;
    while t < total
        invariant
            t <= total,
            a == array@,
            a.wf(),
            k == sizes@.len(),
            rank == shape@.len(),
            k <= rank,
            shape@ == a.shape,
            windows_fit(sizes@, a.shape),
            extents@ == windowed_shape(sizes@, a.shape),
            total == product(extents@),
            cells@.len() == product(a.shape),
            cells@.len() <= usize::MAX,
            sources@.len() == t,
            forall|i: int|
                0 <= i < t ==> #[trigger] sources@[i] == windowed_source(sizes@, a.shape, i)
                    && sources@[i] < cells@.len(),
        decreases total - t,
    {
        let m = unravel_index(extents.as_slice(), t);
        proof {
            lemma_unravel_bounds(extents@, t as int);
            lemma_window_coords(sizes@, a.shape, unravel(extents@, t as int));
        }
        let ghost mm = unravel(extents@, t as int);
        let ghost want = window_coords(k as int, mm);
        let mut c: Vec<usize> = Vec::new();
        let mut j: usize = 0;
        let width = m.len();
        while j < rank
            invariant
                j <= rank,
                k <= rank,
                rank == shape@.len(),
                width == rank + k,
                m@.len() == rank + k,
                as_ints(m@) == mm,
                want == window_coords(k as int, mm),
                in_bounds(shape@, want),
                c@.len() == j,
                forall|i: int| 0 <= i < j ==> #[trigger] c@[i] == want[i],
            decreases rank - j,
        {
            assert(0 <= want[j as int] < shape@[j as int]);
            assert(as_ints(m@)[j as int] == m@[j as int]);
            assert(as_ints(m@)[k + j] == m@[k + j]);
            if j < k {
                c.push(m[j] + m[k + j]);
            } else {
                c.push(m[k + j]);
            }
            j += 1;
        }
        proof {
            assert(as_ints(c@) =~= want);
            lemma_ravel_bounds(a.shape, want);
        }
        sources.push(ravel_index(shape.as_slice(), &c));
        t += 1;
    }
    let out = gather(cells, &sources);
    proof {
        let expect = Seq::new(
            product(extents@),
            |t: int| a.cells[windowed_source(sizes@, a.shape, t)],
        );
        assert(views(out@) =~= expect);
        assert forall|i: int| 0 <= i < expect.len() implies (#[trigger] expect[i]).wf() && (a.ty
            == ArrayType::Num ==> expect[i] is Num) && (a.ty == ArrayType::Char ==> expect[i] is Char) by {
            lemma_windowed_source(sizes@, a.shape, i);
            assert(a.cells[windowed_source(sizes@, a.shape, i)].wf());
        }
    }
    Ok(Array::assemble(extents, array.ty(), out))
}

impl Value {
    /// Replaces the value, read as a list of window sizes, by the array
    /// of all windows of `from` of these sizes.
    pub fn windows(&mut self, from: Value, env: &Env) -> (r: Result<(), RuntimeError>)
        requires
            old(self)@.wf(),
            from@.wf(),
        ensures
            settles(old(self)@, final(self)@, r, old(self)@.windows(from@)),
            final(self)@.wf(),
    {
        let sizes = match self.as_positives(env, "Window size must be a list of positive integers") {
            Ok(s) => s,
            Err(e) => {
                return Err(e);
            },
        };
        let mut j: usize = 0;
        let ghost before = self@;
        while j < sizes.len()
            invariant
                j <= sizes@.len(),
                self@ == before,
                before.wf(),
                before.decode_positives() == Some(sizes@),
                forall|i: int| 0 <= i < j ==> #[trigger] sizes@[i] != 0,
            decreases sizes@.len() - j,
        {
            if sizes[j] == 0 {
                return Err(
                    env.error(
                        ErrorKind::ShapeDecode,
                        "Window size must be a list of positive integers",
                    ),
                );
            }
            j += 1;
        }
        let array = from.coerce_into_array();
        match array_windows(&sizes, &array, env) {
            Ok(w) => {
                *self = Value::Array(w);
                Ok(())
            },
            Err(e) => Err(e),
        }
    }
}

} // verus!
