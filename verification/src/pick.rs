//! Verbs that take cells out of an array by position: pick, select,
//! replicate.

use vstd::prelude::*;
use crate::error::{Env, ErrorKind, RuntimeError, settles};
use crate::value::{Array, ArrayType, ArrayView, Value, ValueView, views};

verus! {

/// Whether index `i` names a cell of an axis of extent `s`: negative
/// indices count from the end.
pub open spec fn index_in_range(i: isize, s: usize) -> bool {
    -(s as int) <= i < s
}

/// The position along an axis of extent `s` that index `i` names.
pub open spec fn resolve(i: isize, s: usize) -> int {
    if i >= 0 {
        i as int
    } else {
        s + i
    }
}

/// What follows `v` when one cell after another is picked: index by
/// index, the major cell that the index names.
pub open spec fn picked(v: ValueView, index: Seq<isize>) -> ValueView
    decreases index.len(),
{
    if index.len() == 0 {
        v
    } else {
        let a = v->Array_0;
        picked(a.major(resolve(index[0], a.shape[0])), index.skip(1))
    }
}

/// As many copies of each cell as its count says, in order.
pub open spec fn replicated<T>(counts: Seq<usize>, cells: Seq<T>) -> Seq<T>
    decreases counts.len(),
{
    if counts.len() == 0 {
        Seq::empty()
    } else {
        replicated(counts.drop_last(), cells.drop_last()) + Seq::new(
            counts.last() as nat,
            |k: int| cells.last(),
        )
    }
}

/// The sum of the counts.
pub open spec fn total(counts: Seq<usize>) -> nat
    decreases counts.len(),
{
    if counts.len() == 0 {
        0
    } else {
        total(counts.drop_last()) + counts.last() as nat
    }
}

/// Replicating gives as many cells as the counts add up to.
pub proof fn lemma_replicated_len<T>(counts: Seq<usize>, cells: Seq<T>)
    ensures
        replicated(counts, cells).len() == total(counts),
    decreases counts.len(),
{
    if counts.len() > 0 {
        lemma_replicated_len(counts.drop_last(), cells.drop_last());
    }
}

impl ArrayView {
    /// The cell or residual array that the index list names. The list
    /// may not be longer than the rank, and each index must lie within
    /// its axis.
    pub open spec fn pick(self, index: Seq<isize>) -> Result<ValueView, ErrorKind> {
        if index.len() > self.shape.len() {
            Err(ErrorKind::RankMismatch)
        } else if exists|j: int|
            0 <= j < index.len() && !index_in_range(#[trigger] index[j], self.shape[j]) {
            Err(ErrorKind::IndexOutOfRange)
        } else {
            Ok(picked(ValueView::Array(self), index))
        }
    }

    /// The array of the major cells that the indices name, normalized
    /// at depth 1.
    pub open spec fn select(self, index: Seq<isize>) -> Result<ValueView, ErrorKind> {
        if index.len() > 0 && self.shape.len() == 0 {
            Err(ErrorKind::RankMismatch)
        } else if exists|j: int|
            0 <= j < index.len() && !index_in_range(#[trigger] index[j], self.shape[0]) {
            Err(ErrorKind::IndexOutOfRange)
        } else {
            Ok(
                ValueView::Array(
                    ArrayView::list(
                        Seq::new(index.len(), |j: int| self.major(resolve(index[j], self.shape[0]))),
                    ).normalize(1),
                ),
            )
        }
    }
}

impl ValueView {
    /// The cell or residual array of `from` that `self`, read as an
    /// index list, names.
    pub open spec fn pick(self, from: ValueView) -> Result<ValueView, ErrorKind> {
        if !(from is Array) || from.rank() == 0 {
            Err(ErrorKind::RankMismatch)
        } else {
            match self.decode_indices() {
                None => Err(ErrorKind::ShapeDecode),
                Some(index) => from->Array_0.pick(index),
            }
        }
    }

    /// The array of the major cells of `from` that `self`, read as an
    /// index list, names.
    pub open spec fn select(self, from: ValueView) -> Result<ValueView, ErrorKind> {
        match self.decode_indices() {
            None => Err(ErrorKind::ShapeDecode),
            Some(index) => from.coerce().select(index),
        }
    }

    /// The counts that `self` gives to an array of `n` major cells: a
    /// count for all of them, or a list of `n` counts.
    pub open spec fn replicate_counts(self, n: nat) -> Result<Seq<usize>, ErrorKind> {
        match self {
            ValueView::Num(x) => match x.as_count() {
                Some(c) => Ok(Seq::new(n, |i: int| c)),
                None => Err(ErrorKind::TypeError),
            },
            ValueView::Array(f) => if f.len() != n {
                Err(ErrorKind::LengthMismatch)
            } else if f.ty != ArrayType::Num || f.shape.len() != 1 {
                Err(ErrorKind::TypeError)
            } else if exists|i: int|
                0 <= i < f.cells.len() && (#[trigger] f.cells[i])->Num_0.as_count() is None {
                Err(ErrorKind::TypeError)
            } else {
                Ok(Seq::new(n, |i: int| f.cells[i]->Num_0.as_count()->0))
            },
            _ => Err(ErrorKind::TypeError),
        }
    }

    /// The list of the major cells of `items`, each as often as `self`
    /// says, normalized at depth 1.
    pub open spec fn replicate(self, items: ValueView) -> Result<ValueView, ErrorKind> {
        match items {
            ValueView::Array(a) => match self.replicate_counts(a.len()) {
                Err(e) => Err(e),
                Ok(counts) => if total(counts) > usize::MAX {
                    Err(ErrorKind::SizeOverflow)
                } else {
                    Ok(ValueView::Array(ArrayView::list(replicated(counts, a.majors())).normalize(1)))
                },
            },
            _ => Err(ErrorKind::TypeError),
        }
    }
}

/// How a function that returns a value relates to what it is specified
/// to compute.
pub open spec fn produces(r: Result<Value, RuntimeError>, expected: Result<ValueView, ErrorKind>) -> bool {
    match expected {
        Ok(v) => r is Ok && r->Ok_0@ == v,
        Err(k) => r is Err && r->Err_0.kind == k,
    }
}

/// The position that an index within range names.
pub fn resolve_index(i: isize, s: usize) -> (r: usize)
    requires
        index_in_range(i, s),
    ensures
        r == resolve(i, s),
        r < s,
{
    if i >= 0 {
        i as usize
    } else {
        (s as i128 + i as i128) as usize
    }
}

/// Whether index `i` names a cell of an axis of extent `s`.
pub fn in_range(i: isize, s: usize) -> (r: bool)
    ensures
        r == index_in_range(i, s),
{
    (i as i128) < (s as i128) && (s as i128) + (i as i128) >= 0
}

/// The cell or residual array of `array` that the index list names.
pub fn pick(index: &Vec<isize>, array: &Array, env: &Env) -> (r: Result<Value, RuntimeError>)
    requires
        array@.wf(),
    ensures
        produces(r, array@.pick(index@)),
        r is Ok ==> r->Ok_0@.wf(),
{
    if index.len() > array.rank() {
        return Err(env.error(ErrorKind::RankMismatch, "Cannot pick with index of greater rank"));
    }
    let shape = array.shape();
    let mut j: usize = 0;
    while j < index.len()
        invariant
            j <= index@.len(),
            index@.len() <= shape@.len(),
            shape@ == array@.shape,
            forall|i: int| 0 <= i < j ==> index_in_range(#[trigger] index@[i], shape@[i]),
        decreases index@.len() - j,
    {
        if !in_range(index[j], shape[j]) {
            return Err(env.error(ErrorKind::IndexOutOfRange, "Index out of range"));
        }
        j += 1;
    }
    pick_impl(index, array)
}

/// Picks with an index list that is known to fit the array.
pub fn pick_impl(index: &Vec<isize>, array: &Array) -> (r: Result<Value, RuntimeError>)
    requires
        array@.wf(),
        index@.len() <= array@.shape.len(),
        forall|i: int| 0 <= i < index@.len() ==> index_in_range(#[trigger] index@[i], array@.shape[i]),
    ensures
        r is Ok,
        r->Ok_0@ == picked(ValueView::Array(array@), index@),
        r->Ok_0@.wf(),
{
    if index.len() == 0 {
        return Ok(Value::Array(array.clone()));
    }
    let shape = array.shape();
    assert(index_in_range(index@[0], shape@[0]));
    let mut cur = array.major_cell(resolve_index(index[0], shape[0]));
    let mut j: usize = 1;
    proof {
        assert(index@.skip(0) =~= index@);
        assert(index@.skip(0).skip(1) =~= index@.skip(1));
        if index@.len() > 1 {
            assert(array@.shape.skip(1) =~= array@.shape.skip(1));
        }
    }
    while j < index.len()
        invariant
            1 <= j <= index@.len(),
            index@.len() <= shape@.len(),
            shape@ == array@.shape,
            forall|i: int| 0 <= i < index@.len() ==> index_in_range(#[trigger] index@[i], shape@[i]),
            cur@.wf(),
            picked(ValueView::Array(array@), index@) == picked(cur@, index@.skip(j as int)),
            j < index@.len() ==> cur@ is Array && cur@->Array_0.shape == shape@.skip(j as int),
        decreases index@.len() - j,
    {
        let next = match &cur {
            Value::Array(a) => {
                assert(a@.shape[0] == shape@[j as int]);
                assert(index_in_range(index@[j as int], shape@[j as int]));
                proof {
                    assert(index@.skip(j as int)[0] == index@[j as int]);
                    assert(index@.skip(j as int).skip(1) =~= index@.skip(j + 1));
                    assert(shape@.skip(j as int).skip(1) =~= shape@.skip(j + 1));
                }
                a.major_cell(resolve_index(index[j], a.shape()[0]))
            },
            _ => vstd::pervasive::unreached(),
        };
        cur = next;
        j += 1;
    }
    Ok(cur)
}

impl Value {
    /// Replaces the value, read as an index list, by the cell or
    /// residual array of `from` that it names.
    pub fn pick(&mut self, from: Value, env: &Env) -> (r: Result<(), RuntimeError>)
        requires
            old(self)@.wf(),
            from@.wf(),
        ensures
            settles(old(self)@, final(self)@, r, old(self)@.pick(from@)),
            final(self)@.wf(),
    {
        match &from {
            Value::Array(array) => {
                if array.rank() == 0 {
                    return Err(
                        env.error(ErrorKind::RankMismatch, "Cannot pick from rank less than 1"),
                    );
                }
                let index = match self.as_indices(env, "Index must be a list of integers") {
                    Ok(i) => i,
                    Err(e) => {
                        return Err(e);
                    },
                };
                match pick(&index, array, env) {
                    Ok(v) => {
                        *self = v;
                        Ok(())
                    },
                    Err(e) => Err(e),
                }
            },
            _ => Err(env.error(ErrorKind::RankMismatch, "Cannot pick from rank less than 1")),
        }
    }

    /// Replaces the value, read as an index list, by the array of the
    /// major cells of `from` that it names.
    pub fn select(&mut self, from: Value, env: &Env) -> (r: Result<(), RuntimeError>)
        requires
            old(self)@.wf(),
            from@.wf(),
        ensures
            settles(old(self)@, final(self)@, r, old(self)@.select(from@)),
            final(self)@.wf(),
    {
        let index = match self.as_indices(env, "Indices must be a list of integers") {
            Ok(i) => i,
            Err(e) => {
                return Err(e);
            },
        };
        let array = from.coerce_into_array();
        if index.len() > 0 && array.rank() == 0 {
            return Err(env.error(ErrorKind::RankMismatch, "Cannot pick with index of greater rank"));
        }
        let mut selected: Vec<Value> = Vec::new();
        let mut j: usize = 0;
        let ghost before = self@;
        while j < index.len()
            invariant
                j <= index@.len(),
                array@.wf(),
                self@ == before,
                before.wf(),
                before.decode_indices() == Some(index@),
                array@ == from@.coerce(),
                index@.len() > 0 ==> array@.shape.len() > 0,
                selected@.len() == j,
                forall|i: int| 0 <= i < j ==> index_in_range(#[trigger] index@[i], array@.shape[0]),
                forall|i: int|
                    0 <= i < j ==> (#[trigger] selected@[i])@ == array@.major(
                        resolve(index@[i], array@.shape[0]),
                    ) && selected@[i]@.wf(),
            decreases index@.len() - j,
        {
            let s = array.shape()[0];
            if !in_range(index[j], s) {
                assert(!index_in_range(index@[j as int], array@.shape[0]));
                return Err(env.error(ErrorKind::IndexOutOfRange, "Index out of range"));
            }
            selected.push(array.major_cell(resolve_index(index[j], s)));
            j += 1;
        }
        proof {
            assert(views(selected@) =~= Seq::new(
                index@.len(),
                |j: int| array@.major(resolve(index@[j], array@.shape[0])),
            ));
        }
        *self = Value::Array(Array::list(selected).normalized(1));
        Ok(())
    }

    /// The counts that the value gives to an array of `n` major cells.
    fn counts(&self, n: usize, env: &Env) -> (r: Result<Vec<usize>, RuntimeError>)
        requires
            self@.wf(),
        ensures
            match self@.replicate_counts(n as nat) {
                Ok(c) => r is Ok && r->Ok_0@ == c,
                Err(k) => r is Err && r->Err_0.kind == k,
            },
    {
        match self {
            Value::Num(x) => match x.to_count() {
                Some(c) => {
                    let mut out: Vec<usize> = Vec::new();
                    let mut i: usize = 0;
                    while i < n
                        invariant
                            i <= n,
                            out@.len() == i,
                            forall|k: int| 0 <= k < i ==> out@[k] == c,
                        decreases n - i,
                    {
                        out.push(c);
                        i += 1;
                    }
                    assert(out@ =~= Seq::new(n as nat, |i: int| c));
                    Ok(out)
                },
                None => Err(env.error(ErrorKind::TypeError, "Cannot replicate with non-integer")),
            },
            Value::Array(f) => {
                if f.len() != n {
                    return Err(
                        env.error(
                            ErrorKind::LengthMismatch,
                            "Cannot replicate with array of different length",
                        ),
                    );
                }
                if !f.is_numbers() {
                    return Err(
                        env.error(ErrorKind::TypeError, "Cannot replicate with non-number array"),
                    );
                }
                if f.rank() != 1 {
                    return Err(env.error(ErrorKind::TypeError, "Cannot replicate with non-1D array"));
                }
                let cells = f.cells();
                proof {
                    assert(f@.shape =~= seq![f@.shape[0]]);
                    crate::shape::lemma_product_one(f@.shape[0]);
                }
                let mut out: Vec<usize> = Vec::new();
                let mut i: usize = 0;
                while i < cells.len()
                    invariant
                        i <= cells@.len(),
                        cells@.len() == n,
                        views(cells@) == f@.cells,
                        f@.wf(),
                        f@.ty == ArrayType::Num,
                        f@.len() == n,
                        f@.shape.len() == 1,
                        self@ == ValueView::Array(f@),
                        out@.len() == i,
                        forall|k: int|
                            0 <= k < i ==> (#[trigger] f@.cells[k])->Num_0.as_count() == Some(out@[k]),
                    decreases cells@.len() - i,
                {
                    assert(views(cells@)[i as int] == cells@[i as int]@);
                    assert(f@.cells[i as int] is Num);
                    match &cells[i] {
                        Value::Num(x) => match x.to_count() {
                            Some(c) => {
                                out.push(c);
                            },
                            None => {
                                assert(f@.cells[i as int]->Num_0.as_count() is None);
                                return Err(
                                    env.error(
                                        ErrorKind::TypeError,
                                        "Cannot replicate with non-natural number",
                                    ),
                                );
                            },
                        },
                        _ => {
                            assert(false);
                        },
                    }
                    i += 1;
                }
                assert(out@ =~= Seq::new(n as nat, |i: int| f@.cells[i]->Num_0.as_count()->0));
                Ok(out)
            },
            _ => Err(env.error(ErrorKind::TypeError, "Cannot replicate with non-number")),
        }
    }

    /// Replaces the value, read as a count or a list of counts, by the
    /// list of the major cells of `items`, each as often as its count
    /// says.
    pub fn replicate(&mut self, items: Value, env: &Env) -> (r: Result<(), RuntimeError>)
        requires
            old(self)@.wf(),
            items@.wf(),
        ensures
            settles(old(self)@, final(self)@, r, old(self)@.replicate(items@)),
            final(self)@.wf(),
    {
        let filtered = match &items {
            Value::Array(a) => a,
            _ => {
                return Err(env.error(ErrorKind::TypeError, "Cannot filter non-array"));
            },
        };
        let n = filtered.len();
        let counts = match self.counts(n, env) {
            Ok(c) => c,
            Err(e) => {
                return Err(e);
            },
        };
        let ghost majors = filtered@.majors();
        let ghost before = self@;
        let mut sum: usize = 0;
        let mut i: usize = 0;
        proof {
            assert(counts@.take(0) =~= Seq::<usize>::empty());
        }
        while i < n
            invariant
                i <= n,
                counts@.len() == n,
                self@ == before,
                before.wf(),
                items@ == ValueView::Array(filtered@),
                n == filtered@.len(),
                before.replicate_counts(n as nat) == Ok::<Seq<usize>, ErrorKind>(counts@),
                sum == total(counts@.take(i as int)),
            decreases n - i,
        {
            proof {
                assert(counts@.take(i + 1).drop_last() =~= counts@.take(i as int));
                assert(counts@.take(i + 1).last() == counts@[i as int]);
                lemma_total_prefix(counts@, i + 1);
            }
            sum = match sum.checked_add(counts[i]) {
                Some(s) => s,
                None => {
                    return Err(env.error(ErrorKind::SizeOverflow, "Replicated array is too long"));
                },
            };
            i += 1;
        }
        proof {
            assert(counts@.take(n as int) =~= counts@);
        }
        let mut data: Vec<Value> = Vec::new();
        i = 0;
        proof {
            assert(majors.take(0) =~= Seq::<ValueView>::empty());
        }
        while i < n
            invariant
                i <= n,
                n == filtered@.len(),
                filtered@.wf(),
                majors == filtered@.majors(),
                counts@.len() == n,
                views(data@) == replicated(counts@.take(i as int), majors.take(i as int)),
                forall|k: int| 0 <= k < data@.len() ==> (#[trigger] data@[k])@.wf(),
            decreases n - i,
        {
            let cell = filtered.major_cell(i);
            let c = counts[i];
            let ghost start = views(data@);
            let mut k: usize = 0;
            while k < c
                invariant
                    k <= c,
                    cell@.wf(),
                    views(data@) == start + Seq::new(k as nat, |e: int| cell@),
                    forall|e: int| 0 <= e < data@.len() ==> (#[trigger] data@[e])@.wf(),
                    forall|e: int| 0 <= e < start.len() ==> (#[trigger] start[e]).wf(),
                decreases c - k,
            {
                let ghost before = views(data@);
                data.push(cell.clone());
                proof {
                    assert(views(data@) =~= before.push(cell@));
                    assert(before.push(cell@) =~= start + Seq::new((k + 1) as nat, |e: int| cell@));
                    assert forall|e: int| 0 <= e < data@.len() implies (#[trigger] data@[e])@.wf() by {
                        assert(views(data@)[e] == data@[e]@);
                        if e < start.len() {
                            assert(views(data@)[e] == start[e]);
                        } else {
                            assert(views(data@)[e] == cell@);
                        }
                    }
                }
                k += 1;
            }
            proof {
                assert(counts@.take(i + 1).drop_last() =~= counts@.take(i as int));
                assert(majors.take(i + 1).drop_last() =~= majors.take(i as int));
                assert(majors.take(i + 1).last() == cell@);
            }
            i += 1;
        }
        proof {
            assert(counts@.take(n as int) =~= counts@);
            assert(majors.take(n as int) =~= majors);
        }
        *self = Value::Array(Array::list(data).normalized(1));
        Ok(())
    }
}

/// A prefix of the counts adds up to no more than all of them.
pub proof fn lemma_total_prefix(counts: Seq<usize>, i: int)
    requires
        0 <= i <= counts.len(),
    ensures
        total(counts.take(i)) <= total(counts),
    decreases counts.len() - i,
{
    if i < counts.len() {
        lemma_total_prefix(counts, i + 1);
        assert(counts.take(i + 1).drop_last() =~= counts.take(i));
    } else {
        assert(counts.take(i) =~= counts);
    }
}

} // verus!
