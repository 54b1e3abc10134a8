//! Shape kernels: stateless functions over a shape and flat row-major
//! storage.

use vstd::prelude::*;
use vstd::arithmetic::div_mod::{lemma_fundamental_div_mod_converse, lemma_small_mod};
use crate::number::Number;
use crate::shape::{product, cell_size, unravel, unravel_index, major_stride, lemma_unravel_le, lemma_product_one, lemma_product_first};
use crate::value::{Array, ArrayType, Value, ValueView, views};

verus! {

/// `v` is the number that equals the natural number `i`.
pub open spec fn denotes(v: ValueView, i: int) -> bool {
    v matches ValueView::Num(x) && x.integral() && x.sign() == 0 && x.int_value() == i
}

/// `cells` are the cells of the range over `shape`: as many as the shape
/// asks for; in row-major order, at rank 1 the position itself,
/// otherwise the multi-index of the position as a vector of numbers.
pub open spec fn is_range(shape: Seq<usize>, cells: Seq<ValueView>) -> bool {
    &&& cells.len() == product(shape)
    &&& forall|t: int|
        0 <= t < cells.len() ==> if shape.len() == 1 {
            denotes(#[trigger] cells[t], t)
        } else {
            &&& cells[t] matches ValueView::Array(c)
            &&& c.shape == seq![shape.len() as usize]
            &&& c.ty == ArrayType::Num
            &&& c.cells.len() == shape.len()
            &&& forall|j: int|
                0 <= j < shape.len() ==> denotes(#[trigger] c.cells[j], unravel(shape, t)[j])
        }
}

/// The position from which the cell at position `t` of the reversed
/// array comes.
pub open spec fn reversed_source(shape: Seq<usize>, t: int) -> int {
    let n = shape[0] as int;
    let cs = cell_size(shape) as int;
    (n - 1 - t / cs) * cs + t % cs
}

/// The cells with the major cells in reverse order.
pub open spec fn reversed<T>(shape: Seq<usize>, cells: Seq<T>) -> Seq<T> {
    if shape.len() == 0 {
        cells
    } else {
        Seq::new(cells.len(), |t: int| cells[reversed_source(shape, t)])
    }
}

/// The source of a position of the reversed array is a position of the
/// array, in the same place of the major cell that mirrors its own.
pub proof fn lemma_reversed_source(shape: Seq<usize>, t: int)
    requires
        shape.len() > 0,
        0 <= t < product(shape),
    ensures
        0 <= reversed_source(shape, t) < product(shape),
        reversed_source(shape, t) / (cell_size(shape) as int) == shape[0] - 1 - t / (cell_size(
            shape,
        ) as int),
        reversed_source(shape, t) % (cell_size(shape) as int) == t % (cell_size(shape) as int),
{
    lemma_product_first(shape);
    let n = shape[0] as int;
    let cs = cell_size(shape) as int;
    assert(cs > 0 && 0 <= t / cs < n && 0 <= t % cs < cs) by (nonlinear_arith)
        requires
            0 <= t < n * cs,
            n >= 0,
            cs >= 0,
    ;
    let q = n - 1 - t / cs;
    let r = t % cs;
    assert(0 <= q * cs + r < n * cs && (q * cs + r) / cs == q && (q * cs + r) % cs == r)
        by (nonlinear_arith)
        requires
            0 <= q < n,
            0 <= r < cs,
    ;
}

/// The first `len` cells of the endless repetition of `cells`.
pub open spec fn cycled<T>(cells: Seq<T>, len: nat) -> Seq<T> {
    Seq::new(len, |i: int| cells[i % (cells.len() as int)])
}

/// The shape with its first extent moved to the end.
pub open spec fn rotated_shape(shape: Seq<usize>) -> Seq<usize> {
    shape.skip(1).push(shape[0])
}

/// Whether transposing changes anything: it does not below rank 2 or
/// without a major cell.
pub open spec fn transposes(shape: Seq<usize>) -> bool {
    shape.len() >= 2 && shape[0] != 0
}

/// The position from which the cell at position `k` of the transposed
/// array comes.
pub open spec fn transposed_source(shape: Seq<usize>, k: int) -> int {
    let n = shape[0] as int;
    let run = cell_size(shape) as int;
    (k % n) * run + k / n
}

/// The cells after the first axis became the last: the cell at
/// `(j, i)` is the old cell at `(i, j)`, where `i` runs over the first
/// axis and `j` over a major cell.
pub open spec fn transposed<T>(shape: Seq<usize>, cells: Seq<T>) -> Seq<T> {
    if transposes(shape) {
        Seq::new(cells.len(), |k: int| cells[transposed_source(shape, k)])
    } else {
        cells
    }
}

/// The source of a position of the transposed array is a position of the
/// array.
pub proof fn lemma_transposed_source(shape: Seq<usize>, k: int)
    requires
        transposes(shape),
        0 <= k < product(shape),
    ensures
        0 <= transposed_source(shape, k) < product(shape),
{
    lemma_product_first(shape);
    let n = shape[0] as int;
    let run = cell_size(shape) as int;
    assert(0 <= k % n < n && 0 <= k / n < run) by (nonlinear_arith)
        requires
            0 <= k < n * run,
            n > 0,
            run >= 0,
    ;
    let i = k % n;
    let j = k / n;
    assert(0 <= i * run + j < n * run) by (nonlinear_arith)
        requires
            0 <= i < n,
            0 <= j < run,
    ;
}

/// Copies of the cells at the given positions.
pub fn gather(data: &Vec<Value>, sources: &Vec<usize>) -> (out: Vec<Value>)
    requires
        forall|t: int| 0 <= t < sources@.len() ==> (#[trigger] sources@[t]) < data@.len(),
    ensures
        out@.len() == sources@.len(),
        forall|t: int|
            0 <= t < sources@.len() ==> (#[trigger] views(out@)[t]) == views(data@)[sources@[t] as int],
{
    let mut out: Vec<Value> = Vec::new();
    let mut t: usize = 0;
    while t < sources.len()
        invariant
            t <= sources@.len(),
            out@.len() == t,
            forall|k: int| 0 <= k < sources@.len() ==> (#[trigger] sources@[k]) < data@.len(),
            forall|k: int| 0 <= k < t ==> (#[trigger] out@[k])@ == data@[sources@[k] as int]@,
        decreases sources@.len() - t,
    {
        out.push(data[sources[t]].clone());
        t += 1;
    }
    assert forall|k: int| 0 <= k < sources@.len() implies (#[trigger] views(out@)[k]) == views(
        data@,
    )[sources@[k] as int] by {
        assert(out@[k]@ == data@[sources@[k] as int]@);
    }
    out
}

/// The value that is the number `n`, for `n` below 2^53.
pub fn index_value(n: usize) -> (r: Value)
    requires
        n < 0x20_0000_0000_0000,
    ensures
        denotes(r@, n as int),
{
    match Number::from_usize(n) {
        Some(x) => Value::Num(x),
        None => vstd::pervasive::unreached(),
    }
}

/// The cells of the range over `shape`, for a shape that asks for fewer
/// than 2^53 cells.
pub fn range(shape: &[usize]) -> (r: Vec<Value>)
    requires
        product(shape@) < 0x20_0000_0000_0000,
        product(shape@) <= usize::MAX,
    ensures
        is_range(shape@, views(r@)),
        forall|t: int| 0 <= t < r@.len() ==> (#[trigger] views(r@)[t]).wf(),
{
    let rank = shape.len();
    let len = match crate::shape::checked_product(shape) {
        Some(p) => p,
        None => vstd::pervasive::unreached(),
    };
    let mut data: Vec<Value> = Vec::new();
    let mut t: usize = 0;
    while t < len
        invariant
            t <= len,
            len == product(shape@),
            len < 0x20_0000_0000_0000,
            rank == shape@.len(),
            data@.len() == t,
            forall|k: int| 0 <= k < t ==> (#[trigger] views(data@)[k]).wf(),
            forall|k: int|
                0 <= k < t ==> if shape@.len() == 1 {
                    denotes(#[trigger] views(data@)[k], k)
                } else {
                    &&& views(data@)[k] matches ValueView::Array(c)
                    &&& c.shape == seq![shape@.len() as usize]
                    &&& c.ty == ArrayType::Num
                    &&& c.cells.len() == shape@.len()
                    &&& forall|j: int|
                        0 <= j < shape@.len() ==> denotes(#[trigger] c.cells[j], unravel(shape@, k)[j])
                },
        decreases len - t,
    {
        let ghost before = views(data@);
        let cell = if rank == 1 {
            index_value(t)
        } else {
            let digits = unravel_index(shape, t);
            proof {
                lemma_unravel_le(shape@, t as int);
            }
            let mut numbers: Vec<Value> = Vec::new();
            let mut j: usize = 0;
            while j < rank
                invariant
                    j <= rank,
                    rank == shape@.len(),
                    digits@.len() == rank,
                    t < 0x20_0000_0000_0000,
                    crate::shape::as_ints(digits@) == unravel(shape@, t as int),
                    forall|i: int|
                        0 <= i < shape@.len() ==> 0 <= #[trigger] unravel(shape@, t as int)[i] <= t,
                    numbers@.len() == j,
                    forall|i: int|
                        0 <= i < j ==> denotes(#[trigger] views(numbers@)[i], unravel(shape@, t as int)[i]),
                decreases rank - j,
            {
                assert(crate::shape::as_ints(digits@)[j as int] == digits@[j as int]);
                assert(0 <= unravel(shape@, t as int)[j as int] <= t);
                let ghost old_numbers = views(numbers@);
                numbers.push(index_value(digits[j]));
                assert forall|i: int| 0 <= i < j + 1 implies denotes(
                    #[trigger] views(numbers@)[i],
                    unravel(shape@, t as int)[i],
                ) by {
                    if i < j {
                        assert(views(numbers@)[i] == old_numbers[i]);
                    }
                }
                j += 1;
            }
            let mut cell_shape: Vec<usize> = Vec::new();
            cell_shape.push(rank);
            proof {
                assert(cell_shape@ =~= seq![rank]);
                lemma_product_one(rank);
            }
            Value::Array(Array::assemble(cell_shape, ArrayType::Num, numbers))
        };
        data.push(cell);
        assert forall|k: int| 0 <= k < t + 1 implies (#[trigger] views(data@)[k]).wf() && (if shape@.len()
            == 1 {
            denotes(views(data@)[k], k)
        } else {
            &&& views(data@)[k] matches ValueView::Array(c)
            &&& c.shape == seq![shape@.len() as usize]
            &&& c.ty == ArrayType::Num
            &&& c.cells.len() == shape@.len()
            &&& forall|j: int|
                0 <= j < shape@.len() ==> denotes(#[trigger] c.cells[j], unravel(shape@, k)[j])
        }) by {
            if k < t {
                assert(views(data@)[k] == before[k]);
            } else {
                assert(views(data@)[k] == cell@);
            }
        }
        t += 1;
    }
    data
}

/// Exchanges the cells at positions `i` and `j`.
pub fn swap_cells(data: &mut Vec<Value>, i: usize, j: usize)
    requires
        i < old(data)@.len(),
        j < old(data)@.len(),
    ensures
        final(data)@ == old(data)@.update(i as int, old(data)@[j as int]).update(
            j as int,
            old(data)@[i as int],
        ),
{
    if i == j {
        assert(data@ =~= data@.update(i as int, data@[j as int]).update(j as int, data@[i as int]));
        return;
    }
    let ghost before = data@;
    let mut held = Value::Num(Number::zero());
    data.set_and_swap(i, &mut held);
    data.set_and_swap(j, &mut held);
    data.set_and_swap(i, &mut held);
    assert(data@ =~= before.update(i as int, before[j as int]).update(j as int, before[i as int]));
}

/// Where the reversal stands after `i` pairs of major cells and the
/// first `k` cells of the next pair were exchanged: whether the cell at
/// position `t` is already the one that belongs there.
pub open spec fn reversal_done(shape: Seq<usize>, i: int, k: int, t: int) -> bool {
    let n = shape[0] as int;
    let cs = cell_size(shape) as int;
    let q = t / cs;
    let r = t % cs;
    q < i || q >= n - i || ((q == i || q == n - 1 - i) && r < k)
}

/// Reverses the order of the major cells, exchanging them pair by pair
/// from both ends.
pub fn reverse(shape: &[usize], data: &mut Vec<Value>)
    requires
        old(data)@.len() == product(shape@),
    ensures
        final(data)@ == reversed(shape@, old(data)@),
        views(final(data)@) == reversed(shape@, views(old(data)@)),
{
    let ghost given = data@;
    if shape.len() == 0 || shape[0] == 0 {
        proof {
            if shape@.len() > 0 {
                lemma_product_first(shape@);
                assert(data@ =~= reversed(shape@, data@));
                assert(views(data@) =~= reversed(shape@, views(data@)));
            }
        }
        return;
    }
    let n = shape[0];
    let len = data.len();
    let cs = major_stride(shape, len);
    let half = n / 2;
    let mut i: usize = 0;
    proof {
        assert forall|t: int| 0 <= t < len implies !reversal_done(shape@, 0, 0, t) by {
            assert(t / (cs as int) < n) by (nonlinear_arith)
                requires
                    0 <= t < n * cs,
                    cs >= 0,
                    n > 0,
            ;
        }
    }
    while i < half
        invariant
            i <= half,
            half == n / 2,
            n == shape@[0],
            shape@.len() > 0,
            cs == cell_size(shape@),
            n * cs == len,
            len == data@.len(),
            len == given.len(),
            forall|t: int|
                0 <= t < len ==> #[trigger] data@[t] == if reversal_done(shape@, i as int, 0, t) {
                    given[reversed_source(shape@, t)]
                } else {
                    given[t]
                },
        decreases half - i,
    {
        let mut k: usize = 0;
        while k < cs
            invariant
                i < half,
                half == n / 2,
                k <= cs,
                n == shape@[0],
                shape@.len() > 0,
                cs == cell_size(shape@),
                n * cs == len,
                len == data@.len(),
                len == given.len(),
                forall|t: int|
                    0 <= t < len ==> #[trigger] data@[t] == if reversal_done(
                        shape@,
                        i as int,
                        k as int,
                        t,
                    ) {
                        given[reversed_source(shape@, t)]
                    } else {
                        given[t]
                    },
            decreases cs - k,
        {
            let ghost d = cs as int;
            proof {
                assert(0 <= i * cs + k < n * cs && (i * cs + k) / d == i && (i * cs + k) % d == k)
                    by (nonlinear_arith)
                    requires
                        0 <= i < n,
                        0 <= k < cs,
                        d == cs,
                ;
                let m = n - 1 - i;
                assert(0 <= m * d + k < n * d && (m * d + k) / d == m && (m * d + k) % d == k)
                    by (nonlinear_arith)
                    requires
                        0 <= m < n,
                        0 <= k < d,
                ;
            }
            let a = i * cs + k;
            let b = (n - 1 - i) * cs + k;
            let ghost before = data@;
            swap_cells(data, a, b);
            proof {
                assert forall|t: int| 0 <= t < len implies #[trigger] data@[t] == if reversal_done(
                    shape@,
                    i as int,
                    k + 1,
                    t,
                ) {
                    given[reversed_source(shape@, t)]
                } else {
                    given[t]
                } by {
                    let q = t / d;
                    let r = t % d;
                    vstd::arithmetic::div_mod::lemma_fundamental_div_mod(t, d);
                    if t == a {
                        assert(!reversal_done(shape@, i as int, k as int, b as int));
                        assert(reversed_source(shape@, t) == b);
                    } else if t == b {
                        assert(!reversal_done(shape@, i as int, k as int, a as int));
                        assert(reversed_source(shape@, t) == (n - 1 - (n - 1 - i)) * cs + k);
                        assert(reversed_source(shape@, t) == a);
                    } else {
                        assert(data@[t] == before[t]);
                        if (q == i || q == n - 1 - i) && r == k {
                            assert(t == a || t == b) by (nonlinear_arith)
                                requires
                                    t == d * q + r,
                                    r == k,
                                    q == i || q == n - 1 - i,
                                    a == i * d + k,
                                    b == (n - 1 - i) * d + k,
                            ;
                        }
                    }
                }
            }
            k += 1;
        }
        proof {
            assert forall|t: int| 0 <= t < len implies reversal_done(shape@, i as int, cs as int, t)
                == reversal_done(shape@, i + 1, 0, t) by {
                vstd::arithmetic::div_mod::lemma_mod_bound(t, cs as int);
            }
        }
        i += 1;
    }
    proof {
        let d = cs as int;
        assert forall|t: int| 0 <= t < len implies data@[t] == given[reversed_source(shape@, t)] by {
            if !reversal_done(shape@, half as int, 0, t) {
                let q = t / d;
                vstd::arithmetic::div_mod::lemma_fundamental_div_mod(t, d);
                assert(q == half && n - 1 - q == q);
                assert((n - 1 - q) * d == d * q) by (nonlinear_arith)
                    requires
                        n - 1 - q == q,
                ;
            }
        }
        assert(data@ =~= reversed(shape@, given));
        assert forall|t: int| 0 <= t < len implies views(data@)[t] == views(given)[reversed_source(
            shape@,
            t,
        )] by {
            lemma_reversed_source(shape@, t);
        }
        assert(views(data@) =~= reversed(shape@, views(given)));
    }
}

/// Forces the storage to `len` cells: cuts it if it is longer, repeats it
/// from its start if it is shorter.
pub fn force_length(data: &mut Vec<Value>, len: usize)
    requires
        old(data)@.len() > 0 || len == 0,
    ensures
        views(final(data)@) == cycled(views(old(data)@), len as nat),
{
    let n = data.len();
    let ghost given = views(data@);
    if n >= len {
        data.truncate(len);
        proof {
            assert forall|i: int| 0 <= i < len implies views(data@)[i] == given[i % (n as int)] by {
                lemma_small_mod(i as nat, n as nat);
            }
            assert(views(data@) =~= cycled(given, len as nat));
        }
        return;
    }
    let mut j: usize = 0;
    proof {
        lemma_small_mod(0, n as nat);
        assert forall|i: int| 0 <= i < n implies views(data@)[i] == given[i % (n as int)] by {
            lemma_small_mod(i as nat, n as nat);
        }
        assert(n as int % n as int == 0) by (nonlinear_arith)
            requires
                n > 0,
        ;
    }
    while data.len() < len
        invariant
            n > 0,
            n == given.len(),
            n <= data@.len() <= len,
            j < n,
            j as int == data@.len() as int % n as int,
            forall|i: int| 0 <= i < data@.len() ==> views(data@)[i] == given[i % (n as int)],
        decreases len - data@.len(),
    {
        let ghost p = data@.len() as int;
        let ghost before = views(data@);
        assert(before[j as int] == given[j as int % (n as int)]);
        proof {
            lemma_small_mod(j as nat, n as nat);
        }
        let copy = data[j].clone();
        data.push(copy);
        proof {
            assert forall|i: int| 0 <= i < data@.len() implies views(data@)[i] == given[i % (
            n as int)] by {
                if i < p {
                    assert(views(data@)[i] == before[i]);
                } else {
                    assert(views(data@)[i] == before[j as int]);
                }
            }
            let d = n as int;
            let quot = p / d;
            assert(p == d * quot + j) by {
                vstd::arithmetic::div_mod::lemma_fundamental_div_mod(p, d);
            }
            if j + 1 < n {
                assert(p + 1 == quot * d + (j + 1)) by (nonlinear_arith)
                    requires
                        p == d * quot + j,
                ;
                lemma_fundamental_div_mod_converse(p + 1, d, quot, j + 1);
            } else {
                assert(p + 1 == (quot + 1) * d + 0) by (nonlinear_arith)
                    requires
                        p == d * quot + j,
                        j + 1 == d,
                ;
                lemma_fundamental_div_mod_converse(p + 1, d, quot + 1, 0);
            }
        }
        j = if j + 1 < n {
            j + 1
        } else {
            0
        };
    }
    proof {
        assert(views(data@) =~= cycled(given, len as nat));
    }
}

/// The positions from which the cells of the transposed array come.
fn transposed_sources(n: usize, run: usize) -> (sources: Vec<usize>)
    requires
        n > 0,
        n * run <= usize::MAX,
    ensures
        sources@.len() == n * run,
        forall|k: int|
            0 <= k < sources@.len() ==> #[trigger] sources@[k] == (k % (n as int)) * run + k / (
            n as int) && sources@[k] < n * run,
{
    let mut sources: Vec<usize> = Vec::new();
    let mut j: usize = 0;
    while j < run
        invariant
            j <= run,
            n > 0,
            n * run <= usize::MAX,
            sources@.len() == j * n,
            forall|k: int|
                0 <= k < sources@.len() ==> #[trigger] sources@[k] == (k % (n as int)) * run + k / (
                n as int) && sources@[k] < n * run,
        decreases run - j,
    {
        let mut i: usize = 0;
        while i < n
            invariant
                j < run,
                i <= n,
                n > 0,
                n * run <= usize::MAX,
                sources@.len() == j * n + i,
                forall|k: int|
                    0 <= k < sources@.len() ==> #[trigger] sources@[k] == (k % (n as int)) * run + k
                        / (n as int) && sources@[k] < n * run,
            decreases n - i,
        {
            proof {
                let k = j * n + i;
                assert(k / (n as int) == j && k % (n as int) == i) by (nonlinear_arith)
                    requires
                        k == j * n + i,
                        0 <= i < n,
                        j >= 0,
                ;
                assert(0 <= i * run && i * run + j < n * run) by (nonlinear_arith)
                    requires
                        0 <= i < n,
                        0 <= j < run,
                ;
            }
            sources.push(i * run + j);
            i += 1;
        }
        assert((j + 1) * n == j * n + n) by (nonlinear_arith);
        j += 1;
    }
    assert(run * n == n * run) by (nonlinear_arith);
    sources
}

/// Makes the first axis the last.
pub fn transpose(shape: &mut Vec<usize>, data: &mut Vec<Value>)
    requires
        old(data)@.len() == product(old(shape)@),
    ensures
        final(shape)@ == if transposes(old(shape)@) {
            rotated_shape(old(shape)@)
        } else {
            old(shape)@
        },
        views(final(data)@) == transposed(old(shape)@, views(old(data)@)),
        final(data)@.len() == product(final(shape)@),
{
    if shape.len() < 2 || shape[0] == 0 {
        return;
    }
    let n = shape[0];
    let run = major_stride(shape.as_slice(), data.len());
    let sources = transposed_sources(n, run);
    let out = gather(data, &sources);
    proof {
        assert(views(out@) =~= transposed(shape@, views(data@)));
        lemma_product_first(shape@);
        assert(rotated_shape(shape@).drop_last() =~= shape@.skip(1));
        assert(product(rotated_shape(shape@)) == product(shape@.skip(1)) * n);
        assert(n * cell_size(shape@) == cell_size(shape@) * n) by (nonlinear_arith);
    }
    *data = out;
    let ghost before = shape@;
    let first = shape.remove(0);
    shape.push(first);
    proof {
        assert(shape@ =~= rotated_shape(before));
    }
}

} // verus!
