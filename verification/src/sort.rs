//! Sorting of major cells: the stable merge sort, the grade of an array
//! and the sort kernel.

use vstd::prelude::*;
use crate::error::{Env, ErrorKind, RuntimeError};
use crate::kernel::{denotes, gather, index_value};
use crate::number::{Comparison, EXACT_LIMIT};
use crate::order::{compare_cells_from, compare_runs, lemma_chain, lemma_cells_chain, lemma_flip, lemma_cells_flip, lemma_reflexive, lemma_cells_reflexive};
use crate::shape::{product, cell_size, as_ints, major_stride, lemma_product_first, lemma_product_one};
use crate::value::{Array, ArrayType, Value, ValueView, views};

verus! {

/// The run of storage that is major cell `i`.
pub open spec fn chunk(shape: Seq<usize>, cells: Seq<ValueView>, i: int) -> Seq<ValueView> {
    cells.subrange(i * cell_size(shape), (i + 1) * cell_size(shape))
}

/// The order of major cells `i` and `j`: at rank 1 that of the two
/// cells, above it that of their runs of storage, cell by cell.
pub open spec fn chunk_order(shape: Seq<usize>, cells: Seq<ValueView>, i: int, j: int) -> Comparison {
    if shape.len() <= 1 {
        cells[i].compare(cells[j])
    } else {
        compare_cells_from(chunk(shape, cells, i), chunk(shape, cells, j), 0)
    }
}

/// Major cell `i` comes before major cell `j` in the sorted order: it is
/// less, or it holds the same place and stands earlier in the array.
pub open spec fn precedes(shape: Seq<usize>, cells: Seq<ValueView>, i: int, j: int) -> bool {
    let c = chunk_order(shape, cells, i, j);
    c == Comparison::Less || (c == Comparison::Equal && i < j)
}

/// `p` lists positions of major cells, each before all that follow it.
pub open spec fn ascending(shape: Seq<usize>, cells: Seq<ValueView>, p: Seq<int>) -> bool {
    forall|i: int, j: int|
        0 <= i < j < p.len() ==> precedes(shape, cells, #[trigger] p[i], #[trigger] p[j])
}

/// `p` is the grade of the array: it lists every major cell once, each
/// before all that follow it. Cells that hold the same place keep their
/// order.
pub open spec fn is_grade(shape: Seq<usize>, cells: Seq<ValueView>, p: Seq<int>) -> bool {
    &&& shape.len() >= 1
    &&& p.len() == shape[0]
    &&& forall|i: int| 0 <= i < p.len() ==> 0 <= #[trigger] p[i] < shape[0]
    &&& ascending(shape, cells, p)
}

/// The storage with its major cells in the order that `p` lists.
pub open spec fn permuted<T>(shape: Seq<usize>, cells: Seq<T>, p: Seq<int>) -> Seq<T> {
    let cs = cell_size(shape) as int;
    Seq::new(cells.len(), |t: int| cells[p[t / cs] * cs + t % cs])
}

/// Coming before is transitive.
pub proof fn lemma_precedes_chain(shape: Seq<usize>, cells: Seq<ValueView>, x: int, y: int, z: int)
    requires
        precedes(shape, cells, x, y),
        precedes(shape, cells, y, z),
    ensures
        precedes(shape, cells, x, z),
{
    if shape.len() <= 1 {
        lemma_chain(cells[x], cells[y], cells[z]);
    } else {
        lemma_cells_chain(chunk(shape, cells, x), chunk(shape, cells, y), chunk(shape, cells, z), 0);
    }
}

/// Of two different major cells one comes before the other.
pub proof fn lemma_precedes_total(shape: Seq<usize>, cells: Seq<ValueView>, x: int, y: int)
    requires
        x != y,
    ensures
        precedes(shape, cells, x, y) || precedes(shape, cells, y, x),
{
    if shape.len() <= 1 {
        lemma_flip(cells[x], cells[y]);
    } else {
        lemma_cells_flip(chunk(shape, cells, x), chunk(shape, cells, y), 0);
    }
}

/// No major cell comes before itself.
pub proof fn lemma_precedes_irreflexive(shape: Seq<usize>, cells: Seq<ValueView>, x: int)
    ensures
        !precedes(shape, cells, x, x),
{
    if shape.len() <= 1 {
        lemma_reflexive(cells[x]);
    } else {
        lemma_cells_reflexive(chunk(shape, cells, x), 0);
    }
}

/// Compares major cells `i` and `j`.
pub fn chunk_compare(shape: &[usize], cells: &Vec<Value>, cs: usize, i: usize, j: usize) -> (r:
    Comparison)
    requires
        shape@.len() >= 1,
        cells@.len() == product(shape@),
        cs == cell_size(shape@),
        i < shape@[0],
        j < shape@[0],
    ensures
        r == chunk_order(shape@, views(cells@), i as int, j as int),
{
    proof {
        lemma_product_first(shape@);
        let n = shape@[0] as int;
        assert(0 <= i * cs && i * cs + cs <= n * cs && (i + 1) * cs == i * cs + cs) by (nonlinear_arith)
            requires
                0 <= i < n,
                cs >= 0,
        ;
        assert(0 <= j * cs && j * cs + cs <= n * cs && (j + 1) * cs == j * cs + cs) by (nonlinear_arith)
            requires
                0 <= j < n,
                cs >= 0,
        ;
    }
    let total = cells.len();
    if shape.len() <= 1 {
        proof {
            assert(shape@ =~= seq![shape@[0]]);
            lemma_product_one(shape@[0]);
        }
        assert(views(cells@)[i as int] == cells@[i as int]@);
        assert(views(cells@)[j as int] == cells@[j as int]@);
        cells[i].compare(&cells[j])
    } else {
        compare_runs(cells, i * cs, cells, j * cs, cs)
    }
}

/// Whether major cell `i` comes before major cell `j`.
pub fn comes_before(shape: &[usize], cells: &Vec<Value>, cs: usize, i: usize, j: usize) -> (r: bool)
    requires
        shape@.len() >= 1,
        cells@.len() == product(shape@),
        cs == cell_size(shape@),
        i < shape@[0],
        j < shape@[0],
    ensures
        r == precedes(shape@, views(cells@), i as int, j as int),
{
    match chunk_compare(shape, cells, cs, i, j) {
        Comparison::Less => true,
        Comparison::Equal => i < j,
        Comparison::Greater => false,
    }
}

/// Sorts the listed major cells by merging: the result lists the same
/// positions, each before all that follow it.
pub fn merge_sort_chunks(shape: &[usize], cells: &Vec<Value>, cs: usize, idx: Vec<usize>) -> (out:
    Vec<usize>)
    requires
        shape@.len() >= 1,
        cells@.len() == product(shape@),
        cs == cell_size(shape@),
        forall|k: int| 0 <= k < idx@.len() ==> #[trigger] idx@[k] < shape@[0],
        forall|i: int, j: int| 0 <= i < j < idx@.len() ==> #[trigger] idx@[i] != #[trigger] idx@[j],
    ensures
        out@.len() == idx@.len(),
        forall|k: int| 0 <= k < out@.len() ==> idx@.contains(#[trigger] out@[k]),
        ascending(shape@, views(cells@), as_ints(out@)),
    decreases idx@.len(),
{
    let ghost given = idx@;
    let ghost vs = views(cells@);
    if idx.len() <= 1 {
        assert forall|k: int| 0 <= k < idx@.len() implies idx@.contains(#[trigger] idx@[k]) by {}
        return idx;
    }
    let mid = idx.len() / 2;
    let mut left_in = idx;
    let right_in = left_in.split_off(mid);
    let ghost lin = left_in@;
    let ghost rin = right_in@;
    assert forall|k: int| 0 <= k < lin.len() implies #[trigger] lin[k] == given[k] by {}
    assert forall|k: int| 0 <= k < rin.len() implies #[trigger] rin[k] == given[mid + k] by {}
    let ls = merge_sort_chunks(shape, cells, cs, left_in);
    let rs = merge_sort_chunks(shape, cells, cs, right_in);
    proof {
        assert forall|i: int| 0 <= i < ls@.len() implies given.contains(#[trigger] ls@[i]) && ls@[i]
            < shape@[0] by {
            let k = choose|k: int| 0 <= k < lin.len() && lin[k] == ls@[i];
            assert(given[k] == ls@[i]);
        }
        assert forall|j: int| 0 <= j < rs@.len() implies given.contains(#[trigger] rs@[j]) && rs@[j]
            < shape@[0] by {
            let k = choose|k: int| 0 <= k < rin.len() && rin[k] == rs@[j];
            assert(given[mid + k] == rs@[j]);
        }
        assert forall|i: int, j: int| 0 <= i < ls@.len() && 0 <= j < rs@.len() implies #[trigger] ls@[i]
            != #[trigger] rs@[j] by {
            let k1 = choose|k: int| 0 <= k < lin.len() && lin[k] == ls@[i];
            let k2 = choose|k: int| 0 <= k < rin.len() && rin[k] == rs@[j];
            assert(given[k1] == ls@[i]);
            assert(given[mid + k2] == rs@[j]);
        }
    }
    let mut out: Vec<usize> = Vec::new();
    let mut li: usize = 0;
    let mut ri: usize = 0;
    while li < ls.len() || ri < rs.len()
        invariant
            li <= ls@.len(),
            ri <= rs@.len(),
            out@.len() == li + ri,
            ls@.len() + rs@.len() == given.len(),
            shape@.len() >= 1,
            cells@.len() == product(shape@),
            cs == cell_size(shape@),
            vs == views(cells@),
            forall|i: int| 0 <= i < ls@.len() ==> given.contains(#[trigger] ls@[i]) && ls@[i] < shape@[0],
            forall|j: int| 0 <= j < rs@.len() ==> given.contains(#[trigger] rs@[j]) && rs@[j] < shape@[0],
            forall|i: int, j: int|
                0 <= i < ls@.len() && 0 <= j < rs@.len() ==> #[trigger] ls@[i] != #[trigger] rs@[j],
            ascending(shape@, vs, as_ints(ls@)),
            ascending(shape@, vs, as_ints(rs@)),
            ascending(shape@, vs, as_ints(out@)),
            forall|k: int| 0 <= k < out@.len() ==> given.contains(#[trigger] out@[k]),
            forall|k: int, i: int|
                0 <= k < out@.len() && li <= i < ls@.len() ==> precedes(
                    shape@,
                    vs,
                    #[trigger] out@[k] as int,
                    #[trigger] ls@[i] as int,
                ),
            forall|k: int, j: int|
                0 <= k < out@.len() && ri <= j < rs@.len() ==> precedes(
                    shape@,
                    vs,
                    #[trigger] out@[k] as int,
                    #[trigger] rs@[j] as int,
                ),
        decreases ls@.len() - li + rs@.len() - ri,
    {
        let take_left = if li >= ls.len() {
            false
        } else if ri >= rs.len() {
            true
        } else {
            !comes_before(shape, cells, cs, rs[ri], ls[li])
        };
        let ghost before = out@;
        if take_left {
            let l = ls[li];
            proof {
                assert forall|j: int| ri <= j < rs@.len() implies precedes(
                    shape@,
                    vs,
                    l as int,
                    #[trigger] rs@[j] as int,
                ) by {
                    let r = rs@[ri as int];
                    assert(l != r);
                    lemma_precedes_total(shape@, vs, l as int, r as int);
                    if j > ri {
                        assert(precedes(shape@, vs, as_ints(rs@)[ri as int], as_ints(rs@)[j]));
                        lemma_precedes_chain(shape@, vs, l as int, r as int, rs@[j] as int);
                    }
                }
                assert forall|i: int| li < i < ls@.len() implies precedes(
                    shape@,
                    vs,
                    l as int,
                    #[trigger] ls@[i] as int,
                ) by {
                    assert(precedes(shape@, vs, as_ints(ls@)[li as int], as_ints(ls@)[i]));
                }
            }
            out.push(l);
            li += 1;
        } else {
            let r = rs[ri];
            proof {
                assert forall|i: int| li <= i < ls@.len() implies precedes(
                    shape@,
                    vs,
                    r as int,
                    #[trigger] ls@[i] as int,
                ) by {
                    let l = ls@[li as int];
                    if i > li {
                        assert(precedes(shape@, vs, as_ints(ls@)[li as int], as_ints(ls@)[i]));
                        lemma_precedes_chain(shape@, vs, r as int, l as int, ls@[i] as int);
                    }
                }
                assert forall|j: int| ri < j < rs@.len() implies precedes(
                    shape@,
                    vs,
                    r as int,
                    #[trigger] rs@[j] as int,
                ) by {
                    assert(precedes(shape@, vs, as_ints(rs@)[ri as int], as_ints(rs@)[j]));
                }
            }
            out.push(r);
            ri += 1;
        }
        proof {
            let x = out@[out@.len() - 1];
            assert forall|i: int, j: int| 0 <= i < j < out@.len() implies precedes(
                shape@,
                vs,
                #[trigger] as_ints(out@)[i],
                #[trigger] as_ints(out@)[j],
            ) by {
                if j < before.len() {
                    assert(precedes(shape@, vs, as_ints(before)[i], as_ints(before)[j]));
                } else {
                    assert(out@[i] == before[i]);
                }
            }
            assert forall|k: int, i: int| 0 <= k < out@.len() && li <= i < ls@.len() implies precedes(
                shape@,
                vs,
                #[trigger] out@[k] as int,
                #[trigger] ls@[i] as int,
            ) by {
                if k < before.len() {
                    assert(out@[k] == before[k]);
                }
            }
            assert forall|k: int, j: int| 0 <= k < out@.len() && ri <= j < rs@.len() implies precedes(
                shape@,
                vs,
                #[trigger] out@[k] as int,
                #[trigger] rs@[j] as int,
            ) by {
                if k < before.len() {
                    assert(out@[k] == before[k]);
                }
            }
            assert forall|k: int| 0 <= k < out@.len() implies given.contains(#[trigger] out@[k]) by {
                if k < before.len() {
                    assert(out@[k] == before[k]);
                }
            }
        }
    }
    out
}

/// The grade of the major cells: their positions in sorted order.
pub fn grade_chunks(shape: &[usize], cells: &Vec<Value>) -> (out: Vec<usize>)
    requires
        shape@.len() >= 1,
        cells@.len() == product(shape@),
    ensures
        is_grade(shape@, views(cells@), as_ints(out@)),
{
    let n = shape[0];
    if n == 0 {
        let out: Vec<usize> = Vec::new();
        return out;
    }
    let cs = major_stride(shape, cells.len());
    let mut idx: Vec<usize> = Vec::new();
    let mut i: usize = 0;
    while i < n
        invariant
            i <= n,
            idx@.len() == i,
            forall|k: int| 0 <= k < i ==> #[trigger] idx@[k] == k,
        decreases n - i,
    {
        idx.push(i);
        i += 1;
    }
    let out = merge_sort_chunks(shape, cells, cs, idx);
    proof {
        assert forall|k: int| 0 <= k < out@.len() implies 0 <= #[trigger] as_ints(out@)[k] < n by {
            let w = choose|w: int| 0 <= w < idx@.len() && idx@[w] == out@[k];
            assert(idx@[w] == w);
        }
    }
    out
}

/// Sorts the major cells of the storage. Cells that hold the same place
/// keep their order.
pub fn sort_array(shape: &[usize], data: &mut Vec<Value>)
    requires
        old(data)@.len() == product(shape@),
    ensures
        shape@.len() == 0 ==> views(final(data)@) == views(old(data)@),
        shape@.len() >= 1 ==> exists|p: Seq<int>|
            #![trigger is_grade(shape@, views(old(data)@), p)]
            is_grade(shape@, views(old(data)@), p) && views(final(data)@) == permuted(
                shape@,
                views(old(data)@),
                p,
            ),
{
    if shape.len() == 0 {
        return;
    }
    let order = grade_chunks(shape, data);
    let ghost p = as_ints(order@);
    let ghost given = views(data@);
    let n = shape[0];
    if n == 0 {
        proof {
            lemma_product_first(shape@);
            assert(views(data@) =~= permuted(shape@, given, p));
        }
        return;
    }
    let total = data.len();
    let cs = major_stride(shape, total);
    let mut sources: Vec<usize> = Vec::new();
    let mut q: usize = 0;
    while q < n
        invariant
            q <= n,
            n == shape@[0],
            n * cs == total,
            n * cs == data@.len(),
            order@.len() == n,
            p == as_ints(order@),
            forall|i: int| 0 <= i < n ==> 0 <= #[trigger] p[i] < n,
            sources@.len() == q * cs,
            forall|t: int|
                0 <= t < sources@.len() ==> #[trigger] sources@[t] == p[t / (cs as int)] * cs + t % (
                cs as int) && sources@[t] < n * cs,
        decreases n - q,
    {
        let from = order[q];
        assert(p[q as int] == from);
        let mut r: usize = 0;
        while r < cs
            invariant
                q < n,
                r <= cs,
                from < n,
                from == p[q as int],
                n * cs == total,
                n * cs == data@.len(),
                sources@.len() == q * cs + r,
                forall|t: int|
                    0 <= t < sources@.len() ==> #[trigger] sources@[t] == p[t / (cs as int)] * cs + t
                        % (cs as int) && sources@[t] < n * cs,
            decreases cs - r,
        {
            proof {
                let t = q * cs + r;
                assert(t / (cs as int) == q && t % (cs as int) == r) by (nonlinear_arith)
                    requires
                        t == q * cs + r,
                        0 <= r < cs,
                        q >= 0,
                ;
                assert(0 <= from * cs && from * cs + r < n * cs) by (nonlinear_arith)
                    requires
                        0 <= from < n,
                        0 <= r < cs,
                ;
            }
            sources.push(from * cs + r);
            r += 1;
        }
        assert((q + 1) * cs == q * cs + cs) by (nonlinear_arith);
        q += 1;
    }
    let out = gather(data, &sources);
    proof {
        assert(views(out@) =~= permuted(shape@, given, p));
    }
    *data = out;
}

/// The cells are whole numbers that are not negative, each the number
/// of the list `p` at its position.
pub open spec fn lists(cells: Seq<ValueView>, p: Seq<int>) -> bool {
    &&& cells.len() == p.len()
    &&& forall|i: int| 0 <= i < cells.len() ==> denotes(#[trigger] cells[i], p[i])
}

/// The numbers that the cells are, truncated to whole numbers.
pub open spec fn listed(cells: Seq<ValueView>) -> Seq<int> {
    Seq::new(cells.len(), |i: int| cells[i]->Num_0.int_value())
}

impl ValueView {
    /// How `after` and the result `r` relate to `self` when `self` is
    /// replaced by its grade: the list of the positions of its major
    /// cells in sorted order, as an array of numbers. A scalar has no
    /// grade, and an array of 2^53 major cells or more is refused.
    pub open spec fn grades(self, after: ValueView, r: Result<(), RuntimeError>) -> bool {
        let a = self.coerce();
        if a.shape.len() < 1 {
            r is Err && r->Err_0.kind == ErrorKind::RankMismatch && after == self
        } else if a.shape[0] >= 0x20_0000_0000_0000 {
            r is Err && r->Err_0.kind == ErrorKind::SizeOverflow && after == self
        } else {
            &&& r is Ok
            &&& after matches ValueView::Array(g)
            &&& g.shape == seq![a.shape[0]]
            &&& g.ty == ArrayType::Num
            &&& lists(g.cells, listed(g.cells))
            &&& is_grade(a.shape, a.cells, listed(g.cells))
        }
    }
}

/// The values that are the numbers of the list, which are below 2^53.
pub fn index_values(list: &Vec<usize>) -> (r: Vec<Value>)
    requires
        forall|i: int| 0 <= i < list@.len() ==> #[trigger] list@[i] < 0x20_0000_0000_0000,
    ensures
        lists(views(r@), as_ints(list@)),
        listed(views(r@)) == as_ints(list@),
{
    let mut out: Vec<Value> = Vec::new();
    let mut i: usize = 0;
    while i < list.len()
        invariant
            i <= list@.len(),
            out@.len() == i,
            forall|k: int| 0 <= k < list@.len() ==> #[trigger] list@[k] < 0x20_0000_0000_0000,
            forall|k: int| 0 <= k < i ==> denotes(#[trigger] views(out@)[k], list@[k] as int),
        decreases list@.len() - i,
    {
        let ghost before = views(out@);
        out.push(index_value(list[i]));
        assert forall|k: int| 0 <= k < i + 1 implies denotes(
            #[trigger] views(out@)[k],
            list@[k] as int,
        ) by {
            if k < i {
                assert(views(out@)[k] == before[k]);
            }
        }
        i += 1;
    }
    assert(listed(views(out@)) =~= as_ints(list@));
    out
}

impl Value {
    /// Replaces the value by its grade.
    pub fn grade(&mut self, env: &Env) -> (r: Result<(), RuntimeError>)
        requires
            old(self)@.wf(),
        ensures
            old(self)@.grades(final(self)@, r),
            final(self)@.wf(),
    {
        let order = match self {
            Value::Array(a) => {
                if a.rank() < 1 {
                    return Err(env.error(ErrorKind::RankMismatch, "Cannot grade rank less than 1"));
                }
                if a.len() as u64 >= EXACT_LIMIT {
                    return Err(env.error(ErrorKind::SizeOverflow, "Array is too long to grade"));
                }
                grade_chunks(a.shape().as_slice(), a.cells())
            },
            _ => {
                return Err(env.error(ErrorKind::RankMismatch, "Cannot grade rank less than 1"));
            },
        };
        proof {
            let a = self@.coerce();
            assert forall|i: int| 0 <= i < order@.len() implies #[trigger] order@[i]
                < 0x20_0000_0000_0000 by {
                assert(0 <= as_ints(order@)[i] < a.shape[0]);
            }
        }
        let numbers = index_values(&order);
        let mut shape: Vec<usize> = Vec::new();
        shape.push(order.len());
        proof {
            assert(shape@ =~= seq![order@.len() as usize]);
            lemma_product_one(order@.len() as usize);
            assert forall|i: int| 0 <= i < views(numbers@).len() implies (#[trigger] views(
                numbers@,
            )[i]) is Num by {
                assert(denotes(views(numbers@)[i], as_ints(order@)[i]));
            }
        }
        *self = Value::Array(Array::assemble(shape, ArrayType::Num, numbers));
        Ok(())
    }
}

} // verus!
