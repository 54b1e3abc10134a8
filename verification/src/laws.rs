//! Laws that relate the verbs to one another.

use vstd::prelude::*;
use vstd::arithmetic::div_mod::{lemma_fundamental_div_mod, lemma_small_mod, lemma_add_mod_noop_right};
use crate::classify::{alike, class_of, first_alike, firsts_below, is_first};
use crate::error::ErrorKind;
use crate::kernel::{cycled, denotes, is_range, reversed, reversed_source, lemma_reversed_source};
use crate::number::Comparison;
use crate::order::{lemma_shapes_reflexive};
use crate::pick::resolve;
use crate::rotate::{offsets, rotated, rotated_coords, rotated_source, lemma_rotated_coords, lemma_rotated_source};
use crate::shape::{product, cell_size, ravel, unravel, lemma_unravel_bounds, lemma_ravel_unravel, lemma_unravel_ravel, lemma_product_first};
use crate::sort::{ascending, chunk, chunk_order, is_grade, precedes, lemma_precedes_chain, lemma_precedes_irreflexive, lemma_precedes_total};
use crate::take::{taken_shape, taken_coords, taken_inside, taken_coord};
use crate::value::{ArrayType, ArrayView, ValueView};

verus! {

/// In a well-formed array the extents multiply to the number of storage
/// cells, and so they do in every array inside it.
pub proof fn law_rectangular(v: ValueView)
    requires
        v.wf(),
    ensures
        v matches ValueView::Array(a) ==> a.cells.len() == product(a.shape) && forall|i: int|
            0 <= i < a.cells.len() ==> (#[trigger] a.cells[i]).wf(),
{
}

/// Reshaping an array to its own shape gives the array back.
pub proof fn law_reshape_to_own_shape(target: ValueView, a: ArrayView)
    requires
        a.wf(),
        a.cells.len() <= usize::MAX,
        target.decode_shape() == Some(a.shape),
    ensures
        target.reshape(ValueView::Array(a)) == Ok::<ValueView, ErrorKind>(ValueView::Array(a)),
{
    let n = a.cells.len();
    assert forall|i: int| 0 <= i < n implies cycled(a.cells, n)[i] == a.cells[i] by {
        lemma_small_mod(i as nat, n);
    }
    assert(cycled(a.cells, n) =~= a.cells);
}

/// Reversing twice gives the value back.
pub proof fn law_reverse_twice(v: ValueView)
    requires
        v.wf(),
    ensures
        v.reverse().reverse() == v,
{
    match v {
        ValueView::Array(a) => {
            if a.shape.len() > 0 {
                let once = reversed(a.shape, a.cells);
                let twice = reversed(a.shape, once);
                let n = a.shape[0] as int;
                let cs = cell_size(a.shape) as int;
                assert forall|t: int| 0 <= t < a.cells.len() implies twice[t] == a.cells[t] by {
                    lemma_reversed_source(a.shape, t);
                    let s = reversed_source(a.shape, t);
                    lemma_reversed_source(a.shape, s);
                    lemma_product_first(a.shape);
                    assert(cs > 0) by (nonlinear_arith)
                        requires
                            0 <= t < n * cs,
                            n >= 0,
                            cs >= 0,
                    ;
                    lemma_fundamental_div_mod(t, cs);
                    let q = t / cs;
                    assert((n - 1 - (n - 1 - q)) * cs == cs * q) by (nonlinear_arith);
                    assert(reversed_source(a.shape, s) == t);
                }
                assert(twice =~= a.cells);
            }
        },
        _ => {},
    }
}

/// The offsets with their signs changed.
pub open spec fn negated(index: Seq<int>) -> Seq<int> {
    Seq::new(index.len(), |j: int| -index[j])
}

/// Rotating by some offsets and then by their negatives gives the cells
/// back.
pub proof fn law_rotated_back<T>(index: Seq<int>, shape: Seq<usize>, cells: Seq<T>)
    requires
        cells.len() == product(shape),
    ensures
        rotated(negated(index), shape, rotated(index, shape, cells)) == cells,
{
    let inner = rotated(index, shape, cells);
    let outer = rotated(negated(index), shape, inner);
    assert forall|t: int| 0 <= t < cells.len() implies outer[t] == cells[t] by {
        let m = unravel(shape, t);
        lemma_unravel_bounds(shape, t);
        let c1 = rotated_coords(negated(index), shape, m);
        lemma_rotated_coords(negated(index), shape, m);
        lemma_rotated_source(negated(index), shape, t);
        let s1 = ravel(shape, c1);
        lemma_unravel_ravel(shape, c1);
        let c2 = rotated_coords(index, shape, c1);
        assert forall|j: int| 0 <= j < shape.len() implies c2[j] == m[j] by {
            assert(0 <= m[j] < shape[j]);
            if j < index.len() {
                let d = shape[j] as int;
                lemma_add_mod_noop_right(index[j], m[j] - index[j], d);
                lemma_small_mod(m[j] as nat, d as nat);
                assert(c1[j] == (m[j] + (-index[j])) % d);
                assert(c2[j] == (c1[j] + index[j]) % d);
            }
        }
        assert(c2 =~= m);
        lemma_ravel_unravel(shape, t);
        assert(rotated_source(index, shape, s1) == t);
    }
    assert(outer =~= cells);
}

/// Rotating a value by some offsets and then by their negatives gives
/// the value back.
pub proof fn law_rotate_inverse(index: ValueView, back: ValueView, target: ValueView)
    requires
        target.wf(),
        index.decode_indices() is Some,
        back.decode_indices() is Some,
        offsets(back.decode_indices()->0) == negated(offsets(index.decode_indices()->0)),
    ensures
        index.rotate(target) is Ok,
        back.rotate(index.rotate(target)->Ok_0) == Ok::<ValueView, ErrorKind>(target),
{
    match target {
        ValueView::Array(a) => {
            law_rotated_back(offsets(index.decode_indices()->0), a.shape, a.cells);
        },
        _ => {},
    }
}

/// A take by the whole first axis, from the front or from the back,
/// takes every cell.
pub proof fn lemma_take_whole(a: ArrayView, i: int)
    requires
        a.wf(),
        a.shape.len() >= 1,
        a.cells.len() <= usize::MAX,
        i == a.shape[0] || i == -a.shape[0],
    ensures
        a.take(seq![i]) == Ok::<ArrayView, ErrorKind>(a),
{
    let index = seq![i];
    let shape = taken_shape(index, a.shape);
    assert(shape =~= a.shape);
    assert forall|t: int| 0 <= t < product(shape) implies #[trigger] a.taken_cell(index, t) == Some(
        a.cells[t],
    ) by {
        let m = unravel(shape, t);
        lemma_unravel_bounds(shape, t);
        assert(0 <= m[0] < a.shape[0]);
        assert(taken_coord(index[0], a.shape[0] as int, m[0]) == m[0]);
        assert(taken_inside(index, a.shape, m));
        assert(taken_coords(index, a.shape, m) =~= m);
        lemma_ravel_unravel(shape, t);
    }
    let r = a.take(index)->Ok_0;
    assert(a.take_fits(index));
    assert(r.cells =~= a.cells);
}

/// Taking as many major cells as there are, and dropping none, gives
/// the array back.
pub proof fn law_take_all_drop_none(a: ArrayView)
    requires
        a.wf(),
        a.shape.len() >= 1,
        a.cells.len() <= usize::MAX,
    ensures
        a.take(seq![a.shape[0] as int]) == Ok::<ArrayView, ErrorKind>(a),
        a.take(a.dropped(seq![0int])) == Ok::<ArrayView, ErrorKind>(a),
{
    lemma_take_whole(a, a.shape[0] as int);
    lemma_take_whole(a, -a.shape[0]);
    assert(a.dropped(seq![0int]) =~= seq![-a.shape[0]]);
}

/// As verbs, taking as many major cells as there are and dropping none
/// give the array back, normalized as take and drop normalize: itself if
/// it is normal.
pub proof fn law_take_drop_identity(count: ValueView, zero: ValueView, a: ArrayView)
    requires
        a.wf(),
        a.shape.len() >= 1,
        a.cells.len() <= usize::MAX,
        count.decode_indices() is Some,
        offsets(count.decode_indices()->0) == seq![a.shape[0] as int],
        zero.decode_indices() is Some,
        offsets(zero.decode_indices()->0) == seq![0int],
    ensures
        count.take(ValueView::Array(a)) == Ok::<ValueView, ErrorKind>(
            ValueView::Array(a.normalize(ValueView::Array(a).take_depth())),
        ),
        zero.drop(ValueView::Array(a)) == Ok::<ValueView, ErrorKind>(
            ValueView::Array(a.normalize(ValueView::Array(a).take_depth())),
        ),
        a.is_normal(ValueView::Array(a).take_depth()) ==> count.take(ValueView::Array(a)) == Ok::<
            ValueView,
            ErrorKind,
        >(ValueView::Array(a)) && zero.drop(ValueView::Array(a)) == Ok::<ValueView, ErrorKind>(
            ValueView::Array(a),
        ),
{
    law_take_all_drop_none(a);
    assert(offsets(zero.decode_indices()->0).len() == 1);
    assert(zero.decode_indices()->0.len() == 1);
}

/// Only one value denotes a given natural number.
pub proof fn law_denotes_one_value(a: ValueView, b: ValueView, i: int)
    requires
        denotes(a, i),
        denotes(b, i),
        i >= 0,
    ensures
        a == b,
{
    crate::number::Number::law_natural_is_unique(a->Num_0, b->Num_0);
}

/// The range over a list shape of one extent `n` is the list of the
/// numbers from 0 to `n - 1`.
pub proof fn law_range_counts(n: usize, cells: Seq<ValueView>)
    requires
        is_range(seq![n], cells),
    ensures
        cells.len() == n,
        forall|i: int| 0 <= i < n ==> denotes(#[trigger] cells[i], i),
{
    crate::shape::lemma_product_one(n);
}

/// There are no more first cells before an earlier position than before
/// a later one.
pub proof fn lemma_firsts_below_monotone(shape: Seq<usize>, cells: Seq<ValueView>, i: int, j: int)
    requires
        i <= j,
    ensures
        firsts_below(shape, cells, i) <= firsts_below(shape, cells, j),
    decreases j - i,
{
    if i < j {
        lemma_firsts_below_monotone(shape, cells, i, j - 1);
    }
}

/// The class of a major cell is the number of first cells before some
/// first cell that does not come after it.
pub proof fn lemma_class_is_rank_of_first(shape: Seq<usize>, cells: Seq<ValueView>, j: int) -> (g:
    int)
    requires
        0 <= j,
    ensures
        0 <= g <= j,
        is_first(shape, cells, g),
        class_of(shape, cells, j) == firsts_below(shape, cells, g),
        class_of(shape, cells, g) == firsts_below(shape, cells, g),
    decreases j,
{
    let f = first_alike(shape, cells, j, 0);
    if 0 <= f < j {
        lemma_class_is_rank_of_first(shape, cells, f)
    } else {
        lemma_first_alike_bounds(shape, cells, j, 0);
        j
    }
}

/// The first cell alike to `i` from `from` on lies between `from` and
/// `i`.
pub proof fn lemma_first_alike_bounds(shape: Seq<usize>, cells: Seq<ValueView>, i: int, from: int)
    requires
        from <= i,
    ensures
        from <= first_alike(shape, cells, i, from) <= i,
    decreases i - from,
{
    if from < i {
        lemma_first_alike_bounds(shape, cells, i, from + 1);
    }
}

/// Before a first cell with first cells before it stands the first cell
/// with one fewer.
pub proof fn lemma_previous_first(shape: Seq<usize>, cells: Seq<ValueView>, g: int) -> (i: int)
    requires
        0 <= g,
        firsts_below(shape, cells, g) > 0,
    ensures
        0 <= i < g,
        is_first(shape, cells, i),
        firsts_below(shape, cells, i) + 1 == firsts_below(shape, cells, g),
    decreases g,
{
    if is_first(shape, cells, g - 1) {
        g - 1
    } else {
        lemma_previous_first(shape, cells, g - 1)
    }
}

/// The classes of `n` major cells lie below the number of first cells
/// among them, which is the number of different kinds; and a cell of a
/// class other than 0 has a cell of the class before standing before it,
/// so that the classes appear for the first time in ascending order.
pub proof fn law_classes_ascend(shape: Seq<usize>, cells: Seq<ValueView>, n: int, j: int)
    requires
        0 <= j < n,
    ensures
        class_of(shape, cells, j) < firsts_below(shape, cells, n),
        class_of(shape, cells, j) > 0 ==> exists|i: int|
            0 <= i < j && #[trigger] class_of(shape, cells, i) + 1 == class_of(shape, cells, j),
{
    let g = lemma_class_is_rank_of_first(shape, cells, j);
    lemma_firsts_below_monotone(shape, cells, g + 1, n);
    if class_of(shape, cells, j) > 0 {
        let i = lemma_previous_first(shape, cells, g);
        lemma_first_alike_bounds(shape, cells, i, 0);
        assert(class_of(shape, cells, i) == firsts_below(shape, cells, i));
    }
}

/// Being alike is reflexive, symmetric and transitive.
pub proof fn lemma_alike_is_equivalence(
    shape: Seq<usize>,
    cells: Seq<ValueView>,
    x: int,
    y: int,
    z: int,
)
    ensures
        alike(shape, cells, x, x),
        alike(shape, cells, x, y) == alike(shape, cells, y, x),
        alike(shape, cells, x, y) && alike(shape, cells, y, z) ==> alike(shape, cells, x, z),
{
    if shape.len() <= 1 {
        crate::order::lemma_reflexive(cells[x]);
        crate::order::lemma_flip(cells[x], cells[y]);
        crate::order::lemma_chain(cells[x], cells[y], cells[z]);
    } else {
        crate::order::lemma_cells_reflexive(chunk(shape, cells, x), 0);
        crate::order::lemma_cells_flip(chunk(shape, cells, x), chunk(shape, cells, y), 0);
        crate::order::lemma_cells_chain(
            chunk(shape, cells, x),
            chunk(shape, cells, y),
            chunk(shape, cells, z),
            0,
        );
    }
}

/// The first cell alike to `i` from `from` on is alike to `i`, and no
/// cell between `from` and it is.
pub proof fn lemma_first_alike(shape: Seq<usize>, cells: Seq<ValueView>, i: int, from: int)
    requires
        from <= i,
    ensures
        from <= first_alike(shape, cells, i, from) <= i,
        alike(shape, cells, first_alike(shape, cells, i, from), i),
        forall|j: int|
            from <= j < first_alike(shape, cells, i, from) ==> !alike(shape, cells, j, i),
    decreases i - from,
{
    lemma_alike_is_equivalence(shape, cells, i, i, i);
    if from < i && !alike(shape, cells, from, i) {
        lemma_first_alike(shape, cells, i, from + 1);
    }
}

/// The first cell alike to a cell is the first of its kind, and the
/// class of a cell is the number of first cells before that one: the
/// ordinal of the first occurrence of its kind.
pub proof fn law_class_is_ordinal_of_first_occurrence(
    shape: Seq<usize>,
    cells: Seq<ValueView>,
    i: int,
)
    requires
        0 <= i,
    ensures
        is_first(shape, cells, first_alike(shape, cells, i, 0)),
        class_of(shape, cells, i) == firsts_below(shape, cells, first_alike(shape, cells, i, 0)),
{
    let f = first_alike(shape, cells, i, 0);
    lemma_first_alike(shape, cells, i, 0);
    lemma_first_alike(shape, cells, f, 0);
    let g = first_alike(shape, cells, f, 0);
    if g < f {
        lemma_alike_is_equivalence(shape, cells, g, f, i);
        assert(false);
    }
    assert(class_of(shape, cells, f) == firsts_below(shape, cells, f));
}

/// Two major cells are of one class exactly when they are alike.
pub proof fn law_same_class_iff_alike(shape: Seq<usize>, cells: Seq<ValueView>, i: int, j: int)
    requires
        0 <= i,
        0 <= j,
    ensures
        class_of(shape, cells, i) == class_of(shape, cells, j) <==> alike(shape, cells, i, j),
{
    let f = first_alike(shape, cells, i, 0);
    let g = first_alike(shape, cells, j, 0);
    law_class_is_ordinal_of_first_occurrence(shape, cells, i);
    law_class_is_ordinal_of_first_occurrence(shape, cells, j);
    lemma_first_alike(shape, cells, i, 0);
    lemma_first_alike(shape, cells, j, 0);
    lemma_alike_is_equivalence(shape, cells, f, i, j);
    lemma_alike_is_equivalence(shape, cells, i, j, g);
    lemma_alike_is_equivalence(shape, cells, f, j, g);
    lemma_alike_is_equivalence(shape, cells, g, j, i);
    lemma_alike_is_equivalence(shape, cells, g, i, f);
    lemma_alike_is_equivalence(shape, cells, f, g, j);
    lemma_alike_is_equivalence(shape, cells, i, f, g);
    lemma_alike_is_equivalence(shape, cells, i, g, j);
    lemma_alike_is_equivalence(shape, cells, g, f, i);
    if f < g {
        lemma_firsts_below_monotone(shape, cells, f + 1, g);
    }
    if g < f {
        lemma_firsts_below_monotone(shape, cells, g + 1, f);
    }
    if alike(shape, cells, i, j) {
        if f < g {
            assert(alike(shape, cells, f, j));
            assert(false);
        }
        if g < f {
            assert(alike(shape, cells, g, i));
            assert(false);
        }
    }
}

/// Comparing two major cells as values is comparing their runs of
/// storage.
pub proof fn lemma_major_order(a: ArrayView, i: int, j: int)
    requires
        a.shape.len() >= 1,
    ensures
        a.major(i).compare(a.major(j)) == chunk_order(a.shape, a.cells, i, j),
{
    if a.shape.len() > 1 {
        lemma_shapes_reflexive(a.shape.skip(1), 0);
    }
}

/// A grade lists every major cell exactly once.
pub proof fn law_grade_is_permutation(shape: Seq<usize>, cells: Seq<ValueView>, p: Seq<int>)
    requires
        is_grade(shape, cells, p),
    ensures
        p.len() == shape[0],
        p.no_duplicates(),
        forall|k: int| 0 <= k < shape[0] ==> p.contains(k),
{
    let n = shape[0] as int;
    assert forall|i: int, j: int| 0 <= i < p.len() && 0 <= j < p.len() && i != j implies p[i]
        != p[j] by {
        lemma_precedes_irreflexive(shape, cells, p[i]);
        if i < j {
            assert(precedes(shape, cells, p[i], p[j]));
        } else {
            assert(precedes(shape, cells, p[j], p[i]));
        }
    }
    p.unique_seq_to_set();
    vstd::set_lib::lemma_int_range(0, n);
    let range = vstd::set_lib::set_int_range(0, n);
    assert(p.to_set().subset_of(range)) by {
        assert forall|x: int| p.to_set().contains(x) implies range.contains(x) by {
            let k = choose|k: int| 0 <= k < p.len() && p[k] == x;
            assert(0 <= p[k] < n);
        }
    }
    vstd::seq_lib::seq_to_set_is_finite(p);
    vstd::set_lib::lemma_subset_equality(p.to_set(), range);
    assert forall|k: int| 0 <= k < n implies p.contains(k) by {
        assert(range.contains(k));
        assert(p.to_set().contains(k));
    }
}

/// An array has one grade only.
pub proof fn law_grade_is_unique(
    shape: Seq<usize>,
    cells: Seq<ValueView>,
    p: Seq<int>,
    q: Seq<int>,
)
    requires
        is_grade(shape, cells, p),
        is_grade(shape, cells, q),
    ensures
        p == q,
{
    let leq = |x: int, y: int| x == y || precedes(shape, cells, x, y);
    assert forall|x: int, y: int| #[trigger] leq(x, y) && #[trigger] leq(y, x) implies x == y by {
        if x != y {
            lemma_precedes_chain(shape, cells, x, y, x);
            lemma_precedes_irreflexive(shape, cells, x);
        }
    }
    assert forall|x: int, y: int, z: int| #[trigger] leq(x, y) && #[trigger] leq(y, z) implies leq(
        x,
        z,
    ) by {
        if x != y && y != z {
            lemma_precedes_chain(shape, cells, x, y, z);
        }
    }
    assert forall|x: int, y: int| #[trigger] leq(x, y) || #[trigger] leq(y, x) by {
        if x != y {
            lemma_precedes_total(shape, cells, x, y);
        }
    }
    assert(vstd::relations::total_ordering(leq));
    assert(vstd::relations::sorted_by(p, leq));
    assert(vstd::relations::sorted_by(q, leq));
    law_grade_is_permutation(shape, cells, p);
    law_grade_is_permutation(shape, cells, q);
    p.lemma_multiset_has_no_duplicates();
    q.lemma_multiset_has_no_duplicates();
    assert forall|x: int| p.to_multiset().count(x) == q.to_multiset().count(x) by {
        vstd::seq_lib::to_multiset_contains(p, x);
        vstd::seq_lib::to_multiset_contains(q, x);
        if p.contains(x) {
            let k = choose|k: int| 0 <= k < p.len() && p[k] == x;
            assert(0 <= p[k] < shape[0]);
            assert(q.contains(x));
        }
        if q.contains(x) {
            let k = choose|k: int| 0 <= k < q.len() && q[k] == x;
            assert(0 <= q[k] < shape[0]);
            assert(p.contains(x));
        }
    }
    assert(p.to_multiset() =~= q.to_multiset());
    vstd::seq_lib::lemma_sorted_unique(p, q, leq);
}

/// The major cells that select takes out under a grade stand in sorted
/// order: none is greater than one that follows it.
pub proof fn law_select_grade_sorted(a: ArrayView, p: Seq<int>, index: Seq<isize>)
    requires
        a.wf(),
        is_grade(a.shape, a.cells, p),
        offsets(index) == p,
    ensures
        a.select(index) == Ok::<ValueView, ErrorKind>(
            ValueView::Array(ArrayView::list(Seq::new(p.len(), |i: int| a.major(p[i]))).normalize(1)),
        ),
        forall|i: int, j: int|
            0 <= i < j < p.len() ==> (#[trigger] a.major(p[i])).compare(#[trigger] a.major(p[j]))
                != Comparison::Greater,
{
    assert forall|i: int, j: int| 0 <= i < j < p.len() implies (#[trigger] a.major(p[i])).compare(
        #[trigger] a.major(p[j]),
    ) != Comparison::Greater by {
        lemma_major_order(a, p[i], p[j]);
        assert(precedes(a.shape, a.cells, p[i], p[j]));
    }
    assert(index.len() == p.len()) by {
        assert(offsets(index).len() == index.len());
    }
    assert forall|j: int| 0 <= j < index.len() implies crate::pick::index_in_range(
        #[trigger] index[j],
        a.shape[0],
    ) && resolve(index[j], a.shape[0]) == p[j] by {
        assert(offsets(index)[j] == index[j]);
        assert(0 <= p[j] < a.shape[0]);
    }
    assert(Seq::new(index.len(), |j: int| a.major(resolve(index[j], a.shape[0]))) =~= Seq::new(
        p.len(),
        |i: int| a.major(p[i]),
    ));
}


/// Every cell of the sequence is a number.
pub open spec fn numbers_only(cells: Seq<ValueView>) -> bool {
    forall|i: int| 0 <= i < cells.len() ==> #[trigger] cells[i] is Num
}

/// Every cell of the sequence is a character.
pub open spec fn chars_only(cells: Seq<ValueView>) -> bool {
    forall|i: int| 0 <= i < cells.len() ==> #[trigger] cells[i] is Char
}

/// Two sequences one after the other hold numbers only, or characters
/// only, exactly when both do.
pub proof fn lemma_kinds_of_concat(x: Seq<ValueView>, y: Seq<ValueView>)
    ensures
        numbers_only(x + y) == (numbers_only(x) && numbers_only(y)),
        chars_only(x + y) == (chars_only(x) && chars_only(y)),
{
    let z = x + y;
    if numbers_only(z) {
        assert forall|i: int| 0 <= i < x.len() implies #[trigger] x[i] is Num by {
            assert(z[i] is Num);
        }
        assert forall|i: int| 0 <= i < y.len() implies #[trigger] y[i] is Num by {
            assert(z[x.len() + i] is Num);
        }
    }
    if chars_only(z) {
        assert forall|i: int| 0 <= i < x.len() implies #[trigger] x[i] is Char by {
            assert(z[i] is Char);
        }
        assert forall|i: int| 0 <= i < y.len() implies #[trigger] y[i] is Char by {
            assert(z[x.len() + i] is Char);
        }
    }
}

/// The storage kind after normalizing at depth 0 an array of the given
/// kind and cells.
pub open spec fn settled_type(ty: ArrayType, cells: Seq<ValueView>) -> ArrayType {
    if ty != ArrayType::Value || cells.len() == 0 {
        ty
    } else if numbers_only(cells) {
        ArrayType::Num
    } else if chars_only(cells) {
        ArrayType::Char
    } else {
        ArrayType::Value
    }
}

/// Normalizing at depth 0 changes the storage kind only.
pub proof fn lemma_normalize_flat(a: ArrayView)
    ensures
        a.normalize(0) == a.retagged(settled_type(a.ty, a.cells)),
{
}

/// Joining is associative: three values whose ranks as operands of join
/// match give the same array whichever two are joined first, whenever
/// the joins succeed.
pub proof fn law_join_associative(a: ValueView, b: ValueView, c: ValueView)
    requires
        a.wf(),
        b.wf(),
        c.wf(),
        a.join_operand().shape.len() == b.join_operand().shape.len(),
        b.join_operand().shape.len() == c.join_operand().shape.len(),
        a.join(b) is Ok,
        b.join(c) is Ok,
        a.join(b)->Ok_0.join(c) is Ok,
    ensures
        a.join(b)->Ok_0.join(c) == a.join(b.join(c)->Ok_0),
{
    let x = a.join_operand();
    let y = b.join_operand();
    let z = c.join_operand();
    let tail = x.shape.skip(1);
    let xy_raw = ArrayView {
        shape: seq![(x.shape[0] + y.shape[0]) as usize] + tail,
        ty: crate::join::merged_type(x.ty, y.ty),
        cells: x.cells + y.cells,
    };
    let yz_raw = ArrayView {
        shape: seq![(y.shape[0] + z.shape[0]) as usize] + y.shape.skip(1),
        ty: crate::join::merged_type(y.ty, z.ty),
        cells: y.cells + z.cells,
    };
    lemma_normalize_flat(xy_raw);
    lemma_normalize_flat(yz_raw);
    let xy = xy_raw.normalize(0);
    let yz = yz_raw.normalize(0);
    assert(a.join(b)->Ok_0 == ValueView::Array(xy));
    assert(b.join(c)->Ok_0 == ValueView::Array(yz));
    assert(ValueView::Array(xy).join_operand() == xy);
    assert(ValueView::Array(yz).join_operand() == yz);
    assert(xy.shape.skip(1) =~= tail);
    assert(yz.shape.skip(1) =~= y.shape.skip(1));
    let left_raw = ArrayView {
        shape: seq![(xy.shape[0] + z.shape[0]) as usize] + tail,
        ty: crate::join::merged_type(xy.ty, z.ty),
        cells: xy.cells + z.cells,
    };
    let right_raw = ArrayView {
        shape: seq![(x.shape[0] + yz.shape[0]) as usize] + tail,
        ty: crate::join::merged_type(x.ty, yz.ty),
        cells: x.cells + yz.cells,
    };
    assert(a.join(b)->Ok_0.join(c) == Ok::<ValueView, ErrorKind>(
        ValueView::Array(left_raw.normalize(0)),
    ));
    assert(a.join(b.join(c)->Ok_0) == Ok::<ValueView, ErrorKind>(
        ValueView::Array(right_raw.normalize(0)),
    ));
    lemma_normalize_flat(left_raw);
    lemma_normalize_flat(right_raw);
    assert(left_raw.cells =~= right_raw.cells);
    assert(left_raw.shape =~= right_raw.shape);
    lemma_kinds_of_concat(x.cells, y.cells);
    lemma_kinds_of_concat(y.cells, z.cells);
    lemma_kinds_of_concat(x.cells + y.cells, z.cells);
    lemma_kinds_of_concat(x.cells, y.cells + z.cells);
    assert(numbers_only(x.cells) || x.ty != ArrayType::Num);
    assert(numbers_only(y.cells) || y.ty != ArrayType::Num);
    assert(numbers_only(z.cells) || z.ty != ArrayType::Num);
    assert(chars_only(x.cells) || x.ty != ArrayType::Char);
    assert(chars_only(y.cells) || y.ty != ArrayType::Char);
    assert(chars_only(z.cells) || z.ty != ArrayType::Char);
    lemma_one_kind(x.cells);
    lemma_one_kind(y.cells);
    lemma_one_kind(z.cells);
    lemma_one_kind(left_raw.cells);
    assert(settled_type(left_raw.ty, left_raw.cells) == settled_type(right_raw.ty, right_raw.cells));
}

/// Cells that are numbers only and characters only are no cells at all.
pub proof fn lemma_one_kind(cells: Seq<ValueView>)
    ensures
        numbers_only(cells) && chars_only(cells) ==> cells.len() == 0,
{
    if numbers_only(cells) && chars_only(cells) && cells.len() > 0 {
        assert(cells[0] is Num);
        assert(cells[0] is Char);
    }
}

/// The value transposed `k` times.
pub open spec fn transposed_times(v: ValueView, k: nat) -> ValueView
    decreases k,
{
    if k == 0 {
        v
    } else {
        transposed_times(v, (k - 1) as nat).transpose()
    }
}

/// The shape after `k` transpositions that all had an effect.
pub open spec fn turned_shape(shape: Seq<usize>, k: int) -> Seq<usize> {
    shape.skip(k) + shape.take(k)
}

/// The position from which the cell at position `t` comes after `k`
/// transpositions that all had an effect.
pub open spec fn turned_source(shape: Seq<usize>, k: int, t: int) -> int {
    let p = product(shape.take(k)) as int;
    let q = product(shape.skip(k)) as int;
    (t % p) * q + t / p
}

/// The array after `k` transpositions that all had an effect.
pub open spec fn turned(a: ArrayView, k: int) -> ArrayView {
    ArrayView {
        shape: turned_shape(a.shape, k),
        ty: a.ty,
        cells: Seq::new(a.cells.len(), |t: int| a.cells[turned_source(a.shape, k, t)]),
    }
}

/// One more transposition moves one more extent to the back.
pub proof fn lemma_turn_step(t: int, p: int, s: int, q: int)
    requires
        p > 0,
        s > 0,
        q > 0,
        0 <= t < p * s * q,
    ensures
        ({
            let u = (t % s) * (q * p) + t / s;
            &&& 0 <= u < p * s * q
            &&& (u % p) * (s * q) + u / p == (t % (p * s)) * q + t / (p * s)
        }),
{
    let i = t % s;
    let j = t / s;
    lemma_fundamental_div_mod(t, s);
    assert(0 <= i < s);
    assert(0 <= j < p * q) by (nonlinear_arith)
        requires
            t == s * j + i,
            0 <= i < s,
            0 <= t < p * s * q,
            p > 0,
            q > 0,
            s > 0,
    ;
    let c = j % p;
    let b = j / p;
    lemma_fundamental_div_mod(j, p);
    assert(0 <= c < p);
    assert(0 <= b < q) by (nonlinear_arith)
        requires
            j == p * b + c,
            0 <= c < p,
            0 <= j < p * q,
            p > 0,
    ;
    let u = i * (q * p) + j;
    assert(u == (i * q + b) * p + c) by (nonlinear_arith)
        requires
            u == i * (q * p) + j,
            j == p * b + c,
    ;
    vstd::arithmetic::div_mod::lemma_fundamental_div_mod_converse(u, p, i * q + b, c);
    assert(t == b * (p * s) + (s * c + i)) by (nonlinear_arith)
        requires
            t == s * j + i,
            j == p * b + c,
    ;
    assert(0 <= s * c + i < p * s) by (nonlinear_arith)
        requires
            0 <= c < p,
            0 <= i < s,
    ;
    assert(p * s > 0) by (nonlinear_arith)
        requires
            p > 0,
            s > 0,
    ;
    vstd::arithmetic::div_mod::lemma_fundamental_div_mod_converse(t, p * s, b, s * c + i);
    assert(c * (s * q) + (i * q + b) == (s * c + i) * q + b) by (nonlinear_arith);
    assert(0 <= u < p * s * q) by (nonlinear_arith)
        requires
            u == (i * q + b) * p + c,
            0 <= i < s,
            0 <= b < q,
            0 <= c < p,
    ;
}

/// After `k` transpositions of an array without a zero extent, the
/// first `k` extents have moved to the back.
pub proof fn lemma_turned(a: ArrayView, k: nat)
    requires
        a.wf(),
        a.shape.len() >= 2,
        forall|j: int| 0 <= j < a.shape.len() ==> #[trigger] a.shape[j] > 0,
        k <= a.shape.len(),
    ensures
        transposed_times(ValueView::Array(a), k) == ValueView::Array(turned(a, k as int)),
    decreases k,
{
    let s = a.shape;
    let n = a.cells.len() as int;
    if k == 0 {
        assert(turned_shape(s, 0) =~= s);
        assert(s.take(0) =~= Seq::<usize>::empty());
        assert(product(s.take(0)) == 1);
        assert forall|t: int| 0 <= t < n implies turned(a, 0).cells[t] == a.cells[t] by {
            let q = product(s.skip(0)) as int;
            assert((t % 1) * q + t / 1 == t) by (nonlinear_arith);
        }
        assert(turned(a, 0).cells =~= a.cells);
    } else {
        lemma_turned(a, (k - 1) as nat);
        let prev = turned(a, k - 1);
        let p = product(s.take(k - 1)) as int;
        let sk = s[k - 1] as int;
        let q = product(s.skip(k as int)) as int;
        assert(s.take(k as int).drop_last() =~= s.take(k - 1));
        assert(product(s.take(k as int)) == p * sk);
        assert(s.skip(k - 1).skip(1) =~= s.skip(k as int));
        lemma_product_first(s.skip(k - 1));
        assert(product(s.skip(k - 1)) == sk * q);
        assert(s =~= s.take(k - 1) + s.skip(k - 1));
        crate::shape::lemma_product_concat(s.take(k - 1), s.skip(k - 1));
        assert(n == p * (sk * q));
        assert forall|j: int| 0 <= j < s.take(k - 1).len() implies #[trigger] s.take(k - 1)[j] > 0 by {
            assert(s.take(k - 1)[j] == s[j]);
        }
        assert forall|j: int| 0 <= j < s.skip(k as int).len() implies #[trigger] s.skip(k as int)[j]
            > 0 by {
            assert(s.skip(k as int)[j] == s[j + k]);
        }
        crate::shape::lemma_product_of_positive(s.take(k - 1));
        crate::shape::lemma_product_of_positive(s.skip(k as int));
        assert(p * (sk * q) == p * sk * q) by (nonlinear_arith);
        let ps = prev.shape;
        assert(ps[0] == s[k - 1]);
        assert(crate::kernel::transposes(ps));
        assert(ps.skip(1) =~= s.skip(k as int) + s.take(k - 1));
        crate::shape::lemma_product_concat(s.skip(k as int), s.take(k - 1));
        assert(cell_size(ps) == q * p);
        assert(crate::kernel::rotated_shape(ps) =~= turned_shape(s, k as int));
        let next = crate::kernel::transposed(ps, prev.cells);
        assert forall|t: int| 0 <= t < n implies next[t] == turned(a, k as int).cells[t] by {
            lemma_turn_step(t, p, sk, q);
            let u = crate::kernel::transposed_source(ps, t);
            assert(u == (t % sk) * (q * p) + t / sk);
            assert(sk * q == product(s.skip(k - 1)));
            assert(prev.cells[u] == a.cells[turned_source(s, k - 1, u)]);
            assert(p * sk == product(s.take(k as int)));
        }
        assert(next =~= turned(a, k as int).cells);
    }
}

/// Transposing an array of rank `r` at least 2 and without a zero extent
/// `r` times gives the array back; so does transposing any array that
/// transposition leaves alone, however often.
pub proof fn law_transpose_cycle(a: ArrayView)
    requires
        a.wf(),
        a.shape.len() < 2 || a.shape[0] == 0 || forall|j: int|
            0 <= j < a.shape.len() ==> #[trigger] a.shape[j] > 0,
    ensures
        transposed_times(ValueView::Array(a), a.shape.len()) == ValueView::Array(a),
{
    if a.shape.len() < 2 || a.shape[0] == 0 {
        lemma_transpose_idle(a, a.shape.len());
    } else {
        let r = a.shape.len();
        lemma_turned(a, r);
        let s = a.shape;
        let n = a.cells.len() as int;
        assert(turned_shape(s, r as int) =~= s);
        assert(s.take(r as int) =~= s);
        assert(s.skip(r as int) =~= Seq::<usize>::empty());
        assert(product(s.skip(r as int)) == 1);
        assert forall|t: int| 0 <= t < n implies turned(a, r as int).cells[t] == a.cells[t] by {
            lemma_small_mod(t as nat, n as nat);
            assert(t / n == 0) by (nonlinear_arith)
                requires
                    0 <= t < n,
            ;
        }
        assert(turned(a, r as int).cells =~= a.cells);
    }
}

/// An array that transposition leaves alone stays the same however
/// often it is transposed.
pub proof fn lemma_transpose_idle(a: ArrayView, k: nat)
    requires
        !crate::kernel::transposes(a.shape),
    ensures
        transposed_times(ValueView::Array(a), k) == ValueView::Array(a),
    decreases k,
{
    if k > 0 {
        lemma_transpose_idle(a, (k - 1) as nat);
    }
}

} // verus!
