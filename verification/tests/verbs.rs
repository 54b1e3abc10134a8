use array_core::error::{Env, ErrorKind};
use array_core::number::Number;
use array_core::value::{Array, ArrayType, Function, Type, Value};

fn num(x: f64) -> Number {
    Number::from_bits(x.to_bits()).unwrap()
}

fn scalar(x: f64) -> Value {
    Value::Num(num(x))
}

fn list(xs: &[f64]) -> Value {
    Value::Array(Array::from_numbers(vec![xs.len()], xs.iter().map(|x| num(*x)).collect()).unwrap())
}

fn grid(shape: &[usize], xs: &[f64]) -> Value {
    Value::Array(Array::from_numbers(shape.to_vec(), xs.iter().map(|x| num(*x)).collect()).unwrap())
}

fn text(s: &str) -> Value {
    Value::Array(Array::from_chars(vec![s.chars().count()], s.chars().collect()).unwrap())
}

fn boxes(cells: Vec<Value>) -> Value {
    Value::Array(Array::list(cells))
}

fn function(id: u64) -> Value {
    Value::Function(Function { id })
}

fn kind<T: std::fmt::Debug>(r: Result<T, array_core::error::RuntimeError>) -> ErrorKind {
    r.unwrap_err().kind
}

#[test]
fn range_over_two_by_three_lists_the_index_vectors() {
    let env = Env::new();
    let mut v = list(&[2.0, 3.0]);
    v.range(&env).unwrap();
    let cells = vec![
        list(&[0.0, 0.0]),
        list(&[0.0, 1.0]),
        list(&[0.0, 2.0]),
        list(&[1.0, 0.0]),
        list(&[1.0, 1.0]),
        list(&[1.0, 2.0]),
    ];
    assert_eq!(v, Value::Array(Array::new(vec![2, 3], cells).unwrap()));
}

#[test]
fn range_of_a_number_counts_from_zero() {
    let env = Env::new();
    let mut v = scalar(6.0);
    v.range(&env).unwrap();
    assert_eq!(v, list(&[0.0, 1.0, 2.0, 3.0, 4.0, 5.0]));
    let mut one = list(&[1.0]);
    one.range(&env).unwrap();
    assert_eq!(one, list(&[0.0]));
}

#[test]
fn range_over_the_empty_shape_holds_the_empty_index_vector() {
    let env = Env::new();
    let mut v = list(&[]);
    v.range(&env).unwrap();
    assert_eq!(v, Value::Array(Array::new(vec![], vec![list(&[])]).unwrap()));
}

#[test]
fn range_refuses_what_is_no_shape() {
    let env = Env::new();
    let mut v = scalar(2.5);
    assert_eq!(kind(v.range(&env)), ErrorKind::ShapeDecode);
    assert_eq!(v, scalar(2.5));
    let mut w = text("abc");
    assert_eq!(kind(w.range(&env)), ErrorKind::ShapeDecode);
}

#[test]
fn range_refuses_more_cells_than_can_be_numbered() {
    let env = Env::new();
    let mut v = scalar(9007199254740992.0);
    assert_eq!(kind(v.range(&env)), ErrorKind::SizeOverflow);
    assert_eq!(v, scalar(9007199254740992.0));
    let mut w = list(&[1e30, 1e30]);
    assert_eq!(kind(w.range(&env)), ErrorKind::SizeOverflow);
}

#[test]
fn range_kernel_lists_positions_and_index_vectors() {
    assert_eq!(array_core::kernel::range(&[3]), vec![scalar(0.0), scalar(1.0), scalar(2.0)]);
    assert_eq!(array_core::kernel::range(&[]), vec![list(&[])]);
    assert_eq!(array_core::kernel::range(&[0]), Vec::<Value>::new());
    assert_eq!(
        array_core::kernel::range(&[2, 1, 2]),
        vec![list(&[0.0, 0.0, 0.0]), list(&[0.0, 0.0, 1.0]), list(&[1.0, 0.0, 0.0]), list(&[1.0, 0.0, 1.0])]
    );
}

#[test]
fn reshape_of_a_range_fills_the_shape() {
    let env = Env::new();
    let mut data = scalar(6.0);
    data.range(&env).unwrap();
    let mut v = list(&[2.0, 3.0]);
    v.reshape(data, &env).unwrap();
    assert_eq!(v, grid(&[2, 3], &[0.0, 1.0, 2.0, 3.0, 4.0, 5.0]));
}

#[test]
fn reshape_cuts_and_repeats() {
    let env = Env::new();
    let mut v = list(&[2.0, 2.0]);
    v.reshape(list(&[1.0, 2.0, 3.0]), &env).unwrap();
    assert_eq!(v, grid(&[2, 2], &[1.0, 2.0, 3.0, 1.0]));
    let mut w = scalar(2.0);
    w.reshape(list(&[1.0, 2.0, 3.0]), &env).unwrap();
    assert_eq!(w, list(&[1.0, 2.0]));
    let mut x = scalar(3.0);
    x.reshape(scalar(7.0), &env).unwrap();
    assert_eq!(x, list(&[7.0, 7.0, 7.0]));
    let mut y = scalar(7.0);
    y.reshape(list(&[1.0, 2.0, 3.0]), &env).unwrap();
    assert_eq!(y, list(&[1.0, 2.0, 3.0, 1.0, 2.0, 3.0, 1.0]));
    let mut z = list(&[]);
    z.reshape(list(&[9.0, 8.0]), &env).unwrap();
    assert_eq!(z, Value::Array(Array::from_numbers(vec![], vec![num(9.0)]).unwrap()));
}

#[test]
fn reshape_keeps_the_kind_of_the_cells() {
    let env = Env::new();
    let mut v = scalar(5.0);
    v.reshape(text("ab"), &env).unwrap();
    assert_eq!(v, text("ababa"));
}

#[test]
fn reshape_fails_on_a_bad_shape_and_on_an_empty_source() {
    let env = Env::new();
    let mut v = scalar(1.5);
    assert_eq!(kind(v.reshape(list(&[1.0]), &env)), ErrorKind::ShapeDecode);
    assert_eq!(v, scalar(1.5));
    let mut z = scalar(0.0);
    assert_eq!(kind(z.reshape(list(&[1.0]), &env)), ErrorKind::ShapeDecode);
    let mut w = scalar(2.0);
    assert_eq!(kind(w.reshape(list(&[]), &env)), ErrorKind::EmptyHasNoFirst);
    assert_eq!(w, scalar(2.0));
    let mut big = list(&[1e30, 1e30]);
    assert_eq!(kind(big.reshape(list(&[1.0]), &env)), ErrorKind::SizeOverflow);
}

#[test]
fn force_length_cuts_and_repeats() {
    let mut data = vec![scalar(1.0), scalar(2.0), scalar(3.0)];
    array_core::kernel::force_length(&mut data, 8);
    assert_eq!(data, vec![scalar(1.0), scalar(2.0), scalar(3.0), scalar(1.0), scalar(2.0), scalar(3.0), scalar(1.0), scalar(2.0)]);
    array_core::kernel::force_length(&mut data, 2);
    assert_eq!(data, vec![scalar(1.0), scalar(2.0)]);
    array_core::kernel::force_length(&mut data, 2);
    assert_eq!(data, vec![scalar(1.0), scalar(2.0)]);
    array_core::kernel::force_length(&mut data, 0);
    assert!(data.is_empty());
    array_core::kernel::force_length(&mut data, 0);
    assert!(data.is_empty());
}

#[test]
fn deshape_lists_the_storage() {
    let mut v = grid(&[2, 2], &[1.0, 2.0, 3.0, 4.0]);
    v.deshape();
    assert_eq!(v, list(&[1.0, 2.0, 3.0, 4.0]));
    let mut s = scalar(5.0);
    s.deshape();
    assert_eq!(s, list(&[5.0]));
    let mut c = Value::Char('x');
    c.deshape();
    assert_eq!(c, text("x"));
}

#[test]
fn transpose_makes_the_first_axis_the_last() {
    let mut v = grid(&[2, 3], &[1.0, 2.0, 3.0, 4.0, 5.0, 6.0]);
    v.transpose();
    assert_eq!(v, grid(&[3, 2], &[1.0, 4.0, 2.0, 5.0, 3.0, 6.0]));
    let mut w = grid(&[2, 2, 3], &[0.0, 1.0, 2.0, 3.0, 4.0, 5.0, 6.0, 7.0, 8.0, 9.0, 10.0, 11.0]);
    w.transpose();
    assert_eq!(w, grid(&[2, 3, 2], &[0.0, 6.0, 1.0, 7.0, 2.0, 8.0, 3.0, 9.0, 4.0, 10.0, 5.0, 11.0]));
}

#[test]
fn transpose_leaves_lists_and_empty_arrays_alone() {
    let mut v = list(&[1.0, 2.0, 3.0]);
    v.transpose();
    assert_eq!(v, list(&[1.0, 2.0, 3.0]));
    let mut e = grid(&[0, 3], &[]);
    e.transpose();
    assert_eq!(e, grid(&[0, 3], &[]));
    let mut f = grid(&[3, 0], &[]);
    f.transpose();
    assert_eq!(f, grid(&[0, 3], &[]));
    let mut s = scalar(4.0);
    s.transpose();
    assert_eq!(s, Value::Array(Array::from_numbers(vec![], vec![num(4.0)]).unwrap()));
}

#[test]
fn transpose_kernel_turns_shape_and_storage() {
    let mut shape = vec![2, 3];
    let mut data: Vec<Value> = [1.0, 2.0, 3.0, 4.0, 5.0, 6.0].iter().map(|x| scalar(*x)).collect();
    array_core::kernel::transpose(&mut shape, &mut data);
    assert_eq!(shape, vec![3, 2]);
    let want: Vec<Value> = [1.0, 4.0, 2.0, 5.0, 3.0, 6.0].iter().map(|x| scalar(*x)).collect();
    assert_eq!(data, want);
}

#[test]
fn reverse_turns_the_major_cells_round() {
    let mut v = list(&[1.0, 2.0, 3.0]);
    v.reverse();
    assert_eq!(v, list(&[3.0, 2.0, 1.0]));
    let mut m = grid(&[3, 2], &[1.0, 2.0, 3.0, 4.0, 5.0, 6.0]);
    m.reverse();
    assert_eq!(m, grid(&[3, 2], &[5.0, 6.0, 3.0, 4.0, 1.0, 2.0]));
    let mut s = scalar(1.0);
    s.reverse();
    assert_eq!(s, scalar(1.0));
    let mut e = list(&[]);
    e.reverse();
    assert_eq!(e, list(&[]));
}

#[test]
fn swap_cells_exchanges_two_cells() {
    let mut data: Vec<Value> = [1.0, 2.0, 3.0].iter().map(|x| scalar(*x)).collect();
    array_core::kernel::swap_cells(&mut data, 0, 2);
    assert_eq!(data, vec![scalar(3.0), scalar(2.0), scalar(1.0)]);
    array_core::kernel::swap_cells(&mut data, 1, 1);
    assert_eq!(data, vec![scalar(3.0), scalar(2.0), scalar(1.0)]);
}

#[test]
fn reverse_kernel_swaps_whole_cells() {
    let mut data: Vec<Value> = [1.0, 2.0, 3.0, 4.0].iter().map(|x| scalar(*x)).collect();
    array_core::kernel::reverse(&[2, 2], &mut data);
    let want: Vec<Value> = [3.0, 4.0, 1.0, 2.0].iter().map(|x| scalar(*x)).collect();
    assert_eq!(data, want);
    array_core::kernel::reverse(&[4], &mut data);
    let want: Vec<Value> = [2.0, 1.0, 4.0, 3.0].iter().map(|x| scalar(*x)).collect();
    assert_eq!(data, want);
    let mut odd: Vec<Value> = [1.0, 2.0, 3.0, 4.0, 5.0, 6.0].iter().map(|x| scalar(*x)).collect();
    array_core::kernel::reverse(&[3, 2], &mut odd);
    let want: Vec<Value> = [5.0, 6.0, 3.0, 4.0, 1.0, 2.0].iter().map(|x| scalar(*x)).collect();
    assert_eq!(odd, want);
    let mut boxed = vec![text("ab"), scalar(1.0), list(&[2.0])];
    array_core::kernel::reverse(&[3], &mut boxed);
    assert_eq!(boxed, vec![list(&[2.0]), scalar(1.0), text("ab")]);
}

#[test]
fn rotate_shifts_left_and_right() {
    let env = Env::new();
    let mut i = list(&[1.0]);
    i.rotate(list(&[10.0, 20.0, 30.0, 40.0]), &env).unwrap();
    assert_eq!(i, list(&[20.0, 30.0, 40.0, 10.0]));
    let mut j = list(&[-1.0]);
    j.rotate(list(&[10.0, 20.0, 30.0, 40.0]), &env).unwrap();
    assert_eq!(j, list(&[40.0, 10.0, 20.0, 30.0]));
    let mut k = scalar(5.0);
    k.rotate(list(&[10.0, 20.0, 30.0, 40.0]), &env).unwrap();
    assert_eq!(k, list(&[20.0, 30.0, 40.0, 10.0]));
    let mut l = scalar(-7.0);
    l.rotate(list(&[10.0, 20.0, 30.0, 40.0]), &env).unwrap();
    assert_eq!(l, list(&[20.0, 30.0, 40.0, 10.0]));
}

#[test]
fn rotate_works_axis_by_axis() {
    let env = Env::new();
    let m = || grid(&[2, 3], &[1.0, 2.0, 3.0, 4.0, 5.0, 6.0]);
    let mut a = list(&[1.0]);
    a.rotate(m(), &env).unwrap();
    assert_eq!(a, grid(&[2, 3], &[4.0, 5.0, 6.0, 1.0, 2.0, 3.0]));
    let mut b = list(&[0.0, 1.0]);
    b.rotate(m(), &env).unwrap();
    assert_eq!(b, grid(&[2, 3], &[2.0, 3.0, 1.0, 5.0, 6.0, 4.0]));
    let mut c = list(&[1.0, -1.0]);
    c.rotate(m(), &env).unwrap();
    assert_eq!(c, grid(&[2, 3], &[6.0, 4.0, 5.0, 3.0, 1.0, 2.0]));
    let mut d = list(&[0.0, 0.0, 9.0]);
    d.rotate(m(), &env).unwrap();
    assert_eq!(d, m());
}

#[test]
fn rotate_by_nothing_changes_nothing() {
    let env = Env::new();
    let mut a = list(&[]);
    a.rotate(list(&[1.0, 2.0]), &env).unwrap();
    assert_eq!(a, list(&[1.0, 2.0]));
    let mut b = list(&[0.0]);
    b.rotate(list(&[1.0, 2.0]), &env).unwrap();
    assert_eq!(b, list(&[1.0, 2.0]));
    let mut c = list(&[3.0]);
    c.rotate(scalar(8.0), &env).unwrap();
    assert_eq!(c, scalar(8.0));
    let mut d = list(&[3.0]);
    d.rotate(list(&[]), &env).unwrap();
    assert_eq!(d, list(&[]));
    let mut e = list(&[1.0, 1.0]);
    e.rotate(grid(&[2, 0], &[]), &env).unwrap();
    assert_eq!(e, grid(&[2, 0], &[]));
}

#[test]
fn rotate_refuses_offsets_that_are_not_whole() {
    let env = Env::new();
    let mut a = scalar(0.5);
    assert_eq!(kind(a.rotate(list(&[1.0, 2.0]), &env)), ErrorKind::ShapeDecode);
    assert_eq!(a, scalar(0.5));
}

#[test]
fn rotate_kernel_wraps_round_the_extent() {
    let mut data: Vec<Value> = [1.0, 2.0, 3.0].iter().map(|x| scalar(*x)).collect();
    array_core::rotate::rotate(&vec![isize::MAX], &[3], &mut data);
    let shift = (isize::MAX as i128).rem_euclid(3) as usize;
    let want: Vec<Value> = (0..3).map(|k| scalar([1.0, 2.0, 3.0][(k + shift) % 3])).collect();
    assert_eq!(data, want);
    assert_eq!(array_core::rotate::wrap(2, isize::MIN, 5), ((2 + isize::MIN as i128).rem_euclid(5)) as usize);
    assert_eq!(array_core::rotate::wrap(0, -1, 4), 3);
}

#[test]
fn take_takes_from_the_front_and_pads() {
    let env = Env::new();
    let a = || list(&[10.0, 20.0, 30.0]);
    let mut i = list(&[2.0]);
    i.take(a(), &env).unwrap();
    assert_eq!(i, list(&[10.0, 20.0]));
    let mut j = list(&[5.0]);
    j.take(a(), &env).unwrap();
    assert_eq!(j, list(&[10.0, 20.0, 30.0, 0.0, 0.0]));
    let mut k = list(&[-5.0]);
    k.take(a(), &env).unwrap();
    assert_eq!(k, list(&[0.0, 0.0, 10.0, 20.0, 30.0]));
    let mut l = list(&[-2.0]);
    l.take(a(), &env).unwrap();
    assert_eq!(l, list(&[20.0, 30.0]));
    let mut m = scalar(0.0);
    m.take(a(), &env).unwrap();
    assert_eq!(m, list(&[]));
}

#[test]
fn take_works_axis_by_axis() {
    let env = Env::new();
    let a = || grid(&[2, 2], &[1.0, 2.0, 3.0, 4.0]);
    let mut i = list(&[3.0]);
    i.take(a(), &env).unwrap();
    assert_eq!(i, grid(&[3, 2], &[1.0, 2.0, 3.0, 4.0, 0.0, 0.0]));
    let mut j = list(&[-3.0]);
    j.take(a(), &env).unwrap();
    assert_eq!(j, grid(&[3, 2], &[0.0, 0.0, 1.0, 2.0, 3.0, 4.0]));
    let mut k = list(&[1.0, 3.0]);
    k.take(a(), &env).unwrap();
    assert_eq!(k, grid(&[1, 3], &[1.0, 2.0, 0.0]));
    let mut l = list(&[2.0, -1.0]);
    l.take(a(), &env).unwrap();
    assert_eq!(l, grid(&[2, 1], &[2.0, 4.0]));
    let mut m = list(&[-3.0, -3.0]);
    m.take(a(), &env).unwrap();
    assert_eq!(m, grid(&[3, 3], &[0.0, 0.0, 0.0, 0.0, 1.0, 2.0, 0.0, 3.0, 4.0]));
}

#[test]
fn take_pads_characters_with_spaces_and_boxes_with_fills() {
    let env = Env::new();
    let mut i = scalar(4.0);
    i.take(text("ab"), &env).unwrap();
    assert_eq!(i, text("ab  "));
    let mut j = scalar(3.0);
    j.take(boxes(vec![scalar(1.0), text("hi")]), &env).unwrap();
    assert_eq!(j, boxes(vec![scalar(1.0), text("hi"), scalar(0.0)]));
    let mut k = scalar(-3.0);
    k.take(boxes(vec![text("hi"), scalar(1.0)]), &env).unwrap();
    assert_eq!(k, boxes(vec![text("  "), text("hi"), scalar(1.0)]));
    let mut e = scalar(2.0);
    e.take(list(&[]), &env).unwrap();
    assert_eq!(e, list(&[0.0, 0.0]));
}

#[test]
fn take_fails_without_a_fill_value() {
    let env = Env::new();
    let mut i = scalar(3.0);
    assert_eq!(kind(i.take(boxes(vec![function(1), scalar(1.0)]), &env)), ErrorKind::NoFillValue);
    assert_eq!(i, scalar(3.0));
    let mut j = scalar(1.0);
    assert_eq!(kind(j.take(boxes(vec![]), &env)), ErrorKind::NoFillValue);
    let mut k = scalar(2.0);
    k.take(boxes(vec![function(1), scalar(1.0)]), &env).unwrap();
    assert_eq!(k, boxes(vec![function(1), scalar(1.0)]));
}

#[test]
fn take_checks_rank_and_index() {
    let env = Env::new();
    let mut i = list(&[1.0, 1.0]);
    assert_eq!(kind(i.take(list(&[1.0, 2.0]), &env)), ErrorKind::RankMismatch);
    let mut j = scalar(1.0);
    assert_eq!(kind(j.take(scalar(5.0), &env)), ErrorKind::RankMismatch);
    let mut r = scalar(1.0);
    let rank0 = Value::Array(Array::from_numbers(vec![], vec![num(4.0)]).unwrap());
    assert_eq!(kind(r.take(rank0, &env)), ErrorKind::RankMismatch);
    let mut k = scalar(1.5);
    assert_eq!(kind(k.take(list(&[1.0, 2.0]), &env)), ErrorKind::ShapeDecode);
}

#[test]
fn drop_drops_from_the_front_and_from_the_back() {
    let env = Env::new();
    let a = || list(&[10.0, 20.0, 30.0]);
    let mut i = list(&[1.0]);
    i.drop(a(), &env).unwrap();
    assert_eq!(i, list(&[20.0, 30.0]));
    let mut j = list(&[-1.0]);
    j.drop(a(), &env).unwrap();
    assert_eq!(j, list(&[10.0, 20.0]));
    let mut k = list(&[3.0]);
    k.drop(a(), &env).unwrap();
    assert_eq!(k, list(&[]));
    let mut l = list(&[4.0]);
    l.drop(a(), &env).unwrap();
    assert_eq!(l, list(&[]));
    let mut m = list(&[-4.0]);
    m.drop(a(), &env).unwrap();
    assert_eq!(m, list(&[]));
    let mut n = list(&[1e30]);
    n.drop(a(), &env).unwrap();
    assert_eq!(n, list(&[]));
}

#[test]
fn drop_works_axis_by_axis() {
    let env = Env::new();
    let a = || grid(&[2, 3], &[1.0, 2.0, 3.0, 4.0, 5.0, 6.0]);
    let mut i = list(&[1.0, 1.0]);
    i.drop(a(), &env).unwrap();
    assert_eq!(i, grid(&[1, 2], &[5.0, 6.0]));
    let mut j = list(&[0.0, -2.0]);
    j.drop(a(), &env).unwrap();
    assert_eq!(j, grid(&[2, 1], &[1.0, 4.0]));
    let mut k = list(&[1.0, 1.0, 1.0]);
    assert_eq!(kind(k.drop(a(), &env)), ErrorKind::RankMismatch);
    let mut l = scalar(1.0);
    assert_eq!(kind(l.drop(scalar(1.0), &env)), ErrorKind::RankMismatch);
    let mut m = text("a");
    assert_eq!(kind(m.drop(a(), &env)), ErrorKind::ShapeDecode);
}

#[test]
fn fill_values_follow_the_kind() {
    let env = Env::new();
    assert_eq!(scalar(7.0).fill_value(&env).unwrap(), scalar(0.0));
    assert_eq!(Value::Char('x').fill_value(&env).unwrap(), Value::Char(' '));
    assert_eq!(list(&[1.0, 2.0]).fill_value(&env).unwrap(), list(&[0.0, 0.0]));
    assert_eq!(text("hey").fill_value(&env).unwrap(), text("   "));
    assert_eq!(
        boxes(vec![scalar(1.0), text("a"), grid(&[1, 2], &[5.0, 6.0])]).fill_value(&env).unwrap(),
        boxes(vec![scalar(0.0), text(" "), grid(&[1, 2], &[0.0, 0.0])])
    );
    assert_eq!(kind(function(1).fill_value(&env)), ErrorKind::NoFillValue);
    assert_eq!(kind(boxes(vec![scalar(1.0), boxes(vec![function(2)])]).fill_value(&env)), ErrorKind::NoFillValue);
}

#[test]
fn pick_names_a_cell_or_a_residual_array() {
    let env = Env::new();
    let mut i = scalar(1.0);
    i.pick(list(&[10.0, 20.0, 30.0]), &env).unwrap();
    assert_eq!(i, scalar(20.0));
    let mut j = scalar(-1.0);
    j.pick(list(&[10.0, 20.0, 30.0]), &env).unwrap();
    assert_eq!(j, scalar(30.0));
    let mut k = scalar(-3.0);
    k.pick(list(&[10.0, 20.0, 30.0]), &env).unwrap();
    assert_eq!(k, scalar(10.0));
    let m = || grid(&[2, 3], &[1.0, 2.0, 3.0, 4.0, 5.0, 6.0]);
    let mut a = scalar(1.0);
    a.pick(m(), &env).unwrap();
    assert_eq!(a, list(&[4.0, 5.0, 6.0]));
    let mut b = list(&[1.0, -1.0]);
    b.pick(m(), &env).unwrap();
    assert_eq!(b, scalar(6.0));
    let mut c = list(&[]);
    c.pick(m(), &env).unwrap();
    assert_eq!(c, m());
    let mut d = scalar(1.0);
    d.pick(boxes(vec![scalar(1.0), text("hi")]), &env).unwrap();
    assert_eq!(d, text("hi"));
    let cube = grid(&[2, 2, 2], &[0.0, 1.0, 2.0, 3.0, 4.0, 5.0, 6.0, 7.0]);
    let mut e = list(&[1.0, 0.0]);
    e.pick(cube, &env).unwrap();
    assert_eq!(e, list(&[4.0, 5.0]));
}

#[test]
fn pick_checks_rank_and_range() {
    let env = Env::new();
    let mut i = scalar(3.0);
    assert_eq!(kind(i.pick(list(&[10.0, 20.0, 30.0]), &env)), ErrorKind::IndexOutOfRange);
    assert_eq!(i, scalar(3.0));
    let mut j = scalar(-4.0);
    assert_eq!(kind(j.pick(list(&[10.0, 20.0, 30.0]), &env)), ErrorKind::IndexOutOfRange);
    let mut k = list(&[0.0, 0.0]);
    assert_eq!(kind(k.pick(list(&[10.0, 20.0, 30.0]), &env)), ErrorKind::RankMismatch);
    let mut l = scalar(0.0);
    assert_eq!(kind(l.pick(scalar(1.0), &env)), ErrorKind::RankMismatch);
    let mut m = scalar(0.5);
    assert_eq!(kind(m.pick(list(&[1.0]), &env)), ErrorKind::ShapeDecode);
    let mut n = scalar(0.0);
    assert_eq!(kind(n.pick(list(&[]), &env)), ErrorKind::IndexOutOfRange);
    let mut o = list(&[0.0, 3.0]);
    assert_eq!(kind(o.pick(grid(&[2, 3], &[1.0, 2.0, 3.0, 4.0, 5.0, 6.0]), &env)), ErrorKind::IndexOutOfRange);
}

#[test]
fn pick_kernels_agree() {
    let env = Env::new();
    let a = Array::from_numbers(vec![2, 2], vec![num(1.0), num(2.0), num(3.0), num(4.0)]).unwrap();
    assert_eq!(array_core::pick::pick(&vec![1, 1], &a, &env).unwrap(), scalar(4.0));
    assert_eq!(array_core::pick::pick_impl(&vec![-1], &a).unwrap(), list(&[3.0, 4.0]));
    assert_eq!(kind(array_core::pick::pick(&vec![2], &a, &env)), ErrorKind::IndexOutOfRange);
    assert_eq!(kind(array_core::pick::pick(&vec![0, 0, 0], &a, &env)), ErrorKind::RankMismatch);
}

#[test]
fn select_collects_major_cells() {
    let env = Env::new();
    let mut i = list(&[0.0, 2.0, -1.0, 0.0]);
    i.select(list(&[10.0, 20.0, 30.0]), &env).unwrap();
    assert_eq!(i, list(&[10.0, 30.0, 30.0, 10.0]));
    let mut j = list(&[1.0, 0.0]);
    j.select(grid(&[2, 2], &[1.0, 2.0, 3.0, 4.0]), &env).unwrap();
    assert_eq!(j, grid(&[2, 2], &[3.0, 4.0, 1.0, 2.0]));
    let mut k = list(&[1.0]);
    k.select(text("abc"), &env).unwrap();
    assert_eq!(k, text("b"));
    let mut l = list(&[]);
    l.select(list(&[1.0]), &env).unwrap();
    assert_eq!(l, boxes(vec![]));
    let mut m = list(&[1.0, 0.0]);
    m.select(boxes(vec![scalar(1.0), text("hi")]), &env).unwrap();
    assert_eq!(m, boxes(vec![text("hi"), scalar(1.0)]));
}

#[test]
fn select_checks_rank_and_range() {
    let env = Env::new();
    let mut i = list(&[0.0, 3.0]);
    assert_eq!(kind(i.select(list(&[10.0, 20.0, 30.0]), &env)), ErrorKind::IndexOutOfRange);
    assert_eq!(i, list(&[0.0, 3.0]));
    let mut j = list(&[0.0]);
    assert_eq!(kind(j.select(scalar(5.0), &env)), ErrorKind::RankMismatch);
    let mut k = text("a");
    assert_eq!(kind(k.select(list(&[1.0]), &env)), ErrorKind::ShapeDecode);
}

#[test]
fn first_takes_the_first_major_cell() {
    let env = Env::new();
    let mut a = list(&[10.0, 20.0]);
    a.first(&env).unwrap();
    assert_eq!(a, scalar(10.0));
    let mut b = grid(&[2, 2], &[1.0, 2.0, 3.0, 4.0]);
    b.first(&env).unwrap();
    assert_eq!(b, list(&[1.0, 2.0]));
    let mut c = scalar(3.0);
    c.first(&env).unwrap();
    assert_eq!(c, scalar(3.0));
    let mut d = list(&[]);
    assert_eq!(kind(d.first(&env)), ErrorKind::EmptyHasNoFirst);
    assert_eq!(d, list(&[]));
    let mut e = grid(&[2, 0], &[]);
    e.first(&env).unwrap();
    assert_eq!(e, list(&[]));
    let mut f = Value::Array(Array::from_numbers(vec![], vec![num(4.0)]).unwrap());
    f.first(&env).unwrap();
    assert_eq!(f, scalar(4.0));
}

#[test]
fn enclose_boxes_a_value() {
    let mut a = scalar(5.0);
    a.enclose();
    assert_eq!(a, Value::Array(Array::from_numbers(vec![], vec![num(5.0)]).unwrap()));
    let mut b = list(&[1.0, 2.0]);
    b.enclose();
    assert_eq!(b, Value::Array(Array::new(vec![], vec![list(&[1.0, 2.0])]).unwrap()));
    assert_eq!(b.rank(), 0);
    let mut c = Value::Char('x');
    c.enclose();
    assert_eq!(c, Value::Array(Array::from_chars(vec![], vec!['x']).unwrap()));
}

#[test]
fn pair_lists_two_values() {
    let mut a = scalar(1.0);
    a.pair(scalar(2.0));
    assert_eq!(a, list(&[1.0, 2.0]));
    let mut b = Value::Char('a');
    b.pair(Value::Char('b'));
    assert_eq!(b, text("ab"));
    let mut c = scalar(1.0);
    c.pair(Value::Char('b'));
    assert_eq!(c, boxes(vec![scalar(1.0), Value::Char('b')]));
    let mut d = list(&[1.0]);
    d.pair(list(&[2.0]));
    assert_eq!(d, boxes(vec![list(&[1.0]), list(&[2.0])]));
}

#[test]
fn couple_makes_two_major_cells() {
    let env = Env::new();
    let mut a = list(&[1.0, 2.0]);
    a.couple(list(&[3.0, 4.0]), &env).unwrap();
    assert_eq!(a, grid(&[2, 2], &[1.0, 2.0, 3.0, 4.0]));
    let mut b = scalar(1.0);
    b.couple(scalar(2.0), &env).unwrap();
    assert_eq!(b, list(&[1.0, 2.0]));
    let mut c = text("ab");
    c.couple(text("cd"), &env).unwrap();
    assert_eq!(c, Value::Array(Array::from_chars(vec![2, 2], vec!['a', 'b', 'c', 'd']).unwrap()));
    let mut d = list(&[1.0]);
    d.couple(text("a"), &env).unwrap();
    assert_eq!(d, Value::Array(Array::new(vec![2, 1], vec![scalar(1.0), Value::Char('a')]).unwrap()));
}

#[test]
fn couple_checks_shapes_and_kinds() {
    let env = Env::new();
    let mut a = list(&[1.0, 2.0]);
    assert_eq!(kind(a.couple(list(&[3.0]), &env)), ErrorKind::LengthMismatch);
    assert_eq!(a, list(&[1.0, 2.0]));
    let mut b = scalar(1.0);
    assert_eq!(kind(b.couple(list(&[3.0]), &env)), ErrorKind::LengthMismatch);
    let mut c = function(1);
    assert_eq!(kind(c.couple(scalar(1.0), &env)), ErrorKind::TypeError);
    let mut d = scalar(1.0);
    assert_eq!(kind(d.couple(function(1), &env)), ErrorKind::TypeError);
}

#[test]
fn join_puts_major_cells_one_after_the_other() {
    let env = Env::new();
    let mut a = list(&[1.0, 2.0]);
    a.join(list(&[3.0]), &env).unwrap();
    assert_eq!(a, list(&[1.0, 2.0, 3.0]));
    let mut b = scalar(1.0);
    b.join(scalar(2.0), &env).unwrap();
    assert_eq!(b, list(&[1.0, 2.0]));
    let mut c = list(&[1.0]);
    c.join(scalar(2.0), &env).unwrap();
    assert_eq!(c, list(&[1.0, 2.0]));
    let mut d = grid(&[2, 2], &[1.0, 2.0, 3.0, 4.0]);
    d.join(grid(&[1, 2], &[5.0, 6.0]), &env).unwrap();
    assert_eq!(d, grid(&[3, 2], &[1.0, 2.0, 3.0, 4.0, 5.0, 6.0]));
    let mut e = list(&[]);
    e.join(list(&[1.0]), &env).unwrap();
    assert_eq!(e, list(&[1.0]));
}

#[test]
fn join_takes_a_value_of_one_rank_less_as_one_cell() {
    let env = Env::new();
    let mut a = grid(&[2, 2], &[1.0, 2.0, 3.0, 4.0]);
    a.join(list(&[5.0, 6.0]), &env).unwrap();
    assert_eq!(a, grid(&[3, 2], &[1.0, 2.0, 3.0, 4.0, 5.0, 6.0]));
    let mut b = list(&[5.0, 6.0]);
    b.join(grid(&[2, 2], &[1.0, 2.0, 3.0, 4.0]), &env).unwrap();
    assert_eq!(b, grid(&[3, 2], &[5.0, 6.0, 1.0, 2.0, 3.0, 4.0]));
}

#[test]
fn join_boxes_cells_of_different_kinds() {
    let env = Env::new();
    let mut a = list(&[1.0, 2.0]);
    a.join(text("ab"), &env).unwrap();
    assert_eq!(a, boxes(vec![scalar(1.0), scalar(2.0), Value::Char('a'), Value::Char('b')]));
    let mut b = boxes(vec![scalar(1.0)]);
    b.join(list(&[2.0]), &env).unwrap();
    assert_eq!(b, list(&[1.0, 2.0]));
    let mut c = list(&[]);
    c.join(text("ab"), &env).unwrap();
    assert_eq!(c, text("ab"));
}

#[test]
fn join_checks_the_trailing_shapes() {
    let env = Env::new();
    let mut a = grid(&[2, 2], &[1.0, 2.0, 3.0, 4.0]);
    assert_eq!(kind(a.join(grid(&[1, 3], &[1.0, 2.0, 3.0]), &env)), ErrorKind::LengthMismatch);
    assert_eq!(a, grid(&[2, 2], &[1.0, 2.0, 3.0, 4.0]));
    let mut b = grid(&[2, 2], &[1.0, 2.0, 3.0, 4.0]);
    assert_eq!(kind(b.join(list(&[1.0, 2.0, 3.0]), &env)), ErrorKind::LengthMismatch);
    let mut c = grid(&[1, 1, 1], &[1.0]);
    assert_eq!(kind(c.join(list(&[1.0]), &env)), ErrorKind::LengthMismatch);
    let mut d = grid(&[usize::MAX, 0], &[]);
    assert_eq!(kind(d.join(grid(&[1, 0], &[]), &env)), ErrorKind::SizeOverflow);
}

#[test]
fn replicate_repeats_major_cells() {
    let env = Env::new();
    let mut f = list(&[2.0, 0.0, 3.0]);
    f.replicate(text("abc"), &env).unwrap();
    assert_eq!(f, text("aaccc"));
    let mut g = scalar(2.0);
    g.replicate(list(&[1.0, 2.0]), &env).unwrap();
    assert_eq!(g, list(&[1.0, 1.0, 2.0, 2.0]));
    let mut h = list(&[1.0, 2.0]);
    h.replicate(grid(&[2, 2], &[1.0, 2.0, 3.0, 4.0]), &env).unwrap();
    assert_eq!(h, grid(&[3, 2], &[1.0, 2.0, 3.0, 4.0, 3.0, 4.0]));
    let mut z = scalar(0.0);
    z.replicate(list(&[1.0, 2.0]), &env).unwrap();
    assert_eq!(z, boxes(vec![]));
    let mut m = list(&[1.0, 1.0]);
    m.replicate(boxes(vec![scalar(1.0), text("x")]), &env).unwrap();
    assert_eq!(m, boxes(vec![scalar(1.0), text("x")]));
}

#[test]
fn replicate_checks_its_filter() {
    let env = Env::new();
    let mut a = scalar(1.0);
    assert_eq!(kind(a.replicate(scalar(5.0), &env)), ErrorKind::TypeError);
    assert_eq!(a, scalar(1.0));
    let mut b = scalar(1.5);
    assert_eq!(kind(b.replicate(list(&[1.0]), &env)), ErrorKind::TypeError);
    let mut c = scalar(-1.0);
    assert_eq!(kind(c.replicate(list(&[1.0]), &env)), ErrorKind::TypeError);
    let mut d = list(&[1.0, 2.0]);
    assert_eq!(kind(d.replicate(list(&[1.0]), &env)), ErrorKind::LengthMismatch);
    let mut e = text("a");
    assert_eq!(kind(e.replicate(list(&[1.0]), &env)), ErrorKind::TypeError);
    let mut f = grid(&[1, 1], &[1.0]);
    assert_eq!(kind(f.replicate(list(&[1.0]), &env)), ErrorKind::TypeError);
    let mut g = list(&[1.0, -2.0]);
    assert_eq!(kind(g.replicate(list(&[1.0, 2.0]), &env)), ErrorKind::TypeError);
    let mut h = list(&[1.0, 0.5]);
    assert_eq!(kind(h.replicate(list(&[1.0, 2.0]), &env)), ErrorKind::TypeError);
    let mut i = Value::Char('a');
    assert_eq!(kind(i.replicate(list(&[1.0]), &env)), ErrorKind::TypeError);
    let mut j = list(&[1e30, 1e30]);
    assert_eq!(kind(j.replicate(list(&[1.0, 2.0]), &env)), ErrorKind::SizeOverflow);
}

#[test]
fn windows_slide_along_the_first_axis() {
    let env = Env::new();
    let mut s = list(&[2.0]);
    s.windows(list(&[1.0, 2.0, 3.0, 4.0]), &env).unwrap();
    assert_eq!(s, grid(&[3, 2], &[1.0, 2.0, 2.0, 3.0, 3.0, 4.0]));
    let mut t = scalar(4.0);
    t.windows(list(&[1.0, 2.0, 3.0, 4.0]), &env).unwrap();
    assert_eq!(t, grid(&[1, 4], &[1.0, 2.0, 3.0, 4.0]));
    let mut u = scalar(1.0);
    u.windows(text("abc"), &env).unwrap();
    assert_eq!(u, Value::Array(Array::from_chars(vec![3, 1], vec!['a', 'b', 'c']).unwrap()));
    let mut v = scalar(2.0);
    v.windows(grid(&[3, 2], &[1.0, 2.0, 3.0, 4.0, 5.0, 6.0]), &env).unwrap();
    assert_eq!(v, grid(&[2, 2, 2], &[1.0, 2.0, 3.0, 4.0, 3.0, 4.0, 5.0, 6.0]));
}

#[test]
fn windows_slide_along_two_axes() {
    let env = Env::new();
    let mut s = list(&[2.0, 2.0]);
    s.windows(grid(&[3, 3], &[1.0, 2.0, 3.0, 4.0, 5.0, 6.0, 7.0, 8.0, 9.0]), &env).unwrap();
    assert_eq!(
        s,
        grid(&[2, 2, 2, 2], &[1.0, 2.0, 4.0, 5.0, 2.0, 3.0, 5.0, 6.0, 4.0, 5.0, 7.0, 8.0, 5.0, 6.0, 8.0, 9.0])
    );
}

#[test]
fn windows_of_no_sizes_are_the_array() {
    let env = Env::new();
    let mut s = list(&[]);
    s.windows(list(&[1.0, 2.0]), &env).unwrap();
    assert_eq!(s, list(&[1.0, 2.0]));
}

#[test]
fn windows_check_their_sizes() {
    let env = Env::new();
    let mut s = scalar(4.0);
    assert_eq!(kind(s.windows(list(&[1.0, 2.0, 3.0]), &env)), ErrorKind::WindowTooLarge);
    assert_eq!(s, scalar(4.0));
    let mut t = scalar(0.0);
    assert_eq!(kind(t.windows(list(&[1.0, 2.0, 3.0]), &env)), ErrorKind::ShapeDecode);
    let mut u = list(&[1.0, 1.0]);
    assert_eq!(kind(u.windows(list(&[1.0, 2.0, 3.0]), &env)), ErrorKind::RankMismatch);
    let mut v = scalar(-1.0);
    assert_eq!(kind(v.windows(list(&[1.0, 2.0, 3.0]), &env)), ErrorKind::ShapeDecode);
    let mut w = scalar(1.0);
    assert_eq!(kind(w.windows(scalar(5.0), &env)), ErrorKind::RankMismatch);
}

#[test]
fn array_windows_kernel_gives_the_windows() {
    let env = Env::new();
    let a = Array::from_numbers(vec![3], vec![num(1.0), num(2.0), num(3.0)]).unwrap();
    let w = array_core::windows::array_windows(&vec![2], &a, &env).unwrap();
    assert_eq!(Value::Array(w), grid(&[2, 2], &[1.0, 2.0, 2.0, 3.0]));
}

#[test]
fn grade_lists_positions_in_sorted_order() {
    let env = Env::new();
    let mut a = list(&[30.0, 10.0, 20.0]);
    a.grade(&env).unwrap();
    assert_eq!(a, list(&[1.0, 2.0, 0.0]));
    let mut b = text("cab");
    b.grade(&env).unwrap();
    assert_eq!(b, list(&[1.0, 2.0, 0.0]));
    let mut c = grid(&[3, 2], &[2.0, 1.0, 1.0, 9.0, 1.0, 3.0]);
    c.grade(&env).unwrap();
    assert_eq!(c, list(&[2.0, 1.0, 0.0]));
    let mut d = boxes(vec![Value::Char('a'), scalar(1.0), list(&[0.0])]);
    d.grade(&env).unwrap();
    assert_eq!(d, list(&[1.0, 0.0, 2.0]));
    let mut e = list(&[]);
    e.grade(&env).unwrap();
    assert_eq!(e, list(&[]));
}

#[test]
fn grade_keeps_the_order_of_equal_cells() {
    let env = Env::new();
    let mut a = list(&[2.0, 1.0, 2.0, 1.0, 2.0, 1.0, 0.0]);
    a.grade(&env).unwrap();
    assert_eq!(a, list(&[6.0, 1.0, 3.0, 5.0, 0.0, 2.0, 4.0]));
    let mut b = grid(&[4, 0], &[]);
    b.grade(&env).unwrap();
    assert_eq!(b, list(&[0.0, 1.0, 2.0, 3.0]));
}

#[test]
fn grade_needs_an_axis() {
    let env = Env::new();
    let mut a = scalar(1.0);
    assert_eq!(kind(a.grade(&env)), ErrorKind::RankMismatch);
    assert_eq!(a, scalar(1.0));
    let mut b = Value::Array(Array::from_numbers(vec![], vec![num(4.0)]).unwrap());
    assert_eq!(kind(b.grade(&env)), ErrorKind::RankMismatch);
}

#[test]
fn sort_array_sorts_major_cells() {
    let mut data: Vec<Value> = [3.0, 1.0, 2.0].iter().map(|x| scalar(*x)).collect();
    array_core::sort::sort_array(&[3], &mut data);
    assert_eq!(data, vec![scalar(1.0), scalar(2.0), scalar(3.0)]);
    let mut rows: Vec<Value> = [3.0, 4.0, 1.0, 9.0, 1.0, 2.0].iter().map(|x| scalar(*x)).collect();
    array_core::sort::sort_array(&[3, 2], &mut rows);
    let want: Vec<Value> = [1.0, 2.0, 1.0, 9.0, 3.0, 4.0].iter().map(|x| scalar(*x)).collect();
    assert_eq!(rows, want);
    let mut one = vec![scalar(5.0)];
    array_core::sort::sort_array(&[], &mut one);
    assert_eq!(one, vec![scalar(5.0)]);
    let mut none: Vec<Value> = vec![];
    array_core::sort::sort_array(&[0], &mut none);
    assert!(none.is_empty());
}

#[test]
fn merge_sort_chunks_sorts_the_listed_cells() {
    let cells: Vec<Value> = [5.0, 3.0, 9.0, 3.0, 1.0].iter().map(|x| scalar(*x)).collect();
    assert_eq!(array_core::sort::merge_sort_chunks(&[5], &cells, 1, vec![4, 3, 2, 1, 0]), vec![4, 1, 3, 0, 2]);
    assert_eq!(array_core::sort::merge_sort_chunks(&[5], &cells, 1, vec![0, 2]), vec![0, 2]);
    assert_eq!(array_core::sort::merge_sort_chunks(&[5], &cells, 1, vec![]), Vec::<usize>::new());
    assert_eq!(array_core::sort::grade_chunks(&[5], &cells), vec![4, 1, 3, 0, 2]);
}

#[test]
fn classify_numbers_the_kinds_in_order_of_appearance() {
    let env = Env::new();
    let mut a = list(&[1.0, 2.0, 1.0, 3.0, 2.0]);
    a.classify(&env).unwrap();
    assert_eq!(a, list(&[0.0, 1.0, 0.0, 2.0, 1.0]));
    let mut b = text("abca");
    b.classify(&env).unwrap();
    assert_eq!(b, list(&[0.0, 1.0, 2.0, 0.0]));
    let mut c = grid(&[3, 2], &[1.0, 2.0, 3.0, 4.0, 1.0, 2.0]);
    c.classify(&env).unwrap();
    assert_eq!(c, list(&[0.0, 1.0, 0.0]));
    let mut d = list(&[]);
    d.classify(&env).unwrap();
    assert_eq!(d, list(&[]));
    let mut e = list(&[0.0, -0.0]);
    e.classify(&env).unwrap();
    assert_eq!(e, list(&[0.0, 1.0]));
}

#[test]
fn classify_needs_an_axis() {
    let env = Env::new();
    let mut a = scalar(1.0);
    assert_eq!(kind(a.classify(&env)), ErrorKind::RankMismatch);
    assert_eq!(a, scalar(1.0));
    let mut b = Value::Array(Array::from_numbers(vec![], vec![num(4.0)]).unwrap());
    assert_eq!(kind(b.classify(&env)), ErrorKind::RankMismatch);
}

#[test]
fn member_marks_the_cells_that_occur() {
    let mut a = list(&[1.0, 2.0, 3.0, 4.0]);
    a.member(list(&[2.0, 4.0]));
    assert_eq!(a, list(&[0.0, 1.0, 0.0, 1.0]));
    let mut b = scalar(2.0);
    b.member(list(&[1.0, 2.0]));
    assert_eq!(b, Value::Array(Array::from_numbers(vec![], vec![num(1.0)]).unwrap()));
    let mut c = grid(&[2, 2], &[1.0, 5.0, 5.0, 2.0]);
    c.member(scalar(5.0));
    assert_eq!(c, grid(&[2, 2], &[0.0, 1.0, 1.0, 0.0]));
    let mut d = boxes(vec![list(&[1.0, 2.0]), list(&[9.0, 9.0]), scalar(1.0)]);
    d.member(grid(&[2, 2], &[1.0, 2.0, 3.0, 4.0]));
    assert_eq!(d, list(&[1.0, 0.0, 0.0]));
    let mut e = text("hello");
    e.member(text("lo"));
    assert_eq!(e, list(&[0.0, 0.0, 1.0, 1.0, 1.0]));
    let mut f = list(&[1.0]);
    f.member(list(&[]));
    assert_eq!(f, list(&[0.0]));
}

#[test]
fn normalize_stores_cells_of_one_kind_unboxed() {
    let boxed = Array::new(vec![2], vec![scalar(1.0), scalar(2.0)]).unwrap();
    assert_eq!(boxed.ty(), ArrayType::Value);
    assert_eq!(Value::Array(boxed.normalized(0)), list(&[1.0, 2.0]));
    let letters = Array::new(vec![2], vec![Value::Char('a'), Value::Char('b')]).unwrap();
    assert_eq!(Value::Array(letters.normalized(1)), text("ab"));
    let mixed = Array::new(vec![2], vec![scalar(1.0), Value::Char('b')]).unwrap();
    assert_eq!(mixed.normalized(1).ty(), ArrayType::Value);
    let empty = Array::new(vec![0], vec![]).unwrap();
    assert_eq!(empty.normalized(1).ty(), ArrayType::Value);
}

#[test]
fn normalize_folds_uniform_arrays_at_depth_one() {
    let rows = || Array::list(vec![list(&[1.0, 2.0]), list(&[3.0, 4.0]), list(&[5.0, 6.0])]);
    assert_eq!(Value::Array(rows().normalized(1)), grid(&[3, 2], &[1.0, 2.0, 3.0, 4.0, 5.0, 6.0]));
    assert_eq!(Value::Array(rows().normalized(0)), Value::Array(rows()));
    let ragged = || Array::list(vec![list(&[1.0, 2.0]), list(&[3.0])]);
    assert_eq!(Value::Array(ragged().normalized(1)), Value::Array(ragged()));
    let kinds = || Array::list(vec![list(&[1.0]), text("a")]);
    assert_eq!(Value::Array(kinds().normalized(1)), Value::Array(kinds()));
    let mut a = rows();
    a.normalize(1);
    assert_eq!(a.shape(), &vec![3, 2]);
    let deep = Array::list(vec![grid(&[1, 2], &[1.0, 2.0]), grid(&[1, 2], &[3.0, 4.0])]);
    assert_eq!(Value::Array(deep.normalized(1)), grid(&[2, 1, 2], &[1.0, 2.0, 3.0, 4.0]));
}

#[test]
fn constructors_check_the_count_of_cells() {
    assert!(Array::from_numbers(vec![2, 2], vec![num(1.0)]).is_none());
    assert!(Array::from_chars(vec![3], vec!['a']).is_none());
    assert!(Array::new(vec![1], vec![]).is_none());
    assert!(Array::new(vec![usize::MAX, 2], vec![]).is_none());
    assert!(Array::new(vec![usize::MAX, 0], vec![]).is_some());
    assert!(Array::from_numbers(vec![], vec![num(1.0)]).is_some());
}

#[test]
fn len_rank_and_shape_describe_a_value() {
    let m = grid(&[2, 3], &[1.0, 2.0, 3.0, 4.0, 5.0, 6.0]);
    assert_eq!(m.len(), 2);
    assert_eq!(m.rank(), 2);
    assert_eq!(m.shape(), vec![2, 3]);
    assert_eq!(scalar(1.0).len(), 1);
    assert_eq!(scalar(1.0).rank(), 0);
    assert_eq!(scalar(1.0).shape(), Vec::<usize>::new());
    let rank0 = Value::Array(Array::from_numbers(vec![], vec![num(4.0)]).unwrap());
    assert_eq!(rank0.len(), 1);
    assert_eq!(rank0.rank(), 0);
    assert_eq!(list(&[]).len(), 0);
    assert_eq!(m.ty(), Type::Array);
    assert_eq!(scalar(1.0).ty(), Type::Num);
    assert_eq!(Value::Char('a').ty(), Type::Char);
    assert_eq!(function(1).ty(), Type::Function);
    assert!(m.is_array());
    assert!(scalar(1.0).is_num());
}

#[test]
fn coerce_array_boxes_a_scalar() {
    let mut a = scalar(5.0);
    {
        let arr = a.coerce_array();
        assert_eq!(arr.rank(), 0);
        assert_eq!(arr.count(), 1);
        arr.normalize(1);
    }
    assert_eq!(a, Value::Array(Array::from_numbers(vec![], vec![num(5.0)]).unwrap()));
    let mut b = list(&[1.0]);
    b.coerce_array();
    assert_eq!(b, list(&[1.0]));
    assert_eq!(Value::Array(function(1).coerce_into_array()), Value::Array(Array::new(vec![], vec![function(1)]).unwrap()));
    assert_eq!(Value::Array(text("a").coerce_into_array()), text("a"));
}

#[test]
fn major_cells_are_cells_or_subarrays() {
    let m = Array::from_numbers(vec![2, 2], vec![num(1.0), num(2.0), num(3.0), num(4.0)]).unwrap();
    assert_eq!(m.major_cell(1), list(&[3.0, 4.0]));
    assert_eq!(m.stride(), 2);
    let l = Array::from_numbers(vec![2], vec![num(1.0), num(2.0)]).unwrap();
    assert_eq!(l.major_cell(0), scalar(1.0));
}

#[test]
fn clones_are_deep_copies() {
    let a = boxes(vec![scalar(1.0), list(&[2.0, 3.0]), text("x")]);
    let b = a.clone();
    assert_eq!(a, b);
    let mut c = scalar(1.0);
    assert_eq!(c.take_value(), scalar(1.0));
    assert_eq!(c, scalar(0.0));
}

#[test]
fn env_issues_errors_of_a_kind() {
    let env = Env::new();
    let e = env.error(ErrorKind::TypeError, "wrong kind");
    assert_eq!(e.kind, ErrorKind::TypeError);
    assert_eq!(e.message, "wrong kind");
}
