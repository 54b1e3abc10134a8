use array_core::error::Env;
use array_core::number::{Comparison, Number};
use array_core::value::{Array, Value};

fn num(x: f64) -> Number {
    Number::from_bits(x.to_bits()).unwrap()
}

fn scalar(x: f64) -> Value {
    Value::Num(num(x))
}

fn list(xs: &[f64]) -> Value {
    Value::Array(Array::from_numbers(vec![xs.len()], xs.iter().map(|x| num(*x)).collect()).unwrap())
}

fn grid(shape: &[usize], xs: &[f64]) -> Value {
    Value::Array(Array::from_numbers(shape.to_vec(), xs.iter().map(|x| num(*x)).collect()).unwrap())
}

fn text(s: &str) -> Value {
    Value::Array(Array::from_chars(vec![s.chars().count()], s.chars().collect()).unwrap())
}

fn boxes(cells: Vec<Value>) -> Value {
    Value::Array(Array::list(cells))
}

fn counting(shape: &[usize]) -> Value {
    let n: usize = shape.iter().product();
    let xs: Vec<f64> = (0..n).map(|i| i as f64).collect();
    grid(shape, &xs)
}

fn shape_value(v: &Value) -> Value {
    let xs: Vec<f64> = v.shape().iter().map(|s| *s as f64).collect();
    list(&xs)
}

fn samples() -> Vec<Value> {
    vec![
        list(&[]),
        list(&[7.0]),
        list(&[3.0, 1.0, 2.0]),
        text("hello"),
        counting(&[2, 3]),
        counting(&[3, 2]),
        counting(&[2, 3, 4]),
        counting(&[1, 5]),
        counting(&[4, 1]),
        boxes(vec![scalar(1.0), text("ab"), list(&[1.0, 2.0])]),
        Value::Array(Array::new(vec![2, 2], vec![scalar(1.0), Value::Char('a'), scalar(2.0), Value::Char('b')]).unwrap()),
    ]
}

fn rectangular(v: &Value) -> bool {
    match v {
        Value::Array(a) => {
            a.count() == a.shape().iter().product::<usize>() && a.cells().iter().all(rectangular)
        }
        _ => true,
    }
}

#[test]
fn shapes_agree_with_storage_after_every_verb() {
    let env = Env::new();
    for a in samples() {
        assert!(rectangular(&a));
        let mut r = a.clone();
        r.reverse();
        assert!(rectangular(&r));
        let mut t = a.clone();
        t.transpose();
        assert!(rectangular(&t));
        let mut d = a.clone();
        d.deshape();
        assert!(rectangular(&d));
        let mut e = a.clone();
        e.enclose();
        assert!(rectangular(&e));
        let mut p = a.clone();
        p.pair(a.clone());
        assert!(rectangular(&p));
        let mut c = a.clone();
        c.couple(a.clone(), &env).unwrap();
        assert!(rectangular(&c));
        let mut j = a.clone();
        j.join(a.clone(), &env).unwrap();
        assert!(rectangular(&j));
        let mut k = scalar(5.0);
        k.take(a.clone(), &env).unwrap();
        assert!(rectangular(&k));
        let mut w = scalar(1.0);
        if a.len() > 0 {
            w.windows(a.clone(), &env).unwrap();
            assert!(rectangular(&w));
        }
        let mut g = a.clone();
        g.grade(&env).unwrap();
        assert!(rectangular(&g));
        let mut m = a.clone();
        m.member(a.clone());
        assert!(rectangular(&m));
        let mut s = list(&[2.0, 3.0]);
        s.reshape(a.clone(), &env).ok();
        assert!(rectangular(&s));
    }
}

#[test]
fn reshape_to_the_own_shape_is_the_identity() {
    let env = Env::new();
    for a in samples() {
        if a.shape().iter().any(|s| *s == 0) {
            continue;
        }
        let mut s = shape_value(&a);
        s.reshape(a.clone(), &env).unwrap();
        assert_eq!(s, a);
    }
}

#[test]
fn reverse_twice_is_the_identity() {
    for a in samples() {
        let mut r = a.clone();
        r.reverse();
        r.reverse();
        assert_eq!(r, a);
    }
    let mut s = scalar(3.0);
    s.reverse();
    s.reverse();
    assert_eq!(s, scalar(3.0));
}

#[test]
fn transpose_as_often_as_the_rank_is_the_identity() {
    for a in samples() {
        if a.shape().iter().skip(1).any(|s| *s == 0) {
            continue;
        }
        let mut t = a.clone();
        for _ in 0..a.rank() {
            t.transpose();
        }
        assert_eq!(t, a);
    }
    let mut square = counting(&[3, 3]);
    square.transpose();
    assert_ne!(square, counting(&[3, 3]));
    square.transpose();
    assert_eq!(square, counting(&[3, 3]));
}

#[test]
fn transpose_gets_stuck_on_a_zero_extent_behind_the_first() {
    let mut a = grid(&[3, 0], &[]);
    a.transpose();
    a.transpose();
    assert_eq!(a, grid(&[0, 3], &[]));
}

#[test]
fn rotate_back_is_the_identity() {
    let env = Env::new();
    let offsets: Vec<Vec<f64>> = vec![vec![], vec![1.0], vec![-2.0], vec![7.0], vec![1.0, 2.0], vec![-1.0, 5.0, 3.0], vec![0.0, 0.0, -1.0, 9.0]];
    for a in samples() {
        for o in &offsets {
            let mut there = list(o);
            there.rotate(a.clone(), &env).unwrap();
            let negated: Vec<f64> = o.iter().map(|x| -x).collect();
            let mut back = list(&negated);
            back.rotate(there, &env).unwrap();
            assert_eq!(back, a);
        }
    }
}

#[test]
fn take_all_and_drop_none_are_the_identity() {
    let env = Env::new();
    for a in samples() {
        let mut t = scalar(a.len() as f64);
        t.take(a.clone(), &env).unwrap();
        assert_eq!(t, a);
        let mut u = scalar(-(a.len() as f64));
        u.take(a.clone(), &env).unwrap();
        assert_eq!(u, a);
        let mut d = scalar(0.0);
        d.drop(a.clone(), &env).unwrap();
        assert_eq!(d, a);
    }
}

#[test]
fn take_all_normalizes_what_was_not_normal() {
    let env = Env::new();
    let boxed = Value::Array(Array::new(vec![2], vec![scalar(1.0), scalar(2.0)]).unwrap());
    let mut t = scalar(2.0);
    t.take(boxed, &env).unwrap();
    assert_eq!(t, list(&[1.0, 2.0]));
}

#[test]
fn range_of_n_is_the_list_of_the_first_n_numbers() {
    let env = Env::new();
    for n in [1usize, 2, 5, 17, 100] {
        let mut v = scalar(n as f64);
        v.range(&env).unwrap();
        assert_eq!(v.shape(), vec![n]);
        let want: Vec<f64> = (0..n).map(|i| i as f64).collect();
        assert_eq!(v, list(&want));
    }
}

#[test]
fn classes_appear_in_ascending_order() {
    let env = Env::new();
    let mut a = list(&[5.0, 5.0, 3.0, 5.0, 1.0, 3.0, 9.0, 1.0]);
    a.classify(&env).unwrap();
    assert_eq!(a, list(&[0.0, 0.0, 1.0, 0.0, 2.0, 1.0, 3.0, 2.0]));
    for s in samples() {
        let n = s.len();
        let mut c = s.clone();
        c.classify(&env).unwrap();
        let classes: Vec<usize> = match &c {
            Value::Array(arr) => arr.cells().iter().map(|v| match v {
                Value::Num(x) => x.to_usize(),
                _ => panic!("not a number"),
            }).collect(),
            _ => panic!("not an array"),
        };
        assert_eq!(classes.len(), n);
        let mut seen = 0;
        for class in classes {
            assert!(class <= seen);
            if class == seen {
                seen += 1;
            }
        }
    }
}

#[test]
fn grade_is_a_permutation_and_select_sorts_by_it() {
    let env = Env::new();
    let mut more = samples();
    more.push(list(&[30.0, 10.0, 20.0, 10.0]));
    more.push(grid(&[4, 2], &[2.0, 2.0, 1.0, 5.0, 2.0, 1.0, 1.0, 5.0]));
    for a in more {
        let n = a.len();
        let mut g = a.clone();
        g.grade(&env).unwrap();
        let order = g.as_positives(&env, "grade").unwrap();
        let mut sorted = order.clone();
        sorted.sort();
        assert_eq!(sorted, (0..n).collect::<Vec<usize>>());
        let cells: Vec<Value> = match &a {
            Value::Array(arr) => (0..n).map(|i| arr.major_cell(i)).collect(),
            _ => panic!("not an array"),
        };
        for i in 1..n {
            let c = cells[order[i - 1]].compare(&cells[order[i]]);
            assert_ne!(c, Comparison::Greater);
            if c == Comparison::Equal {
                assert!(order[i - 1] < order[i]);
            }
        }
        let mut s = g.clone();
        s.select(a.clone(), &env).unwrap();
        let picked: Vec<Value> = match &s {
            Value::Array(arr) => (0..arr.len()).map(|i| arr.major_cell(i)).collect(),
            _ => panic!("not an array"),
        };
        assert_eq!(picked.len(), n);
        for i in 1..n {
            assert_ne!(picked[i - 1].compare(&picked[i]), Comparison::Greater);
        }
    }
    let mut g = list(&[30.0, 10.0, 20.0, 10.0]);
    g.grade(&env).unwrap();
    assert_eq!(g, list(&[1.0, 3.0, 2.0, 0.0]));
    g.select(list(&[30.0, 10.0, 20.0, 10.0]), &env).unwrap();
    assert_eq!(g, list(&[10.0, 10.0, 20.0, 30.0]));
}

#[test]
fn join_is_associative() {
    let env = Env::new();
    let triples = vec![
        (list(&[1.0]), list(&[2.0, 3.0]), list(&[4.0])),
        (text("a"), list(&[1.0]), list(&[2.0])),
        (list(&[]), text("ab"), text("c")),
        (list(&[]), list(&[]), text("")),
        (scalar(1.0), scalar(2.0), scalar(3.0)),
        (counting(&[1, 2]), counting(&[2, 2]), counting(&[3, 2])),
        (boxes(vec![scalar(1.0)]), list(&[2.0]), text("z")),
        (text("x"), boxes(vec![list(&[1.0])]), list(&[2.0])),
    ];
    for (a, b, c) in triples {
        let mut left = a.clone();
        left.join(b.clone(), &env).unwrap();
        left.join(c.clone(), &env).unwrap();
        let mut tail = b.clone();
        tail.join(c.clone(), &env).unwrap();
        let mut right = a.clone();
        right.join(tail, &env).unwrap();
        assert_eq!(left, right);
    }
    let mut plain = list(&[1.0]);
    plain.join(list(&[2.0, 3.0]), &env).unwrap();
    plain.join(list(&[4.0]), &env).unwrap();
    assert_eq!(plain, list(&[1.0, 2.0, 3.0, 4.0]));
}

#[test]
fn values_compare_as_a_total_order() {
    let mut all = samples();
    all.push(scalar(1.0));
    all.push(scalar(-0.0));
    all.push(scalar(0.0));
    all.push(Value::Char('a'));
    for a in &all {
        assert_eq!(a.compare(a), Comparison::Equal);
        for b in &all {
            let ab = a.compare(b);
            let ba = b.compare(a);
            match ab {
                Comparison::Less => assert_eq!(ba, Comparison::Greater),
                Comparison::Equal => assert_eq!(ba, Comparison::Equal),
                Comparison::Greater => assert_eq!(ba, Comparison::Less),
            }
            for c in &all {
                if ab != Comparison::Greater && b.compare(c) != Comparison::Greater {
                    assert_ne!(a.compare(c), Comparison::Greater);
                }
            }
        }
    }
}
