//! Decoding of values that stand for lists of extents, indices or counts.

use vstd::prelude::*;
use crate::error::{Env, ErrorKind, RuntimeError};
use crate::number::Number;
use crate::value::{Array, ArrayType, Value, ValueView, views};

verus! {

/// The numbers held by cells that are all numbers.
pub open spec fn numbers_of(cells: Seq<ValueView>) -> Seq<Number> {
    Seq::new(cells.len(), |i: int| cells[i]->Num_0)
}

impl ValueView {
    /// The list of numbers that the value stands for: a number stands for
    /// the list of itself, an array of numbers of rank 0 or 1 for its
    /// cells, an array of shape `[0]` for the empty list. Nothing else
    /// stands for a list.
    pub open spec fn number_list(self) -> Option<Seq<Number>> {
        match self {
            ValueView::Num(n) => Some(seq![n]),
            ValueView::Array(a) => if a.shape == seq![0usize] {
                Some(Seq::empty())
            } else if a.ty == ArrayType::Num && a.shape.len() <= 1 {
                Some(numbers_of(a.cells))
            } else {
                None
            },
            _ => None,
        }
    }

    /// The list of extents that the value stands for: every number of the
    /// list must be within 2^-52 of a positive whole number.
    pub open spec fn decode_shape(self) -> Option<Seq<usize>> {
        match self.number_list() {
            Some(ns) => if forall|i: int| 0 <= i < ns.len() ==> (#[trigger] ns[i]).as_extent() is Some {
                Some(Seq::new(ns.len(), |i: int| ns[i].as_extent()->0))
            } else {
                None
            },
            None => None,
        }
    }

    /// The list of signed indices that the value stands for: every number
    /// of the list must be whole.
    pub open spec fn decode_indices(self) -> Option<Seq<isize>> {
        match self.number_list() {
            Some(ns) => if forall|i: int| 0 <= i < ns.len() ==> (#[trigger] ns[i]).as_index() is Some {
                Some(Seq::new(ns.len(), |i: int| ns[i].as_index()->0))
            } else {
                None
            },
            None => None,
        }
    }

    /// The list of counts that the value stands for: every number of the
    /// list must be whole and not negative.
    pub open spec fn decode_positives(self) -> Option<Seq<usize>> {
        match self.number_list() {
            Some(ns) => if forall|i: int| 0 <= i < ns.len() ==> (#[trigger] ns[i]).as_count() is Some {
                Some(Seq::new(ns.len(), |i: int| ns[i].as_count()->0))
            } else {
                None
            },
            None => None,
        }
    }
}

/// What a decoder returns: the decoded list, or a `ShapeDecode` error
/// with the caller's message.
pub open spec fn decoded<T>(
    r: Result<Vec<T>, RuntimeError>,
    expected: Option<Seq<T>>,
    message: &'static str,
) -> bool {
    match expected {
        Some(s) => r is Ok && r->Ok_0@ == s,
        None => r is Err && r->Err_0.kind == ErrorKind::ShapeDecode && r->Err_0.message == message,
    }
}

impl Value {
    /// The list of numbers that the value stands for.
    pub fn as_number_list(&self) -> (r: Option<Vec<Number>>)
        requires
            self@.wf(),
        ensures
            match self@.number_list() {
                Some(ns) => r is Some && r->0@ == ns,
                None => r is None,
            },
    {
        match self {
            Value::Num(n) => {
                let mut out: Vec<Number> = Vec::new();
                out.push(*n);
                assert(out@ =~= seq![*n]);
                Some(out)
            },
            Value::Array(a) => {
                let shape = a.shape();
                if shape.len() == 1 && shape[0] == 0 {
                    assert(shape@ =~= seq![0usize]);
                    let out: Vec<Number> = Vec::new();
                    assert(out@ =~= Seq::<Number>::empty());
                    return Some(out);
                }
                assert(a@.shape != seq![0usize]) by {
                    if a@.shape == seq![0usize] {
                        assert(seq![0usize].len() == 1);
                        assert(seq![0usize][0] == 0);
                    }
                }
                if !a.is_numbers() || shape.len() > 1 {
                    return None;
                }
                let cells = a.cells();
                let mut out: Vec<Number> = Vec::new();
                let mut i: usize = 0;
                while i < cells.len()
                    invariant
                        i <= cells@.len(),
                        views(cells@) == a@.cells,
                        a@.wf(),
                        a@.ty == ArrayType::Num,
                        out@.len() == i,
                        forall|k: int| 0 <= k < i ==> #[trigger] out@[k] == a@.cells[k]->Num_0,
                    decreases cells@.len() - i,
                {
                    assert(views(cells@)[i as int] == cells@[i as int]@);
                    assert(a@.cells[i as int] is Num);
                    match &cells[i] {
                        Value::Num(n) => {
                            out.push(*n);
                        },
                        _ => {
                            assert(false);
                        },
                    }
                    i += 1;
                }
                assert(out@ =~= numbers_of(a@.cells));
                Some(out)
            },
            _ => None,
        }
    }

    /// Decodes the value as a list of extents. Fails with `error` as the
    /// message.
    pub fn as_shape(&self, env: &Env, error: &'static str) -> (r: Result<Vec<usize>, RuntimeError>)
        requires
            self@.wf(),
        ensures
            decoded(r, self@.decode_shape(), error),
    {
        match self.as_number_list() {
            Some(numbers) => {
                let mut out: Vec<usize> = Vec::new();
                let mut i: usize = 0;
                assert(self@.number_list() == Some(numbers@));
                while i < numbers.len()
                    invariant
                        i <= numbers@.len(),
                        self@.number_list() == Some(numbers@),
                        out@.len() == i,
                        forall|k: int|
                            0 <= k < i ==> (#[trigger] numbers@[k]).as_extent() == Some(out@[k]),
                    decreases numbers@.len() - i,
                {
                    match numbers[i].to_extent() {
                        Some(n) => {
                            out.push(n);
                        },
                        None => {
                            assert(numbers@[i as int].as_extent() is None);
                            return Err(env.error(ErrorKind::ShapeDecode, error));
                        },
                    }
                    i += 1;
                }
                assert(out@ =~= self@.decode_shape()->0);
                Ok(out)
            },
            None => Err(env.error(ErrorKind::ShapeDecode, error)),
        }
    }

    /// Decodes the value as a list of signed indices. Fails with `error`
    /// as the message.
    pub fn as_indices(&self, env: &Env, error: &'static str) -> (r: Result<Vec<isize>, RuntimeError>)
        requires
            self@.wf(),
        ensures
            decoded(r, self@.decode_indices(), error),
    {
        match self.as_number_list() {
            Some(numbers) => {
                let mut out: Vec<isize> = Vec::new();
                let mut i: usize = 0;
                assert(self@.number_list() == Some(numbers@));
                while i < numbers.len()
                    invariant
                        i <= numbers@.len(),
                        self@.number_list() == Some(numbers@),
                        out@.len() == i,
                        forall|k: int|
                            0 <= k < i ==> (#[trigger] numbers@[k]).as_index() == Some(out@[k]),
                    decreases numbers@.len() - i,
                {
                    match numbers[i].to_index() {
                        Some(n) => {
                            out.push(n);
                        },
                        None => {
                            assert(numbers@[i as int].as_index() is None);
                            return Err(env.error(ErrorKind::ShapeDecode, error));
                        },
                    }
                    i += 1;
                }
                assert(out@ =~= self@.decode_indices()->0);
                Ok(out)
            },
            None => Err(env.error(ErrorKind::ShapeDecode, error)),
        }
    }

    /// Decodes the value as a list of counts. Fails with `error` as the
    /// message.
    pub fn as_positives(&self, env: &Env, error: &'static str) -> (r: Result<
        Vec<usize>,
        RuntimeError,
    >)
        requires
            self@.wf(),
        ensures
            decoded(r, self@.decode_positives(), error),
    {
        match self.as_number_list() {
            Some(numbers) => {
                let mut out: Vec<usize> = Vec::new();
                let mut i: usize = 0;
                assert(self@.number_list() == Some(numbers@));
                while i < numbers.len()
                    invariant
                        i <= numbers@.len(),
                        self@.number_list() == Some(numbers@),
                        out@.len() == i,
                        forall|k: int|
                            0 <= k < i ==> (#[trigger] numbers@[k]).as_count() == Some(out@[k]),
                    decreases numbers@.len() - i,
                {
                    match numbers[i].to_count() {
                        Some(n) => {
                            out.push(n);
                        },
                        None => {
                            assert(numbers@[i as int].as_count() is None);
                            return Err(env.error(ErrorKind::ShapeDecode, error));
                        },
                    }
                    i += 1;
                }
                assert(out@ =~= self@.decode_positives()->0);
                Ok(out)
            },
            None => Err(env.error(ErrorKind::ShapeDecode, error)),
        }
    }
}

} // verus!
