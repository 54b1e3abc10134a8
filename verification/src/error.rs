//! The single fallible channel of the array core.

use vstd::prelude::*;

verus! {

/// Why a verb failed.
#[derive(Clone, Copy, Debug, PartialEq, Eq, Structural)]
pub enum ErrorKind {
    /// An argument does not decode as a list of extents, indices or counts.
    ShapeDecode,
    /// An index list is longer than the rank, or the operand has rank 0.
    RankMismatch,
    /// Two lengths or two trailing shapes that must agree differ.
    LengthMismatch,
    /// An index lies outside its axis.
    IndexOutOfRange,
    /// A window is longer than its axis.
    WindowTooLarge,
    /// The first cell of an empty array was asked for.
    EmptyHasNoFirst,
    /// A fill value was needed where none exists.
    NoFillValue,
    /// An operand has the wrong kind.
    TypeError,
    /// The result would hold more cells than can be counted or numbered.
    SizeOverflow,
}

/// An error: its cause and a message for the reader.
#[derive(Clone, Copy, Debug)]
pub struct RuntimeError {
    pub kind: ErrorKind,
    pub message: &'static str,
}

/// What a verb returns: nothing, or an error.
pub type RuntimeResult = Result<(), RuntimeError>;

/// The issuer of errors. It holds no state that the array core reads.
#[derive(Clone, Copy, Debug)]
pub struct Env {}

impl Env {
    /// A fresh issuer.
    pub fn new() -> (env: Env) {
        Env {  }
    }

    /// An error of the given kind with the given message.
    pub fn error(&self, kind: ErrorKind, message: &'static str) -> (e: RuntimeError)
        ensures
            e.kind == kind,
            e.message == message,
    {
        RuntimeError { kind, message }
    }
}

/// How a verb that rewrites its receiver relates to what it is specified to
/// compute: on success the receiver holds the expected value, on failure
/// the error has the expected kind and the receiver is as before.
pub open spec fn settles<V>(
    before: V,
    after: V,
    r: Result<(), RuntimeError>,
    expected: Result<V, ErrorKind>,
) -> bool {
    match expected {
        Ok(v) => r is Ok && after == v,
        Err(k) => r is Err && r->Err_0.kind == k && after == before,
    }
}

} // verus!
