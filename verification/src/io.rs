//! Port-style register access: a reader/writer capability over one
//! hardware register, and wrappers that restrict it to one direction.

use vstd::prelude::*;

verus! {

/// One hardware register or port: a value that can be read and written.
///
/// Implementations live at the machine boundary (memory-mapped registers,
/// port I/O), so nothing is promised about the values they produce.
pub trait Io {
    type Value: Copy + PartialEq;

    fn read(&self) -> Self::Value;

    fn write(&mut self, value: Self::Value);
}

/// A register restricted to reading.
pub struct ReadOnly<I> {
    pub inner: I,
}

impl<I> ReadOnly<I> {
    /// Wraps a register so only its read side is reachable.
    pub fn new(inner: I) -> (r: ReadOnly<I>)
        ensures
            r.inner == inner,
    {
        ReadOnly { inner }
    }
}

impl<I: Io> ReadOnly<I> {
    /// Reads the wrapped register.
    pub fn read(&self) -> I::Value {
        self.inner.read()
    }
}

/// A register restricted to writing.
pub struct WriteOnly<I> {
    pub inner: I,
}

impl<I> WriteOnly<I> {
    /// Wraps a register so only its write side is reachable.
    pub fn new(inner: I) -> (r: WriteOnly<I>)
        ensures
            r.inner == inner,
    {
        WriteOnly { inner }
    }
}

impl<I: Io> WriteOnly<I> {
    /// Writes to the wrapped register.
    pub fn write(&mut self, value: I::Value) {
        self.inner.write(value);
    }
}

} // verus!
