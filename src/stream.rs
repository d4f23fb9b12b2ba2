//! Byte streams that the codec reads from and writes to.
use vstd::prelude::*;

verus! {

#[verifier::external_type_specification]
#[verifier::external_body]
pub struct ExIoError(std::io::Error);

/// Relies on `std::io::Error::from(ErrorKind::UnexpectedEof)`: the error of a
/// source that ended.
#[verifier::external_body]
fn unexpected_eof() -> std::io::Error {
    std::io::Error::from(std::io::ErrorKind::UnexpectedEof)
}

/// Relies on `std::io::Error::from(ErrorKind::WriteZero)`: the error of a sink
/// that takes no more bytes.
#[verifier::external_body]
fn write_zero() -> std::io::Error {
    std::io::Error::from(std::io::ErrorKind::WriteZero)
}

/// A source of bytes, read one at a time.
pub trait ByteSource {
    /// The bytes that the source will hand out, in order, before it fails.
    spec fn pending(&self) -> Seq<u8>;

    /// Takes the next byte, or fails when none is left.
    fn read_byte(&mut self) -> (r: Result<u8, std::io::Error>)
        ensures
            old(self).pending().len() > 0 ==> r == Ok::<u8, std::io::Error>(old(self).pending()[0])
                && final(self).pending() == old(self).pending().drop_first(),
            old(self).pending().len() == 0 ==> r is Err && final(self).pending() == old(
                self,
            ).pending(),
    ;
}

/// A sink of bytes, written one at a time.
pub trait ByteSink {
    /// The bytes that the sink holds.
    spec fn written(&self) -> Seq<u8>;

    /// How many more bytes the sink takes before it fails.
    spec fn room(&self) -> nat;

    /// Appends one byte, or fails when there is no room left.
    fn write_byte(&mut self, byte: u8) -> (r: Result<(), std::io::Error>)
        ensures
            old(self).room() > 0 ==> r is Ok && final(self).written() == old(self).written().push(
                byte,
            ) && final(self).room() == old(self).room() - 1,
            old(self).room() == 0 ==> r is Err && final(self).written() == old(self).written()
                && final(self).room() == 0,
    ;
}

/// A slice reads from its front; each read moves the slice past the byte.
impl<'a> ByteSource for &'a [u8] {
    open spec fn pending(&self) -> Seq<u8> {
        (**self)@
    }

    fn read_byte(&mut self) -> (r: Result<u8, std::io::Error>) {
        if self.len() == 0 {
            return Err(unexpected_eof());
        }
        let (head, tail) = self.split_at(1);
        *self = tail;
        Ok(head[0])
    }
}

/// A vector grows with each write, up to the largest length it can count.
impl ByteSink for Vec<u8> {
    open spec fn written(&self) -> Seq<u8> {
        self@
    }

    open spec fn room(&self) -> nat {
        (usize::MAX - self@.len()) as nat
    }

    fn write_byte(&mut self, byte: u8) -> (r: Result<(), std::io::Error>) {
        if self.len() == usize::MAX {
            return Err(write_zero());
        }
        self.push(byte);
        Ok(())
    }
}

/// A buffer of fixed capacity that fills from the front.
pub struct FixedBuf {
    bytes: Vec<u8>,
    capacity: usize,
}

impl FixedBuf {
    /// The bytes written so far.
    pub closed spec fn contents(&self) -> Seq<u8> {
        self.bytes@
    }

    /// The number of bytes the buffer holds when full.
    pub closed spec fn capacity(&self) -> nat {
        self.capacity as nat
    }

    /// An empty buffer with room for `capacity` bytes.
    pub fn new(capacity: usize) -> (r: FixedBuf)
        ensures
            r.contents() == Seq::<u8>::empty(),
            r.capacity() == capacity,
    {
        FixedBuf { bytes: Vec::new(), capacity }
    }

    /// The bytes written so far.
    pub fn as_slice(&self) -> (r: &[u8])
        ensures
            r@ == self.contents(),
    {
        self.bytes.as_slice()
    }
}

impl ByteSink for FixedBuf {
    open spec fn written(&self) -> Seq<u8> {
        self.contents()
    }

    open spec fn room(&self) -> nat {
        if self.contents().len() < self.capacity() {
            (self.capacity() - self.contents().len()) as nat
        } else {
            0
        }
    }

    fn write_byte(&mut self, byte: u8) -> (r: Result<(), std::io::Error>) {
        if self.bytes.len() >= self.capacity {
            return Err(write_zero());
        }
        self.bytes.push(byte);
        Ok(())
    }
}

} // verus!
