//! The byte buffer that frames are parsed from and encoded into.
use bytes::BytesMut;
use vstd::prelude::*;

verus! {

/// `bytes::BytesMut`, a growable sequence of bytes.
#[verifier::external_type_specification]
#[verifier::external_body]
pub struct ExBytesMut(bytes::BytesMut);

/// The bytes that a `BytesMut` holds.
pub uninterp spec fn buffered(b: BytesMut) -> Seq<u8>;

/// `BytesMut::new`: an empty buffer.
#[verifier::external_body]
fn bytes_new() -> (r: BytesMut)
    ensures
        buffered(r) == Seq::<u8>::empty(),
{
    BytesMut::new()
}

/// `BytesMut` as a slice: all its bytes, in order.
#[verifier::external_body]
fn bytes_slice(b: &BytesMut) -> (r: &[u8])
    ensures
        r@ == buffered(*b),
{
    b.as_ref()
}

/// `BytesMut::extend_from_slice`: the bytes follow those that are there.
#[verifier::external_body]
fn bytes_extend(b: &mut BytesMut, more: &[u8])
    ensures
        buffered(*final(b)) == buffered(*old(b)) + more@,
{
    b.extend_from_slice(more);
}

/// `Buf::advance` on a `BytesMut`: the first `n` bytes go. It panics where there
/// are fewer.
#[verifier::external_body]
fn bytes_advance(b: &mut BytesMut, n: usize)
    requires
        n <= buffered(*old(b)).len(),
    ensures
        buffered(*final(b)) == buffered(*old(b)).skip(n as int),
{
    bytes::Buf::advance(b, n);
}

/// `BytesMut::clear`: no byte is left.
#[verifier::external_body]
fn bytes_clear(b: &mut BytesMut)
    ensures
        buffered(*final(b)) == Seq::<u8>::empty(),
{
    b.clear();
}

/// A byte buffer: filled at its end, emptied from its front.
#[derive(Debug)]
pub struct Buffer {
    bytes: BytesMut,
}

impl View for Buffer {
    type V = Seq<u8>;

    closed spec fn view(&self) -> Seq<u8> {
        buffered(self.bytes)
    }
}

impl Buffer {
    /// An empty buffer.
    pub fn new() -> (b: Buffer)
        ensures
            b@ == Seq::<u8>::empty(),
    {
        Buffer { bytes: bytes_new() }
    }

    /// All bytes, in order.
    pub fn as_slice(&self) -> (r: &[u8])
        ensures
            r@ == self@,
    {
        bytes_slice(&self.bytes)
    }

    pub fn len(&self) -> (n: usize)
        ensures
            n == self@.len(),
    {
        self.as_slice().len()
    }

    pub fn is_empty(&self) -> (b: bool)
        ensures
            b == (self@.len() == 0),
    {
        self.len() == 0
    }

    /// Appends bytes.
    pub fn extend_from_slice(&mut self, more: &[u8])
        ensures
            final(self)@ == old(self)@ + more@,
    {
        bytes_extend(&mut self.bytes, more);
    }

    /// Drops the first `n` bytes.
    pub fn advance(&mut self, n: usize)
        requires
            n <= old(self)@.len(),
        ensures
            final(self)@ == old(self)@.skip(n as int),
    {
        bytes_advance(&mut self.bytes, n);
    }

    /// Drops all bytes.
    pub fn clear(&mut self)
        ensures
            final(self)@ == Seq::<u8>::empty(),
    {
        bytes_clear(&mut self.bytes);
    }
}

} // verus!
