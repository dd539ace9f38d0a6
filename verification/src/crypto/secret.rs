//! Keys and plaintext that are overwritten when they are dropped.

use vstd::prelude::*;
use zeroize::Zeroize;

verus! {

/// Calls `zeroize::Zeroize::zeroize` on a key: every byte is overwritten with zero. It does not unwind.
#[verifier::external_body]
fn wipe_key(key: &mut [u8; 32])
    ensures
        final(key)@ == Seq::new(32, |i: int| 0u8),
    opens_invariants none
    no_unwind
{
    key.zeroize();
}

/// Calls `zeroize::Zeroize::zeroize` on a buffer: every byte, spare capacity included, is overwritten
/// with zero, and the buffer is left empty. It does not unwind.
#[verifier::external_body]
pub(crate) fn wipe_buffer(buffer: &mut Vec<u8>)
    ensures
        final(buffer)@ == Seq::<u8>::empty(),
    opens_invariants none
    no_unwind
{
    buffer.zeroize();
}

/// A key. Dropping it overwrites it.
#[derive(Debug, PartialEq, Eq)]
pub struct Key {
    bytes: [u8; 32],
}

impl View for Key {
    type V = Seq<u8>;

    closed spec fn view(&self) -> Seq<u8> {
        self.bytes@
    }
}

impl Key {
    /// Take charge of a key.
    pub fn new(bytes: [u8; 32]) -> (r: Self)
        ensures
            r@ == bytes@,
    {
        Key { bytes }
    }

    /// Its bytes.
    pub fn bytes(&self) -> (r: &[u8; 32])
        ensures
            r@ == self@,
    {
        &self.bytes
    }

    /// Its bytes, to be filled in.
    pub fn bytes_mut(&mut self) -> (r: &mut [u8; 32])
        ensures
            r@ == old(self)@,
            final(self)@ == final(r)@,
    {
        &mut self.bytes
    }
}

impl Drop for Key {
    fn drop(&mut self)
        opens_invariants none
        no_unwind
    {
        wipe_key(&mut self.bytes);
    }
}

/// A buffer that holds plaintext. Dropping it overwrites it.
#[derive(Debug)]
pub struct Plain {
    /// What it holds.
    pub bytes: Vec<u8>,
}

impl Plain {
    /// What it holds, which nobody overwrites any more.
    pub fn release(self) -> (r: Vec<u8>)
        ensures
            r@ == self.bytes@,
    {
        let mut held = self;
        let mut out: Vec<u8> = Vec::new();
        std::mem::swap(&mut held.bytes, &mut out);
        out
    }
}

impl Drop for Plain {
    fn drop(&mut self)
        opens_invariants none
        no_unwind
    {
        wipe_buffer(&mut self.bytes);
    }
}

} // verus!
