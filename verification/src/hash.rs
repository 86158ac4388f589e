//! A hasher whose digests do not depend on the target's word size or byte
//! order.

use std::collections::hash_map::DefaultHasher;
use std::hash::Hasher;
use vstd::bytes::{
    spec_u128_to_le_bytes, spec_u16_to_le_bytes, spec_u32_to_le_bytes, spec_u64_to_le_bytes,
    u128_to_le_bytes, u16_to_le_bytes, u32_to_le_bytes, u64_to_le_bytes,
};
use vstd::prelude::*;
use vstd::std_specs::hash::DefaultHasherAdditionalSpecFns;

verus! {

/// SipHash-1-3 with fixed keys (std's `DefaultHasher::new()`), with every
/// integer written as little-endian bytes of fixed width.
///
/// std hashes lengths and discriminants in native byte order and width, so the
/// same tree would hash differently on targets of different word size. Routing
/// every integer through fixed-width little-endian bytes makes the digest the
/// same on every target.
pub struct StableHasher {
    inner: DefaultHasher,
}

impl View for StableHasher {
    type V = Seq<Seq<u8>>;

    /// The byte strings written so far.
    closed spec fn view(&self) -> Seq<Seq<u8>> {
        self.inner@
    }
}

impl StableHasher {
    pub fn new() -> (r: Self)
        ensures
            r@ == Seq::<Seq<u8>>::empty(),
    {
        StableHasher { inner: DefaultHasher::new() }
    }

    /// The digest of what was written.
    pub fn finish(&self) -> (r: u64)
        ensures
            r == DefaultHasher::spec_finish(self@),
    {
        self.inner.finish()
    }

    /// Adds bytes to what is hashed.
    pub fn write(&mut self, bytes: &[u8])
        ensures
            final(self)@ == old(self)@.push(bytes@),
    {
        self.inner.write(bytes);
    }

    pub fn write_u8(&mut self, i: u8)
        ensures
            final(self)@ == old(self)@.push(seq![i]),
    {
        let mut b: Vec<u8> = Vec::new();
        b.push(i);
        assert(b@ =~= seq![i]);
        self.inner.write(b.as_slice());
    }

    pub fn write_u16(&mut self, i: u16)
        ensures
            final(self)@ == old(self)@.push(spec_u16_to_le_bytes(i)),
    {
        let b = u16_to_le_bytes(i);
        self.inner.write(b.as_slice());
    }

    pub fn write_u32(&mut self, i: u32)
        ensures
            final(self)@ == old(self)@.push(spec_u32_to_le_bytes(i)),
    {
        let b = u32_to_le_bytes(i);
        self.inner.write(b.as_slice());
    }

    pub fn write_u64(&mut self, i: u64)
        ensures
            final(self)@ == old(self)@.push(spec_u64_to_le_bytes(i)),
    {
        let b = u64_to_le_bytes(i);
        self.inner.write(b.as_slice());
    }

    pub fn write_u128(&mut self, i: u128)
        ensures
            final(self)@ == old(self)@.push(spec_u128_to_le_bytes(i)),
    {
        let b = u128_to_le_bytes(i);
        self.inner.write(b.as_slice());
    }

    /// Writes eight bytes on every target.
    pub fn write_usize(&mut self, i: usize)
        ensures
            final(self)@ == old(self)@.push(spec_u64_to_le_bytes(i as u64)),
    {
        self.write_u64(i as u64);
    }

    pub fn write_i8(&mut self, i: i8)
        ensures
            final(self)@ == old(self)@.push(seq![i as u8]),
    {
        self.write_u8(i as u8);
    }

    pub fn write_i16(&mut self, i: i16)
        ensures
            final(self)@ == old(self)@.push(spec_u16_to_le_bytes(i as u16)),
    {
        self.write_u16(i as u16);
    }

    pub fn write_i32(&mut self, i: i32)
        ensures
            final(self)@ == old(self)@.push(spec_u32_to_le_bytes(i as u32)),
    {
        self.write_u32(i as u32);
    }

    pub fn write_i64(&mut self, i: i64)
        ensures
            final(self)@ == old(self)@.push(spec_u64_to_le_bytes(i as u64)),
    {
        self.write_u64(i as u64);
    }

    pub fn write_i128(&mut self, i: i128)
        ensures
            final(self)@ == old(self)@.push(spec_u128_to_le_bytes(i as u128)),
    {
        self.write_u128(i as u128);
    }

    /// Sign-extends to eight bytes on every target.
    pub fn write_isize(&mut self, i: isize)
        ensures
            final(self)@ == old(self)@.push(spec_u64_to_le_bytes(i as i64 as u64)),
    {
        self.write_u64(i as i64 as u64);
    }
}

} // verus!
