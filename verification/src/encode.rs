//! Deterministic length-prefixed encoding for anything that is hashed.
//!
//! The encoding must not depend on the compiler, on the field order of
//! derived code, or on floating point: it is written out byte by byte here.

use vstd::prelude::*;

verus! {

/// Domain tags. Changing a tag is a consensus break.
pub const TAG_COMMIT: &'static str = "futarch/commit/v1";
pub const TAG_REVEAL: &'static str = "futarch/reveal/v1";
pub const TAG_PROPOSAL: &'static str = "futarch/proposal/v1";
pub const TAG_GENESIS: &'static str = "futarch/genesis/v1";
pub const TAG_SETTLEMENT: &'static str = "futarch/settlement/v1";

/// Big-endian bytes of a `u32`.
pub open spec fn be_u32(v: u32) -> Seq<u8> {
    seq![(v >> 24u32) as u8, (v >> 16u32) as u8, (v >> 8u32) as u8, v as u8]
}

/// Big-endian bytes of a `u64`.
pub open spec fn be_u64(v: u64) -> Seq<u8> {
    seq![
        (v >> 56u64) as u8,
        (v >> 48u64) as u8,
        (v >> 40u64) as u8,
        (v >> 32u64) as u8,
        (v >> 24u64) as u8,
        (v >> 16u64) as u8,
        (v >> 8u64) as u8,
        v as u8,
    ]
}

/// Distinct `u64`s have distinct big-endian bytes.
pub proof fn lemma_be_u64_injective(x: u64, y: u64)
    requires
        be_u64(x) == be_u64(y),
    ensures
        x == y,
{
    assert(be_u64(x)[0] == be_u64(y)[0] && be_u64(x)[1] == be_u64(y)[1] && be_u64(x)[2] == be_u64(y)[2]
        && be_u64(x)[3] == be_u64(y)[3] && be_u64(x)[4] == be_u64(y)[4] && be_u64(x)[5] == be_u64(y)[5]
        && be_u64(x)[6] == be_u64(y)[6] && be_u64(x)[7] == be_u64(y)[7]);
    assert(x == y) by (bit_vector)
        requires
            (x >> 56u64) as u8 == (y >> 56u64) as u8,
            (x >> 48u64) as u8 == (y >> 48u64) as u8,
            (x >> 40u64) as u8 == (y >> 40u64) as u8,
            (x >> 32u64) as u8 == (y >> 32u64) as u8,
            (x >> 24u64) as u8 == (y >> 24u64) as u8,
            (x >> 16u64) as u8 == (y >> 16u64) as u8,
            (x >> 8u64) as u8 == (y >> 8u64) as u8,
            x as u8 == y as u8,
    ;
}

/// `u32` big-endian length (truncated to 32 bits) followed by the bytes.
pub open spec fn length_prefixed(v: Seq<u8>) -> Seq<u8> {
    be_u32(v.len() as u32) + v
}

/// Growing buffer written in big-endian, length-prefixed form.
#[derive(Clone, Debug, Default)]
pub struct Encoder {
    buf: Vec<u8>,
}

impl View for Encoder {
    type V = Seq<u8>;

    closed spec fn view(&self) -> Seq<u8> {
        self.buf@
    }
}

impl Encoder {
    /// An empty buffer.
    pub fn new() -> (r: Self)
        ensures
            r@ == Seq::<u8>::empty(),
    {
        Encoder { buf: Vec::new() }
    }

    /// Append one byte.
    pub fn u8(&mut self, v: u8) -> (r: &mut Self)
        ensures
            r@ == old(self)@.push(v),
            *final(self) == *final(r),
    {
        self.buf.push(v);
        self
    }

    /// Append a `u32`, big-endian.
    pub fn u32(&mut self, v: u32) -> (r: &mut Self)
        ensures
            r@ == old(self)@ + be_u32(v),
            *final(self) == *final(r),
    {
        self.buf.push((v >> 24u32) as u8);
        self.buf.push((v >> 16u32) as u8);
        self.buf.push((v >> 8u32) as u8);
        self.buf.push(v as u8);
        assert(self.buf@ =~= old(self)@ + be_u32(v));
        self
    }

    /// Append a `u64`, big-endian.
    pub fn u64(&mut self, v: u64) -> (r: &mut Self)
        ensures
            r@ == old(self)@ + be_u64(v),
            *final(self) == *final(r),
    {
        self.buf.push((v >> 56u64) as u8);
        self.buf.push((v >> 48u64) as u8);
        self.buf.push((v >> 40u64) as u8);
        self.buf.push((v >> 32u64) as u8);
        self.buf.push((v >> 24u64) as u8);
        self.buf.push((v >> 16u64) as u8);
        self.buf.push((v >> 8u64) as u8);
        self.buf.push(v as u8);
        assert(self.buf@ =~= old(self)@ + be_u64(v));
        self
    }

    /// Append 32 raw bytes.
    pub fn bytes32(&mut self, v: &[u8; 32]) -> (r: &mut Self)
        ensures
            r@ == old(self)@ + v@,
            *final(self) == *final(r),
    {
        self.append_raw(v.as_slice());
        self
    }

    /// `u32` big-endian length followed by the bytes.
    pub fn bytes(&mut self, v: &[u8]) -> (r: &mut Self)
        ensures
            r@ == old(self)@ + length_prefixed(v@),
            *final(self) == *final(r),
    {
        self.u32(#[verifier::truncate] (v.len() as u32));
        self.append_raw(v);
        assert(self.buf@ =~= old(self)@ + length_prefixed(v@));
        self
    }

    /// The bytes written so far.
    pub fn as_slice(&self) -> (r: &[u8])
        ensures
            r@ == self@,
    {
        self.buf.as_slice()
    }

    /// Append the bytes with no length prefix.
    pub fn bytes_raw(&mut self, v: &[u8]) -> (r: &mut Self)
        ensures
            r@ == old(self)@ + v@,
            *final(self) == *final(r),
    {
        self.append_raw(v);
        self
    }

    fn append_raw(&mut self, v: &[u8])
        ensures
            final(self)@ == old(self)@ + v@,
    {
        let mut i: usize = 0;
        while i < v.len()
            invariant
                0 <= i <= v.len(),
                self.buf@ == old(self)@ + v@.take(i as int),
            decreases v.len() - i,
        {
            self.buf.push(v[i]);
            assert(v@.take(i + 1) =~= v@.take(i as int).push(v@[i as int]));
            i = i + 1;
        }
        assert(v@.take(v.len() as int) =~= v@);
    }
}

} // verus!
