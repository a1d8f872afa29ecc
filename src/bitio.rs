//! Bit-level output and input streams, backed by `bitstream_io`.
//!
//! A writer is modelled by the sequence of bits written to it so far
//! (`sink_bits`), a reader by the sequence of bits it has not yet delivered
//! (`source_bits`). Bits are packed into bytes most significant bit first.
use bitstream_io::{BigEndian, BitRead, BitReader, BitWrite, BitWriter};
use std::io::Cursor;
use vstd::arithmetic::div_mod::{
    lemma_breakdown, lemma_div_denominator, lemma_fundamental_div_mod_converse,
};
use vstd::arithmetic::power2::{lemma2_to64, lemma_pow2_pos, lemma_pow2_unfold, pow2};
use vstd::prelude::*;

verus! {

#[verifier::external_type_specification]
#[verifier::external_body]
pub struct ExIoError(std::io::Error);

/// A bit writer that collects its output in memory.
#[verifier::external_body]
pub struct BitSink {
    inner: BitWriter<Vec<u8>, BigEndian>,
}

/// A bit reader over bytes held in memory.
#[verifier::external_body]
pub struct BitSource {
    inner: BitReader<Cursor<Vec<u8>>, BigEndian>,
}

/// The bits written to a sink so far, whole bytes and the pending partial
/// byte alike.
pub uninterp spec fn sink_bits(w: BitSink) -> Seq<bool>;

/// The bits a source has not yet delivered.
pub uninterp spec fn source_bits(r: BitSource) -> Seq<bool>;

/// The `n` low bits of `v`, most significant first.
pub open spec fn bits_be(v: nat, n: nat) -> Seq<bool>
    decreases n,
{
    if n == 0 {
        Seq::empty()
    } else {
        bits_be(v / 2, (n - 1) as nat).push(v % 2 == 1)
    }
}

/// The unsigned number whose binary digits, most significant first, are `b`.
pub open spec fn bits_value(b: Seq<bool>) -> nat
    decreases b.len(),
{
    if b.len() == 0 {
        0
    } else {
        2 * bits_value(b.drop_last()) + (if b.last() {
            1nat
        } else {
            0nat
        })
    }
}

/// The bits of a byte sequence, each byte most significant bit first.
pub open spec fn bytes_bits(s: Seq<u8>) -> Seq<bool>
    decreases s.len(),
{
    if s.len() == 0 {
        Seq::empty()
    } else {
        bytes_bits(s.drop_last()) + bits_be(s.last() as nat, 8)
    }
}

/// Number of zero bits that bring a stream of `n` bits to a byte boundary.
pub open spec fn padding(n: nat) -> nat {
    if n % 8 == 0 {
        0
    } else {
        (8 - n % 8) as nat
    }
}

/// `b` followed by zero bits up to the next byte boundary.
pub open spec fn aligned(b: Seq<bool>) -> Seq<bool> {
    b + Seq::new(padding(b.len()), |i: int| false)
}

pub proof fn lemma_bits_be_len(v: nat, n: nat)
    ensures
        bits_be(v, n).len() == n,
    decreases n,
{
    if n > 0 {
        lemma_bits_be_len(v / 2, (n - 1) as nat);
    }
}

/// Reading back the `n` bits of a value below `2^n` gives that value.
pub proof fn lemma_bits_value_of_be(v: nat, n: nat)
    requires
        v < vstd::arithmetic::power2::pow2(n),
    ensures
        bits_value(bits_be(v, n)) == v,
    decreases n,
{
    lemma_bits_be_len(v, n);
    if n == 0 {
        vstd::arithmetic::power2::lemma2_to64();
    } else {
        vstd::arithmetic::power2::lemma_pow2_unfold(n);
        lemma_bits_value_of_be(v / 2, (n - 1) as nat);
        let b = bits_be(v, n);
        assert(b.drop_last() =~= bits_be(v / 2, (n - 1) as nat));
    }
}

/// Splitting a value's `a + b` bits into the high `a` and the low `b`.
pub proof fn lemma_bits_be_split(v: nat, a: nat, b: nat)
    ensures
        bits_be(v, a + b) == bits_be(v / pow2(b), a) + bits_be(v % pow2(b), b),
    decreases b,
{
    lemma2_to64();
    if b == 0 {
        assert(bits_be(v, a + b) =~= bits_be(v / pow2(b), a) + bits_be(v % pow2(b), b));
    } else {
        let p = pow2((b - 1) as nat);
        lemma_pow2_pos((b - 1) as nat);
        lemma_pow2_unfold(b);
        lemma_bits_be_split(v / 2, a, (b - 1) as nat);
        lemma_breakdown(v as int, 2, p as int);
        lemma_div_denominator(v as int, 2, p as int);
        lemma_fundamental_div_mod_converse(
            (v % pow2(b)) as int,
            2,
            ((v / 2) % p) as int,
            (v % 2) as int,
        );
        assert((a + b - 1) as nat == a + (b - 1) as nat);
        assert(bits_be(v, a + b) =~= bits_be(v / pow2(b), a) + bits_be(v % pow2(b), b));
    }
}

/// The bits of concatenated bytes are the concatenated bits.
pub proof fn lemma_bytes_bits_append(x: Seq<u8>, y: Seq<u8>)
    ensures
        bytes_bits(x + y) == bytes_bits(x) + bytes_bits(y),
    decreases y.len(),
{
    if y.len() == 0 {
        assert(x + y =~= x);
        assert(bytes_bits(x) + bytes_bits(y) =~= bytes_bits(x));
    } else {
        lemma_bytes_bits_append(x, y.drop_last());
        assert((x + y).drop_last() =~= x + y.drop_last());
        assert(bytes_bits(x + y) =~= bytes_bits(x) + bytes_bits(y));
    }
}

pub proof fn lemma_bytes_bits_len(x: Seq<u8>)
    ensures
        bytes_bits(x).len() == 8 * x.len(),
    decreases x.len(),
{
    if x.len() > 0 {
        lemma_bytes_bits_len(x.drop_last());
        lemma_bits_be_len(x.last() as nat, 8);
    }
}

pub proof fn lemma_aligned_len(b: Seq<bool>)
    ensures
        aligned(b).len() % 8 == 0,
        aligned(b).len() == b.len() + padding(b.len()),
        aligned(b).len() < b.len() + 8,
{
}

/// Relies on `BitWriter::endian` over a fresh `Vec`: nothing is written yet.
#[verifier::external_body]
pub(crate) fn new_sink(capacity: usize) -> (r: BitSink)
    ensures
        sink_bits(r) == Seq::<bool>::empty(),
{
    BitSink { inner: BitWriter::endian(Vec::with_capacity(capacity), BigEndian) }
}

/// Relies on `BitWrite::write_bit`: one bit is appended; the only error it
/// can return comes from the `Vec`, whose `Write` never fails.
#[verifier::external_body]
pub(crate) fn put_bit(w: &mut BitSink, bit: bool) -> (r: Result<(), std::io::Error>)
    ensures
        r is Ok,
        sink_bits(*final(w)) == sink_bits(*old(w)).push(bit),
{
    w.inner.write_bit(bit)
}

/// Relies on `BitWrite::write::<u16>`: the `n` low bits of `v` are appended,
/// most significant first. Its own errors (too many bits, too large a value)
/// are excluded by `requires`; the `Vec` it writes to never fails.
#[verifier::external_body]
pub(crate) fn put_bits(w: &mut BitSink, n: u32, v: u16) -> (r: Result<(), std::io::Error>)
    requires
        n <= 16,
        v < vstd::arithmetic::power2::pow2(n as nat),
    ensures
        r is Ok,
        sink_bits(*final(w)) == sink_bits(*old(w)) + bits_be(v as nat, n as nat),
{
    w.inner.write(n, v)
}

/// Relies on `BitWrite::byte_align`: zero bits are appended up to the next
/// byte boundary, through `write_bit`, which cannot fail on a `Vec`.
#[verifier::external_body]
pub(crate) fn align_sink(w: &mut BitSink) -> (r: Result<(), std::io::Error>)
    ensures
        r is Ok,
        sink_bits(*final(w)) == aligned(sink_bits(*old(w))),
{
    w.inner.byte_align()
}

/// Relies on `BitWriter::into_writer`: once the writer is byte-aligned, its
/// `Vec` holds every bit written.
#[verifier::external_body]
pub(crate) fn sink_bytes(w: BitSink) -> (r: Vec<u8>)
    requires
        sink_bits(w).len() % 8 == 0,
    ensures
        bytes_bits(r@) == sink_bits(w),
{
    w.inner.into_writer()
}

/// Relies on `BitReader::endian` over a `Cursor` at its start: every bit of
/// the bytes is still to be read.
#[verifier::external_body]
pub(crate) fn new_source(bytes: Vec<u8>) -> (r: BitSource)
    ensures
        source_bits(r) == bytes_bits(bytes@),
{
    BitSource { inner: BitReader::endian(Cursor::new(bytes), BigEndian) }
}

/// Relies on `BitRead::read_bit`: it fails exactly at the end of the data,
/// and otherwise delivers the next bit.
#[verifier::external_body]
pub(crate) fn take_bit(r: &mut BitSource) -> (res: Result<bool, std::io::Error>)
    ensures
        res is Ok <==> source_bits(*old(r)).len() > 0,
        res is Ok ==> res->Ok_0 == source_bits(*old(r))[0] && source_bits(*final(r))
            == source_bits(*old(r)).drop_first(),
{
    r.inner.read_bit()
}

/// Relies on `BitRead::read::<u16>`: it fails exactly when fewer than `n`
/// bits remain, and otherwise delivers the value of the next `n` bits.
#[verifier::external_body]
pub(crate) fn take_bits(r: &mut BitSource, n: u32) -> (res: Result<u16, std::io::Error>)
    requires
        n <= 16,
    ensures
        res is Ok <==> source_bits(*old(r)).len() >= n,
        res is Ok ==> res->Ok_0 == bits_value(source_bits(*old(r)).take(n as int))
            && source_bits(*final(r)) == source_bits(*old(r)).skip(n as int),
{
    r.inner.read::<u16>(n)
}

/// Relies on `BitRead::byte_align`: the rest of the current partial byte is
/// skipped.
#[verifier::external_body]
pub(crate) fn align_source(r: &mut BitSource)
    ensures
        source_bits(*final(r)) == source_bits(*old(r)).skip(
            (source_bits(*old(r)).len() % 8) as int,
        ),
{
    r.inner.byte_align()
}

impl BitSink {
    /// An empty sink; `capacity` sizes its byte buffer.
    pub fn new(capacity: usize) -> (r: BitSink)
        ensures
            sink_bits(r) == Seq::<bool>::empty(),
    {
        new_sink(capacity)
    }

    /// Pads with zero bits to the next byte boundary.
    pub fn byte_align(&mut self)
        ensures
            sink_bits(*final(self)) == aligned(sink_bits(*old(self))),
    {
        let _ = align_sink(self);
    }

    /// The bytes written; the sink must be byte-aligned.
    pub fn into_bytes(self) -> (r: Vec<u8>)
        requires
            sink_bits(self).len() % 8 == 0,
        ensures
            bytes_bits(r@) == sink_bits(self),
    {
        sink_bytes(self)
    }
}

impl BitSource {
    /// A source that delivers the bits of `bytes`, first byte first.
    pub fn new(bytes: Vec<u8>) -> (r: BitSource)
        ensures
            source_bits(r) == bytes_bits(bytes@),
    {
        new_source(bytes)
    }
}

} // verus!
