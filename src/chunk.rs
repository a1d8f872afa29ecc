//! The chunk encoder: one stream per field of the samples, and the container
//! that joins them.
//!
//! Container layout, for `n` samples:
//! the count as a 32-bit big-endian integer; the sign-change stream; the
//! exponent-delta stream; then one stream per mantissa bit position, lowest
//! first. Every stream is padded with zero bits to a byte boundary.
//! No length is stored for any stream but the count, and the container
//! carries no tag for the float shape: the reader must know it.
use crate::bitio::{
    align_sink, aligned, bits_be, bytes_bits, lemma_aligned_len, lemma_bits_be_len,
    lemma_bits_be_split, lemma_bytes_bits_append, lemma_bytes_bits_len, new_sink, put_bit,
    sink_bits, sink_bytes, BitSink,
};
use crate::error::CodecError;
use crate::ieee_float::{
    exp_delta, exp_diff, exp_field, get_exp, get_mantissa, get_sign, is_pattern,
    mantissa_field, mbits, sign_field, IEEEFloat,
};
use crate::varint;
use crate::varint::{codeword, in_code_range};
use std::marker::PhantomData;
use vstd::arithmetic::power2::{lemma2_to64, pow2};
use vstd::bits::lemma_u64_shr_is_div;
use vstd::prelude::*;

verus! {

/// Sign of the sample before position `k` (`false` before the first).
pub open spec fn prev_sign<F: IEEEFloat>(s: Seq<u64>, k: int) -> bool {
    if k == 0 {
        false
    } else {
        sign_field::<F>(s[k - 1])
    }
}

/// Exponent of the sample before position `k` (0 before the first).
pub open spec fn prev_exp<F: IEEEFloat>(s: Seq<u64>, k: int) -> nat {
    if k == 0 {
        0
    } else {
        exp_field::<F>(s[k - 1])
    }
}

/// One bit per sample: whether its sign differs from the previous one.
pub open spec fn sign_stream<F: IEEEFloat>(s: Seq<u64>) -> Seq<bool> {
    Seq::new(s.len(), |k: int| sign_field::<F>(s[k]) != prev_sign::<F>(s, k))
}

/// The centred delta from the previous exponent to that of sample `k`.
pub open spec fn delta_at<F: IEEEFloat>(s: Seq<u64>, k: int) -> int {
    exp_delta::<F>(prev_exp::<F>(s, k) as int, exp_field::<F>(s[k]) as int)
}

/// The codewords of the exponent deltas of the first `n` samples.
pub open spec fn exp_codes<F: IEEEFloat>(s: Seq<u64>, n: nat) -> Seq<bool>
    decreases n,
{
    if n == 0 {
        Seq::empty()
    } else {
        exp_codes::<F>(s, (n - 1) as nat) + codeword(delta_at::<F>(s, n - 1))
    }
}

/// The exponent-delta stream of all samples.
pub open spec fn exp_stream<F: IEEEFloat>(s: Seq<u64>) -> Seq<bool> {
    exp_codes::<F>(s, s.len())
}

/// Bit `i` of the mantissa of `v`.
pub open spec fn mantissa_bit<F: IEEEFloat>(v: u64, i: nat) -> bool {
    (mantissa_field::<F>(v) / pow2(i)) % 2 == 1
}

/// Whether the exponent of `v` is even.
pub open spec fn exp_even<F: IEEEFloat>(v: u64) -> bool {
    exp_field::<F>(v) % 2 == 0
}

/// The bit-plane of mantissa position `i`: per sample, whether that bit is
/// zero, flipped when the exponent is even.
pub open spec fn plane_stream<F: IEEEFloat>(s: Seq<u64>, i: nat) -> Seq<bool> {
    Seq::new(s.len(), |k: int| !mantissa_bit::<F>(s[k], i) != exp_even::<F>(s[k]))
}

/// The padded bit-planes of positions below `j`, lowest first.
pub open spec fn planes_bits<F: IEEEFloat>(s: Seq<u64>, j: nat) -> Seq<bool>
    decreases j,
{
    if j == 0 {
        Seq::empty()
    } else {
        planes_bits::<F>(s, (j - 1) as nat) + aligned(plane_stream::<F>(s, (j - 1) as nat))
    }
}

/// The bits of the container that holds the samples `s`.
pub open spec fn container_bits<F: IEEEFloat>(s: Seq<u64>) -> Seq<bool> {
    bits_be(s.len(), 32) + aligned(sign_stream::<F>(s)) + aligned(exp_stream::<F>(s))
        + planes_bits::<F>(s, mbits::<F>())
}

/// `b`, padded to a byte boundary when `pad` holds.
pub open spec fn pad_if(b: Seq<bool>, pad: bool) -> Seq<bool> {
    if pad {
        aligned(b)
    } else {
        b
    }
}

/// Bytes needed for `bits` bits.
pub open spec fn bytes_for(bits: nat) -> nat {
    (bits + 7) / 8
}

/// The container's length in bytes for the samples `s`.
pub open spec fn container_len<F: IEEEFloat>(s: Seq<u64>) -> nat {
    4 + bytes_for(s.len()) + bytes_for(exp_stream::<F>(s).len()) + mbits::<F>() * bytes_for(
        s.len(),
    )
}

/// The encoder state of one chunk.
pub struct WriteChunk<F: IEEEFloat> {
    size: usize,
    signs: BitSink,
    exps: BitSink,
    mantissas: Vec<BitSink>,
    prev_sign: bool,
    prev_exp: u16,
    completed: bool,
    samples: Ghost<Seq<u64>>,
    shape: PhantomData<F>,
}

impl<F: IEEEFloat> WriteChunk<F> {
    /// The samples written so far.
    pub closed spec fn samples(&self) -> Seq<u64> {
        self.samples@
    }

    /// Whether the streams have been padded to byte boundaries.
    pub closed spec fn completed(&self) -> bool {
        self.completed
    }

    /// Each stream holds what the samples written so far give, padded once
    /// the chunk is complete.
    pub closed spec fn wf(&self) -> bool {
        let s = self.samples@;
        &&& self.size == s.len()
        &&& forall|k: int| 0 <= k < s.len() ==> #[trigger] is_pattern::<F>(s[k])
        &&& self.prev_sign == prev_sign::<F>(s, s.len() as int)
        &&& self.prev_exp == prev_exp::<F>(s, s.len() as int)
        &&& self.mantissas@.len() == mbits::<F>()
        &&& sink_bits(self.signs) == pad_if(sign_stream::<F>(s), self.completed)
        &&& sink_bits(self.exps) == pad_if(exp_stream::<F>(s), self.completed)
        &&& forall|i: int|
            0 <= i < mbits::<F>() ==> sink_bits(#[trigger] self.mantissas@[i]) == pad_if(
                plane_stream::<F>(s, i as nat),
                self.completed,
            )
    }

    /// An empty chunk; `capacity` is the number of samples expected, used
    /// only to size buffers.
    pub fn new(capacity: usize) -> (r: WriteChunk<F>)
        ensures
            r.wf(),
            r.samples() == Seq::<u64>::empty(),
            !r.completed(),
    {
        let cap_8: usize = capacity / 8 + 1;
        let m = F::mantissa_bits();
        let mut mantissas: Vec<BitSink> = Vec::new();
        let mut i: u64 = 0;
        while i < m
            invariant
                i <= m,
                m == mbits::<F>(),
                mantissas@.len() == i,
                forall|j: int| 0 <= j < i ==> sink_bits(#[trigger] mantissas@[j]) == Seq::<
                    bool,
                >::empty(),
            decreases m - i,
        {
            mantissas.push(new_sink(cap_8));
            i = i + 1;
        }
        let exp_cap: usize = if cap_8 <= usize::MAX / 16 {
            16 * cap_8
        } else {
            cap_8
        };
        let r = WriteChunk {
            size: 0,
            signs: new_sink(cap_8),
            exps: new_sink(exp_cap),
            mantissas,
            prev_sign: false,
            prev_exp: 0,
            completed: false,
            samples: Ghost(Seq::empty()),
            shape: PhantomData,
        };
        proof {
            let s = Seq::<u64>::empty();
            assert(sign_stream::<F>(s) =~= Seq::<bool>::empty());
            assert forall|i: int| 0 <= i < mbits::<F>() implies sink_bits(
                #[trigger] r.mantissas@[i],
            ) == plane_stream::<F>(s, i as nat) by {
                assert(plane_stream::<F>(s, i as nat) =~= Seq::<bool>::empty());
            }
        }
        r
    }

    /// Appends one sample (a bit pattern of the shape).
    pub fn write(&mut self, value: u64) -> (r: Result<(), CodecError>)
        requires
            old(self).wf(),
            !old(self).completed(),
            is_pattern::<F>(value),
            old(self).samples().len() < usize::MAX,
        ensures
            r is Ok,
            final(self).wf(),
            !final(self).completed(),
            final(self).samples() == old(self).samples().push(value),
    {
        let ghost s = self.samples@;
        let ghost t = s.push(value);
        let sign = get_sign::<F>(value);
        let exp = get_exp::<F>(value);
        let mantissa = get_mantissa::<F>(value);
        let even = exp % 2 == 0;
        self.size = self.size + 1;
        let _ = put_bit(&mut self.signs, sign ^ self.prev_sign);
        proof {
            assert(sign_stream::<F>(t) =~= sign_stream::<F>(s).push(
                sign != prev_sign::<F>(t, s.len() as int),
            ));
        }
        let delta = exp_diff::<F>(self.prev_exp, exp);
        proof {
            crate::ieee_float::lemma_shape_facts::<F>();
            assert(in_code_range(delta as int));
        }
        let _ = varint::write(delta, &mut self.exps);
        proof {
            assert(delta_at::<F>(t, s.len() as int) == delta);
            lemma_exp_codes_prefix::<F>(s, value, s.len());
            assert(exp_stream::<F>(t) == exp_stream::<F>(s) + codeword(delta as int));
        }
        let m = F::mantissa_bits();
        proof {
            crate::ieee_float::lemma_shape_facts::<F>();
        }
        let mut i: u64 = 0;
        while i < m
            invariant
                i <= m,
                m == mbits::<F>(),
                m < 64,
                self.mantissas@.len() == m,
                self.size == t.len(),
                sink_bits(self.signs) == sign_stream::<F>(t),
                sink_bits(self.exps) == exp_stream::<F>(t),
                self.completed == old(self).completed,
                s.len() == old(self).samples().len(),
                t == s.push(value),
                mantissa == mantissa_field::<F>(value),
                even == exp_even::<F>(value),
                forall|j: int|
                    0 <= j < i ==> sink_bits(#[trigger] self.mantissas@[j]) == plane_stream::<F>(
                        t,
                        j as nat,
                    ),
                forall|j: int|
                    i <= j < m ==> sink_bits(#[trigger] self.mantissas@[j]) == plane_stream::<F>(
                        s,
                        j as nat,
                    ),
            decreases m - i,
        {
            proof {
                lemma_u64_shr_is_div(mantissa, i);
            }
            let t_bits = mantissa >> i;
            proof {
                assert(t_bits & 1 == t_bits % 2) by (bit_vector);
            }
            let bit = ((t_bits & 1) == 0) ^ even;
            let _ = put_bit(&mut self.mantissas[i as usize], bit);
            proof {
                assert(plane_stream::<F>(t, i as nat) =~= plane_stream::<F>(s, i as nat).push(bit));
            }
            i = i + 1;
        }
        self.prev_sign = sign;
        self.prev_exp = exp;
        self.samples = Ghost(t);
        proof {
            assert forall|k: int| 0 <= k < t.len() implies #[trigger] is_pattern::<F>(t[k]) by {
                if k < s.len() {
                    assert(t[k] == s[k]);
                }
            }
        }
        Ok(())
    }

    /// Pads every stream to a byte boundary; no sample may follow.
    pub fn complete(&mut self) -> (r: Result<(), CodecError>)
        requires
            old(self).wf(),
            !old(self).completed(),
        ensures
            r is Ok,
            final(self).wf(),
            final(self).completed(),
            final(self).samples() == old(self).samples(),
    {
        let _ = align_sink(&mut self.signs);
        let _ = align_sink(&mut self.exps);
        let ghost s = self.samples@;
        let m = self.mantissas.len();
        let mut i: usize = 0;
        while i < m
            invariant
                i <= m,
                m == mbits::<F>(),
                self.mantissas@.len() == m,
                self.size == old(self).size,
                self.samples == old(self).samples,
                self.prev_sign == old(self).prev_sign,
                self.prev_exp == old(self).prev_exp,
                s == old(self).samples@,
                sink_bits(self.signs) == aligned(sign_stream::<F>(s)),
                sink_bits(self.exps) == aligned(exp_stream::<F>(s)),
                forall|j: int|
                    0 <= j < i ==> sink_bits(#[trigger] self.mantissas@[j]) == aligned(
                        plane_stream::<F>(s, j as nat),
                    ),
                forall|j: int|
                    i <= j < m ==> sink_bits(#[trigger] self.mantissas@[j]) == plane_stream::<F>(
                        s,
                        j as nat,
                    ),
            decreases m - i,
        {
            let _ = align_sink(&mut self.mantissas[i]);
            i = i + 1;
        }
        self.completed = true;
        Ok(())
    }

    /// Number of samples written.
    pub fn get_size(&self) -> (r: usize)
        requires
            self.wf(),
        ensures
            r == self.samples().len(),
    {
        self.size
    }

    /// Whether the chunk has been completed.
    pub fn is_complete(&self) -> (r: bool)
        ensures
            r == self.completed(),
    {
        self.completed
    }

    /// The container: the count, then the sign, exponent and mantissa-plane
    /// streams.
    pub fn serialize(self) -> (r: Vec<u8>)
        requires
            self.wf(),
            self.completed(),
            self.samples().len() <= u32::MAX,
        ensures
            bytes_bits(r@) == container_bits::<F>(self.samples()),
            r@.len() == container_len::<F>(self.samples()),
    {
        let ghost s = self.samples@;
        let mut out = count_bytes(self.size as u32);
        let ghost planes_start = out@.len();
        let mut signs = sink_bytes(self.signs);
        let mut exps = sink_bytes(self.exps);
        proof {
            lemma_bytes_bits_append(out@, signs@);
        }
        out.append(&mut signs);
        proof {
            lemma_bytes_bits_append(out@, exps@);
        }
        out.append(&mut exps);
        let ghost head = out@;
        let mut rest = self.mantissas;
        let m = rest.len();
        let mut i: usize = 0;
        while i < m
            invariant
                i <= m,
                m == mbits::<F>(),
                rest@.len() == m - i,
                forall|j: int|
                    0 <= j < m - i ==> sink_bits(#[trigger] rest@[j]) == aligned(
                        plane_stream::<F>(s, (i + j) as nat),
                    ),
                bytes_bits(out@) == bytes_bits(head) + planes_bits::<F>(s, i as nat),
            decreases m - i,
        {
            let w = rest.remove(0);
            proof {
                lemma_aligned_len(plane_stream::<F>(s, i as nat));
            }
            let mut bytes = sink_bytes(w);
            proof {
                lemma_bytes_bits_append(out@, bytes@);
            }
            out.append(&mut bytes);
            i = i + 1;
        }
        proof {
            assert(bytes_bits(out@) == container_bits::<F>(s));
            lemma_container_len::<F>(s, out@);
        }
        out
    }
}

proof fn lemma_exp_codes_prefix<F: IEEEFloat>(s: Seq<u64>, v: u64, n: nat)
    requires
        n <= s.len(),
    ensures
        exp_codes::<F>(s.push(v), n) == exp_codes::<F>(s, n),
        exp_codes::<F>(s.push(v), n + 1) == exp_codes::<F>(s, n) + codeword(
            delta_at::<F>(s.push(v), n as int),
        ),
    decreases n,
{
    let t = s.push(v);
    if n > 0 {
        lemma_exp_codes_prefix::<F>(s, v, (n - 1) as nat);
        assert(delta_at::<F>(t, n - 1) == delta_at::<F>(s, n - 1));
    }
    assert(((n + 1) - 1) as nat == n);
    assert(exp_codes::<F>(t, n + 1) == exp_codes::<F>(t, n) + codeword(delta_at::<F>(t, n as int)));
}

proof fn lemma_aligned_bytes(b: Seq<bool>)
    ensures
        aligned(b).len() == 8 * bytes_for(b.len()),
{
    lemma_aligned_len(b);
}

pub(crate) proof fn lemma_planes_len<F: IEEEFloat>(s: Seq<u64>, j: nat)
    ensures
        planes_bits::<F>(s, j).len() == j * (8 * bytes_for(s.len())),
    decreases j,
{
    if j > 0 {
        lemma_planes_len::<F>(s, (j - 1) as nat);
        lemma_aligned_bytes(plane_stream::<F>(s, (j - 1) as nat));
        let k = 8 * bytes_for(s.len());
        let jm = (j - 1) as nat;
        assert(plane_stream::<F>(s, jm).len() == s.len());
        assert(planes_bits::<F>(s, j).len() == planes_bits::<F>(s, jm).len() + k);
        assert(jm * k + k == j * k) by (nonlinear_arith)
            requires
                jm + 1 == j,
        ;
    } else {
        let k = 8 * bytes_for(s.len());
        assert(j * k == 0) by (nonlinear_arith)
            requires
                j == 0,
        ;
    }
}

/// For any run of samples, the container is exactly `container_len` bytes:
/// the 4-byte count, `ceil(n/8)` bytes for the sign stream, the exponent
/// stream rounded up to whole bytes, and `ceil(n/8)` bytes per mantissa
/// plane.
pub proof fn lemma_container_size<F: IEEEFloat>(s: Seq<u64>)
    ensures
        container_bits::<F>(s).len() == 8 * container_len::<F>(s),
{
    lemma_bits_be_len(s.len(), 32);
    lemma_aligned_bytes(sign_stream::<F>(s));
    lemma_aligned_bytes(exp_stream::<F>(s));
    lemma_planes_len::<F>(s, mbits::<F>());
    let k = bytes_for(s.len());
    assert(mbits::<F>() * (8 * k) == 8 * (mbits::<F>() * k)) by (nonlinear_arith);
}

proof fn lemma_container_len<F: IEEEFloat>(s: Seq<u64>, out: Seq<u8>)
    requires
        bytes_bits(out) == container_bits::<F>(s),
    ensures
        out.len() == container_len::<F>(s),
{
    lemma_bytes_bits_len(out);
    lemma_container_size::<F>(s);
}

/// The 32-bit big-endian bytes of `n`.
fn count_bytes(n: u32) -> (r: Vec<u8>)
    ensures
        bytes_bits(r@) == bits_be(n as nat, 32),
        r@.len() == 4,
{
    let c1 = n / 256;
    let c2 = c1 / 256;
    let c3 = c2 / 256;
    let r = vec![c3 as u8, (c2 % 256) as u8, (c1 % 256) as u8, (n % 256) as u8];
    proof {
        lemma2_to64();
        lemma_bits_be_split(n as nat, 24, 8);
        lemma_bits_be_split(c1 as nat, 16, 8);
        lemma_bits_be_split(c2 as nat, 8, 8);
        let b = r@;
        assert(b.drop_last().drop_last().drop_last().drop_last() =~= Seq::<u8>::empty());
        reveal_with_fuel(bytes_bits, 5);
        assert(bytes_bits(r@) =~= bits_be(n as nat, 32));
    }
    r
}

} // verus!
