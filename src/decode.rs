//! Decoding of a container back into the samples it holds.
use crate::bitio::{
    align_source, aligned, bits_be, bits_value, bytes_bits, lemma_aligned_len,
    lemma_bits_be_len, lemma_bits_be_split, lemma_bits_value_of_be, lemma_bytes_bits_len,
    padding, source_bits, take_bit, take_bits, BitSource,
};
use crate::chunk::{
    bytes_for, container_bits, delta_at, exp_codes, exp_even, exp_stream, plane_stream,
    planes_bits, prev_exp, sign_stream,
};
use crate::varint::{codeword, lemma_varint_round_trip};
use vstd::arithmetic::div_mod::lemma_breakdown;
use crate::error::CodecError;
use crate::ieee_float::{
    compose, exp_adv, exp_field, exp_modulus, exp_step, from_parts, in_centred_range,
    is_pattern, mantissa_field, mbits, sign_field, IEEEFloat,
};
use crate::varint;
use crate::varint::parse_code;
use vstd::arithmetic::power2::{lemma2_to64, lemma_pow2_pos, lemma_pow2_unfold, pow2};
use vstd::prelude::*;

verus! {

/// The sample count in the first 32 bits.
pub open spec fn header_count(b: Seq<bool>) -> nat {
    bits_value(b.take(16)) * 65536 + bits_value(b.subrange(16, 32))
}

/// Signs of the first `k` samples from the sign-change bits.
pub open spec fn decode_signs(bits: Seq<bool>, k: nat) -> Seq<bool>
    decreases k,
{
    if k == 0 {
        Seq::empty()
    } else {
        let prev = decode_signs(bits, (k - 1) as nat);
        let last = if k == 1 {
            false
        } else {
            prev.last()
        };
        prev.push(last != bits[k - 1])
    }
}

/// Exponents of the first `k` samples from the codewords at the start of
/// `b`, and the bits those codewords take; `None` where a codeword is
/// malformed or its delta lies outside the centred range.
pub open spec fn decode_exps<F: IEEEFloat>(b: Seq<bool>, k: nat) -> Option<(Seq<nat>, nat)>
    decreases k,
{
    if k == 0 {
        Some((Seq::empty(), 0))
    } else {
        match decode_exps::<F>(b, (k - 1) as nat) {
            None => None,
            Some((es, used)) => match parse_code(b.skip(used as int)) {
                None => None,
                Some((d, len)) => if in_centred_range::<F>(d) {
                    let prev: int = if k == 1 {
                        0
                    } else {
                        es.last() as int
                    };
                    Some((es.push(exp_step::<F>(prev, d) as nat), used + len))
                } else {
                    None
                },
            },
        }
    }
}

/// Bits `0..j` of the mantissa of sample `k`, read from the planes in `b`,
/// each `stride` bits apart.
pub open spec fn decode_mantissa(b: Seq<bool>, stride: nat, even: bool, k: nat, j: nat) -> nat
    decreases j,
{
    if j == 0 {
        0
    } else {
        decode_mantissa(b, stride, even, k, (j - 1) as nat) + (if b[(j - 1) * stride + k]
            == even {
            pow2((j - 1) as nat)
        } else {
            0
        })
    }
}

/// Bits each sign or mantissa-plane stream takes for `n` samples.
pub open spec fn stream_stride(n: nat) -> nat {
    8 * bytes_for(n)
}

/// The samples whose signs, exponents and mantissa planes (starting at `b3`)
/// are given, or `None` where the planes are cut short.
pub open spec fn decode_planes<F: IEEEFloat>(
    signs: Seq<bool>,
    es: Seq<nat>,
    b3: Seq<bool>,
    n: nat,
) -> Option<Seq<u64>> {
    let stride = stream_stride(n);
    if b3.len() < mbits::<F>() * stride {
        None
    } else {
        Some(
            Seq::new(
                n,
                |k: int|
                    compose::<F>(
                        signs[k],
                        es[k],
                        decode_mantissa(b3, stride, es[k] % 2 == 0, k as nat, mbits::<F>()),
                    ) as u64,
            ),
        )
    }
}

/// The `n` samples whose streams follow the count, starting at `b1`.
pub open spec fn decode_streams<F: IEEEFloat>(b1: Seq<bool>, n: nat) -> Option<Seq<u64>> {
    if b1.len() < n {
        None
    } else {
        let b2 = b1.skip(stream_stride(n) as int);
        match decode_exps::<F>(b2, n) {
            None => None,
            Some((es, used)) => decode_planes::<F>(
                decode_signs(b1, n),
                es,
                b2.skip((used + padding(used)) as int),
                n,
            ),
        }
    }
}

/// The samples held by the container `b`, or `None` where it is malformed.
pub open spec fn decode_container<F: IEEEFloat>(b: Seq<bool>) -> Option<Seq<u64>> {
    if b.len() < 32 {
        None
    } else {
        decode_streams::<F>(b.skip(32), header_count(b))
    }
}

proof fn lemma_decode_signs_len(bits: Seq<bool>, k: nat)
    ensures
        decode_signs(bits, k).len() == k,
    decreases k,
{
    if k > 0 {
        lemma_decode_signs_len(bits, (k - 1) as nat);
    }
}

proof fn lemma_align_skip(b: Seq<bool>, at: nat)
    requires
        b.len() % 8 == 0,
        at <= b.len(),
    ensures
        at + padding(at) <= b.len(),
        (at + padding(at)) % 8 == 0,
        b.skip(at as int).skip((b.skip(at as int).len() % 8) as int) == b.skip(
            (at + padding(at)) as int,
        ),
{
    assert(b.skip(at as int).len() % 8 == padding(at));
    assert(b.skip(at as int).skip((b.skip(at as int).len() % 8) as int) =~= b.skip(
        (at + padding(at)) as int,
    ));
}

proof fn lemma_decode_exps_none<F: IEEEFloat>(b: Seq<bool>, k: nat, n: nat)
    requires
        k <= n,
        decode_exps::<F>(b, k) is None,
    ensures
        decode_exps::<F>(b, n) is None,
    decreases n - k,
{
    if k < n {
        assert(decode_exps::<F>(b, k + 1) is None);
        lemma_decode_exps_none::<F>(b, k + 1, n);
    }
}

proof fn lemma_decode_mantissa_bound(b: Seq<bool>, stride: nat, even: bool, k: nat, j: nat)
    ensures
        decode_mantissa(b, stride, even, k, j) < pow2(j),
    decreases j,
{
    lemma2_to64();
    if j > 0 {
        lemma_decode_mantissa_bound(b, stride, even, k, (j - 1) as nat);
        lemma_pow2_unfold(j);
    }
}

/// Reads `n` sign-change bits and turns them into signs.
fn read_signs(src: &mut BitSource, n: usize, Ghost(b1): Ghost<Seq<bool>>) -> (r: Result<
    Vec<bool>,
    CodecError,
>)
    requires
        source_bits(*old(src)) == b1,
    ensures
        r is Ok <==> b1.len() >= n,
        r is Err ==> r == Err::<Vec<bool>, CodecError>(CodecError::CorruptStream),
        r is Ok ==> r->Ok_0@ == decode_signs(b1, n as nat) && source_bits(*final(src)) == b1.skip(
            n as int,
        ),
{
    let mut signs: Vec<bool> = Vec::new();
    let mut prev_sign = false;
    let mut k: usize = 0;
    while k < n
        invariant
            k <= n,
            b1.len() >= k,
            source_bits(*src) == b1.skip(k as int),
            signs@ == decode_signs(b1, k as nat),
            prev_sign == (if k == 0 {
                false
            } else {
                signs@.last()
            }),
        decreases n - k,
    {
        let bit = match take_bit(src) {
            Err(_) => return Err(CodecError::CorruptStream),
            Ok(v) => v,
        };
        let sign = prev_sign != bit;
        signs.push(sign);
        prev_sign = sign;
        proof {
            assert(b1.skip(k as int).drop_first() =~= b1.skip(k + 1));
            assert(((k + 1) - 1) as nat == k as nat);
        }
        k = k + 1;
    }
    Ok(signs)
}

/// Reads `n` exponent-delta codewords and turns them into exponents.
fn read_exps<F: IEEEFloat>(src: &mut BitSource, n: usize, Ghost(b2): Ghost<Seq<bool>>) -> (r:
    Result<Vec<u16>, CodecError>)
    requires
        source_bits(*old(src)) == b2,
    ensures
        match decode_exps::<F>(b2, n as nat) {
            Some((es, used)) => r is Ok && r->Ok_0@.len() == n && es.len() == n && (forall|i: int|
                0 <= i < n ==> es[i] == #[trigger] r->Ok_0@[i] && r->Ok_0@[i] < exp_modulus::<
                    F,
                >()) && used <= b2.len() && source_bits(*final(src)) == b2.skip(used as int),
            None => r == Err::<Vec<u16>, CodecError>(CodecError::CorruptStream),
        },
{
    proof {
        crate::ieee_float::lemma_shape_facts::<F>();
    }
    let bound = crate::ieee_float::exp_modulus_exec::<F>();
    let half = (bound / 2) as i16;
    let mut exps: Vec<u16> = Vec::new();
    let ghost mut es: Seq<nat> = Seq::empty();
    let ghost mut used: nat = 0;
    let mut prev_exp: u16 = 0;
    let mut k: usize = 0;
    while k < n
        invariant
            k <= n,
            bound == exp_modulus::<F>(),
            half == crate::ieee_float::exp_half::<F>(),
            4 <= bound <= 2048,
            2 * half == bound,
            used <= b2.len(),
            source_bits(*src) == b2.skip(used as int),
            decode_exps::<F>(b2, k as nat) == Some((es, used)),
            exps@.len() == k,
            es.len() == k,
            forall|i: int| 0 <= i < k ==> es[i] == #[trigger] exps@[i] && exps@[i] < bound,
            prev_exp == (if k == 0 {
                0
            } else {
                exps@.last()
            }),
            prev_exp < bound,
        decreases n - k,
    {
        let ghost here = b2.skip(used as int);
        assert(((k + 1) - 1) as nat == k as nat);
        let d = match varint::read(src) {
            Err(_) => {
                proof {
                    lemma_decode_exps_none::<F>(b2, (k + 1) as nat, n as nat);
                }
                return Err(CodecError::CorruptStream);
            },
            Ok(v) => v,
        };
        if d <= -half || d > half {
            proof {
                lemma_decode_exps_none::<F>(b2, (k + 1) as nat, n as nat);
            }
            return Err(CodecError::CorruptStream);
        }
        let e = exp_adv::<F>(prev_exp, d);
        proof {
            let len = parse_code(here)->Some_0.1;
            assert(b2.skip(used as int).skip(len as int) =~= b2.skip((used + len) as int));
            if k > 0 {
                assert(es.last() == exps@.last());
            }
            es = es.push(e as nat);
            used = used + len;
        }
        exps.push(e);
        prev_exp = e;
        k = k + 1;
    }
    Ok(exps)
}

/// Reads the mantissa planes, each `n` bits padded to `stride` bits, and
/// assembles the mantissas; `es` are the samples' exponents.
fn read_planes<F: IEEEFloat>(
    src: &mut BitSource,
    exps: &Vec<u16>,
    Ghost(es): Ghost<Seq<nat>>,
    Ghost(b3): Ghost<Seq<bool>>,
    Ghost(stride): Ghost<nat>,
) -> (r: Result<Vec<u64>, CodecError>)
    requires
        source_bits(*old(src)) == b3,
        b3.len() % 8 == 0,
        stride == 8 * bytes_for(exps@.len() as nat),
        es.len() == exps@.len(),
        forall|i: int| 0 <= i < es.len() ==> es[i] == #[trigger] exps@[i],
    ensures
        r is Ok <==> b3.len() >= mbits::<F>() * stride,
        r is Err ==> r == Err::<Vec<u64>, CodecError>(CodecError::CorruptStream),
        r is Ok ==> r->Ok_0@.len() == exps@.len() && forall|i: int|
            0 <= i < exps@.len() ==> #[trigger] r->Ok_0@[i] == decode_mantissa(
                b3,
                stride,
                es[i] % 2 == 0,
                i as nat,
                mbits::<F>(),
            ) && r->Ok_0@[i] < pow2(mbits::<F>()),
{
    proof {
        lemma2_to64();
        crate::ieee_float::lemma_shape_facts::<F>();
    }
    let n = exps.len();
    let mut mants: Vec<u64> = Vec::new();
    let mut k: usize = 0;
    while k < n
        invariant
            k <= n,
            mants@.len() == k,
            forall|i: int| 0 <= i < k ==> #[trigger] mants@[i] == 0,
        decreases n - k,
    {
        mants.push(0);
        k = k + 1;
    }
    let m = F::mantissa_bits();
    let mut j: u64 = 0;
    while j < m
        invariant
            j <= m,
            m == mbits::<F>(),
            m < 64,
            n == exps@.len(),
            mants@.len() == n,
            es.len() == n,
            forall|i: int| 0 <= i < n ==> es[i] == #[trigger] exps@[i],
            b3.len() % 8 == 0,
            stride == 8 * bytes_for(n as nat),
            j * stride <= b3.len(),
            source_bits(*src) == b3.skip(j * stride),
            forall|i: int|
                0 <= i < n ==> #[trigger] mants@[i] == decode_mantissa(
                    b3,
                    stride,
                    es[i] % 2 == 0,
                    i as nat,
                    j as nat,
                ),
        decreases m - j,
    {
        proof {
            vstd::bits::lemma_u64_pow2_no_overflow(j as nat);
            vstd::bits::lemma_u64_shl_is_mul(1, j);
            vstd::arithmetic::power2::lemma_pow2_strictly_increases(j as nat, 64);
        }
        let step: u64 = 1u64 << j;
        k = 0;
        while k < n
            invariant
                j < m,
                m < 64,
                step == pow2(j as nat),
                pow2(j as nat) < pow2(64),
                k <= n,
                m == mbits::<F>(),
                n == exps@.len(),
                mants@.len() == n,
                es.len() == n,
                forall|i: int| 0 <= i < n ==> es[i] == #[trigger] exps@[i],
                j * stride + k <= b3.len(),
                b3.len() % 8 == 0,
                stride == 8 * bytes_for(n as nat),
                source_bits(*src) == b3.skip(j * stride + k),
                forall|i: int|
                    0 <= i < k ==> #[trigger] mants@[i] == decode_mantissa(
                        b3,
                        stride,
                        es[i] % 2 == 0,
                        i as nat,
                        (j + 1) as nat,
                    ),
                forall|i: int|
                    k <= i < n ==> #[trigger] mants@[i] == decode_mantissa(
                        b3,
                        stride,
                        es[i] % 2 == 0,
                        i as nat,
                        j as nat,
                    ),
            decreases n - k,
        {
            let bit = match take_bit(src) {
                Err(_) => {
                    proof {
                        assert(j * stride + stride <= m * stride) by (nonlinear_arith)
                            requires
                                j < m,
                        ;
                        assert(n <= stride);
                        assert(b3.len() < mbits::<F>() * stride);
                    }
                    return Err(CodecError::CorruptStream);
                },
                Ok(v) => v,
            };
            proof {
                lemma_decode_mantissa_bound(b3, stride, es[k as int] % 2 == 0, k as nat, j as nat);
                lemma_pow2_unfold((j + 1) as nat);
                vstd::arithmetic::power2::lemma_pow2_strictly_increases((j + 1) as nat, 64);
                vstd::arithmetic::power2::lemma2_to64_rest();
                assert(mants@[k as int] == decode_mantissa(
                    b3,
                    stride,
                    es[k as int] % 2 == 0,
                    k as nat,
                    j as nat,
                ));
                assert(b3.skip(j * stride + k).drop_first() =~= b3.skip(j * stride + k + 1));
                assert(((j + 1) - 1) as nat == j as nat);
            }
            if bit == (exps[k] % 2 == 0) {
                let v = mants[k] + step;
                mants.set(k, v);
            }
            k = k + 1;
        }
        align_source(src);
        proof {
            let q = bytes_for(n as nat);
            assert(j * stride == 8 * (j * q)) by (nonlinear_arith)
                requires
                    stride == 8 * q,
            ;
            assert((j + 1) * stride == j * stride + stride) by (nonlinear_arith);
            assert(n <= stride);
            assert(b3.skip(j * stride + n).skip((b3.skip(j * stride + n).len() % 8) as int)
                =~= b3.skip((j + 1) * stride));
        }
        j = j + 1;
    }
    proof {
        assert forall|i: int| 0 <= i < n implies #[trigger] mants@[i] < pow2(mbits::<F>()) by {
            lemma_decode_mantissa_bound(b3, stride, es[i] % 2 == 0, i as nat, m as nat);
        }
    }
    Ok(mants)
}

/// Reads the samples held by a container of the shape `F`.
pub fn deserialize<F: IEEEFloat>(bytes: Vec<u8>) -> (r: Result<Vec<u64>, CodecError>)
    ensures
        match decode_container::<F>(bytes_bits(bytes@)) {
            Some(s) => r is Ok && r->Ok_0@ == s,
            None => r == Err::<Vec<u64>, CodecError>(CodecError::CorruptStream),
        },
{
    let ghost b = bytes_bits(bytes@);
    proof {
        lemma_bytes_bits_len(bytes@);
        lemma2_to64();
        crate::ieee_float::lemma_shape_facts::<F>();
    }
    let mut src = crate::bitio::new_source(bytes);
    let hi = match take_bits(&mut src, 16) {
        Err(_) => return Err(CodecError::CorruptStream),
        Ok(v) => v,
    };
    let lo = match take_bits(&mut src, 16) {
        Err(_) => return Err(CodecError::CorruptStream),
        Ok(v) => v,
    };
    proof {
        assert(b.skip(16).take(16) =~= b.subrange(16, 32));
        assert(b.skip(16).skip(16) =~= b.skip(32));
    }
    let n: usize = hi as usize * 65536 + lo as usize;
    let ghost stride = stream_stride(n as nat);
    let ghost b1 = b.skip(32);
    assert(n as nat == header_count(b));
    assert(decode_container::<F>(b) == decode_streams::<F>(b1, n as nat));
    proof {
        assert(b1.len() == 8 * (bytes@.len() - 4));
    }
    read_streams::<F>(&mut src, n, Ghost(b1))
}

/// Reads the streams of `n` samples that follow the count.
#[verifier::rlimit(100)]
fn read_streams<F: IEEEFloat>(
    src: &mut BitSource,
    n: usize,
    Ghost(b1): Ghost<Seq<bool>>,
) -> (r: Result<Vec<u64>, CodecError>)
    requires
        source_bits(*old(src)) == b1,
        b1.len() % 8 == 0,
    ensures
        match decode_streams::<F>(b1, n as nat) {
            Some(s) => r is Ok && r->Ok_0@ == s,
            None => r == Err::<Vec<u64>, CodecError>(CodecError::CorruptStream),
        },
{
    let ghost stride = stream_stride(n as nat);
    let signs = match read_signs(src, n, Ghost(b1)) {
        Err(e) => return Err(e),
        Ok(v) => v,
    };
    align_source(src);
    let ghost b2 = b1.skip(stride as int);
    proof {
        lemma_decode_signs_len(b1, n as nat);
        lemma_align_skip(b1, n as nat);
        assert(stride == n + padding(n as nat));
    }
    let exps = match read_exps::<F>(src, n, Ghost(b2)) {
        Err(e) => return Err(e),
        Ok(v) => v,
    };
    let ghost es = decode_exps::<F>(b2, n as nat)->Some_0.0;
    let ghost used = decode_exps::<F>(b2, n as nat)->Some_0.1;
    align_source(src);
    let ghost b3 = b2.skip((used + padding(used)) as int);
    proof {
        lemma_align_skip(b2, used);
    }
    assert(decode_streams::<F>(b1, n as nat) == decode_planes::<F>(signs@, es, b3, n as nat));
    let mants = match read_planes::<F>(src, &exps, Ghost(es), Ghost(b3), Ghost(stride)) {
        Err(e) => return Err(e),
        Ok(v) => v,
    };
    proof {
        assert forall|i: int| 0 <= i < n implies #[trigger] exps@[i] < exp_modulus::<F>()
            && mants@[i] < pow2(mbits::<F>()) by {
            assert(es[i] == exps@[i]);
        }
    }
    let out = assemble::<F>(&signs, &exps, &mants);
    proof {
        let expected = decode_planes::<F>(signs@, es, b3, n as nat)->Some_0;
        assert(out@ =~= expected);
    }
    Ok(out)
}

/// The bit patterns with the given fields.
fn assemble<F: IEEEFloat>(signs: &Vec<bool>, exps: &Vec<u16>, mants: &Vec<u64>) -> (r: Vec<u64>)
    requires
        signs@.len() == exps@.len(),
        mants@.len() == exps@.len(),
        forall|i: int|
            0 <= i < exps@.len() ==> #[trigger] exps@[i] < exp_modulus::<F>() && mants@[i] < pow2(
                mbits::<F>(),
            ),
    ensures
        r@ == Seq::new(
            exps@.len(),
            |i: int| compose::<F>(signs@[i], exps@[i] as nat, mants@[i] as nat) as u64,
        ),
{
    let n = exps.len();
    let mut out: Vec<u64> = Vec::new();
    let mut k: usize = 0;
    while k < n
        invariant
            k <= n,
            n == exps@.len(),
            signs@.len() == n,
            mants@.len() == n,
            forall|i: int|
                0 <= i < n ==> #[trigger] exps@[i] < exp_modulus::<F>() && mants@[i] < pow2(
                    mbits::<F>(),
                ),
            out@ =~= Seq::new(
                k as nat,
                |i: int| compose::<F>(signs@[i], exps@[i] as nat, mants@[i] as nat) as u64,
            ),
        decreases n - k,
    {
        proof {
            crate::ieee_float::lemma_shape_facts::<F>();
            vstd::arithmetic::div_mod::lemma_small_mod(
                exps@[k as int] as nat,
                exp_modulus::<F>() as nat,
            );
            vstd::arithmetic::div_mod::lemma_small_mod(mants@[k as int] as nat, pow2(mbits::<F>()));
        }
        let v = from_parts::<F>(signs[k], exps[k], mants[k]);
        out.push(v);
        k = k + 1;
        proof {
            assert(out@ =~= Seq::new(
                k as nat,
                |i: int| compose::<F>(signs@[i], exps@[i] as nat, mants@[i] as nat) as u64,
            ));
        }
    }
    out
}

proof fn lemma_header(n: nat, rest: Seq<bool>)
    requires
        n < pow2(32),
    ensures
        header_count(bits_be(n, 32) + rest) == n,
        (bits_be(n, 32) + rest).skip(32) == rest,
{
    lemma2_to64();
    let b = bits_be(n, 32) + rest;
    lemma_bits_be_split(n, 16, 16);
    lemma_bits_be_len(n / 65536, 16);
    lemma_bits_be_len(n % 65536, 16);
    lemma_bits_value_of_be(n / 65536, 16);
    lemma_bits_value_of_be(n % 65536, 16);
    assert(b.take(16) =~= bits_be(n / 65536, 16));
    assert(b.subrange(16, 32) =~= bits_be(n % 65536, 16));
    assert(b.skip(32) =~= rest);
}

proof fn lemma_signs_round_trip<F: IEEEFloat>(s: Seq<u64>, b1: Seq<bool>, k: nat)
    requires
        k <= s.len(),
        b1.len() >= s.len(),
        forall|i: int| 0 <= i < s.len() ==> b1[i] == #[trigger] sign_stream::<F>(s)[i],
    ensures
        decode_signs(b1, k) == Seq::new(k, |i: int| sign_field::<F>(s[i])),
    decreases k,
{
    if k > 0 {
        lemma_signs_round_trip::<F>(s, b1, (k - 1) as nat);
        assert(b1[k - 1] == sign_stream::<F>(s)[k - 1]);
        assert(decode_signs(b1, k) =~= Seq::new(k, |i: int| sign_field::<F>(s[i])));
    }
}

proof fn lemma_exp_codes_split<F: IEEEFloat>(s: Seq<u64>, k: nat, n: nat)
    requires
        k <= n,
    ensures
        exp_codes::<F>(s, n) == exp_codes::<F>(s, k) + exp_codes::<F>(s, n).skip(
            exp_codes::<F>(s, k).len() as int,
        ),
    decreases n,
{
    if k < n {
        lemma_exp_codes_split::<F>(s, k, (n - 1) as nat);
    }
    assert(exp_codes::<F>(s, n) =~= exp_codes::<F>(s, k) + exp_codes::<F>(s, n).skip(
        exp_codes::<F>(s, k).len() as int,
    ));
}

proof fn lemma_exps_round_trip<F: IEEEFloat>(s: Seq<u64>, rest: Seq<bool>, k: nat)
    requires
        k <= s.len(),
    ensures
        decode_exps::<F>(exp_stream::<F>(s) + rest, k) == Some(
            (Seq::new(k, |i: int| exp_field::<F>(s[i])), exp_codes::<F>(s, k).len()),
        ),
    decreases k,
{
    let b2 = exp_stream::<F>(s) + rest;
    if k > 0 {
        let j = (k - 1) as nat;
        lemma_exps_round_trip::<F>(s, rest, j);
        crate::ieee_float::lemma_shape_facts::<F>();
        let prev = prev_exp::<F>(s, j as int);
        let cur = exp_field::<F>(s[j as int]);
        crate::ieee_float::lemma_exp_modular::<F>(prev as int, cur as int);
        let d = delta_at::<F>(s, j as int);
        let u = exp_codes::<F>(s, j).len();
        lemma_exp_codes_split::<F>(s, k, s.len());
        assert(exp_codes::<F>(s, k) == exp_codes::<F>(s, j) + codeword(d));
        let tail = exp_codes::<F>(s, s.len()).skip(exp_codes::<F>(s, k).len() as int) + rest;
        assert(b2.skip(u as int) =~= codeword(d) + tail);
        lemma_varint_round_trip(d, tail);
        assert(Seq::new(j, |i: int| exp_field::<F>(s[i])).push(cur) =~= Seq::new(
            k,
            |i: int| exp_field::<F>(s[i]),
        ));
    }
}

proof fn lemma_planes_index<F: IEEEFloat>(s: Seq<u64>, jj: nat, j: nat, k: nat)
    requires
        j < jj,
        k < s.len(),
    ensures
        planes_bits::<F>(s, jj).len() == jj * stream_stride(s.len()),
        planes_bits::<F>(s, jj)[(j * stream_stride(s.len()) + k) as int] == plane_stream::<F>(
            s,
            j,
        )[k as int],
    decreases jj,
{
    let stride = stream_stride(s.len());
    lemma_aligned_len(plane_stream::<F>(s, (jj - 1) as nat));
    assert(k < stride);
    if jj > 1 {
        let jm = (jj - 1) as nat;
        if j < jm {
            lemma_planes_index::<F>(s, jm, j, k);
        } else {
            lemma_planes_index::<F>(s, jm, 0, k);
        }
        assert(jm * stride + stride == jj * stride) by (nonlinear_arith)
            requires
                jm + 1 == jj,
        ;
        if j < jm {
            assert(j * stride + k < jm * stride) by (nonlinear_arith)
                requires
                    j < jm,
                    k < stride,
            ;
        }
    } else {
        assert(planes_bits::<F>(s, 0) =~= Seq::<bool>::empty());
        assert(j == 0);
        assert(jj * stride == stride) by (nonlinear_arith)
            requires
                jj == 1,
        ;
        assert(j * stride + k == k) by (nonlinear_arith)
            requires
                j == 0,
        ;
    }
}

proof fn lemma_mantissa_round_trip<F: IEEEFloat>(s: Seq<u64>, k: nat, jj: nat)
    requires
        k < s.len(),
        jj <= mbits::<F>(),
    ensures
        decode_mantissa(
            planes_bits::<F>(s, mbits::<F>()),
            stream_stride(s.len()),
            exp_even::<F>(s[k as int]),
            k,
            jj,
        ) == mantissa_field::<F>(s[k as int]) % pow2(jj),
    decreases jj,
{
    lemma2_to64();
    let mt = mantissa_field::<F>(s[k as int]);
    if jj == 0 {
        assert(mt % 1 == 0);
    } else {
        let j = (jj - 1) as nat;
        lemma_mantissa_round_trip::<F>(s, k, j);
        lemma_planes_index::<F>(s, mbits::<F>(), j, k);
        lemma_pow2_pos(j);
        lemma_pow2_unfold(jj);
        lemma_breakdown(mt as int, pow2(j) as int, 2);
        assert(pow2(j) * 2 == pow2(jj));
    }
}

/// The planes of the samples `s`, read with their signs and exponents,
/// give back `s`.
proof fn lemma_planes_round_trip<F: IEEEFloat>(s: Seq<u64>)
    requires
        forall|k: int| 0 <= k < s.len() ==> #[trigger] is_pattern::<F>(s[k]),
    ensures
        decode_planes::<F>(
            Seq::new(s.len(), |i: int| sign_field::<F>(s[i])),
            Seq::new(s.len(), |i: int| exp_field::<F>(s[i])),
            planes_bits::<F>(s, mbits::<F>()),
            s.len(),
        ) == Some(s),
{
    crate::ieee_float::lemma_shape_facts::<F>();
    let n = s.len();
    let m = mbits::<F>();
    let stride = stream_stride(n);
    let b3 = planes_bits::<F>(s, m);
    crate::chunk::lemma_planes_len::<F>(s, m);
    let signs = Seq::new(n, |i: int| sign_field::<F>(s[i]));
    let es = Seq::new(n, |i: int| exp_field::<F>(s[i]));
    let out = Seq::new(
        n,
        |k: int|
            compose::<F>(
                signs[k],
                es[k],
                decode_mantissa(b3, stride, es[k] % 2 == 0, k as nat, m),
            ) as u64,
    );
    assert forall|k: int| 0 <= k < n implies out[k] == s[k] by {
        lemma_mantissa_round_trip::<F>(s, k as nat, m);
        crate::ieee_float::lemma_field_round_trip::<F>(s[k]);
        vstd::arithmetic::div_mod::lemma_small_mod(mantissa_field::<F>(s[k]), pow2(m));
    }
    assert(out =~= s);
}

/// The streams after the count: the signs, then the exponents, then the
/// planes where the exponent stream's padding ends.
proof fn lemma_streams_layout<F: IEEEFloat>(s: Seq<u64>)
    ensures
        ({
            let n = s.len();
            let b1 = aligned(sign_stream::<F>(s)) + aligned(exp_stream::<F>(s)) + planes_bits::<F>(
                s,
                mbits::<F>(),
            );
            let b2 = b1.skip(stream_stride(n) as int);
            let used = exp_stream::<F>(s).len();
            &&& b1.len() >= n
            &&& decode_signs(b1, n) == Seq::new(n, |i: int| sign_field::<F>(s[i]))
            &&& decode_exps::<F>(b2, n) == Some(
                (Seq::new(n, |i: int| exp_field::<F>(s[i])), used),
            )
            &&& b2.skip((used + padding(used)) as int) == planes_bits::<F>(s, mbits::<F>())
        }),
{
    let n = s.len();
    let sg = aligned(sign_stream::<F>(s));
    let pad = Seq::new(padding(exp_stream::<F>(s).len()), |i: int| false);
    let pl = planes_bits::<F>(s, mbits::<F>());
    let b1 = sg + aligned(exp_stream::<F>(s)) + pl;
    lemma_aligned_len(sign_stream::<F>(s));
    assert(forall|i: int| 0 <= i < n ==> b1[i] == #[trigger] sign_stream::<F>(s)[i]);
    lemma_signs_round_trip::<F>(s, b1, n);
    let b2 = b1.skip(stream_stride(n) as int);
    assert(b2 =~= exp_stream::<F>(s) + (pad + pl));
    lemma_exps_round_trip::<F>(s, pad + pl, n);
    let used = exp_stream::<F>(s).len();
    assert(b2.skip((used + padding(used)) as int) =~= pl);
}

/// Decoding the container of any run of samples of the shape gives back
/// exactly those samples, bit for bit.
pub proof fn lemma_chunk_round_trip<F: IEEEFloat>(s: Seq<u64>)
    requires
        s.len() < pow2(32),
        forall|k: int| 0 <= k < s.len() ==> #[trigger] is_pattern::<F>(s[k]),
    ensures
        decode_container::<F>(container_bits::<F>(s)) == Some(s),
{
    let n = s.len();
    let b1 = aligned(sign_stream::<F>(s)) + aligned(exp_stream::<F>(s)) + planes_bits::<F>(
        s,
        mbits::<F>(),
    );
    let b = container_bits::<F>(s);
    assert(b =~= bits_be(n, 32) + b1);
    lemma_header(n, b1);
    lemma_bits_be_len(n, 32);
    lemma_streams_layout::<F>(s);
    lemma_planes_round_trip::<F>(s);
}

} // verus!
