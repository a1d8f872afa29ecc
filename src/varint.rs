//! A prefix-free variable-length code for small signed integers.
//!
//! | value             | prefix        | payload                 |
//! |-------------------|---------------|-------------------------|
//! | 0                 | `00`          |                         |
//! | 1                 | `01`          |                         |
//! | -1                | `10`          |                         |
//! | magnitude 2..17   | `110` + sign  | 4 bits, magnitude - 2   |
//! | magnitude 18..145 | `1110` + sign | 7 bits, magnitude - 18  |
//! | magnitude 146..1169 | `11110` + sign | 10 bits, magnitude - 146 |
//!
//! The prefix `11111` is reserved and never produced.
use crate::bitio::{
    bits_be, bits_value, lemma_bits_be_len, lemma_bits_value_of_be, put_bit, put_bits,
    sink_bits, source_bits, take_bit, take_bits, BitSink, BitSource,
};
use crate::error::CodecError;
use vstd::arithmetic::power2::{lemma2_to64, pow2};
use vstd::prelude::*;

verus! {

pub open spec fn magnitude(x: int) -> int {
    if x < 0 {
        -x
    } else {
        x
    }
}

/// The values the code can carry.
pub open spec fn in_code_range(x: int) -> bool {
    magnitude(x) <= 1169
}

/// The codeword of `x`.
pub open spec fn codeword(x: int) -> Seq<bool> {
    let neg = x < 0;
    let a = magnitude(x);
    if x == 0 {
        seq![false, false]
    } else if x == 1 {
        seq![false, true]
    } else if x == -1 {
        seq![true, false]
    } else if a < 18 {
        seq![true, true, false, neg] + bits_be((a - 2) as nat, 4)
    } else if a < 146 {
        seq![true, true, true, false, neg] + bits_be((a - 18) as nat, 7)
    } else {
        seq![true, true, true, true, false, neg] + bits_be((a - 146) as nat, 10)
    }
}

/// A sign bit at `at`, then a `width`-bit offset from `base`: the signed
/// value and the number of bits used up to the end of the offset.
pub open spec fn band(b: Seq<bool>, at: nat, width: nat, base: int) -> Option<(int, nat)> {
    if b.len() < at + 1 + width {
        None
    } else {
        let mag = base + bits_value(b.subrange(at + 1 as int, at + 1 + width as int));
        Some(
            (
                if b[at as int] {
                    -mag
                } else {
                    mag
                },
                at + 1 + width,
            ),
        )
    }
}

/// What follows a leading `11`: the value and the bits it takes.
pub open spec fn parse_tail(b: Seq<bool>) -> Option<(int, nat)> {
    if b.len() < 1 {
        None
    } else if !b[0] {
        band(b, 1, 4, 2)
    } else if b.len() < 2 {
        None
    } else if !b[1] {
        band(b, 2, 7, 18)
    } else if b.len() < 3 {
        None
    } else if !b[2] {
        band(b, 3, 10, 146)
    } else {
        None
    }
}

/// The value coded at the start of `b` and the number of bits its codeword
/// takes, or `None` where `b` ends early or starts with the reserved prefix.
pub open spec fn parse_code(b: Seq<bool>) -> Option<(int, nat)> {
    if b.len() < 2 {
        None
    } else if !b[0] && !b[1] {
        Some((0, 2))
    } else if !b[0] && b[1] {
        Some((1, 2))
    } else if b[0] && !b[1] {
        Some((-1, 2))
    } else {
        match parse_tail(b.skip(2)) {
            Some((x, n)) => Some((x, n + 2)),
            None => None,
        }
    }
}

proof fn lemma_prefix_bits()
    ensures
        bits_be(0, 2) == seq![false, false],
        bits_be(1, 2) == seq![false, true],
        bits_be(2, 2) == seq![true, false],
        bits_be(6, 3) == seq![true, true, false],
        bits_be(14, 4) == seq![true, true, true, false],
        bits_be(30, 5) == seq![true, true, true, true, false],
{
    reveal_with_fuel(bits_be, 6);
    assert(bits_be(0, 2) =~= seq![false, false]);
    assert(bits_be(1, 2) =~= seq![false, true]);
    assert(bits_be(2, 2) =~= seq![true, false]);
    assert(bits_be(6, 3) =~= seq![true, true, false]);
    assert(bits_be(14, 4) =~= seq![true, true, true, false]);
    assert(bits_be(30, 5) =~= seq![true, true, true, true, false]);
}

proof fn lemma_band_of(head: Seq<bool>, neg: bool, v: nat, width: nat, base: int, rest: Seq<bool>)
    requires
        v < pow2(width),
    ensures
        band(head.push(neg) + bits_be(v, width) + rest, head.len(), width, base) == Some(
            (
                if neg {
                    -(base + v)
                } else {
                    base + v
                },
                head.len() + 1 + width,
            ),
        ),
{
    lemma_bits_be_len(v, width);
    lemma_bits_value_of_be(v, width);
    let b = head.push(neg) + bits_be(v, width) + rest;
    let at = head.len();
    assert(b.subrange(at + 1 as int, at + 1 + width as int) =~= bits_be(v, width));
    assert(b[at as int] == neg);
}

/// Every value in range is read back from its codeword, whatever follows it,
/// and the whole codeword is used up.
pub proof fn lemma_varint_round_trip(x: int, rest: Seq<bool>)
    requires
        in_code_range(x),
    ensures
        parse_code(codeword(x) + rest) == Some((x, codeword(x).len())),
{
    lemma2_to64();
    let neg = x < 0;
    let a = magnitude(x);
    let b = codeword(x) + rest;
    if x == 0 || x == 1 || x == -1 {
    } else if a < 18 {
        lemma_bits_be_len((a - 2) as nat, 4);
        lemma_band_of(seq![false], neg, (a - 2) as nat, 4, 2, rest);
        assert(b.skip(2) =~= seq![false].push(neg) + bits_be((a - 2) as nat, 4) + rest);
    } else if a < 146 {
        lemma_bits_be_len((a - 18) as nat, 7);
        lemma_band_of(seq![true, false], neg, (a - 18) as nat, 7, 18, rest);
        assert(b.skip(2) =~= seq![true, false].push(neg) + bits_be((a - 18) as nat, 7) + rest);
    } else {
        lemma_bits_be_len((a - 146) as nat, 10);
        lemma_band_of(seq![true, true, false], neg, (a - 146) as nat, 10, 146, rest);
        assert(b.skip(2) =~= seq![true, true, false].push(neg) + bits_be((a - 146) as nat, 10)
            + rest);
    }
}

/// Appends the codeword of `x` to `stream`; a value outside the code's
/// range is refused and nothing is written.
pub fn write(x: i16, stream: &mut BitSink) -> (r: Result<(), CodecError>)
    ensures
        in_code_range(x as int) ==> r is Ok && sink_bits(*final(stream)) == sink_bits(
            *old(stream),
        ) + codeword(x as int),
        !in_code_range(x as int) ==> r == Err::<(), CodecError>(CodecError::UnsupportedMagnitude)
            && sink_bits(*final(stream)) == sink_bits(*old(stream)),
{
    proof {
        lemma_prefix_bits();
        lemma2_to64();
    }
    if x < -1169 || x > 1169 {
        return Err(CodecError::UnsupportedMagnitude);
    }
    let ghost start = sink_bits(*stream);
    if x == 0 {
        let _ = put_bits(stream, 2, 0);
    } else if x == 1 {
        let _ = put_bits(stream, 2, 1);
    } else if x == -1 {
        let _ = put_bits(stream, 2, 2);
    } else {
        let neg: bool = x < 0;
        let absx: u16 = (if neg {
            -x
        } else {
            x
        }) as u16;
        let (prefix, plen, width, base): (u16, u32, u32, u16) = if absx < 18 {
            (6, 3, 4, 2)
        } else if absx < 146 {
            (14, 4, 7, 18)
        } else {
            (30, 5, 10, 146)
        };
        let _ = put_bits(stream, plen, prefix);
        let _ = put_bit(stream, neg);
        let _ = put_bits(stream, width, absx - base);
    }
    proof {
        assert(sink_bits(*stream) =~= start + codeword(x as int));
    }
    Ok(())
}

/// What follows a leading `11` in a codeword: the sign and the magnitude.
fn read_sign_and_value(stream: &mut BitSource) -> (r: Result<(bool, u16), CodecError>)
    ensures
        match parse_tail(source_bits(*old(stream))) {
            Some((x, n)) => r is Ok && (if r->Ok_0.0 {
                -(r->Ok_0.1 as int)
            } else {
                r->Ok_0.1 as int
            }) == x && 2 <= r->Ok_0.1 <= 1169 && source_bits(*final(stream)) == source_bits(
                *old(stream),
            ).skip(n as int),
            None => r == Err::<(bool, u16), CodecError>(CodecError::CorruptStream),
        },
{
    let ghost b = source_bits(*stream);
    proof {
        lemma2_to64();
    }
    let (at, width, base): (u32, u32, u16) = match take_bit(stream) {
        Err(_) => return Err(CodecError::CorruptStream),
        Ok(false) => (1, 4, 2),
        Ok(true) => match take_bit(stream) {
            Err(_) => return Err(CodecError::CorruptStream),
            Ok(false) => (2, 7, 18),
            Ok(true) => match take_bit(stream) {
                Err(_) => return Err(CodecError::CorruptStream),
                Ok(false) => (3, 10, 146),
                Ok(true) => return Err(CodecError::CorruptStream),
            },
        },
    };
    assert(source_bits(*stream) =~= b.skip(at as int));
    let neg = match take_bit(stream) {
        Err(_) => return Err(CodecError::CorruptStream),
        Ok(v) => v,
    };
    assert(neg == b[at as int]);
    assert(source_bits(*stream) =~= b.skip(at + 1));
    let offset = match take_bits(stream, width) {
        Err(_) => return Err(CodecError::CorruptStream),
        Ok(v) => v,
    };
    proof {
        assert(b.skip(at + 1).take(width as int) =~= b.subrange(
            at + 1 as int,
            at + 1 + width as int,
        ));
        assert(source_bits(*stream) =~= b.skip(at + 1 + width));
        lemma_bits_value_bound(b.subrange(at + 1 as int, at + 1 + width as int));
    }
    Ok((neg, offset + base))
}

proof fn lemma_bits_value_bound(b: Seq<bool>)
    ensures
        bits_value(b) < pow2(b.len()),
    decreases b.len(),
{
    vstd::arithmetic::power2::lemma2_to64();
    if b.len() > 0 {
        lemma_bits_value_bound(b.drop_last());
        vstd::arithmetic::power2::lemma_pow2_unfold(b.len());
    }
}

/// Reads one codeword from `stream`.
pub fn read(stream: &mut BitSource) -> (r: Result<i16, CodecError>)
    ensures
        match parse_code(source_bits(*old(stream))) {
            Some((x, n)) => r == Ok::<i16, CodecError>(x as i16) && in_code_range(x)
                && source_bits(*final(stream)) == source_bits(*old(stream)).skip(n as int),
            None => r == Err::<i16, CodecError>(CodecError::CorruptStream),
        },
{
    let ghost b = source_bits(*stream);
    let prefix = match take_bits(stream, 2) {
        Err(_) => return Err(CodecError::CorruptStream),
        Ok(v) => v,
    };
    proof {
        reveal_with_fuel(bits_value, 3);
        let t = b.take(2);
        assert(t.drop_last().drop_last() =~= Seq::<bool>::empty());
        assert(t.drop_last().last() == b[0]);
        assert(t.last() == b[1]);
    }
    if prefix == 0 {
        Ok(0)
    } else if prefix == 1 {
        Ok(1)
    } else if prefix == 2 {
        Ok(-1)
    } else {
        let (neg, absx) = match read_sign_and_value(stream) {
            Err(e) => return Err(e),
            Ok(v) => v,
        };
        proof {
            assert(b.skip(2).skip((parse_tail(b.skip(2))->Some_0.1) as int) =~= b.skip(
                (parse_code(b)->Some_0.1) as int,
            ));
        }
        if neg {
            Ok(-(absx as i16))
        } else {
            Ok(absx as i16)
        }
    }
}

} // verus!
