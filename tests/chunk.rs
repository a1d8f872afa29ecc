use floatplanes::decode::deserialize;
use floatplanes::error::CodecError;
use rand::Rng;
use floatplanes::chunk::WriteChunk;
use floatplanes::ieee_float::{Binary32, Binary64};

fn serialize32(values: &[f32]) -> Vec<u8> {
    let mut chunk = WriteChunk::<Binary32>::new(values.len());
    for v in values {
        chunk.write(v.to_bits() as u64).unwrap();
    }
    assert_eq!(chunk.get_size(), values.len());
    chunk.complete().unwrap();
    chunk.serialize()
}

#[test]
fn concrete_scenario_bytes() {
    let out = serialize32(&[0.0f32, 1.0f32, -1.0f32 / 3.0f32]);
    let mut expected: Vec<u8> = vec![0, 0, 0, 3, 0x20, 0x39, 0xb7, 0x40];
    for i in 0..23 {
        if i >= 2 && i % 2 == 0 {
            expected.push(0x60);
        } else {
            expected.push(0x40);
        }
    }
    assert_eq!(out, expected);
}

#[test]
fn empty_chunk_is_only_the_count() {
    let out = serialize32(&[]);
    assert_eq!(out, vec![0, 0, 0, 0]);
}

#[test]
fn serialized_length_matches_formula() {
    let values: Vec<f32> = (0..37).map(|i| (i as f32) * 0.37 - 5.0).collect();
    let out = serialize32(&values);
    // every delta here is small enough to count its codeword bits directly
    let n = values.len();
    let mut exp_bits = 0usize;
    let mut prev: i32 = 0;
    for v in &values {
        let e = ((v.to_bits() >> 23) & 0xff) as i32;
        let d = (e - prev + 256) % 256;
        let d = if d < 128 { d } else { d - 256 };
        let a = d.abs();
        exp_bits += if a <= 1 { 2 } else if a < 18 { 8 } else if a < 146 { 12 } else { 16 };
        prev = e;
    }
    let bytes = |b: usize| (b + 7) / 8;
    assert_eq!(out.len(), 4 + bytes(n) + bytes(exp_bits) + 23 * bytes(n));
}

#[test]
fn binary64_chunk_length() {
    let mut chunk = WriteChunk::<Binary64>::new(2);
    chunk.write(1.5f64.to_bits()).unwrap();
    chunk.write((-2.0f64).to_bits()).unwrap();
    chunk.complete().unwrap();
    let out = chunk.serialize();
    // exponent deltas 1023 (16 bits) and 1 (2 bits)
    assert_eq!(&out[0..4], &[0, 0, 0, 2]);
    assert_eq!(out[4], 0x40);
    assert_eq!(out.len(), 4 + 1 + 3 + 52);
}


#[test]
fn concrete_scenario_round_trip() {
    let values = [0.0f32, 1.0f32, -1.0f32 / 3.0f32];
    let out = serialize32(&values);
    let back = deserialize::<Binary32>(out).unwrap();
    let expected: Vec<u64> = values.iter().map(|v| v.to_bits() as u64).collect();
    assert_eq!(back, expected);
}

#[test]
fn chunk_round_trip_special_values32() {
    let values: Vec<f32> = vec![
        0.0,
        0.0,
        0.0,
        -0.0,
        f32::INFINITY,
        f32::NEG_INFINITY,
        f32::from_bits(0x7fff_ffff),
        f32::from_bits(0xffc0_0001),
        f32::from_bits(1),
        f32::MIN_POSITIVE,
        f32::MAX,
        -f32::MAX,
        1.0,
        -2.5,
        3.0e-20,
        7.0e20,
    ];
    let out = serialize32(&values);
    let back = deserialize::<Binary32>(out).unwrap();
    let expected: Vec<u64> = values.iter().map(|v| v.to_bits() as u64).collect();
    assert_eq!(back, expected);
}

#[test]
fn chunk_round_trip_random64() {
    let mut rng = rand::thread_rng();
    let values: Vec<u64> = (0..1000).map(|_| rng.gen::<u64>()).collect();
    let mut chunk = WriteChunk::<Binary64>::new(values.len());
    for v in &values {
        chunk.write(*v).unwrap();
    }
    chunk.complete().unwrap();
    let out = chunk.serialize();
    assert_eq!(deserialize::<Binary64>(out), Ok(values));
}

#[test]
fn deserialize_empty_container() {
    assert_eq!(deserialize::<Binary32>(vec![0, 0, 0, 0]), Ok(vec![]));
}

#[test]
fn deserialize_rejects_short_header() {
    assert_eq!(deserialize::<Binary32>(vec![0, 0, 1]), Err(CodecError::CorruptStream));
}

#[test]
fn deserialize_rejects_missing_streams() {
    assert_eq!(deserialize::<Binary32>(vec![0, 0, 0, 5]), Err(CodecError::CorruptStream));
    let mut out = serialize32(&[1.0f32, 2.0f32]);
    out.pop();
    assert_eq!(deserialize::<Binary32>(out), Err(CodecError::CorruptStream));
}

#[test]
fn deserialize_rejects_reserved_prefix() {
    // one sample: sign byte, then an exponent stream starting with 11111
    let mut bytes: Vec<u8> = vec![0, 0, 0, 1, 0x00, 0xf8];
    for _ in 0..23 {
        bytes.push(0);
    }
    assert_eq!(deserialize::<Binary32>(bytes), Err(CodecError::CorruptStream));
}

#[test]
fn deserialize_rejects_delta_outside_centred_range() {
    // 200 has a codeword, but lies outside the binary32 half-range of 128
    let mut sink = floatplanes::bitio::BitSink::new(4);
    floatplanes::varint::write(200, &mut sink).unwrap();
    sink.byte_align();
    let mut bytes: Vec<u8> = vec![0, 0, 0, 1, 0x00];
    bytes.extend(sink.into_bytes());
    for _ in 0..23 {
        bytes.push(0);
    }
    assert_eq!(deserialize::<Binary32>(bytes), Err(CodecError::CorruptStream));
}
