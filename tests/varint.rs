use floatplanes::bitio::{BitSink, BitSource};
use floatplanes::error::CodecError;
use floatplanes::varint;

#[test]
fn rtt() {
    let mut write_stream = BitSink::new(10);

    for x in -1024i16..=1024 {
        varint::write(x, &mut write_stream).unwrap();
    }

    write_stream.byte_align();
    let buff = write_stream.into_bytes();

    let mut read_stream = BitSource::new(buff);

    for y in -1024i16..=1024 {
        assert_eq!(y, varint::read(&mut read_stream).unwrap());
    }
}

#[test]
fn varint_full_range_round_trip() {
    let mut sink = BitSink::new(10);
    for x in -1169i16..=1169 {
        varint::write(x, &mut sink).unwrap();
    }
    sink.byte_align();
    let mut source = BitSource::new(sink.into_bytes());
    for x in -1169i16..=1169 {
        assert_eq!(varint::read(&mut source), Ok(x));
    }
}

#[test]
fn varint_rejects_large_magnitudes() {
    let mut sink = BitSink::new(1);
    assert_eq!(varint::write(1170, &mut sink), Err(CodecError::UnsupportedMagnitude));
    assert_eq!(varint::write(-1170, &mut sink), Err(CodecError::UnsupportedMagnitude));
    assert_eq!(varint::write(i16::MIN, &mut sink), Err(CodecError::UnsupportedMagnitude));
    assert_eq!(varint::write(i16::MAX, &mut sink), Err(CodecError::UnsupportedMagnitude));
    sink.byte_align();
    assert_eq!(sink.into_bytes(), Vec::<u8>::new());
}

fn encode(values: &[i16]) -> Vec<u8> {
    let mut sink = BitSink::new(4);
    for v in values {
        varint::write(*v, &mut sink).unwrap();
    }
    sink.byte_align();
    sink.into_bytes()
}

#[test]
fn varint_codewords() {
    assert_eq!(encode(&[0, 0, 0, 0]), vec![0x00]);
    assert_eq!(encode(&[1, 1, 1, 1]), vec![0x55]);
    assert_eq!(encode(&[-1, -1, -1, -1]), vec![0xaa]);
    // 110 0 0000 then 110 1 1111
    assert_eq!(encode(&[2, -17]), vec![0xc0, 0xdf]);
    // 1110 0 0000000
    assert_eq!(encode(&[18]), vec![0xe0, 0x00]);
    // 11110 1 1111111111
    assert_eq!(encode(&[-1169]), vec![0xf7, 0xff]);
}

#[test]
fn varint_reserved_prefix_is_corrupt() {
    let mut source = BitSource::new(vec![0xf8]);
    assert_eq!(varint::read(&mut source), Err(CodecError::CorruptStream));
}

#[test]
fn varint_truncated_input_is_corrupt() {
    let mut source = BitSource::new(vec![]);
    assert_eq!(varint::read(&mut source), Err(CodecError::CorruptStream));
    // 110 then end of data inside the payload
    let mut source = BitSource::new(vec![0xc0]);
    assert_eq!(varint::read(&mut source), Ok(2));
    let mut source = BitSource::new(vec![0xe0]);
    assert_eq!(varint::read(&mut source), Err(CodecError::CorruptStream));
}
