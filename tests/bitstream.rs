use suroi::bitstream::{BitStream, Endianness, StreamError};

#[test]
fn raw_round_trip_every_width() {
    for e in [Endianness::Little, Endianness::Big] {
        for n in 1..=32usize {
            let max: u64 = (1u64 << n) - 1;
            for v in [0u64, 1, max / 3, max / 2 + 1, max] {
                let mut s = BitStream::new(8);
                s.set_endianness(e);
                s.write_bits_us(v as u32, n).unwrap();
                assert_eq!(s.get_index(), n);
                s.set_index(0).unwrap();
                assert_eq!(s.read_bits(n).unwrap() as u64, v, "n = {n}, v = {v}");
            }
        }
    }
}

#[test]
fn raw_round_trip_at_odd_offset() {
    for e in [Endianness::Little, Endianness::Big] {
        let mut s = BitStream::new(8);
        s.set_endianness(e);
        s.write_bits_us(0b101, 3).unwrap();
        s.write_bits_us(0x1234_5678, 32).unwrap();
        s.write_bits_us(0x2A, 7).unwrap();
        s.set_index(0).unwrap();
        assert_eq!(s.read_bits(3).unwrap(), 0b101);
        assert_eq!(s.read_bits(32).unwrap(), 0x1234_5678);
        assert_eq!(s.read_bits(7).unwrap(), 0x2A);
    }
}

#[test]
fn signed_round_trip() {
    let mut s = BitStream::new(1);
    s.write_bits_us(0b1111u32, 4).unwrap();
    s.write_bits_us(0b0111u32, 4).unwrap();
    s.set_index(0).unwrap();
    assert_eq!(s.read_bits_signed(4).unwrap(), -1);
    assert_eq!(s.read_bits_signed(4).unwrap(), 7);
}

#[test]
fn signed_full_width() {
    let mut s = BitStream::new(4);
    s.write_bits(-5, 32).unwrap();
    s.set_index(0).unwrap();
    assert_eq!(s.read_bits_signed(32).unwrap(), -5);
}

#[test]
fn endianness_divergence() {
    let mut little = BitStream::new(2);
    little.write_bits_us(0xABCDu32, 16).unwrap();
    let mut big = BitStream::new(2);
    big.set_endianness(Endianness::Big);
    big.write_bits_us(0xABCDu32, 16).unwrap();
    assert_eq!(little.to_bytes(), vec![0xCD, 0xAB]);
    assert_eq!(big.to_bytes(), vec![0xAB, 0xCD]);
    assert_ne!(little.to_bytes(), big.to_bytes());
    little.set_index(0).unwrap();
    big.set_index(0).unwrap();
    assert_eq!(little.read_bits(16).unwrap(), 0xABCD);
    assert_eq!(big.read_bits(16).unwrap(), 0xABCD);
}

#[test]
fn bit_order_inside_a_byte() {
    let mut little = BitStream::new(1);
    little.write_bits_us(0b110u32, 3).unwrap();
    assert_eq!(little.to_bytes(), vec![0b0000_0110]);
    let mut big = BitStream::new(1);
    big.set_endianness(Endianness::Big);
    big.write_bits_us(0b110u32, 3).unwrap();
    assert_eq!(big.to_bytes(), vec![0b1100_0000]);
}

#[test]
fn buffer_exhaustion() {
    let mut s = BitStream::new(2);
    s.set_index(6).unwrap();
    assert_eq!(s.bits_left(), 10);
    assert_eq!(s.read_bits(16), Err(StreamError::OutOfBounds));
    assert_eq!(s.bits_left(), 10);
    assert_eq!(s.write_bits_us(1u32, 11), Err(StreamError::OutOfBounds));
    assert_eq!(s.bits_left(), 10);
    assert_eq!(s.read_bits(10), Ok(0));
    assert_eq!(s.bits_left(), 0);
}

#[test]
fn too_many_bits() {
    let mut s = BitStream::new(8);
    assert_eq!(s.read_bits(33), Err(StreamError::TooManyBits));
    assert_eq!(s.write_bits_us(0u32, 33), Err(StreamError::TooManyBits));
    assert_eq!(s.get_index(), 0);
}

#[test]
fn set_index_bounds() {
    let mut s = BitStream::new(2);
    assert_eq!(s.set_index(15), Ok(()));
    assert_eq!(s.get_index(), 15);
    assert_eq!(s.set_index(16), Err(StreamError::InvalidRange));
    assert_eq!(s.get_index(), 15);
}

#[test]
fn new_stream_is_zeroed() {
    let s = BitStream::new(3);
    assert_eq!(s.byte_length(), 3);
    assert_eq!(s.to_bytes(), vec![0, 0, 0]);
    assert_eq!(s.get_index(), 0);
    assert_eq!(s.get_endianness(), Endianness::Little);
    assert_eq!(s.bits_left(), 24);
}

#[test]
fn slice_copies_a_range() {
    let s = BitStream::from_bytes(&[1, 2, 3, 4, 5]);
    let c = s.slice(1, 3).unwrap();
    assert_eq!(c.to_bytes(), vec![2, 3]);
    assert_eq!(c.get_index(), 0);
    let d = s.slice(-2, -1).unwrap();
    assert_eq!(d.to_bytes(), vec![4]);
    let all = s.slice(0, 5).unwrap();
    assert_eq!(all.to_bytes(), vec![1, 2, 3, 4, 5]);
    assert_eq!(s.slice(3, 2).err(), Some(StreamError::InvalidRange));
    assert_eq!(s.slice(0, 6).err(), Some(StreamError::InvalidRange));
    assert_eq!(s.slice(-6, 2).err(), Some(StreamError::InvalidRange));
}

#[test]
fn slice_keeps_endianness() {
    let mut s = BitStream::new(4);
    s.set_endianness(Endianness::Big);
    let c = s.slice(0, 2).unwrap();
    assert_eq!(c.get_endianness(), Endianness::Big);
}

#[test]
fn slice_independence() {
    let mut s = BitStream::new(4);
    s.write_uint16(0x1234u16).unwrap();
    let mut c = s.slice(0, 2).unwrap();
    s.set_index(0).unwrap();
    s.write_uint16(0xFFFFu16).unwrap();
    assert_eq!(c.read_uint16().unwrap(), 0x1234);
    assert_eq!(s.to_bytes(), vec![0xFF, 0xFF, 0, 0]);
}

#[test]
fn integers_round_trip() {
    for e in [Endianness::Little, Endianness::Big] {
        let mut s = BitStream::new(64);
        s.set_endianness(e);
        s.write_boolean(true).unwrap();
        s.write_int4(-3i8).unwrap();
        s.write_uint4(9u8).unwrap();
        s.write_int8(-100i8).unwrap();
        s.write_uint8(200u8).unwrap();
        s.write_int16(-30000i16).unwrap();
        s.write_uint16(60000u16).unwrap();
        s.write_int32(-2_000_000_000i32).unwrap();
        s.write_uint32(4_000_000_000u32).unwrap();
        s.write_int64(-9_000_000_000_000_000_000i64).unwrap();
        s.write_uint64(18_000_000_000_000_000_000u64).unwrap();
        s.write_int128(-170_000_000_000_000_000_000_000_000_000_000_000_000i128).unwrap();
        s.write_uint128(340_000_000_000_000_000_000_000_000_000_000_000_000u128).unwrap();
        s.set_index(0).unwrap();
        assert_eq!(s.read_boolean().unwrap(), true);
        assert_eq!(s.read_int4().unwrap(), -3);
        assert_eq!(s.read_uint4().unwrap(), 9);
        assert_eq!(s.read_int8().unwrap(), -100);
        assert_eq!(s.read_uint8().unwrap(), 200);
        assert_eq!(s.read_int16().unwrap(), -30000);
        assert_eq!(s.read_uint16().unwrap(), 60000);
        assert_eq!(s.read_int32().unwrap(), -2_000_000_000);
        assert_eq!(s.read_uint32().unwrap(), 4_000_000_000);
        assert_eq!(s.read_int64().unwrap(), -9_000_000_000_000_000_000);
        assert_eq!(s.read_uint64().unwrap(), 18_000_000_000_000_000_000);
        assert_eq!(
            s.read_int128().unwrap(),
            -170_000_000_000_000_000_000_000_000_000_000_000_000
        );
        assert_eq!(
            s.read_uint128().unwrap(),
            340_000_000_000_000_000_000_000_000_000_000_000_000
        );
    }
}

#[test]
fn wide_integers_low_word_first() {
    let mut s = BitStream::new(8);
    s.write_uint64(0x0102_0304_0506_0708u64).unwrap();
    assert_eq!(s.to_bytes(), vec![0x08, 0x07, 0x06, 0x05, 0x04, 0x03, 0x02, 0x01]);
    let mut t = BitStream::new(8);
    t.set_endianness(Endianness::Big);
    t.write_uint64(0x0102_0304_0506_0708u64).unwrap();
    assert_eq!(t.to_bytes(), vec![0x05, 0x06, 0x07, 0x08, 0x01, 0x02, 0x03, 0x04]);
}

#[test]
fn wide_write_without_room_changes_nothing() {
    let mut s = BitStream::new(7);
    assert_eq!(s.write_uint64(u64::MAX), Err(StreamError::OutOfBounds));
    assert_eq!(s.to_bytes(), vec![0; 7]);
    assert_eq!(s.get_index(), 0);
    assert_eq!(s.read_uint64(), Err(StreamError::OutOfBounds));
    assert_eq!(s.write_uint128(1u128), Err(StreamError::OutOfBounds));
}

#[test]
fn nested_stream_copy() {
    let mut src = BitStream::new(8);
    src.write_uint32(0xDEAD_BEEFu32).unwrap();
    src.write_bits_us(0x15u32, 5).unwrap();
    src.set_index(0).unwrap();
    let mut dst = BitStream::new(8);
    dst.write_bits_us(1u32, 3).unwrap();
    dst.write_bitstream(&mut src, Some(37)).unwrap();
    assert_eq!(src.get_index(), 37);
    assert_eq!(dst.get_index(), 40);
    dst.set_index(3).unwrap();
    assert_eq!(dst.read_uint32().unwrap(), 0xDEAD_BEEF);
    assert_eq!(dst.read_bits(5).unwrap(), 0x15);
}

#[test]
fn nested_stream_copy_refused_when_short() {
    let mut src = BitStream::new(1);
    let mut dst = BitStream::new(4);
    assert_eq!(dst.write_bitstream(&mut src, Some(9)), Err(StreamError::OutOfBounds));
    assert_eq!(dst.write_bitstream(&mut src, None), Err(StreamError::OutOfBounds));
    assert_eq!(src.get_index(), 0);
    assert_eq!(dst.get_index(), 0);
}

#[test]
fn read_bitstream_copies_bytes_at_the_index() {
    let mut s = BitStream::from_bytes(&[9, 8, 7, 6, 5]);
    s.set_index(1).unwrap();
    let c = s.read_bitstream(3).unwrap();
    assert_eq!(c.to_bytes(), vec![8, 7, 6]);
    assert_eq!(s.get_index(), 1);
    assert_eq!(s.read_bitstream(5).err(), Some(StreamError::InvalidRange));
}
