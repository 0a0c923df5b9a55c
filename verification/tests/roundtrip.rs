use cev::compress::Compress;
use cev::example::{EmptyStruct, NamedStruct, Test, UnnamedStruct};

#[test]
fn roundtrip_u8() {
    let mut buf = vec![0u8; 64];
    let v: u8 = 0xab;
    v.compress(&mut buf, 3);
    assert_eq!(v.size(), 1);
    assert_eq!(u8::read_size(&buf, 3), 1);
    assert_eq!(u8::uncompress(&buf, 3), v);
}

#[test]
fn roundtrip_u16() {
    let mut buf = vec![0u8; 64];
    let v: u16 = 0x1234;
    v.compress(&mut buf, 0);
    assert_eq!(v.size(), 2);
    assert_eq!(u16::read_size(&buf, 0), 2);
    assert_eq!(u16::uncompress(&buf, 0), v);
    // little-endian: least significant byte first
    assert_eq!(buf[0], 0x34);
    assert_eq!(buf[1], 0x12);
}

#[test]
fn roundtrip_u32() {
    let mut buf = vec![0u8; 64];
    let v: u32 = 0x0102_0304;
    v.compress(&mut buf, 5);
    assert_eq!(v.size(), 4);
    assert_eq!(u32::read_size(&buf, 5), 4);
    assert_eq!(u32::uncompress(&buf, 5), v);
    assert_eq!(&buf[5..9], &[4, 3, 2, 1]);
}

#[test]
fn roundtrip_u64() {
    let mut buf = vec![0u8; 64];
    let v: u64 = u64::MAX - 7;
    v.compress(&mut buf, 0);
    assert_eq!(v.size(), 8);
    assert_eq!(u64::read_size(&buf, 0), 8);
    assert_eq!(u64::uncompress(&buf, 0), v);
}

#[test]
fn roundtrip_u128() {
    let mut buf = vec![0u8; 64];
    let v: u128 = u128::MAX - 123456789;
    v.compress(&mut buf, 1);
    assert_eq!(v.size(), 16);
    assert_eq!(u128::read_size(&buf, 1), 16);
    assert_eq!(u128::uncompress(&buf, 1), v);
}

#[test]
fn roundtrip_i8() {
    let mut buf = vec![0u8; 64];
    for v in [0i8, 1, -1, 42, -42, i8::MIN, i8::MAX] {
        v.compress(&mut buf, 2);
        assert_eq!(v.size(), 1);
        assert_eq!(i8::read_size(&buf, 2), 1);
        assert_eq!(i8::uncompress(&buf, 2), v);
    }
}

#[test]
fn roundtrip_i16() {
    let mut buf = vec![0u8; 64];
    for v in [0i16, 257, -257, i16::MIN, i16::MAX] {
        v.compress(&mut buf, 0);
        assert_eq!(v.size(), 2);
        assert_eq!(i16::read_size(&buf, 0), 2);
        assert_eq!(i16::uncompress(&buf, 0), v);
    }
}

#[test]
fn roundtrip_i32() {
    let mut buf = vec![0u8; 64];
    for v in [0i32, 1 << 20, -(1 << 20), i32::MIN, i32::MAX] {
        v.compress(&mut buf, 0);
        assert_eq!(v.size(), 4);
        assert_eq!(i32::read_size(&buf, 0), 4);
        assert_eq!(i32::uncompress(&buf, 0), v);
    }
}

#[test]
fn roundtrip_i64() {
    let mut buf = vec![0u8; 64];
    for v in [0i64, 1 << 40, -(1 << 40), i64::MIN, i64::MAX] {
        v.compress(&mut buf, 0);
        assert_eq!(v.size(), 8);
        assert_eq!(i64::read_size(&buf, 0), 8);
        assert_eq!(i64::uncompress(&buf, 0), v);
    }
}

#[test]
fn roundtrip_i128() {
    let mut buf = vec![0u8; 64];
    for v in [0i128, 1 << 100, -(1 << 100), i128::MIN, i128::MAX] {
        v.compress(&mut buf, 0);
        assert_eq!(v.size(), 16);
        assert_eq!(i128::read_size(&buf, 0), 16);
        assert_eq!(i128::uncompress(&buf, 0), v);
    }
}

#[test]
fn negative_bit_pattern_is_twos_complement() {
    let mut buf = vec![0u8; 4];
    (-1i16).compress(&mut buf, 0);
    assert_eq!(&buf[0..2], &[0xff, 0xff]);
    (-2i8).compress(&mut buf, 3);
    assert_eq!(buf[3], 0xfe);
}

#[test]
fn roundtrip_variant_unit() {
    let mut buf = vec![0u8; 16];
    let v: Test<u32> = Test::Unit;
    v.compress(&mut buf, 0);
    assert_eq!(v.size(), 1);
    assert_eq!(buf[0], 0);
    assert_eq!(Test::<u32>::read_size(&buf, 0), 1);
    assert_eq!(Test::<u32>::uncompress(&buf, 0), v);
}

#[test]
fn roundtrip_variant_ints() {
    let mut buf = vec![0u8; 16];
    let cases: Vec<(Test<u32>, usize, u8)> = vec![
        (Test::Int8(200), 2, 1),
        (Test::Int16(40000), 3, 2),
        (Test::Int32(0xdead_beef), 5, 3),
        (Test::Int64(0x0123_4567_89ab_cdef), 9, 4),
    ];
    for (v, size, tag) in cases {
        v.compress(&mut buf, 0);
        assert_eq!(v.size(), size);
        assert_eq!(buf[0], tag);
        assert_eq!(Test::<u32>::read_size(&buf, 0), size);
        assert_eq!(Test::<u32>::uncompress(&buf, 0), v);
    }
}

#[test]
fn roundtrip_variant_payloads() {
    let mut buf = vec![0u8; 16];
    let v: Test<u32> = Test::T2(77);
    v.compress(&mut buf, 0);
    assert_eq!(v.size(), 5);
    assert_eq!(buf[0], 5);
    assert_eq!(Test::<u32>::read_size(&buf, 0), 5);
    assert_eq!(Test::<u32>::uncompress(&buf, 0), v);

    let v: Test<u32> = Test::T3(78, 9);
    v.compress(&mut buf, 0);
    assert_eq!(v.size(), 6);
    assert_eq!(buf[0], 6);
    assert_eq!(Test::<u32>::read_size(&buf, 0), 6);
    assert_eq!(Test::<u32>::uncompress(&buf, 0), v);

    let v: Test<u32> = Test::T4 { a: 79, b: 10 };
    v.compress(&mut buf, 0);
    assert_eq!(v.size(), 6);
    assert_eq!(buf[0], 7);
    assert_eq!(Test::<u32>::read_size(&buf, 0), 6);
    assert_eq!(Test::<u32>::uncompress(&buf, 0), v);
}

#[test]
fn roundtrip_nested_variant() {
    let mut buf = vec![0u8; 16];
    let v: Test<Test<u16>> = Test::T3(Test::Int16(513), 4);
    v.compress(&mut buf, 0);
    // outer tag + (inner tag + two bytes) + one byte
    assert_eq!(v.size(), 5);
    assert_eq!(Test::<Test<u16>>::read_size(&buf, 0), 5);
    assert_eq!(Test::<Test<u16>>::uncompress(&buf, 0), v);
}

#[test]
fn roundtrip_named_struct() {
    let mut buf = vec![0u8; 8];
    let v = NamedStruct { a: 1, b: 2, c: 3 };
    v.compress(&mut buf, 0);
    assert_eq!(v.size(), 3);
    assert_eq!(&buf[0..3], &[1, 2, 3]);
    assert_eq!(NamedStruct::read_size(&buf, 0), 3);
    assert_eq!(NamedStruct::uncompress(&buf, 0), v);
}

#[test]
fn roundtrip_empty_struct() {
    let mut buf = vec![7u8; 4];
    let v = EmptyStruct;
    v.compress(&mut buf, 2);
    assert_eq!(v.size(), 0);
    assert_eq!(EmptyStruct::read_size(&buf, 2), 0);
    assert_eq!(EmptyStruct::uncompress(&buf, 2), EmptyStruct);
    // writes nothing at all
    assert_eq!(buf, vec![7u8; 4]);
}

#[test]
fn roundtrip_unnamed_struct() {
    let mut buf = vec![0u8; 32];
    let v = UnnamedStruct(5, 0x1234, 0xdead_beef, u64::MAX / 3);
    v.compress(&mut buf, 4);
    assert_eq!(v.size(), 15);
    assert_eq!(UnnamedStruct::read_size(&buf, 4), 15);
    assert_eq!(UnnamedStruct::uncompress(&buf, 4), v);
}
