use leb128::stream::{ByteSink, ByteSource, FixedBuf};
use leb128::{low_bits_of_byte, low_bits_of_u128, read, CONTINUATION_BIT};
use std::io;

#[test]
fn test_low_bits_of_byte() {
    for i in 0..127 {
        assert_eq!(i, low_bits_of_byte(i));
        assert_eq!(i, low_bits_of_byte(i | CONTINUATION_BIT));
    }
}

#[test]
fn test_low_bits_of_u128() {
    for i in 0u128..127 {
        assert_eq!(i as u8, low_bits_of_u128(1 << 16 | i));
        assert_eq!(
            i as u8,
            low_bits_of_u128(i << 16 | i | (CONTINUATION_BIT as u128))
        );
    }
}

#[test]
fn test_read_unsigned() {
    let buf = [2u8];
    let mut readable = &buf[..];
    assert_eq!(
        2,
        read::unsigned(&mut readable).expect("Should read number")
    );

    let buf = [127u8];
    let mut readable = &buf[..];
    assert_eq!(
        127,
        read::unsigned(&mut readable).expect("Should read number")
    );

    let buf = [CONTINUATION_BIT, 1];
    let mut readable = &buf[..];
    assert_eq!(
        128,
        read::unsigned(&mut readable).expect("Should read number")
    );

    let buf = [1u8 | CONTINUATION_BIT, 1];
    let mut readable = &buf[..];
    assert_eq!(
        129,
        read::unsigned(&mut readable).expect("Should read number")
    );

    let buf = [2u8 | CONTINUATION_BIT, 1];
    let mut readable = &buf[..];
    assert_eq!(
        130,
        read::unsigned(&mut readable).expect("Should read number")
    );

    let buf = [57u8 | CONTINUATION_BIT, 100];
    let mut readable = &buf[..];
    assert_eq!(
        12857,
        read::unsigned(&mut readable).expect("Should read number")
    );
}

fn read_unsigned_dyn(r: &mut dyn ByteSource) -> u128 {
    read::unsigned(r).expect("Should read number")
}

#[test]
fn test_read_unsigned_thru_dyn_trait() {
    let buf = [0u8];

    let mut readable = &buf[..];
    assert_eq!(0, read_unsigned_dyn(&mut readable));

    let owned = buf.to_vec();
    let mut readable = owned.as_slice();
    assert_eq!(0, read_unsigned_dyn(&mut readable));
}

// Examples from the DWARF 4 standard, section 7.6, figure 23.
#[test]
fn test_read_signed() {
    let buf = [2u8];
    let mut readable = &buf[..];
    assert_eq!(2, read::signed(&mut readable).expect("Should read number"));

    let buf = [0x7eu8];
    let mut readable = &buf[..];
    assert_eq!(-2, read::signed(&mut readable).expect("Should read number"));

    let buf = [127u8 | CONTINUATION_BIT, 0];
    let mut readable = &buf[..];
    assert_eq!(
        127,
        read::signed(&mut readable).expect("Should read number")
    );

    let buf = [1u8 | CONTINUATION_BIT, 0x7f];
    let mut readable = &buf[..];
    assert_eq!(
        -127,
        read::signed(&mut readable).expect("Should read number")
    );

    let buf = [CONTINUATION_BIT, 1];
    let mut readable = &buf[..];
    assert_eq!(
        128,
        read::signed(&mut readable).expect("Should read number")
    );

    let buf = [CONTINUATION_BIT, 0x7f];
    let mut readable = &buf[..];
    assert_eq!(
        -128,
        read::signed(&mut readable).expect("Should read number")
    );

    let buf = [1u8 | CONTINUATION_BIT, 1];
    let mut readable = &buf[..];
    assert_eq!(
        129,
        read::signed(&mut readable).expect("Should read number")
    );

    let buf = [0x7fu8 | CONTINUATION_BIT, 0x7e];
    let mut readable = &buf[..];
    assert_eq!(
        -129,
        read::signed(&mut readable).expect("Should read number")
    );
}

fn read_signed_dyn(r: &mut dyn ByteSource) -> i128 {
    read::signed(r).expect("Should read number")
}

#[test]
fn test_read_signed_thru_dyn_trait() {
    let buf = [0u8];

    let mut readable = &buf[..];
    assert_eq!(0, read_signed_dyn(&mut readable));

    let owned = buf.to_vec();
    let mut readable = owned.as_slice();
    assert_eq!(0, read_signed_dyn(&mut readable));
}

#[test]
fn test_read_signed_127_bits() {
    let buf = [
        CONTINUATION_BIT,
        CONTINUATION_BIT,
        CONTINUATION_BIT,
        CONTINUATION_BIT,
        CONTINUATION_BIT,
        CONTINUATION_BIT,
        CONTINUATION_BIT,
        CONTINUATION_BIT,
        CONTINUATION_BIT,
        CONTINUATION_BIT,
        CONTINUATION_BIT,
        CONTINUATION_BIT,
        CONTINUATION_BIT,
        CONTINUATION_BIT,
        CONTINUATION_BIT,
        CONTINUATION_BIT,
        0x40,
    ];
    let mut readable = &buf[..];
    assert_eq!(
        -0x400000000000000000000000000000,
        read::signed(&mut readable).expect("Should read number")
    );
}

#[test]
fn test_read_unsigned_not_enough_data() {
    let buf = [CONTINUATION_BIT];
    let mut readable = &buf[..];
    match read::unsigned(&mut readable) {
        Err(read::Error::IoError(e)) => assert_eq!(e.kind(), io::ErrorKind::UnexpectedEof),
        otherwise => panic!("Unexpected: {:?}", otherwise),
    }
}

#[test]
fn test_read_signed_not_enough_data() {
    let buf = [CONTINUATION_BIT];
    let mut readable = &buf[..];
    match read::signed(&mut readable) {
        Err(read::Error::IoError(e)) => assert_eq!(e.kind(), io::ErrorKind::UnexpectedEof),
        otherwise => panic!("Unexpected: {:?}", otherwise),
    }
}

#[test]
fn test_write_unsigned_not_enough_space() {
    let mut writable = FixedBuf::new(1);
    match leb128::write::unsigned(&mut writable, 128) {
        Err(e) => assert_eq!(e.kind(), io::ErrorKind::WriteZero),
        otherwise => panic!("Unexpected: {:?}", otherwise),
    }
}

#[test]
fn test_write_signed_not_enough_space() {
    let mut writable = FixedBuf::new(1);
    match leb128::write::signed(&mut writable, 128) {
        Err(e) => assert_eq!(e.kind(), io::ErrorKind::WriteZero),
        otherwise => panic!("Unexpected: {:?}", otherwise),
    }
}

fn write_unsigned_dyn(w: &mut dyn ByteSink, val: u128) -> usize {
    leb128::write::unsigned(w, val).expect("Should write number")
}

#[test]
fn test_write_unsigned_thru_dyn_trait() {
    let buf = [0u8; 1];

    let mut writable = FixedBuf::new(1);
    assert_eq!(write_unsigned_dyn(&mut writable, 0), 1);
    assert_eq!(writable.as_slice()[0], 0);

    let mut writable = Vec::from(&buf[..]);
    assert_eq!(write_unsigned_dyn(&mut writable, 0), 1);
    assert_eq!(writable, vec![0, 0]);
}

fn write_signed_dyn(w: &mut dyn ByteSink, val: i128) -> usize {
    leb128::write::signed(w, val).expect("Should write number")
}

#[test]
fn test_write_signed_thru_dyn_trait() {
    let buf = [0u8; 1];

    let mut writable = FixedBuf::new(1);
    assert_eq!(write_signed_dyn(&mut writable, 0), 1);
    assert_eq!(writable.as_slice()[0], 0);

    let mut writable = Vec::from(&buf[..]);
    assert_eq!(write_signed_dyn(&mut writable, 0), 1);
    assert_eq!(writable, vec![0, 0]);
}

fn dogfood_signed_one(i: i128) {
    let mut writable = FixedBuf::new(1024);
    leb128::write::signed(&mut writable, i).expect("Should write signed number");

    let mut readable = writable.as_slice();
    let result = read::signed(&mut readable).expect("Should be able to read it back again");
    assert_eq!(i, result);
}

#[test]
fn dogfood_signed() {
    for i in -513..513 {
        dogfood_signed_one(i);
    }
    dogfood_signed_one(i64::MIN as i128);
}

#[test]
fn dogfood_unsigned() {
    for i in 0..1025 {
        let mut writable = FixedBuf::new(1024);
        leb128::write::unsigned(&mut writable, i).expect("Should write signed number");

        let mut readable = writable.as_slice();
        let result =
            read::unsigned(&mut readable).expect("Should be able to read it back again");
        assert_eq!(i, result);
    }
}

#[test]
fn test_read_unsigned_overflow() {
    let buf = [
        2u8 | CONTINUATION_BIT,
        2 | CONTINUATION_BIT,
        2 | CONTINUATION_BIT,
        2 | CONTINUATION_BIT,
        2 | CONTINUATION_BIT,
        2 | CONTINUATION_BIT,
        2 | CONTINUATION_BIT,
        2 | CONTINUATION_BIT,
        2 | CONTINUATION_BIT,
        2 | CONTINUATION_BIT,
        2 | CONTINUATION_BIT,
        2 | CONTINUATION_BIT,
        2 | CONTINUATION_BIT,
        2 | CONTINUATION_BIT,
        2 | CONTINUATION_BIT,
        2 | CONTINUATION_BIT,
        2 | CONTINUATION_BIT,
        2 | CONTINUATION_BIT,
        2 | CONTINUATION_BIT,
        2 | CONTINUATION_BIT,
        2 | CONTINUATION_BIT,
        2 | CONTINUATION_BIT,
        2 | CONTINUATION_BIT,
        2 | CONTINUATION_BIT,
        2 | CONTINUATION_BIT,
        2 | CONTINUATION_BIT,
        2 | CONTINUATION_BIT,
        2 | CONTINUATION_BIT,
        2 | CONTINUATION_BIT,
        2 | CONTINUATION_BIT,
        1,
    ];
    let mut readable = &buf[..];
    assert!(read::unsigned(&mut readable).is_err());
}

#[test]
fn test_read_signed_overflow() {
    let buf = [
        2u8 | CONTINUATION_BIT,
        2 | CONTINUATION_BIT,
        2 | CONTINUATION_BIT,
        2 | CONTINUATION_BIT,
        2 | CONTINUATION_BIT,
        2 | CONTINUATION_BIT,
        2 | CONTINUATION_BIT,
        2 | CONTINUATION_BIT,
        2 | CONTINUATION_BIT,
        2 | CONTINUATION_BIT,
        2 | CONTINUATION_BIT,
        2 | CONTINUATION_BIT,
        2 | CONTINUATION_BIT,
        2 | CONTINUATION_BIT,
        2 | CONTINUATION_BIT,
        2 | CONTINUATION_BIT,
        2 | CONTINUATION_BIT,
        2 | CONTINUATION_BIT,
        2 | CONTINUATION_BIT,
        2 | CONTINUATION_BIT,
        2 | CONTINUATION_BIT,
        2 | CONTINUATION_BIT,
        2 | CONTINUATION_BIT,
        2 | CONTINUATION_BIT,
        2 | CONTINUATION_BIT,
        2 | CONTINUATION_BIT,
        2 | CONTINUATION_BIT,
        2 | CONTINUATION_BIT,
        2 | CONTINUATION_BIT,
        2 | CONTINUATION_BIT,
        1,
    ];
    let mut readable = &buf[..];
    assert!(read::signed(&mut readable).is_err());
}

#[test]
fn test_read_multiple() {
    let buf = [2u8 | CONTINUATION_BIT, 1u8, 1u8];

    let mut readable = &buf[..];
    assert_eq!(
        read::unsigned(&mut readable).expect("Should read first number"),
        130u128
    );
    assert_eq!(
        read::unsigned(&mut readable).expect("Should read first number"),
        1u128
    );
}

#[test]
fn test_read_multiple_with_overflow() {
    let buf = [
        0b1111_1111,
        0b1111_1111,
        0b1111_1111,
        0b1111_1111,
        0b1111_1111,
        0b1111_1111,
        0b1111_1111,
        0b1111_1111,
        0b1111_1111,
        0b1111_1111,
        0b1111_1111,
        0b1111_1111,
        0b1111_1111,
        0b1111_1111,
        0b1111_1111,
        0b1111_1111,
        0b1111_1111,
        0b1111_1111,
        0b1111_1111,
        0b1111_1111,
        0b1111_1111,
        0b1111_1111,
        0b0111_1111, // Overflow!
        0b1110_0100,
        0b1110_0000,
        0b0000_0010, // 45156
    ];
    let mut readable = &buf[..];

    assert!(if let read::Error::Overflow =
        read::unsigned(&mut readable).expect_err("Should fail with Error::Overflow")
    {
        true
    } else {
        false
    });
    assert_eq!(
        read::unsigned(&mut readable).expect("Should succeed with correct value"),
        45156
    );
}
