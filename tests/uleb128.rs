use rand::Rng;
use relox::{
    read_u16, read_u16_with, read_u32, read_u32_with, read_u8, read_u8_with, write_u16, write_u32,
    write_u8, ErrorKind, Validation,
};

const CONTINUE_BIT: u8 = 0x80;

#[test]
fn test_write_u8() {
    let mut buffer: [u8; 2] = [0; 2];

    // 1 byte
    assert_eq!(write_u8(0, &mut buffer[0..0]).is_err(), true);

    assert_eq!(write_u8(0, &mut buffer).unwrap(), 1);
    assert_eq!(buffer[0], 0);

    assert_eq!(write_u8(0x7F, &mut buffer).unwrap(), 1);
    assert_eq!(buffer[0], 0x7F);

    // 2 bytes
    assert_eq!(write_u8(0x80, &mut buffer[0..1]).is_err(), true);

    assert_eq!(write_u8(CONTINUE_BIT, &mut buffer).unwrap(), 2);
    assert_eq!(buffer[0], 0x00 | CONTINUE_BIT);
    assert_eq!(buffer[1], 0x01);

    assert_eq!(write_u8(0xFF, &mut buffer).unwrap(), 2);
    assert_eq!(buffer[0], 0x7F | CONTINUE_BIT);
    assert_eq!(buffer[1], 0x01);
}

#[test]
fn test_write_u16() {
    let mut buffer: [u8; 3] = [0; 3];

    // 1 byte
    assert_eq!(write_u16(0, &mut buffer[0..0]).is_err(), true);

    assert_eq!(write_u16(0, &mut buffer).unwrap(), 1);
    assert_eq!(buffer[0], 0);

    assert_eq!(write_u16(0x7F, &mut buffer).unwrap(), 1);
    assert_eq!(buffer[0], 0x7F);

    // 2 bytes
    assert_eq!(write_u16(0x80, &mut buffer[0..1]).is_err(), true);

    assert_eq!(write_u16(0x80, &mut buffer).unwrap(), 2);
    assert_eq!(buffer[0], 0x00 | CONTINUE_BIT);
    assert_eq!(buffer[1], 0x01);

    assert_eq!(write_u16(0xFF, &mut buffer).unwrap(), 2);
    assert_eq!(buffer[0], 0x7F | CONTINUE_BIT);
    assert_eq!(buffer[1], 0x01);

    assert_eq!(write_u16(0x3F_FF, &mut buffer).unwrap(), 2);
    assert_eq!(buffer[0], 0x7F | CONTINUE_BIT);
    assert_eq!(buffer[1], 0x7F);

    // 3 bytes
    assert_eq!(write_u16(0x40_00, &mut buffer[0..2]).is_err(), true);

    assert_eq!(write_u16(0x40_00, &mut buffer).unwrap(), 3);
    assert_eq!(buffer[0], 0x00 | CONTINUE_BIT);
    assert_eq!(buffer[1], 0x00 | CONTINUE_BIT);
    assert_eq!(buffer[2], 0x01);

    assert_eq!(write_u16(0xFF_FF, &mut buffer).unwrap(), 3);
    assert_eq!(buffer[0], 0x7F | CONTINUE_BIT);
    assert_eq!(buffer[1], 0x7F | CONTINUE_BIT);
    assert_eq!(buffer[2], 0x03);
}

#[test]
fn test_write_u32() {
    let mut buffer: [u8; 5] = [0; 5];

    // 1 byte
    assert_eq!(write_u32(0, &mut buffer[0..0]).is_err(), true);

    assert_eq!(write_u32(0, &mut buffer).unwrap(), 1);
    assert_eq!(buffer[0], 0);

    assert_eq!(write_u32(0x7F, &mut buffer).unwrap(), 1);
    assert_eq!(buffer[0], 0x7F);

    // 2 bytes
    assert_eq!(write_u32(0x80, &mut buffer[0..1]).is_err(), true);

    assert_eq!(write_u32(0x80, &mut buffer).unwrap(), 2);
    assert_eq!(buffer[0], 0x00 | CONTINUE_BIT);
    assert_eq!(buffer[1], 0x01);

    assert_eq!(write_u32(0xFF, &mut buffer).unwrap(), 2);
    assert_eq!(buffer[0], 0x7F | CONTINUE_BIT);
    assert_eq!(buffer[1], 0x01);

    assert_eq!(write_u32(0x3F_FF, &mut buffer).unwrap(), 2);
    assert_eq!(buffer[0], 0x7F | CONTINUE_BIT);
    assert_eq!(buffer[1], 0x7F);

    // 3 bytes
    assert_eq!(write_u32(0x40_00, &mut buffer[0..2]).is_err(), true);

    assert_eq!(write_u32(0x40_00, &mut buffer).unwrap(), 3);
    assert_eq!(buffer[0], 0x00 | CONTINUE_BIT);
    assert_eq!(buffer[1], 0x00 | CONTINUE_BIT);
    assert_eq!(buffer[2], 0x01);

    assert_eq!(write_u32(0xFF_FF, &mut buffer).unwrap(), 3);
    assert_eq!(buffer[0], 0x7F | CONTINUE_BIT);
    assert_eq!(buffer[1], 0x7F | CONTINUE_BIT);
    assert_eq!(buffer[2], 0x03);

    assert_eq!(write_u32(0x1F_FF_FF, &mut buffer).unwrap(), 3);
    assert_eq!(buffer[0], 0x7F | CONTINUE_BIT);
    assert_eq!(buffer[1], 0x7F | CONTINUE_BIT);
    assert_eq!(buffer[2], 0x7F);

    // 4 bytes
    assert_eq!(write_u32(0x20_00_00, &mut buffer[0..3]).is_err(), true);

    assert_eq!(write_u32(0x20_00_00, &mut buffer).unwrap(), 4);
    assert_eq!(buffer[0], 0x00 | CONTINUE_BIT);
    assert_eq!(buffer[1], 0x00 | CONTINUE_BIT);
    assert_eq!(buffer[2], 0x00 | CONTINUE_BIT);
    assert_eq!(buffer[3], 0x01);

    assert_eq!(write_u32(0xF_FF_FF_FF, &mut buffer).unwrap(), 4);
    assert_eq!(buffer[0], 0x7F | CONTINUE_BIT);
    assert_eq!(buffer[1], 0x7F | CONTINUE_BIT);
    assert_eq!(buffer[2], 0x7F | CONTINUE_BIT);
    assert_eq!(buffer[3], 0x7F);

    // 5 bytes
    assert_eq!(write_u32(0x10_00_00_00, &mut buffer[0..4]).is_err(), true);

    assert_eq!(write_u32(0x10_00_00_00, &mut buffer).unwrap(), 5);
    assert_eq!(buffer[0], 0x00 | CONTINUE_BIT);
    assert_eq!(buffer[1], 0x00 | CONTINUE_BIT);
    assert_eq!(buffer[2], 0x00 | CONTINUE_BIT);
    assert_eq!(buffer[3], 0x00 | CONTINUE_BIT);
    assert_eq!(buffer[4], 0x01);

    assert_eq!(write_u32(0xFF_FF_FF_FF, &mut buffer).unwrap(), 5);
    assert_eq!(buffer[0], 0x7F | CONTINUE_BIT);
    assert_eq!(buffer[1], 0x7F | CONTINUE_BIT);
    assert_eq!(buffer[2], 0x7F | CONTINUE_BIT);
    assert_eq!(buffer[3], 0x7F | CONTINUE_BIT);
    assert_eq!(buffer[4], 0x0F);

    // Specific data
    assert_eq!(write_u32(624485, &mut buffer).unwrap(), 3);
    assert_eq!(buffer[0], 0xE5);
    assert_eq!(buffer[1], 0x8E);
    assert_eq!(buffer[2], 0x26);
}

#[test]
fn test_read_u8() {
    let mut value: u8 = 0;

    assert_eq!(read_u8(&[0x00; 0], &mut value).is_err(), true);
    assert_eq!(read_u8(&[CONTINUE_BIT], &mut value).is_err(), true);
    assert_eq!(
        read_u8(&[CONTINUE_BIT, CONTINUE_BIT], &mut value).is_err(),
        true
    );
        assert_eq!(
        read_u8(&[CONTINUE_BIT, CONTINUE_BIT, 0], &mut value).is_err(),
        true
    );

    // 1 byte
    assert_eq!(read_u8(&[0x00], &mut value).unwrap(), 1);
    assert_eq!(value, 0x00);
    assert_eq!(read_u8(&[0x7F], &mut value).unwrap(), 1);
    assert_eq!(value, 0x7F);

    // 2 bytes
    assert_eq!(
        read_u8(&[0x7F | CONTINUE_BIT, 0x01], &mut value).unwrap(),
        2
    );
    assert_eq!(value, 0xFF);

    // Out-of-range
        assert_eq!(
        read_u8(&[0x7F | CONTINUE_BIT, 0x02], &mut value).is_err(),
        true
    );
}

#[test]
fn test_read_u16() {
    let mut value: u16 = 0;

    assert_eq!(read_u16(&[0x00; 0], &mut value).is_err(), true);
    assert_eq!(read_u16(&[CONTINUE_BIT], &mut value).is_err(), true);
    assert_eq!(
        read_u16(&[CONTINUE_BIT, CONTINUE_BIT], &mut value).is_err(),
        true
    );
    assert_eq!(
        read_u16(&[CONTINUE_BIT, CONTINUE_BIT, CONTINUE_BIT], &mut value).is_err(),
        true
    );
        assert_eq!(
        read_u16(&[CONTINUE_BIT, CONTINUE_BIT, CONTINUE_BIT, 0], &mut value).is_err(),
        true
    );

    // 1 byte
    assert_eq!(read_u16(&[0x00], &mut value).unwrap(), 1);
    assert_eq!(value, 0x00);
    assert_eq!(read_u16(&[0x7F], &mut value).unwrap(), 1);
    assert_eq!(value, 0x7F);

    // 2 bytes
    assert_eq!(
        read_u16(&[0x7F | CONTINUE_BIT, 0x01], &mut value).unwrap(),
        2
    );
    assert_eq!(value, 0xFF);
    assert_eq!(
        read_u16(&[0x7F | CONTINUE_BIT, 0x7F], &mut value).unwrap(),
        2
    );
    assert_eq!(value, 0x3F_FF);

    // 3 bytes
    assert_eq!(
        read_u16(
            &[0x00 | CONTINUE_BIT, 0x00 | CONTINUE_BIT, 0x01],
            &mut value
        )
        .unwrap(),
        3
    );
    assert_eq!(value, 0x40_00);
    assert_eq!(
        read_u16(
            &[0x7F | CONTINUE_BIT, 0x7F | CONTINUE_BIT, 0x03],
            &mut value
        )
        .unwrap(),
        3
    );
    assert_eq!(value, 0xFF_FF);

    // Out-of-range
        assert_eq!(
        read_u16(
            &[0x7F | CONTINUE_BIT, 0x7F | CONTINUE_BIT, 0x04],
            &mut value
        )
        .is_err(),
        true
    );
}

#[test]
fn test_read_u32() {
    let mut value: u32 = 0;

    assert_eq!(read_u32(&[0x00; 0], &mut value).is_err(), true);
    assert_eq!(read_u32(&[CONTINUE_BIT], &mut value).is_err(), true);
    assert_eq!(
        read_u32(&[CONTINUE_BIT, CONTINUE_BIT], &mut value).is_err(),
        true
    );
    assert_eq!(
        read_u32(&[CONTINUE_BIT, CONTINUE_BIT, CONTINUE_BIT], &mut value).is_err(),
        true
    );
    assert_eq!(
        read_u32(
            &[CONTINUE_BIT, CONTINUE_BIT, CONTINUE_BIT, CONTINUE_BIT],
            &mut value
        )
        .is_err(),
        true
    );
    assert_eq!(
        read_u32(
            &[
                CONTINUE_BIT,
                CONTINUE_BIT,
                CONTINUE_BIT,
                CONTINUE_BIT,
                CONTINUE_BIT
            ],
            &mut value
        )
        .is_err(),
        true
    );
        assert_eq!(
        read_u32(
            &[
                CONTINUE_BIT,
                CONTINUE_BIT,
                CONTINUE_BIT,
                CONTINUE_BIT,
                CONTINUE_BIT,
                0
            ],
            &mut value
        )
        .is_err(),
        true
    );

    // 1 byte
    assert_eq!(read_u32(&[0x00], &mut value).unwrap(), 1);
    assert_eq!(value, 0x00);
    assert_eq!(read_u32(&[0x7F], &mut value).unwrap(), 1);
    assert_eq!(value, 0x7F);

    // 2 bytes
    assert_eq!(
        read_u32(&[0x7F | CONTINUE_BIT, 0x01], &mut value).unwrap(),
        2
    );
    assert_eq!(value, 0xFF);
    assert_eq!(
        read_u32(&[0x7F | CONTINUE_BIT, 0x7F], &mut value).unwrap(),
        2
    );
    assert_eq!(value, 0x3F_FF);

    // 3 bytes
    assert_eq!(
        read_u32(
            &[0x00 | CONTINUE_BIT, 0x00 | CONTINUE_BIT, 0x01],
            &mut value
        )
        .unwrap(),
        3
    );
    assert_eq!(value, 0x40_00);
    assert_eq!(
        read_u32(
            &[0x7F | CONTINUE_BIT, 0x7F | CONTINUE_BIT, 0x7F],
            &mut value
        )
        .unwrap(),
        3
    );
    assert_eq!(value, 0x1F_FF_FF);

    // 4 bytes
    assert_eq!(
        read_u32(
            &[
                0x00 | CONTINUE_BIT,
                0x00 | CONTINUE_BIT,
                0x00 | CONTINUE_BIT,
                0x01
            ],
            &mut value
        )
        .unwrap(),
        4
    );
    assert_eq!(value, 0x20_00_00);
    assert_eq!(
        read_u32(
            &[
                0x7F | CONTINUE_BIT,
                0x7F | CONTINUE_BIT,
                0x7F | CONTINUE_BIT,
                0x7F
            ],
            &mut value
        )
        .unwrap(),
        4
    );
    assert_eq!(value, 0xF_FF_FF_FF);

    // 5 bytes
    assert_eq!(
        read_u32(
            &[
                0x00 | CONTINUE_BIT,
                0x00 | CONTINUE_BIT,
                0x00 | CONTINUE_BIT,
                0x00 | CONTINUE_BIT,
                0x01
            ],
            &mut value
        )
        .unwrap(),
        5
    );
    assert_eq!(value, 0x10_00_00_00);
    assert_eq!(
        read_u32(
            &[
                0x7F | CONTINUE_BIT,
                0x7F | CONTINUE_BIT,
                0x7F | CONTINUE_BIT,
                0x7F | CONTINUE_BIT,
                0x0F
            ],
            &mut value
        )
        .unwrap(),
        5
    );
    assert_eq!(value, 0xFF_FF_FF_FF);

    // Out-of-range
        assert_eq!(
        read_u32(
            &[
                0x7F | CONTINUE_BIT,
                0x7F | CONTINUE_BIT,
                0x7F | CONTINUE_BIT,
                0x7F | CONTINUE_BIT,
                0x1F
            ],
            &mut value
        )
        .is_err(),
        true
    );
}

#[test]
fn test_random_u32() {
    let mut rng = rand::thread_rng();
    let mut buffer: [u8; 5] = [0; 5];
    for _ in 0..4096 {
        let value: u32 = rng.gen();
        let mut decoded_value: u32 = 0;
        write_u32(value, &mut buffer).unwrap();
        read_u32(&buffer, &mut decoded_value).unwrap();
        assert_eq!(value, decoded_value);
    }
}

#[test]
fn write_into_short_buffer_is_buffer_small() {
    let mut buffer: [u8; 2] = [0; 2];
    assert_eq!(write_u32(0x4000, &mut buffer).unwrap_err().kind(), ErrorKind::BufferSmall);
    assert_eq!(write_u16(0x80, &mut buffer[0..1]).unwrap_err().kind(), ErrorKind::BufferSmall);
    assert_eq!(write_u8(0, &mut buffer[0..0]).unwrap_err().kind(), ErrorKind::BufferSmall);
}

#[test]
fn write_leaves_the_rest_of_the_buffer() {
    let mut buffer: [u8; 4] = [0xAA; 4];
    assert_eq!(write_u32(0x80, &mut buffer).unwrap(), 2);
    assert_eq!(buffer, [0x80, 0x01, 0xAA, 0xAA]);
}

#[test]
fn round_trip_every_u16_and_u8() {
    let mut buffer: [u8; 3] = [0; 3];
    for v in 0..=u16::MAX {
        let n = write_u16(v, &mut buffer).unwrap();
        let mut back: u16 = 0;
        assert_eq!(read_u16(&buffer, &mut back).unwrap(), n);
        assert_eq!(back, v);
        let expected = if v < 0x80 { 1 } else if v < 0x4000 { 2 } else { 3 };
        assert_eq!(n, expected);
    }
    for v in 0..=u8::MAX {
        let n = write_u8(v, &mut buffer).unwrap();
        let mut back: u8 = 0;
        assert_eq!(read_u8(&buffer, &mut back).unwrap(), n);
        assert_eq!(back, v);
    }
}

#[test]
fn strict_rejects_and_lenient_truncates_u8() {
    let bytes = [0x7F | CONTINUE_BIT, 0x02];
    let mut value: u8 = 0x33;
    let err = read_u8_with(&bytes, &mut value, Validation::Strict).unwrap_err();
    assert_eq!(err.kind(), ErrorKind::InvalidData);
    assert_eq!(value, 0x33);
    assert_eq!(read_u8_with(&bytes, &mut value, Validation::Lenient).unwrap(), 2);
    assert_eq!(value, 0x7F);
}

#[test]
fn strict_rejects_and_lenient_truncates_u16() {
    let bytes = [0x7F | CONTINUE_BIT, 0x7F | CONTINUE_BIT, 0x04];
    let mut value: u16 = 0;
    let err = read_u16_with(&bytes, &mut value, Validation::Strict).unwrap_err();
    assert_eq!(err.kind(), ErrorKind::InvalidData);
    assert_eq!(read_u16_with(&bytes, &mut value, Validation::Lenient).unwrap(), 3);
    assert_eq!(value, 0x3FFF);
}

#[test]
fn strict_rejects_and_lenient_truncates_u32() {
    let bytes = [0xFF, 0xFF, 0xFF, 0xFF, 0x1F];
    let mut value: u32 = 0;
    let err = read_u32_with(&bytes, &mut value, Validation::Strict).unwrap_err();
    assert_eq!(err.kind(), ErrorKind::InvalidData);
    assert_eq!(read_u32_with(&bytes, &mut value, Validation::Lenient).unwrap(), 5);
    assert_eq!(value, 0xFFFF_FFFF);
}

#[test]
fn lenient_accepts_overlong_encodings() {
    let bytes = [CONTINUE_BIT, CONTINUE_BIT, 0];
    let mut value: u8 = 9;
    assert_eq!(read_u8(&bytes, &mut value).unwrap_err().kind(), ErrorKind::InvalidData);
    assert_eq!(read_u8_with(&bytes, &mut value, Validation::Lenient).unwrap(), 3);
    assert_eq!(value, 0);
    let bytes = [0x81, 0x80, 0x80, 0x80, 0x80, 0x80, 0x01];
    let mut wide: u32 = 9;
    assert_eq!(read_u32(&bytes, &mut wide).unwrap_err().kind(), ErrorKind::InvalidData);
    assert_eq!(read_u32_with(&bytes, &mut wide, Validation::Lenient).unwrap(), 7);
    assert_eq!(wide, 1);
}

#[test]
fn read_errors_by_kind() {
    let mut value: u32 = 0;
    assert_eq!(read_u32(&[], &mut value).unwrap_err().kind(), ErrorKind::NotEnoughData);
    assert_eq!(read_u32(&[0x80], &mut value).unwrap_err().kind(), ErrorKind::NotEnoughData);
    assert_eq!(read_u32(&[0x05, 0x80], &mut value).unwrap(), 1);
    assert_eq!(value, 5);
}
