use dns_resolver::buffer::{NetworkBuffer, MAX_MESSAGE_SIZE};

#[test]
fn test_put_u8() {
    let mut buf = NetworkBuffer::new();
    buf.put_u8(0xFF).unwrap();

    assert_eq!(buf.buf[0], 0xFF);
    assert_eq!(buf.write_count(), 1);
}

#[test]
fn test_put_u16() {
    let mut buf = NetworkBuffer::new();
    buf.put_u16(0xFC3F).unwrap();

    assert_eq!(buf.buf[0], 0xFC);
    assert_eq!(buf.buf[1], 0x3F);
    assert_eq!(buf.write_count(), 2);
}

#[test]
fn test_put_u32() {
    let mut buf = NetworkBuffer::new();
    buf.put_u32(0x12345678).unwrap();

    assert_eq!(buf.buf[0], 0x12);
    assert_eq!(buf.buf[1], 0x34);
    assert_eq!(buf.buf[2], 0x56);
    assert_eq!(buf.buf[3], 0x78);
    assert_eq!(buf.write_count(), 4);
}

#[test]
fn test_put_u8_at_capacity() {
    let mut buf = NetworkBuffer::new();

    buf.write_cursor = MAX_MESSAGE_SIZE;

    assert!(buf.put_u8(0xFF).is_err());

    buf.write_cursor = MAX_MESSAGE_SIZE - 1;

    assert!(buf.put_u8(0xFF).is_err());
}

#[test]
fn test_put_u16_at_capacity() {
    let mut buf = NetworkBuffer::new();

    buf.write_cursor = MAX_MESSAGE_SIZE;
    assert!(buf.put_u16(0xFFFF).is_err());

    buf.write_cursor = MAX_MESSAGE_SIZE - 1;
    assert!(buf.put_u16(0xFFFF).is_err());

    buf.write_cursor = MAX_MESSAGE_SIZE - 2;
    assert!(buf.put_u16(0xFFFF).is_err());
}

#[test]
fn test_put_u32_at_capacity() {
    let mut buf = NetworkBuffer::new();

    buf.write_cursor = MAX_MESSAGE_SIZE;
    assert!(buf.put_u32(0xFFFF).is_err());
    buf.write_cursor = MAX_MESSAGE_SIZE - 1;

    assert!(buf.put_u32(0xFFFF).is_err());
    buf.write_cursor = MAX_MESSAGE_SIZE - 2;

    assert!(buf.put_u32(0xFFFF).is_err());
    buf.write_cursor = MAX_MESSAGE_SIZE - 3;

    assert!(buf.put_u32(0xFFFF).is_err());
    buf.write_cursor = MAX_MESSAGE_SIZE - 4;
    assert!(buf.put_u32(0xFFFF).is_err());
}

#[test]
fn test_get_u8() {
    let mut buf = NetworkBuffer::new();
    buf.buf[0] = 0xFF;

    let value = buf.get_u8().unwrap();

    assert_eq!(value, 0xFF);
    assert_eq!(buf.read_cursor, 1);
}

#[test]
fn test_get_u16() {
    let mut buf = NetworkBuffer::new();
    buf.buf[0] = 0xFF;
    buf.buf[1] = 0x11;

    let value = buf.get_u16().unwrap();

    assert_eq!(value, 0xFF11);
    assert_eq!(buf.read_cursor, 2);
}

#[test]
fn test_get_u32() {
    let mut buf = NetworkBuffer::new();
    buf.buf[0] = 0xFF;
    buf.buf[1] = 0x11;
    buf.buf[2] = 0x22;
    buf.buf[3] = 0x33;

    let value = buf.get_u32().unwrap();

    assert_eq!(value, 0xFF112233);
    assert_eq!(buf.read_cursor, 4);
}

#[test]
fn test_put_u128_round_trip() {
    let mut buf = NetworkBuffer::new();
    buf.put_u128(0x0102030405060708090A0B0C0D0E0F10).unwrap();

    assert_eq!(buf.buf[0], 0x01);
    assert_eq!(buf.buf[15], 0x10);
    assert_eq!(buf.write_count(), 16);

    let value = buf.get_u128().unwrap();
    assert_eq!(value, 0x0102030405060708090A0B0C0D0E0F10);
}

#[test]
fn test_set_u16_patches_in_place() {
    let mut buf = NetworkBuffer::new();
    buf.put_u16(0).unwrap();
    buf.put_u8(0xAA).unwrap();
    buf.set_u16(0, 0xBEEF).unwrap();

    assert_eq!(buf.buf[0], 0xBE);
    assert_eq!(buf.buf[1], 0xEF);
    assert_eq!(buf.buf[2], 0xAA);
    assert_eq!(buf.write_count(), 3);
}

#[test]
fn test_get_u8_at_capacity() {
    let mut buf = NetworkBuffer::new();
    buf.read_cursor = MAX_MESSAGE_SIZE - 1;
    assert!(buf.get_u8().is_err());
}

#[test]
fn test_reset_clears_cursors() {
    let mut buf = NetworkBuffer::new();
    buf.put_u32(0xDEADBEEF).unwrap();
    buf.get_u8().unwrap();
    buf.reset();

    assert_eq!(buf.write_count(), 0);
    assert_eq!(buf.read_cursor, 0);
    assert_eq!(buf.buf[0], 0xDE);
}
