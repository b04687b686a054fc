use rlox::chunk::{read_u24, write_u24, Chunk, OpCode};
use rlox::line_encoding::LineEncoding;
use rlox::value::Value;

#[test]
fn test_read_u24() {
    let buf = vec![0x0, 0x11, 0x10, 0x4];
    assert_eq!(read_u24(&buf), 0x111004);
}

#[test]
fn test_write_u24() {
    assert_eq!(write_u24(30), vec![0, 0, 30]);
}

#[test]
fn u24_round_trip() {
    for n in [0u32, 1, 255, 256, 0x111004, 0xabcdef, 0xff_ffff] {
        let bytes = write_u24(n);
        assert_eq!(bytes.len(), 3);
        assert_eq!(read_u24(&bytes), n);
    }
    assert_eq!(write_u24(0x123456), vec![0x12, 0x34, 0x56]);
    assert_eq!(read_u24(&[0x12, 0x34, 0x56]), 0x123456);
}

#[test]
fn test_add() {
    let mut encoding = LineEncoding::new();
    encoding.add(1);
    encoding.add(10);
    encoding.add(10);
    encoding.add(10);
    encoding.add(12);
    encoding.add(12);
    encoding.add(15);

    assert_eq!(
        encoding.as_bytes(),
        &[1, 0, 0, 0, 1, 10, 0, 0, 0, 3, 12, 0, 0, 0, 2, 15, 0, 0, 0, 1][..]
    );
}

#[test]
fn test_get() {
    let encoding = LineEncoding::from_bytes(vec![
        1, 0, 0, 0, 1, 10, 0, 0, 0, 3, 12, 0, 0, 0, 2, 15, 0, 0, 0, 1,
    ])
    .unwrap();
    assert_eq!(encoding.get(0), 1);
    assert_eq!(encoding.get(4), 12);
    assert_eq!(encoding.get(5), 12);

    for i in 1..=3 {
        assert_eq!(encoding.get(i), 10);
    }
    assert_eq!(encoding.get(6), 15);
}

#[test]
fn line_table_reads_back_what_was_added() {
    let lines = [3u32, 3, 7, 1, 1, 1, 0x1234_5678, 9];
    let mut encoding = LineEncoding::new();
    for l in lines {
        encoding.add(l);
    }
    for (k, l) in lines.iter().enumerate() {
        assert_eq!(encoding.get(k), *l);
    }
    assert_eq!(&encoding.as_bytes()[15..20], &[0x78, 0x56, 0x34, 0x12, 1]);
}

#[test]
fn line_table_rejects_partial_records() {
    assert!(LineEncoding::from_bytes(vec![1, 0, 0]).is_none());
    assert!(LineEncoding::from_bytes(vec![]).is_some());
}

#[test]
fn long_line_splits_into_two_records() {
    let mut chunk = Chunk::new();
    for _ in 0..300 {
        chunk.write(OpCode::OpNil.to_byte(), 4);
    }
    let bytes = chunk.line_table().as_bytes();
    assert_eq!(bytes, &[4, 0, 0, 0, 255, 4, 0, 0, 0, 45][..]);
    assert_eq!(bytes[4] as u32 + bytes[9] as u32, 300);
    for i in 0..300 {
        assert_eq!(chunk.get_line_number(i), 4);
    }
}

#[test]
fn constant_after_a_full_pool_uses_the_long_form() {
    let mut chunk = Chunk::new();
    for i in 0..256u64 {
        chunk.write_constant(Value::Number(i), 1);
    }
    assert_eq!(chunk.constants().len(), 256);
    assert_eq!(chunk.len(), 256 * 2);
    assert_eq!(&chunk.code()[510..512], &[OpCode::OpConstant.to_byte(), 255][..]);
    // The pool holds 256 entries: the next index needs three bytes.
    chunk.write_constant(Value::Number(256), 1);
    assert_eq!(chunk.len(), 256 * 2 + 4);
    assert_eq!(&chunk.code()[512..516], &[OpCode::OpConstantLong.to_byte(), 0, 1, 0][..]);
}

#[test]
fn write_records_lines() {
    let mut chunk = Chunk::new();
    chunk.write(OpCode::OpTrue.to_byte(), 1);
    chunk.write_constant(Value::Nil, 2);
    chunk.write(OpCode::OpReturn.to_byte(), 3);
    assert_eq!(chunk.len(), 4);
    assert_eq!(chunk.get_line_number(0), 1);
    assert_eq!(chunk.get_line_number(1), 2);
    assert_eq!(chunk.get_line_number(2), 2);
    assert_eq!(chunk.get_line_number(3), 3);
    assert_eq!(chunk.constants().get(0), &Value::Nil);
}

#[test]
fn opcode_bytes_round_trip() {
    for b in 0u8..=14 {
        let op = OpCode::from_byte(b).unwrap();
        assert_eq!(op.to_byte(), b);
    }
    assert_eq!(OpCode::from_byte(15), None);
    assert_eq!(OpCode::OpLess.name(), "OpLess");
}
