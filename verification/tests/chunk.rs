use loxvm::chunk::{Chunk, OpCode};
use loxvm::value::{Value, ValueArray};

#[test]
fn test_opcode_try_from() {
    [
        OpCode::Return,
        OpCode::Constant,
        OpCode::Negate,
        OpCode::Add,
        OpCode::Subtract,
        OpCode::Multiply,
        OpCode::Divide,
        OpCode::Nil,
        OpCode::True,
        OpCode::False,
        OpCode::Not,
        OpCode::Equal,
        OpCode::Greater,
        OpCode::Less,
    ]
    .into_iter()
    .for_each(|opcode| {
        assert_eq!(
            <u8 as TryInto::<OpCode>>::try_into(opcode as u8),
            Ok(opcode),
            "{:?}",
            opcode
        );
    });

    assert_eq!(<u8 as TryInto::<OpCode>>::try_into(255), Err(()));
}

#[test]
fn test_chunk_write() {
    let mut chunk = Chunk::new();
    chunk.write(8, 155);
    chunk.write(9, 156);
    chunk.write(15, 156);
    chunk.write(2, 157);

    let code: Vec<u8> = (0..chunk.code_len()).map(|i| chunk.get_code(i)).collect();
    let lines: Vec<u32> = (0..chunk.code_len()).map(|i| chunk.get_line(i)).collect();
    assert_eq!(code, vec![8, 9, 15, 2]);
    assert_eq!(lines, vec![155, 156, 156, 157]);

    assert_eq!(chunk.get_code(0), 8);
    assert_eq!(chunk.get_code(1), 9);
    assert_eq!(chunk.get_code(2), 15);
    assert_eq!(chunk.get_code(3), 2);

    assert_eq!(chunk.get_line(0), 155);
    assert_eq!(chunk.get_line(1), 156);
    assert_eq!(chunk.get_line(2), 156);
    assert_eq!(chunk.get_line(3), 157);

    assert_eq!(chunk.code_len(), 4);
}

#[test]
fn test_chunk_constants() {
    let mut chunk = Chunk::new();
    let mut value_array = ValueArray::new();
    assert_eq!(chunk.constants(), &value_array);

    value_array.add(Value::Number(10.0f64.to_bits()));
    chunk.constants_mut().add(Value::Number(10.0f64.to_bits()));
    assert_eq!(chunk.constants(), &value_array);
}

#[test]
fn test_opcode_bytes_are_stable() {
    assert_eq!(OpCode::Return.byte(), 0);
    assert_eq!(OpCode::Constant.byte(), 1);
    assert_eq!(OpCode::Negate.byte(), 2);
    assert_eq!(OpCode::Add.byte(), 3);
    assert_eq!(OpCode::Subtract.byte(), 4);
    assert_eq!(OpCode::Multiply.byte(), 5);
    assert_eq!(OpCode::Divide.byte(), 6);
    assert_eq!(OpCode::Nil.byte(), 7);
    assert_eq!(OpCode::True.byte(), 8);
    assert_eq!(OpCode::False.byte(), 9);
    assert_eq!(OpCode::Not.byte(), 10);
    assert_eq!(OpCode::Equal.byte(), 11);
    assert_eq!(OpCode::Greater.byte(), 12);
    assert_eq!(OpCode::Less.byte(), 13);
}

#[test]
fn test_opcode_round_trip() {
    for byte in 0..=255u8 {
        match OpCode::try_from(byte) {
            Ok(op) => {
                assert!(byte <= 13);
                assert_eq!(op.byte(), byte);
                assert_eq!(op as u8, byte);
            }
            Err(()) => assert!(byte > 13),
        }
    }
}

#[test]
fn test_chunk_equality() {
    let mut a = Chunk::new();
    let mut b = Chunk::new();
    assert_eq!(a, b);
    a.write(7, 1);
    assert_ne!(a, b);
    b.write(7, 2);
    assert_ne!(a, b);
    let mut c = Chunk::new();
    c.write(7, 1);
    assert_eq!(a, c);
    c.constants_mut().add(Value::Nil);
    assert_ne!(a, c);
    a.constants_mut().add(Value::Nil);
    assert_eq!(a, c);
}

#[test]
fn test_chunk_keeps_a_line_for_each_byte() {
    let mut chunk = Chunk::new();
    assert_eq!(chunk.code_len(), 0);
    for i in 0..300u32 {
        chunk.write((i % 14) as u8, i);
        assert_eq!(chunk.code_len(), i as usize + 1);
        assert_eq!(chunk.get_line(i as usize), i);
        assert_eq!(chunk.get_code(i as usize), (i % 14) as u8);
    }
}
