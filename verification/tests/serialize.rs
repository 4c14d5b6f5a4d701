use luarus::bytecode::chunk::{Chunk, Const, GlobalInfo};
use luarus::bytecode::op::Op;
use luarus::bytecode::serialize::{decode, encode};
use luarus::bytecode::value::RtType;

#[test]
fn round_trips_a_chunk() {
    let mut c = Chunk::new("test.lrs");
    c.locals = 2;
    c.local_names = vec!["x".into(), "count 🎉".into()];
    c.globals = vec![GlobalInfo { name: "g".into(), ty: RtType::I32, exported: true }];
    let k = c.add_const(Const::Int(1000));
    c.emit(Op::Const(k), 1);
    c.emit(Op::Add(RtType::F16), 1);
    c.emit(Op::Halt, 2);

    let decoded = decode(&encode(&c)).expect("round trip");
    assert_eq!(decoded.code, c.code);
    assert_eq!(decoded.consts, c.consts);
    assert_eq!(decoded.local_names, c.local_names);
    assert_eq!(decoded.globals, c.globals);
    assert_eq!(decoded.lines, c.lines);
}

#[test]
fn rejects_foreign_files() {
    assert!(decode(b"not bytecode at all").is_err());
}

#[test]
fn every_constant_kind_round_trips() {
    let mut c = Chunk::new("k.lrs");
    for k in [
        Const::Int(-5),
        Const::Uint(u64::MAX),
        Const::F16(0x3c00),
        Const::F32(1.5f32.to_bits()),
        Const::F64((-0.25f64).to_bits()),
        Const::Bool(true),
        Const::Bool(false),
        Const::Str("héllo".to_string()),
        Const::Nil,
    ] {
        c.add_const(k);
    }
    let d = decode(&encode(&c)).expect("round trip");
    assert_eq!(d.consts, c.consts);
    assert_eq!(d.source, "k.lrs");
}

#[test]
fn the_header_is_magic_then_version() {
    let bytes = encode(&Chunk::new(""));
    assert_eq!(&bytes[0..4], b"LRSB");
    assert_eq!(&bytes[4..6], &[6, 0]);
    // empty source, zero locals, five empty lists
    assert_eq!(bytes.len(), 4 + 2 + 4 + 4 + 5 * 4);
}

#[test]
fn decode_errors_say_what_is_wrong() {
    assert_eq!(decode(b"nope").unwrap_err().0, "not a Luarus bytecode file (bad magic)");
    assert_eq!(decode(b"LRS").unwrap_err().0, "unexpected end of file at byte 0");
    assert_eq!(
        decode(b"LRSB\x07\x00").unwrap_err().0,
        "bytecode version 7, but this VM speaks version 6"
    );
    let mut bytes = encode(&Chunk::new("s"));
    bytes.truncate(10);
    assert_eq!(decode(&bytes).unwrap_err().0, "unexpected end of file at byte 10");
    let mut c = Chunk::new("");
    c.emit(Op::Halt, 1);
    let mut bytes = encode(&c);
    let n = bytes.len();
    // the one opcode sits before the line table's count and its one entry
    bytes[n - 9] = 99;
    assert_eq!(decode(&bytes).unwrap_err().0, "unknown opcode 99");
    assert_eq!(
        decode(b"nope").unwrap_err().to_string(),
        "malformed bytecode: not a Luarus bytecode file (bad magic)"
    );
}

#[test]
fn a_count_larger_than_the_file_is_refused() {
    let mut bytes = encode(&Chunk::new(""));
    // the local-name count follows magic, version, source length and locals
    bytes[14] = 0xff;
    bytes[15] = 0xff;
    assert_eq!(decode(&bytes).unwrap_err().0, "declared count 65535 exceeds remaining input");
}

#[test]
fn invalid_utf8_in_a_string_is_refused() {
    let mut bytes = encode(&Chunk::new("a"));
    bytes[10] = 0xff;
    assert_eq!(decode(&bytes).unwrap_err().0, "string is not valid UTF-8");
}
