use luarus::bytecode::op::Op;
use luarus::bytecode::value::RtType;

#[test]
fn type_names_round_trip() {
    for t in [
        RtType::I8,
        RtType::I16,
        RtType::I32,
        RtType::I64,
        RtType::U8,
        RtType::U16,
        RtType::U32,
        RtType::U64,
        RtType::F16,
        RtType::F32,
        RtType::F64,
        RtType::Bool,
        RtType::Str,
        RtType::Nil,
    ] {
        assert_eq!(RtType::from_name(t.name()), Some(t));
        assert_eq!(RtType::from_tag(t.tag()), Some(t));
    }
    assert_eq!(RtType::from_name("int"), None);
    assert_eq!(RtType::from_tag(14), None);
}

#[test]
fn type_classes_and_ranges() {
    assert!(RtType::I16.is_signed_int() && RtType::I16.is_int() && RtType::I16.is_numeric());
    assert!(RtType::U8.is_unsigned_int() && !RtType::U8.is_signed_int());
    assert!(RtType::F16.is_float() && !RtType::F16.is_int());
    assert!(!RtType::Str.is_numeric());
    assert_eq!(RtType::I8.int_range(), Some((-128, 127)));
    assert_eq!(RtType::U64.int_range(), Some((0, u64::MAX as i128)));
    assert_eq!(RtType::Bool.int_range(), None);
    assert_eq!(RtType::U8.tag(), 4);
}

#[test]
fn mnemonics() {
    assert_eq!(Op::JumpIfFalse(3).mnemonic(), "jump.false");
    assert_eq!(Op::Add(RtType::I32).mnemonic(), "add");
    assert_eq!(Op::Halt.mnemonic(), "halt");
}
