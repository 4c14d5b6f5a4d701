use luarus::bytecode::chunk::{Chunk, Const, GlobalInfo};
use luarus::bytecode::op::Op;
use luarus::bytecode::value::RtType;
use luarus::compile::compile;
use luarus::compile::literal::FloatReading;
use luarus::diag::line_col;
use luarus::interp::{arith, as_int, compare, fit, negate};
use luarus::rule::Rule;
use luarus::syntax::ast::BinOp;
use luarus::vm::Value;

fn no_floats() -> Vec<FloatReading> {
    Vec::new()
}

#[test]
fn widened_arithmetic_traps_on_overflow() {
    let e = arith(BinOp::Add, &Value::Uint(250), &Value::Uint(10), RtType::U8, 4).unwrap_err();
    assert_eq!(e.rule, Rule::OverflowTraps);
    assert_eq!(e.message, "arithmetic overflowed `u8`");
    assert_eq!(e.line, 4);
}

#[test]
fn widened_subtraction_below_zero_is_refused() {
    let e = arith(BinOp::Sub, &Value::Uint(0), &Value::Uint(1), RtType::U32, 1).unwrap_err();
    assert_eq!(e.rule, Rule::UnsignedIsNeverNegative);
    assert!(e.message.contains("below zero"));
}

#[test]
fn widened_division_by_zero_is_refused() {
    let e = arith(BinOp::Rem, &Value::Int(1), &Value::Int(0), RtType::I32, 1).unwrap_err();
    assert_eq!(e.rule, Rule::NoDivisionByZero);
    assert_eq!(e.message, "remainder by zero");
}

#[test]
fn widened_arithmetic_is_exact() {
    assert!(matches!(arith(BinOp::Mul, &Value::Int(-6), &Value::Int(7), RtType::I8, 1), Ok(Some(Value::Int(-42)))));
    assert!(matches!(arith(BinOp::Div, &Value::Int(-7), &Value::Int(2), RtType::I32, 1), Ok(Some(Value::Int(-3)))));
    assert!(matches!(arith(BinOp::Rem, &Value::Int(-7), &Value::Int(2), RtType::I32, 1), Ok(Some(Value::Int(-1)))));
    assert!(matches!(
        arith(BinOp::Rem, &Value::Int(i64::MIN), &Value::Int(-1), RtType::I64, 1),
        Ok(Some(Value::Int(0)))
    ));
    let big = arith(BinOp::Mul, &Value::Uint(u64::MAX), &Value::Uint(u64::MAX), RtType::U64, 1).unwrap_err();
    assert_eq!(big.rule, Rule::OverflowTraps);
}

#[test]
fn floats_are_left_to_the_caller() {
    assert!(matches!(arith(BinOp::Add, &Value::F64(0), &Value::F64(0), RtType::F64, 1), Ok(None)));
    assert!(matches!(compare(BinOp::Lt, &Value::F32(0), &Value::F32(0), 1), Ok(None)));
    assert!(arith(BinOp::Add, &Value::F64(0), &Value::F32(0), RtType::F64, 1).is_err());
}

#[test]
fn fitting_narrows_or_traps() {
    assert!(matches!(fit(127, RtType::I8, 1), Ok(Value::Int(127))));
    assert!(fit(128, RtType::I8, 1).is_err());
    assert!(matches!(fit(255, RtType::U8, 1), Ok(Value::Uint(255))));
    assert_eq!(as_int(&Value::Uint(u64::MAX)), Some(u64::MAX as i128));
    assert_eq!(as_int(&Value::Bool(true)), None);
}

#[test]
fn negation_is_exact_or_traps() {
    assert!(matches!(negate(&Value::Int(5), RtType::I32, 1), Ok(Value::Int(-5))));
    assert_eq!(negate(&Value::Int(-128), RtType::I8, 1).unwrap_err().rule, Rule::OverflowTraps);
    assert!(matches!(negate(&Value::F64(1.5f64.to_bits()), RtType::F64, 1), Ok(Value::F64(b)) if f64::from_bits(b) == -1.5));
}

#[test]
fn comparisons_follow_their_operands() {
    assert!(matches!(compare(BinOp::Le, &Value::Int(-1), &Value::Int(-1), 1), Ok(Some(true))));
    assert!(matches!(compare(BinOp::Gt, &Value::Bool(true), &Value::Bool(false), 1), Ok(Some(true))));
    assert!(matches!(compare(BinOp::Lt, &Value::Str("apple".into()), &Value::Str("banana".into()), 1), Ok(Some(true))));
    assert!(matches!(compare(BinOp::Eq, &Value::Nil, &Value::Nil, 1), Ok(Some(true))));
    assert_eq!(compare(BinOp::Eq, &Value::Nil, &Value::Int(0), 1).unwrap_err().rule, Rule::BytecodeIsWellFormed);
}

#[test]
fn lines_and_columns_count_from_one() {
    assert_eq!(line_col("ab\ncd", 0), (1, 1));
    assert_eq!(line_col("ab\ncd", 4), (2, 2));
    assert_eq!(line_col("ab\ncd", 99), (2, 3));
}

#[test]
fn a_column_counts_a_cluster_as_one() {
    let src = "var i32 (🧑‍🧑‍🧒‍🧒) = '1' end var i32 (🧑‍🧑‍🧒‍🧒) = '2' end";
    let d = compile(src, "t.lrs", &no_floats()).unwrap_err();
    assert_eq!(d[0].rule, Rule::NamesAreDeclaredOnce);
    assert_eq!(line_col(src, d[0].span.start), (1, 31));
}

#[test]
fn a_listing_shows_every_part_of_a_chunk() {
    let mut c = Chunk::new("t.lrs");
    c.locals = 1;
    c.local_names = vec!["n".into()];
    c.globals = vec![GlobalInfo { name: "shown".into(), ty: RtType::I32, exported: true }];
    let k = c.add_const(Const::Int(7));
    c.emit(Op::Const(k), 1);
    c.emit(Op::StoreLocal(0), 1);
    c.emit(Op::LoadLocal(0), 2);
    c.emit(Op::Write(RtType::I32), 2);
    c.emit(Op::Jump(12), 3);
    c.emit(Op::Halt, 3);
    let text = c.disassemble(&vec!["int    7".to_string()]);
    let expected = "chunk t.lrs\n  locals: 1\n  local slots:\n      0  (n)\n  globals:\n      0  pub i32 (shown)\n  \
                    constants:\n      0  int    7\n  code:\n      0      1  const          0    -- int    7\n      \
                    1      1  store.local    0    -- (n)\n      2      2  load.local     0    -- (n)\n      \
                    3      2  write.i32\n      4      3  jump           12\n      5      3  halt\n";
    assert_eq!(text, expected);
}
