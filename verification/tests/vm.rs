use luarus::bytecode::chunk::{Chunk, Const};
use luarus::bytecode::half::{half_from_single, single_from_half};
use luarus::bytecode::op::Op;
use luarus::bytecode::serialize;
use luarus::bytecode::value::RtType;
use luarus::compile::compile;
use luarus::compile::literal::{FloatReading, FloatValue};
use luarus::compile::literal_bodies;
use luarus::rule::Rule;
use luarus::vm::{Event, RuntimeError, Value, Vm};

fn read_float(body: &str) -> Option<FloatValue> {
    let v: f64 = match body {
        "inf" | "+inf" => f64::INFINITY,
        "-inf" => f64::NEG_INFINITY,
        "nan" => f64::NAN,
        _ => body.parse().ok()?,
    };
    Some(FloatValue { bits64: v.to_bits(), bits32: (v as f32).to_bits(), shown: format!("{v}") })
}

fn floats(src: &str) -> Vec<FloatReading> {
    literal_bodies(src)
        .into_iter()
        .map(|body| FloatReading { value: read_float(&body), body })
        .collect()
}

fn format_float(v: f64) -> String {
    if v.is_nan() {
        return "nan".into();
    }
    if v.is_infinite() {
        return if v > 0.0 { "inf".into() } else { "-inf".into() };
    }
    if v == v.trunc() && v.abs() < 1e15 {
        format!("{v:.1}")
    } else {
        format!("{v}")
    }
}

fn show(v: &Value) -> String {
    match v.display() {
        Some(t) => t,
        None => match v {
            Value::F32(b) => format_float(f32::from_bits(*b) as f64),
            Value::F64(b) => format_float(f64::from_bits(*b)),
            _ => unreachable!("only floats are left to the driver"),
        },
    }
}

fn float_work(op: Op, a: f64, b: f64) -> Result<f64, bool> {
    match op {
        Op::Add(_) => Ok(a + b),
        Op::Sub(_) => Ok(a - b),
        Op::Mul(_) => Ok(a * b),
        Op::Div(_) => Ok(a / b),
        Op::Rem(_) => Ok(a % b),
        Op::Eq(_) => Err(a == b),
        Op::Ne(_) => Err(a != b),
        Op::Lt(_) => Err(a < b),
        Op::Le(_) => Err(a <= b),
        Op::Gt(_) => Err(a > b),
        _ => Err(a >= b),
    }
}

fn float_result(op: Op, lhs: &Value, rhs: &Value, ty: RtType) -> Value {
    match (lhs, rhs) {
        (Value::F64(a), Value::F64(b)) => match float_work(op, f64::from_bits(*a), f64::from_bits(*b)) {
            Ok(r) => Value::F64(r.to_bits()),
            Err(v) => Value::Bool(v),
        },
        (Value::F32(a), Value::F32(b)) => {
            match float_work(op, f32::from_bits(*a) as f64, f32::from_bits(*b) as f64) {
                Ok(r) => {
                    let bits = (r as f32).to_bits();
                    Value::F32(if ty == RtType::F16 { single_from_half(half_from_single(bits)) } else { bits })
                },
                Err(v) => Value::Bool(v),
            }
        },
        _ => unreachable!("the machine checks the operands before handing them out"),
    }
}

/// Run a chunk, capturing what it prints.
fn drive(chunk: &Chunk) -> Result<String, RuntimeError> {
    let mut vm = Vm::new(chunk);
    let mut out = String::new();
    loop {
        match vm.step() {
            Event::Ran => {},
            Event::Done => return Ok(out),
            Event::Write(v, _) => out.push_str(&show(&v)),
            Event::Float { op, lhs, rhs, ty } => vm.push(float_result(op, &lhs, &rhs, ty)),
            Event::Fault(e) => return Err(e),
        }
    }
}

/// Compile, serialise, reload, and run, returning what the program printed.
fn run(src: &str) -> String {
    let chunk = compile(src, "test.lrs", &floats(src))
        .unwrap_or_else(|d| panic!("expected the program to compile, but: {d:?}"));
    let reloaded = serialize::decode(&serialize::encode(&chunk)).expect("bytecode round trip");
    drive(&reloaded).expect("expected the program to run")
}

fn runtime_error(src: &str) -> RuntimeError {
    let chunk = compile(src, "test.lrs", &floats(src)).expect("should compile");
    drive(&chunk).expect_err("expected a runtime error")
}

// ------------------------------------------------------------------ the basics

#[test]
fn runs_the_founding_example() {
    assert_eq!(run("var f16 (x) = '1000' end print[(x)] end"), "1000.0");
}

#[test]
fn names_may_contain_spaces_and_emoji() {
    let out = run(
        "var str (a friendly greeting) = 'hi' end \
         var i32 (🎯 score) = '7' end \
         print[(a friendly greeting) \\n (🎯 score)] end",
    );
    assert_eq!(out, "hi\n7");
}

#[test]
fn names_may_contain_operators_and_keywords() {
    assert_eq!(run("var i32 (a + b end) = '3' end print[(a + b end)] end"), "3");
}

#[test]
fn escapes_let_a_name_contain_parentheses() {
    assert_eq!(run(r"var i32 (f\(x\)) = '9' end print[(f\(x\))] end"), "9");
}

#[test]
fn the_same_literal_reads_differently_under_different_types() {
    let out = run(
        "var i32 (a) = '1000' end var str (b) = '1000' end \
         var f64 (c) = '1000' end var bool (d) = 'true' end \
         print[(a) \" \" (b) \" \" (c) \" \" (d)] end",
    );
    assert_eq!(out, "1000 1000 1000.0 true");
}

#[test]
fn pipes_group_because_parens_and_brackets_are_taken() {
    assert_eq!(run("var i32 (n) = | '2' + '3' | * '4' end print[(n)] end"), "20");
    assert_eq!(run("var i32 (n) = '2' + '3' * '4' end print[(n)] end"), "14");
}

#[test]
fn pipes_nest() {
    assert_eq!(run("var i32 (m) = | | '1' + '1' | * '3' | + '1' end print[(m)] end"), "7");
}

#[test]
fn modifiers_go_before_var() {
    let out = run(
        "global var u8 (counter) = '0' end pub var str (version) = '0.1.0' end \
         set (counter) = (counter) + '1' end \
         print[(counter) \" \" (version)] end",
    );
    assert_eq!(out, "1 0.1.0");
}

#[test]
fn comparisons_produce_bool() {
    let out = run(
        "var i32 (n) = '5' end var bool (a) = (n) > '3' end \
         var bool (b) = (n) == '5' end var bool (c) = (n) != '5' end \
         print[(a) \" \" (b) \" \" (c)] end",
    );
    assert_eq!(out, "true true false");
}

#[test]
fn strings_compare_lexicographically() {
    assert_eq!(run("var str (s) = 'apple' end print[| (s) < 'banana' |] end"), "true");
}

#[test]
fn comments_run_to_end_of_line() {
    assert_eq!(run("-- a comment\nvar i32 (n) = '1' end -- another\nprint[(n)] end"), "1");
}

#[test]
fn integer_literals_accept_separators_and_radixes() {
    let out = run(
        "var i32 (a) = '1_000_000' end var u8 (b) = '0xff' end var i32 (c) = '0b1010' end \
         print[(a) \" \" (b) \" \" (c)] end",
    );
    assert_eq!(out, "1000000 255 10");
}

#[test]
fn f16_really_loses_precision() {
    assert_eq!(run("var f16 (a) = '2049' end print[(a)] end"), "2048.0");
    assert_eq!(run("var f32 (b) = '2049' end print[(b)] end"), "2049.0");
}

#[test]
fn f16_stays_rounded_after_arithmetic() {
    assert_eq!(run("var f16 (a) = '2048' end set (a) = (a) + '1' end print[(a)] end"), "2048.0");
}

#[test]
fn print_writes_exactly_what_it_is_given() {
    assert_eq!(run("print[\"1\"] end print[\"2\"] end"), "12");
}

#[test]
fn newlines_are_always_explicit() {
    assert_eq!(run(r#"print["1" \n] end print["2" \n] end"#), "1\n2\n");
    assert_eq!(run(r#"print["1" \n], print["2" \n], print["3" \n] end"#), "1\n2\n3\n");
}

#[test]
fn prints_a_juxtaposed_list() {
    let src = "var str (name) = 'Lua ripoff 🤣' end\nprint[\"Hello, \" (name) \\n] end";
    assert_eq!(run(src), "Hello, Lua ripoff 🤣\n");
}

#[test]
fn an_empty_print_writes_nothing() {
    assert_eq!(run("print[] end"), "");
}

#[test]
fn juxtaposition_stringifies_any_type() {
    let src = "var f16 (x) = '1000' end var u8 (k) = '7' end print[\"x=\" (x) \" k=\" (k)] end";
    assert_eq!(run(src), "x=1000.0 k=7");
}

#[test]
fn bare_escapes_are_text() {
    assert_eq!(run(r#"print["a" \t "b" \n "c"] end"#), "a\tb\nc");
}

#[test]
fn escapes_work_inside_quotes_too() {
    assert_eq!(run("print[\"a\\tb\"] end"), "a\tb");
}

#[test]
fn chains_may_mix_statement_kinds() {
    assert_eq!(run("var i32 (n) = '1', set (n) = (n) + '4', print[(n)] end"), "5");
}

#[test]
fn runtime_errors_cite_rules_too() {
    let e = runtime_error("var u8 (n) = '250' end set (n) = (n) + '10' end");
    assert_eq!(e.rule, Some(Rule::OverflowTraps));

    let e = runtime_error("var u8 (n) = '0' end set (n) = (n) - '1' end");
    assert_eq!(e.rule, Some(Rule::UnsignedIsNeverNegative));

    let e = runtime_error("var i32 (z) = '0' end var i32 (n) = '1' / (z) end");
    assert_eq!(e.rule, Some(Rule::NoDivisionByZero));
}

#[test]
fn overflow_traps_instead_of_wrapping() {
    assert!(runtime_error("var u8 (n) = '250' end set (n) = (n) + '10' end")
        .message
        .contains("overflowed `u8`"));
}

#[test]
fn unsigned_subtraction_below_zero_is_an_error() {
    assert!(runtime_error("var u8 (n) = '0' end set (n) = (n) - '1' end")
        .message
        .contains("below zero"));
}

#[test]
fn integer_division_by_zero_is_an_error() {
    assert!(runtime_error("var i32 (z) = '0' end var i32 (n) = '1' / (z) end")
        .message
        .contains("division by zero"));
}

#[test]
fn float_division_by_zero_follows_ieee() {
    assert_eq!(run("var f64 (z) = '0' end var f64 (n) = '1' / (z) end print[(n)] end"), "inf");
}

#[test]
fn a_name_may_be_a_single_multi_scalar_character() {
    assert_eq!(run("var i32 (🧑‍🧑‍🧒‍🧒) = '4' end print[(🧑‍🧑‍🧒‍🧒)] end"), "4");
}

// ------------------------------------------------------------ the machine alone

fn chunk_of(consts: Vec<Const>, code: Vec<Op>, locals: usize) -> Chunk {
    let mut c = Chunk::new("hand.lrb");
    c.locals = locals;
    for k in consts {
        c.add_const(k);
    }
    for (i, op) in code.into_iter().enumerate() {
        c.emit(op, i as u32 + 1);
    }
    c
}

#[test]
fn the_smallest_integer_divides_by_minus_one_with_nothing_left() {
    let c = chunk_of(
        vec![Const::Int(i64::MIN), Const::Int(-1)],
        vec![Op::Const(0), Op::Const(1), Op::Rem(RtType::I64), Op::Write(RtType::I64), Op::Halt],
        0,
    );
    assert_eq!(drive(&c).unwrap(), "0");
}

#[test]
fn dividing_the_smallest_integer_by_minus_one_overflows() {
    let c = chunk_of(
        vec![Const::Int(i64::MIN), Const::Int(-1)],
        vec![Op::Const(0), Op::Const(1), Op::Div(RtType::I64), Op::Halt],
        0,
    );
    let e = drive(&c).unwrap_err();
    assert_eq!(e.rule, Some(Rule::OverflowTraps));
    assert_eq!(e.message, "arithmetic overflowed `i64`");
    assert_eq!(e.line, 3);
}

#[test]
fn division_rounds_toward_zero() {
    let c = chunk_of(
        vec![Const::Int(-7), Const::Int(2)],
        vec![
            Op::Const(0),
            Op::Const(1),
            Op::Div(RtType::I32),
            Op::Write(RtType::I32),
            Op::Const(0),
            Op::Const(1),
            Op::Rem(RtType::I32),
            Op::Write(RtType::I32),
            Op::Halt,
        ],
        0,
    );
    assert_eq!(drive(&c).unwrap(), "-3-1");
}

#[test]
fn negating_the_smallest_i8_overflows() {
    let c = chunk_of(vec![Const::Int(-128)], vec![Op::Const(0), Op::Neg(RtType::I8), Op::Halt], 0);
    let e = drive(&c).unwrap_err();
    assert_eq!(e.message, "negation overflowed `i8`");
    assert_eq!(e.rule, Some(Rule::OverflowTraps));
}

#[test]
fn reading_an_unassigned_slot_is_an_error() {
    let mut c = chunk_of(vec![], vec![Op::LoadLocal(0), Op::Halt], 1);
    c.local_names = vec!["count".into()];
    let e = drive(&c).unwrap_err();
    assert_eq!(e.rule, Some(Rule::AssignBeforeReading));
    assert_eq!(e.message, "`(count)` is read before it is assigned");
    let c = chunk_of(vec![], vec![Op::LoadLocal(0), Op::Halt], 1);
    assert_eq!(drive(&c).unwrap_err().message, "`(0)` is read before it is assigned");
}

#[test]
fn a_stored_value_reads_back() {
    let c = chunk_of(
        vec![Const::Str("hi".into())],
        vec![Op::Const(0), Op::StoreLocal(0), Op::LoadLocal(0), Op::Write(RtType::Str), Op::Halt],
        1,
    );
    assert_eq!(drive(&c).unwrap(), "hi");
}

#[test]
fn jumps_skip_and_branch() {
    let c = chunk_of(
        vec![Const::Bool(false), Const::Str("a".into()), Const::Str("b".into())],
        vec![
            Op::Const(0),
            Op::JumpIfFalse(4),
            Op::Const(1),
            Op::Write(RtType::Str),
            Op::Const(2),
            Op::Write(RtType::Str),
            Op::Jump(8),
            Op::Const(1),
            Op::Halt,
        ],
        0,
    );
    assert_eq!(drive(&c).unwrap(), "b");
}

#[test]
fn an_empty_stack_is_reported() {
    let c = chunk_of(vec![], vec![Op::Pop], 0);
    let e = drive(&c).unwrap_err();
    assert_eq!(e.message, "operand stack underflow");
    assert_eq!(e.rule, Some(Rule::BytecodeIsWellFormed));
    assert_eq!(e.source, "hand.lrb");
}

#[test]
fn an_out_of_range_constant_is_reported() {
    let c = chunk_of(vec![], vec![Op::Const(7)], 0);
    assert_eq!(drive(&c).unwrap_err().message, "constant 7 is out of range");
}

#[test]
fn running_off_the_end_finishes() {
    let c = chunk_of(vec![Const::Uint(42)], vec![Op::Const(0), Op::Write(RtType::U8)], 0);
    assert_eq!(drive(&c).unwrap(), "42");
}

#[test]
fn negating_a_float_flips_its_sign() {
    let c = chunk_of(
        vec![Const::F64(2.5f64.to_bits()), Const::F16(0x3c00)],
        vec![
            Op::Const(0),
            Op::Neg(RtType::F64),
            Op::Write(RtType::F64),
            Op::Const(1),
            Op::Neg(RtType::F16),
            Op::Write(RtType::F16),
            Op::Halt,
        ],
        0,
    );
    assert_eq!(drive(&c).unwrap(), "-2.5-1.0");
}

#[test]
fn values_display_as_print_shows_them() {
    assert_eq!(Value::Int(-12).display(), Some("-12".to_string()));
    assert_eq!(Value::Int(i64::MIN).display(), Some("-9223372036854775808".to_string()));
    assert_eq!(Value::Uint(u64::MAX).display(), Some("18446744073709551615".to_string()));
    assert_eq!(Value::Bool(false).display(), Some("false".to_string()));
    assert_eq!(Value::Nil.display(), Some("nil".to_string()));
    assert_eq!(Value::F64(0).display(), None);
}

#[test]
fn text_orders_by_scalar_value() {
    let c = chunk_of(
        vec![Const::Str("ab".into()), Const::Str("b".into()), Const::Str("é".into())],
        vec![
            Op::Const(0),
            Op::Const(1),
            Op::Lt(RtType::Str),
            Op::Write(RtType::Bool),
            Op::Const(2),
            Op::Const(1),
            Op::Gt(RtType::Str),
            Op::Write(RtType::Bool),
            Op::Const(0),
            Op::Const(0),
            Op::Le(RtType::Str),
            Op::Write(RtType::Bool),
            Op::Halt,
        ],
        0,
    );
    assert_eq!(drive(&c).unwrap(), "truetruetrue");
}
