use luarus::bytecode::value::RtType;
use luarus::compile::check_tree;
use luarus::compile::literal::{FloatReading, FloatValue};
use luarus::compile::literal_bodies;
use luarus::compile::typeck::Checked;
use luarus::interp::walk::{in_frame, FloatPair};
use luarus::interp::{run, InterpError};
use luarus::rule::Rule;
use luarus::syntax::ast::BinOp;
use luarus::bytecode::serialize;
use luarus::compile::compile;
use luarus::vm::{Event, Value, Vm};

fn read_float(body: &str) -> Option<FloatValue> {
    let v: f64 = body.parse().ok()?;
    Some(FloatValue { bits64: v.to_bits(), bits32: (v as f32).to_bits(), shown: format!("{v}") })
}

fn checked(src: &str) -> Checked {
    let floats: Vec<FloatReading> = literal_bodies(src)
        .into_iter()
        .map(|body| FloatReading { value: read_float(&body), body })
        .collect();
    check_tree(src, &floats).expect("the program checks")
}

fn float_work(op: BinOp, pair: FloatPair, _ty: RtType) -> Value {
    let (a, b, single) = match pair {
        FloatPair::Single(a, b) => (f32::from_bits(a) as f64, f32::from_bits(b) as f64, true),
        FloatPair::Double(a, b) => (f64::from_bits(a), f64::from_bits(b), false),
    };
    let r = match op {
        BinOp::Add => a + b,
        BinOp::Sub => a - b,
        BinOp::Mul => a * b,
        BinOp::Div => a / b,
        BinOp::Rem => a % b,
        BinOp::Eq => return Value::Bool(a == b),
        BinOp::Ne => return Value::Bool(a != b),
        BinOp::Lt => return Value::Bool(a < b),
        BinOp::Le => return Value::Bool(a <= b),
        BinOp::Gt => return Value::Bool(a > b),
        BinOp::Ge => return Value::Bool(a >= b),
    };
    if single {
        Value::F32((r as f32).to_bits())
    } else {
        Value::F64(r.to_bits())
    }
}

fn interpret(src: &str) -> (Vec<Value>, Result<(), InterpError>) {
    let c = checked(src);
    assert!(in_frame(&c));
    run(&c, float_work)
}

fn text(printed: &[Value]) -> String {
    printed.iter().map(|v| v.display().expect("no floats printed")).collect()
}

#[test]
fn the_walk_prints_in_order() {
    let (printed, outcome) = interpret("var i32 (n) = '2' + '3' * '4' end print[(n) \" \" (n)] end");
    assert!(outcome.is_ok());
    assert_eq!(text(&printed), "14 14");
}

#[test]
fn the_walk_takes_the_first_arm_that_holds() {
    let (printed, outcome) = interpret(
        "var i32 (a) = '5' end if | (a) > '9' | { print['big'] end \
         elseif | (a) > '1' | print['middling'] end else print['small'] end }",
    );
    assert!(outcome.is_ok());
    assert_eq!(text(&printed), "middling");
}

#[test]
fn the_walk_stops_at_overflow_keeping_what_it_printed() {
    let (printed, outcome) =
        interpret("var u8 (a) = '250' end print[(a)] end set (a) = (a) + '10' end print[(a)] end");
    assert_eq!(text(&printed), "250");
    let e = outcome.unwrap_err();
    assert_eq!(e.rule, Rule::OverflowTraps);
    assert_eq!(e.message, "arithmetic overflowed `u8`");
}

#[test]
fn the_walk_hands_float_work_out() {
    let (printed, outcome) = interpret("var f64 (x) = '1.5' end var f64 (y) = (x) * '2' end print[(y)] end");
    assert!(outcome.is_ok());
    assert_eq!(printed.len(), 1);
    match printed[0] {
        Value::F64(bits) => assert_eq!(f64::from_bits(bits), 3.0),
        ref other => panic!("expected an f64, got {other:?}"),
    }
}

#[test]
fn a_checked_program_lies_in_its_frame() {
    let c = checked("var i32 (a) = '1' end if | (a) == '1' | { set (a) = '2' end }");
    assert!(in_frame(&c));
}

/// Run a compiled program on the machine, collecting what it writes and
/// how it ended. Only integer programs are run here, so no float event
/// comes up.
fn machine(src: &str) -> (Vec<Value>, Option<(Rule, u32)>) {
    let floats: Vec<FloatReading> = literal_bodies(src)
        .into_iter()
        .map(|body| FloatReading { value: read_float(&body), body })
        .collect();
    let chunk = compile(src, "t.lrs", &floats).expect("compiles");
    let chunk = serialize::decode(&serialize::encode(&chunk)).expect("round trip");
    let mut vm = Vm::new(&chunk);
    let mut written = Vec::new();
    loop {
        match vm.step() {
            Event::Ran => {},
            Event::Done => return (written, None),
            Event::Write(v, _) => written.push(v),
            Event::Float { .. } => panic!("no float work expected"),
            Event::Fault(e) => return (written, Some((e.rule.expect("a rule"), e.line))),
        }
    }
}

#[test]
fn the_compiled_and_interpreted_runs_agree() {
    for src in [
        "var i32 (a) = '7' end if | (a) > '5' | { print['big '] end set (a) = (a) * '2' end \
         elseif | (a) > '1' | print['mid'] end else print['small'] end } print[(a)] end",
        "var u8 (n) = '3' end if | (n) < '2' | { print['no'] end } print[(n)] end",
        "var i32 (z) = '0' end print['before '] end var i32 (q) = '1' / (z) end print['after'] end",
    ] {
        let (printed, outcome) = interpret(src);
        let (written, fault) = machine(src);
        assert_eq!(text(&printed), text(&written), "{src}");
        match (outcome, fault) {
            (Ok(()), None) => {},
            (Err(e), Some((rule, line))) => {
                assert_eq!(e.rule, rule, "{src}");
                assert_eq!(e.line, line, "{src}");
            },
            (a, b) => panic!("the two paths ended differently on {src}: {a:?} against {b:?}"),
        }
    }
}
