//! The Luarus virtual machine.
//!
//! A typed operand stack. Because the checker has already proved both
//! operands of every instruction share a type, the VM never inspects a value
//! to decide what an instruction means: the instruction says so itself.
//!
//! The machine runs one instruction per `step` and says what happened. Two
//! things it hands back to whoever drives it: text to write, and
//! floating-point arithmetic and comparison, whose result the driver pushes
//! with `push`. Everything else, integer arithmetic with its traps included,
//! happens here.
use vstd::prelude::*;

use crate::bytecode::chunk::{Chunk, ChunkView, Const, ConstView};
use crate::bytecode::half::{half_from_single, half_of_single, single_from_half, single_of_half};
use crate::bytecode::op::Op;
use crate::bytecode::value::{int_bounds, rt_type_name, signed_int, unsigned_int, RtType};
use crate::num::decimal::{decimal_chars, push_decimal};
use crate::rule::Rule;
use crate::text::chars_of;

verus! {

/// A value on the operand stack. Floats are carried as their bits: `f16`
/// and `f32` both as binary32, an `f16` kept rounded to half precision.
#[derive(Debug)]
pub enum Value {
    Int(i64),
    Uint(u64),
    F32(u32),
    F64(u64),
    Bool(bool),
    Str(String),
    Nil,
}

/// A value as plain values.
pub enum ValueView {
    Int(i64),
    Uint(u64),
    F32(u32),
    F64(u64),
    Bool(bool),
    Str(Seq<char>),
    Nil,
}

impl View for Value {
    type V = ValueView;

    open spec fn view(&self) -> ValueView {
        match self {
            Value::Int(v) => ValueView::Int(*v),
            Value::Uint(v) => ValueView::Uint(*v),
            Value::F32(v) => ValueView::F32(*v),
            Value::F64(v) => ValueView::F64(*v),
            Value::Bool(v) => ValueView::Bool(*v),
            Value::Str(s) => ValueView::Str(s@),
            Value::Nil => ValueView::Nil,
        }
    }
}

/// A copy of a value.
pub fn copy_value(v: &Value) -> (r: Value)
    ensures
        r@ == v@,
{
    match v {
        Value::Int(x) => Value::Int(*x),
        Value::Uint(x) => Value::Uint(*x),
        Value::F32(x) => Value::F32(*x),
        Value::F64(x) => Value::F64(*x),
        Value::Bool(x) => Value::Bool(*x),
        Value::Str(s) => Value::Str(s.clone()),
        Value::Nil => Value::Nil,
    }
}

/// The value a constant loads as: half precision widens to its exact
/// binary32 carrier.
pub open spec fn value_of(c: ConstView) -> ValueView {
    match c {
        ConstView::Int(v) => ValueView::Int(v),
        ConstView::Uint(v) => ValueView::Uint(v),
        ConstView::F16(h) => ValueView::F32(single_of_half(h)),
        ConstView::F32(v) => ValueView::F32(v),
        ConstView::F64(v) => ValueView::F64(v),
        ConstView::Bool(v) => ValueView::Bool(v),
        ConstView::Str(s) => ValueView::Str(s),
        ConstView::Nil => ValueView::Nil,
    }
}

impl Value {
    pub fn from_const(c: &Const) -> (r: Value)
        ensures
            r@ == value_of(c@),
    {
        match c {
            Const::Int(v) => Value::Int(*v),
            Const::Uint(v) => Value::Uint(*v),
            Const::F16(h) => Value::F32(single_from_half(*h)),
            Const::F32(v) => Value::F32(*v),
            Const::F64(v) => Value::F64(*v),
            Const::Bool(v) => Value::Bool(*v),
            Const::Str(s) => Value::Str(s.clone()),
            Const::Nil => Value::Nil,
        }
    }
}

/// A runtime error: what went wrong, the line of the instruction that went
/// wrong, and the rule it broke.
#[derive(Debug)]
pub struct RuntimeError {
    pub message: String,
    pub line: u32,
    pub source: String,
    pub rule: Option<Rule>,
}

/// A runtime error as plain values.
pub struct FaultView {
    pub message: Seq<char>,
    pub line: u32,
    pub source: Seq<char>,
    pub rule: Option<Rule>,
}

impl View for RuntimeError {
    type V = FaultView;

    open spec fn view(&self) -> FaultView {
        FaultView { message: self.message@, line: self.line, source: self.source@, rule: self.rule }
    }
}

/// What one step did.
#[derive(Debug)]
pub enum Event {
    /// An instruction ran; there is more to run.
    Ran,
    /// The program has finished.
    Done,
    /// Write this value, formatted by its static type.
    Write(Value, RtType),
    /// Floating-point work for the driver: apply `op` at type `ty` to the
    /// operands, which have left the stack, and `push` what it gives.
    Float { op: Op, lhs: Value, rhs: Value, ty: RtType },
    /// The program stopped on a runtime error.
    Fault(RuntimeError),
}

/// What one step did, as plain values.
pub enum EventView {
    Ran,
    Done,
    Write(ValueView, RtType),
    Float(Op, ValueView, ValueView, RtType),
    Fault(FaultView),
}

impl View for Event {
    type V = EventView;

    open spec fn view(&self) -> EventView {
        match self {
            Event::Ran => EventView::Ran,
            Event::Done => EventView::Done,
            Event::Write(v, t) => EventView::Write(v@, *t),
            Event::Float { op, lhs, rhs, ty } => EventView::Float(*op, lhs@, rhs@, *ty),
            Event::Fault(e) => EventView::Fault(e@),
        }
    }
}

/// The machine's state as plain values: the operand stack, the slots, and
/// the next instruction.
pub struct VmView {
    pub stack: Seq<ValueView>,
    pub locals: Seq<Option<ValueView>>,
    pub globals: Seq<Option<ValueView>>,
    pub pc: int,
}

// ------------------------------------------------------------- the semantics

/// The line of instruction `at`, or 0 where the chunk records none.
pub open spec fn line_at(c: ChunkView, at: int) -> u32 {
    if 0 <= at < c.lines.len() {
        c.lines[at]
    } else {
        0
    }
}

/// The error instruction `at` stops on.
pub open spec fn fault(c: ChunkView, at: int, rule: Rule, message: Seq<char>) -> FaultView {
    FaultView { message, line: line_at(c, at), source: c.source, rule: Some(rule) }
}

/// An instruction that needs more operands than the stack holds.
pub open spec fn underflow(c: ChunkView, at: int) -> FaultView {
    fault(c, at, Rule::BytecodeIsWellFormed, "operand stack underflow"@)
}

/// The name a slot is reported by: its debug name, or its number.
pub open spec fn local_name(c: ChunkView, n: u32) -> Seq<char> {
    if n < c.local_names.len() {
        c.local_names[n as int]
    } else {
        decimal_chars(n as nat)
    }
}

/// The name a global is reported by: its name, or its number.
pub open spec fn global_name(c: ChunkView, n: u32) -> Seq<char> {
    if n < c.globals.len() {
        c.globals[n as int].0
    } else {
        decimal_chars(n as nat)
    }
}

/// Reading a slot before anything was stored in it.
pub open spec fn unassigned(c: ChunkView, at: int, name: Seq<char>) -> FaultView {
    fault(c, at, Rule::AssignBeforeReading, "`("@ + name + ")` is read before it is assigned"@)
}

/// An arithmetic result that does not fit its type.
pub open spec fn overflowed(c: ChunkView, at: int, what: Seq<char>, ty: RtType) -> FaultView {
    fault(c, at, Rule::OverflowTraps, what + " overflowed `"@ + rt_type_name(ty) + "`"@)
}

/// The quotient of integer division, rounded toward zero.
pub open spec fn quot(a: int, b: int) -> int {
    let q = (if a >= 0 { a } else { -a }) / (if b >= 0 { b } else { -b });
    if (a >= 0) == (b >= 0) {
        q
    } else {
        -q
    }
}

/// The remainder of integer division, which takes the dividend's sign.
pub open spec fn remainder(a: int, b: int) -> int {
    let r = (if a >= 0 { a } else { -a }) % (if b >= 0 { b } else { -b });
    if a >= 0 {
        r
    } else {
        -r
    }
}

/// The exact result of an arithmetic instruction on two integers; `None`
/// for division or remainder by zero, and for an instruction that is not
/// arithmetic.
pub open spec fn int_result(op: Op, a: int, b: int) -> Option<int> {
    match op {
        Op::Add(_) => Some(a + b),
        Op::Sub(_) => Some(a - b),
        Op::Mul(_) => Some(a * b),
        Op::Div(_) => if b == 0 { None } else { Some(quot(a, b)) },
        Op::Rem(_) => if b == 0 { None } else { Some(remainder(a, b)) },
        _ => None,
    }
}

/// Division or remainder by zero.
pub open spec fn by_zero(c: ChunkView, at: int, op: Op) -> FaultView {
    fault(c, at, Rule::NoDivisionByZero, if op is Rem { "remainder by zero"@ } else { "division by zero"@ })
}

/// Whether `r` fits type `ty`.
pub open spec fn fits(r: int, ty: RtType) -> bool {
    match int_bounds(ty) {
        Some((lo, hi)) => lo <= r <= hi,
        None => false,
    }
}

/// What an arithmetic instruction of type `ty` makes of its operands: a
/// value, `None` where the driver does floating-point work, or an error.
/// Integer arithmetic is exact and traps where the result does not fit.
pub open spec fn arith(c: ChunkView, at: int, op: Op, lhs: ValueView, rhs: ValueView, ty: RtType) -> Result<
    Option<ValueView>,
    FaultView,
> {
    if signed_int(ty) {
        match (lhs, rhs) {
            (ValueView::Int(a), ValueView::Int(b)) => match int_result(op, a as int, b as int) {
                None => Err(by_zero(c, at, op)),
                Some(r) => if fits(r, ty) {
                    Ok(Some(ValueView::Int(r as i64)))
                } else {
                    Err(overflowed(c, at, "arithmetic"@, ty))
                },
            },
            _ => Err(fault(c, at, Rule::BytecodeIsWellFormed, "expected signed integers"@)),
        }
    } else if unsigned_int(ty) {
        match (lhs, rhs) {
            (ValueView::Uint(a), ValueView::Uint(b)) => if op is Sub && a < b {
                Err(
                    fault(
                        c,
                        at,
                        Rule::UnsignedIsNeverNegative,
                        "subtraction went below zero in unsigned type `"@ + rt_type_name(ty) + "`"@,
                    ),
                )
            } else {
                match int_result(op, a as int, b as int) {
                    None => Err(by_zero(c, at, op)),
                    Some(r) => if fits(r, ty) {
                        Ok(Some(ValueView::Uint(r as u64)))
                    } else {
                        Err(overflowed(c, at, "arithmetic"@, ty))
                    },
                }
            },
            _ => Err(fault(c, at, Rule::BytecodeIsWellFormed, "expected unsigned integers"@)),
        }
    } else if ty is F64 {
        match (lhs, rhs) {
            (ValueView::F64(_), ValueView::F64(_)) => Ok(None),
            _ => Err(fault(c, at, Rule::BytecodeIsWellFormed, "expected f64 operands"@)),
        }
    } else if ty is F32 || ty is F16 {
        match (lhs, rhs) {
            (ValueView::F32(_), ValueView::F32(_)) => Ok(None),
            _ => Err(fault(c, at, Rule::BytecodeIsWellFormed, "expected f32 operands"@)),
        }
    } else {
        Err(fault(c, at, Rule::BytecodeIsWellFormed, "`"@ + rt_type_name(ty) + "` has no arithmetic"@))
    }
}

/// What negating a value of type `ty` gives. Floats flip their sign bit;
/// an `f16` is rounded to half precision again.
pub open spec fn negate(c: ChunkView, at: int, v: ValueView, ty: RtType) -> Result<ValueView, FaultView> {
    match v {
        ValueView::Int(a) => if !signed_int(ty) {
            Err(fault(c, at, Rule::BytecodeIsWellFormed, "cannot negate a `"@ + rt_type_name(ty) + "`"@))
        } else if fits(-(a as int), ty) {
            Ok(ValueView::Int((-(a as int)) as i64))
        } else {
            Err(overflowed(c, at, "negation"@, ty))
        },
        ValueView::F32(b) => if ty is F16 {
            Ok(ValueView::F32(single_of_half(half_of_single(b ^ 0x8000_0000u32))))
        } else {
            Ok(ValueView::F32(b ^ 0x8000_0000u32))
        },
        ValueView::F64(b) => Ok(ValueView::F64(b ^ 0x8000_0000_0000_0000u64)),
        _ => Err(fault(c, at, Rule::BytecodeIsWellFormed, "cannot negate a `"@ + rt_type_name(ty) + "`"@)),
    }
}

/// The order of two texts, by Unicode scalar value: -1, 0 or 1.
pub open spec fn text_order(a: Seq<char>, b: Seq<char>) -> int
    decreases a.len(),
{
    if a.len() == 0 {
        if b.len() == 0 {
            0
        } else {
            -1
        }
    } else if b.len() == 0 {
        1
    } else if (a[0] as u32) < (b[0] as u32) {
        -1
    } else if (a[0] as u32) > (b[0] as u32) {
        1
    } else {
        text_order(a.drop_first(), b.drop_first())
    }
}

/// The order of two integers: -1, 0 or 1.
pub open spec fn num_order(a: int, b: int) -> int {
    if a < b {
        -1
    } else if a == b {
        0
    } else {
        1
    }
}

/// What a comparison instruction says of two operands in the given order.
pub open spec fn verdict(op: Op, order: int) -> bool {
    match op {
        Op::Eq(_) => order == 0,
        Op::Ne(_) => order != 0,
        Op::Lt(_) => order < 0,
        Op::Le(_) => order <= 0,
        Op::Gt(_) => order > 0,
        _ => order >= 0,
    }
}

/// What a comparison makes of its operands: a verdict, `None` where the
/// driver compares floats, or an error.
pub open spec fn compare(c: ChunkView, at: int, op: Op, lhs: ValueView, rhs: ValueView, ty: RtType) -> Result<
    Option<bool>,
    FaultView,
> {
    match (lhs, rhs) {
        (ValueView::Int(a), ValueView::Int(b)) => Ok(Some(verdict(op, num_order(a as int, b as int)))),
        (ValueView::Uint(a), ValueView::Uint(b)) => Ok(Some(verdict(op, num_order(a as int, b as int)))),
        (ValueView::F32(_), ValueView::F32(_)) => Ok(None),
        (ValueView::F64(_), ValueView::F64(_)) => Ok(None),
        (ValueView::Bool(a), ValueView::Bool(b)) => Ok(
            Some(verdict(op, num_order(if a { 1 } else { 0 }, if b { 1 } else { 0 }))),
        ),
        (ValueView::Str(a), ValueView::Str(b)) => Ok(Some(verdict(op, text_order(a, b)))),
        (ValueView::Nil, ValueView::Nil) => Ok(Some(verdict(op, 0))),
        _ => Err(fault(c, at, Rule::BytecodeIsWellFormed, "cannot compare these `"@ + rt_type_name(ty) + "` values"@)),
    }
}

/// Each comparison instruction decides two integers of the same kind as
/// the order of the integers says: `==` when they are equal, `!=` when not,
/// `<`, `<=`, `>` and `>=` as the integers compare.
pub proof fn lemma_compare_orders_integers(c: ChunkView, at: int, t: RtType, a: int, b: int, lhs: ValueView, rhs: ValueView)
    requires
        (lhs == ValueView::Int(a as i64) && rhs == ValueView::Int(b as i64) && i64::MIN <= a <= i64::MAX && i64::MIN
            <= b <= i64::MAX) || (lhs == ValueView::Uint(a as u64) && rhs == ValueView::Uint(b as u64) && 0 <= a
            <= u64::MAX && 0 <= b <= u64::MAX),
    ensures
        compare(c, at, Op::Eq(t), lhs, rhs, t) == Ok::<Option<bool>, FaultView>(Some(a == b)),
        compare(c, at, Op::Ne(t), lhs, rhs, t) == Ok::<Option<bool>, FaultView>(Some(a != b)),
        compare(c, at, Op::Lt(t), lhs, rhs, t) == Ok::<Option<bool>, FaultView>(Some(a < b)),
        compare(c, at, Op::Le(t), lhs, rhs, t) == Ok::<Option<bool>, FaultView>(Some(a <= b)),
        compare(c, at, Op::Gt(t), lhs, rhs, t) == Ok::<Option<bool>, FaultView>(Some(a > b)),
        compare(c, at, Op::Ge(t), lhs, rhs, t) == Ok::<Option<bool>, FaultView>(Some(a >= b)),
{
}

/// The arithmetic instructions and their type.
pub open spec fn arith_type(op: Op) -> Option<RtType> {
    match op {
        Op::Add(t) => Some(t),
        Op::Sub(t) => Some(t),
        Op::Mul(t) => Some(t),
        Op::Div(t) => Some(t),
        Op::Rem(t) => Some(t),
        _ => None,
    }
}

/// The comparison instructions and their type.
pub open spec fn compare_type(op: Op) -> Option<RtType> {
    match op {
        Op::Eq(t) => Some(t),
        Op::Ne(t) => Some(t),
        Op::Lt(t) => Some(t),
        Op::Le(t) => Some(t),
        Op::Gt(t) => Some(t),
        Op::Ge(t) => Some(t),
        _ => None,
    }
}

/// Where a machine starts: an empty stack, every slot unassigned, at the
/// first instruction.
pub open spec fn start(c: ChunkView) -> VmView {
    VmView {
        stack: Seq::empty(),
        locals: Seq::new(c.locals as nat, |i: int| None),
        globals: Seq::new(c.globals.len(), |i: int| None),
        pc: 0,
    }
}

/// One step of the machine on chunk `c` from state `s`: the state after it
/// and what happened. A step that stops on an error leaves the state as it
/// was but for the instruction counter.
pub open spec fn vm_step(c: ChunkView, s: VmView) -> (VmView, EventView) {
    if s.pc < 0 || s.pc >= c.code.len() {
        (s, EventView::Done)
    } else {
        let at = s.pc;
        let s1 = VmView { pc: at + 1, ..s };
        let n = s.stack.len();
        match c.code[at] {
            Op::Halt => (s1, EventView::Done),
            Op::Pop => if n == 0 {
                (s1, EventView::Fault(underflow(c, at)))
            } else {
                (VmView { stack: s.stack.drop_last(), ..s1 }, EventView::Ran)
            },
            Op::Const(k) => if k < c.consts.len() {
                (VmView { stack: s.stack.push(value_of(c.consts[k as int])), ..s1 }, EventView::Ran)
            } else {
                (
                    s1,
                    EventView::Fault(
                        fault(c, at, Rule::BytecodeIsWellFormed, "constant "@ + decimal_chars(k as nat) + " is out of range"@),
                    ),
                )
            },
            Op::LoadLocal(k) => if k >= s.locals.len() {
                (
                    s1,
                    EventView::Fault(
                        fault(c, at, Rule::BytecodeIsWellFormed, "local slot "@ + decimal_chars(k as nat) + " is out of range"@),
                    ),
                )
            } else {
                match s.locals[k as int] {
                    None => (s1, EventView::Fault(unassigned(c, at, local_name(c, k)))),
                    Some(v) => (VmView { stack: s.stack.push(v), ..s1 }, EventView::Ran),
                }
            },
            Op::StoreLocal(k) => if n == 0 {
                (s1, EventView::Fault(underflow(c, at)))
            } else if k >= s.locals.len() {
                (
                    s1,
                    EventView::Fault(
                        fault(c, at, Rule::BytecodeIsWellFormed, "local slot "@ + decimal_chars(k as nat) + " is out of range"@),
                    ),
                )
            } else {
                (
                    VmView { stack: s.stack.drop_last(), locals: s.locals.update(k as int, Some(s.stack.last())), ..s1 },
                    EventView::Ran,
                )
            },
            Op::LoadGlobal(k) => if k >= s.globals.len() {
                (
                    s1,
                    EventView::Fault(
                        fault(c, at, Rule::BytecodeIsWellFormed, "global "@ + decimal_chars(k as nat) + " is out of range"@),
                    ),
                )
            } else {
                match s.globals[k as int] {
                    None => (s1, EventView::Fault(unassigned(c, at, global_name(c, k)))),
                    Some(v) => (VmView { stack: s.stack.push(v), ..s1 }, EventView::Ran),
                }
            },
            Op::StoreGlobal(k) => if n == 0 {
                (s1, EventView::Fault(underflow(c, at)))
            } else if k >= s.globals.len() {
                (
                    s1,
                    EventView::Fault(
                        fault(c, at, Rule::BytecodeIsWellFormed, "global "@ + decimal_chars(k as nat) + " is out of range"@),
                    ),
                )
            } else {
                (
                    VmView {
                        stack: s.stack.drop_last(),
                        globals: s.globals.update(k as int, Some(s.stack.last())),
                        ..s1
                    },
                    EventView::Ran,
                )
            },
            Op::Write(t) => if n == 0 {
                (s1, EventView::Fault(underflow(c, at)))
            } else {
                (VmView { stack: s.stack.drop_last(), ..s1 }, EventView::Write(s.stack.last(), t))
            },
            Op::Neg(t) => if n == 0 {
                (s1, EventView::Fault(underflow(c, at)))
            } else {
                match negate(c, at, s.stack.last(), t) {
                    Ok(v) => (VmView { stack: s.stack.drop_last().push(v), ..s1 }, EventView::Ran),
                    Err(f) => (s1, EventView::Fault(f)),
                }
            },
            Op::Jump(t) => (VmView { pc: t as int, ..s }, EventView::Ran),
            Op::JumpIfFalse(t) => if n == 0 {
                (s1, EventView::Fault(underflow(c, at)))
            } else {
                match s.stack.last() {
                    ValueView::Bool(b) => (
                        VmView { stack: s.stack.drop_last(), pc: if b { at + 1 } else { t as int }, ..s },
                        EventView::Ran,
                    ),
                    _ => (s1, EventView::Fault(fault(c, at, Rule::BytecodeIsWellFormed, "expected a bool condition"@))),
                }
            },
            op => if n < 2 {
                (s1, EventView::Fault(underflow(c, at)))
            } else {
                let lhs = s.stack[n - 2];
                let rhs = s.stack[n - 1];
                let rest = s.stack.subrange(0, n - 2);
                match arith_type(op) {
                    Some(t) => match arith(c, at, op, lhs, rhs, t) {
                        Ok(Some(v)) => (VmView { stack: rest.push(v), ..s1 }, EventView::Ran),
                        Ok(None) => (VmView { stack: rest, ..s1 }, EventView::Float(op, lhs, rhs, t)),
                        Err(f) => (s1, EventView::Fault(f)),
                    },
                    None => {
                        let t = compare_type(op)->0;
                        match compare(c, at, op, lhs, rhs, t) {
                            Ok(Some(b)) => (VmView { stack: rest.push(ValueView::Bool(b)), ..s1 }, EventView::Ran),
                            Ok(None) => (VmView { stack: rest, ..s1 }, EventView::Float(op, lhs, rhs, t)),
                            Err(f) => (s1, EventView::Fault(f)),
                        }
                    },
                }
            },
        }
    }
}

// ------------------------------------------------------------- the machine

/// A slot's contents as plain values.
pub open spec fn slot_view(o: Option<Value>) -> Option<ValueView> {
    match o {
        Some(v) => Some(v@),
        None => None,
    }
}

/// The decimal spelling of a number.
fn decimal_text(k: u32) -> (r: String)
    ensures
        r@ == decimal_chars(k as nat),
{
    let mut m = String::new();
    push_decimal(&mut m, k as u128);
    proof {
        assert(m@ =~= decimal_chars(k as nat));
    }
    m
}

/// A text with a number in it.
fn numbered(before: &str, k: u32, after: &str) -> (r: String)
    ensures
        r@ == before@ + decimal_chars(k as nat) + after@,
{
    let mut m = String::from_str(before);
    push_decimal(&mut m, k as u128);
    m.append(after);
    m
}

/// The order of two integers, as -1, 0 or 1.
fn order_i64(a: i64, b: i64) -> (r: i8)
    ensures
        r as int == num_order(a as int, b as int),
{
    if a < b {
        -1
    } else if a == b {
        0
    } else {
        1
    }
}

/// The order of two texts by Unicode scalar value, as -1, 0 or 1.
pub fn order_text(a: &str, b: &str) -> (r: i8)
    ensures
        r as int == text_order(a@, b@),
{
    let x = chars_of(a);
    let y = chars_of(b);
    let mut i: usize = 0;
    proof {
        assert(a@.skip(0) =~= a@);
        assert(b@.skip(0) =~= b@);
    }
    while i < x.len() && i < y.len()
        invariant
            x@ == a@,
            y@ == b@,
            i <= x@.len(),
            i <= y@.len(),
            text_order(a@, b@) == text_order(a@.skip(i as int), b@.skip(i as int)),
        decreases x@.len() - i,
    {
        let p = x[i] as u32;
        let q = y[i] as u32;
        proof {
            assert(a@.skip(i as int)[0] == a@[i as int]);
            assert(b@.skip(i as int)[0] == b@[i as int]);
        }
        if p < q {
            return -1;
        }
        if p > q {
            return 1;
        }
        proof {
            assert(a@.skip(i as int).drop_first() =~= a@.skip(i + 1));
            assert(b@.skip(i as int).drop_first() =~= b@.skip(i + 1));
        }
        i = i + 1;
    }
    if i < x.len() {
        1
    } else if i < y.len() {
        -1
    } else {
        0
    }
}

/// What a comparison instruction says of an order.
fn verdict_of(op: Op, order: i8) -> (r: bool)
    ensures
        r == verdict(op, order as int),
{
    match op {
        Op::Eq(_) => order == 0,
        Op::Ne(_) => order != 0,
        Op::Lt(_) => order < 0,
        Op::Le(_) => order <= 0,
        Op::Gt(_) => order > 0,
        _ => order >= 0,
    }
}

/// A running program: a chunk and the machine's state.
pub struct Vm<'a> {
    chunk: &'a Chunk,
    stack: Vec<Value>,
    locals: Vec<Option<Value>>,
    globals: Vec<Option<Value>>,
    pc: usize,
}

impl<'a> Vm<'a> {
    /// The chunk being run.
    pub closed spec fn code(&self) -> ChunkView {
        self.chunk@
    }

    /// The machine's state.
    pub closed spec fn state(&self) -> VmView {
        VmView {
            stack: self.stack@.map_values(|v: Value| v@),
            locals: self.locals@.map_values(|o: Option<Value>| slot_view(o)),
            globals: self.globals@.map_values(|o: Option<Value>| slot_view(o)),
            pc: self.pc as int,
        }
    }

    /// A machine at the start of `chunk`.
    pub fn new(chunk: &'a Chunk) -> (r: Vm<'a>)
        ensures
            r.code() == chunk@,
            r.state() == start(chunk@),
    {
        let mut locals: Vec<Option<Value>> = Vec::new();
        let mut i: usize = 0;
        while i < chunk.locals
            invariant
                i <= chunk.locals,
                locals@.len() == i,
                forall|j: int| 0 <= j < i ==> #[trigger] locals@[j] is None,
            decreases chunk.locals - i,
        {
            locals.push(None);
            i = i + 1;
        }
        let mut globals: Vec<Option<Value>> = Vec::new();
        let mut i: usize = 0;
        while i < chunk.globals.len()
            invariant
                i <= chunk.globals@.len(),
                globals@.len() == i,
                forall|j: int| 0 <= j < i ==> #[trigger] globals@[j] is None,
            decreases chunk.globals@.len() - i,
        {
            globals.push(None);
            i = i + 1;
        }
        let vm = Vm { chunk, stack: Vec::new(), locals, globals, pc: 0 };
        proof {
            assert(vm.state().stack =~= start(chunk@).stack);
            assert(vm.state().locals =~= start(chunk@).locals);
            assert(vm.state().globals =~= start(chunk@).globals);
        }
        vm
    }

    /// Push a value: the result of floating-point work handed out by `step`.
    pub fn push(&mut self, v: Value)
        ensures
            final(self).code() == old(self).code(),
            final(self).state() == (VmView { stack: old(self).state().stack.push(v@), ..old(self).state() }),
    {
        let ghost before = self.state();
        self.stack.push(v);
        proof {
            assert(self.state().stack =~= before.stack.push(v@));
        }
    }

    /// The error instruction `at` stops on.
    fn fail(&self, at: usize, rule: Rule, message: String) -> (r: RuntimeError)
        ensures
            r@ == fault(self.code(), at as int, rule, message@),
    {
        let line = if at < self.chunk.lines.len() {
            self.chunk.lines[at]
        } else {
            0
        };
        RuntimeError { message, line, source: self.chunk.source.clone(), rule: Some(rule) }
    }

    fn local_name(&self, k: u32) -> (r: String)
        ensures
            r@ == local_name(self.code(), k),
    {
        if (k as usize) < self.chunk.local_names.len() {
            self.chunk.local_names[k as usize].clone()
        } else {
            decimal_text(k)
        }
    }

    fn global_name(&self, k: u32) -> (r: String)
        ensures
            r@ == global_name(self.code(), k),
    {
        if (k as usize) < self.chunk.globals.len() {
            self.chunk.globals[k as usize].name.clone()
        } else {
            decimal_text(k)
        }
    }

    fn unassigned(&self, at: usize, name: String) -> (r: RuntimeError)
        ensures
            r@ == unassigned(self.code(), at as int, name@),
    {
        let m = String::from_str("`(").concat(name.as_str()).concat(")` is read before it is assigned");
        self.fail(at, Rule::AssignBeforeReading, m)
    }

    fn overflowed(&self, at: usize, what: &str, ty: RtType) -> (r: RuntimeError)
        ensures
            r@ == overflowed(self.code(), at as int, what@, ty),
    {
        let m = String::from_str(what).concat(" overflowed `").concat(ty.name()).concat("`");
        self.fail(at, Rule::OverflowTraps, m)
    }

    fn by_zero(&self, at: usize, op: Op) -> (r: RuntimeError)
        ensures
            r@ == by_zero(self.code(), at as int, op),
    {
        let m = if matches!(op, Op::Rem(_)) {
            String::from_str("remainder by zero")
        } else {
            String::from_str("division by zero")
        };
        self.fail(at, Rule::NoDivisionByZero, m)
    }

    fn malformed(&self, at: usize, message: &str) -> (r: RuntimeError)
        ensures
            r@ == fault(self.code(), at as int, Rule::BytecodeIsWellFormed, message@),
    {
        self.fail(at, Rule::BytecodeIsWellFormed, String::from_str(message))
    }

    fn about_type(&self, at: usize, before: &str, ty: RtType, after: &str) -> (r: RuntimeError)
        ensures
            r@ == fault(self.code(), at as int, Rule::BytecodeIsWellFormed, before@ + rt_type_name(ty) + after@),
    {
        self.fail(at, Rule::BytecodeIsWellFormed, String::from_str(before).concat(ty.name()).concat(after))
    }

    /// Whether `r` fits type `ty`.
    fn fits_type(r: i128, ty: RtType) -> (b: bool)
        ensures
            b == fits(r as int, ty),
    {
        match ty.int_range() {
            Some((lo, hi)) => lo <= r && r <= hi,
            None => false,
        }
    }

    #[verifier::spinoff_prover]
    #[verifier::rlimit(30)]
    proof fn lemma_division(a: i64, b: i64)
        requires
            b != 0,
        ensures
            a.checked_div(b) matches Some(q) ==> q as int == quot(a as int, b as int),
            a.checked_div(b) is None ==> !fits(quot(a as int, b as int), RtType::I64),
            b != -1 ==> (a.checked_rem(b) matches Some(r) && r as int == remainder(a as int, b as int)),
            remainder(a as int, -1) == 0,
    {
        let x = a as int;
        assert((if x >= 0 { x } else { -x }) % 1 == 0);
        if b != -1 {
            assert(a.checked_rem(b) is Some);
        }
    }

    fn signed_arith(&self, at: usize, op: Op, a: i64, b: i64, ty: RtType) -> (r: Result<Value, RuntimeError>)
        requires
            arith_type(op) is Some,
            signed_int(ty),
        ensures
            match arith(self.code(), at as int, op, ValueView::Int(a), ValueView::Int(b), ty) {
                Ok(Some(v)) => r matches Ok(x) && x@ == v,
                Ok(None) => false,
                Err(f) => r matches Err(e) && e@ == f,
            },
    {
        let r: Option<i64> = match op {
            Op::Add(_) => a.checked_add(b),
            Op::Sub(_) => a.checked_sub(b),
            Op::Mul(_) => a.checked_mul(b),
            Op::Div(_) => {
                if b == 0 {
                    return Err(self.by_zero(at, op));
                }
                proof {
                    Self::lemma_division(a, b);
                }
                a.checked_div(b)
            },
            _ => {
                if b == 0 {
                    return Err(self.by_zero(at, op));
                }
                proof {
                    Self::lemma_division(a, b);
                }
                // Every integer divides by -1 with nothing left over, the
                // smallest one included.
                if b == -1 {
                    Some(0)
                } else {
                    a.checked_rem(b)
                }
            },
        };
        match r {
            Some(v) => if Self::fits_type(v as i128, ty) {
                Ok(Value::Int(v))
            } else {
                Err(self.overflowed(at, "arithmetic", ty))
            },
            None => Err(self.overflowed(at, "arithmetic", ty)),
        }
    }

    fn unsigned_arith(&self, at: usize, op: Op, a: u64, b: u64, ty: RtType) -> (r: Result<Value, RuntimeError>)
        requires
            arith_type(op) is Some,
            unsigned_int(ty),
        ensures
            match arith(self.code(), at as int, op, ValueView::Uint(a), ValueView::Uint(b), ty) {
                Ok(Some(v)) => r matches Ok(x) && x@ == v,
                Ok(None) => false,
                Err(f) => r matches Err(e) && e@ == f,
            },
    {
        let r: Option<u64> = match op {
            Op::Add(_) => a.checked_add(b),
            Op::Sub(_) => {
                if a < b {
                    let m = String::from_str("subtraction went below zero in unsigned type `").concat(ty.name()).concat(
                        "`",
                    );
                    return Err(self.fail(at, Rule::UnsignedIsNeverNegative, m));
                }
                Some(a - b)
            },
            Op::Mul(_) => a.checked_mul(b),
            Op::Div(_) => {
                if b == 0 {
                    return Err(self.by_zero(at, op));
                }
                Some(a / b)
            },
            _ => {
                if b == 0 {
                    return Err(self.by_zero(at, op));
                }
                Some(a % b)
            },
        };
        match r {
            Some(v) => if Self::fits_type(v as i128, ty) {
                Ok(Value::Uint(v))
            } else {
                Err(self.overflowed(at, "arithmetic", ty))
            },
            None => Err(self.overflowed(at, "arithmetic", ty)),
        }
    }

    fn arith(&self, at: usize, op: Op, lhs: &Value, rhs: &Value, ty: RtType) -> (r: Result<
        Option<Value>,
        RuntimeError,
    >)
        requires
            arith_type(op) is Some,
        ensures
            match arith(self.code(), at as int, op, lhs@, rhs@, ty) {
                Ok(Some(v)) => r matches Ok(Some(x)) && x@ == v,
                Ok(None) => r matches Ok(None),
                Err(f) => r matches Err(e) && e@ == f,
            },
    {
        if ty.is_signed_int() {
            match (lhs, rhs) {
                (Value::Int(a), Value::Int(b)) => match self.signed_arith(at, op, *a, *b, ty) {
                    Ok(v) => Ok(Some(v)),
                    Err(e) => Err(e),
                },
                _ => Err(self.malformed(at, "expected signed integers")),
            }
        } else if ty.is_unsigned_int() {
            match (lhs, rhs) {
                (Value::Uint(a), Value::Uint(b)) => match self.unsigned_arith(at, op, *a, *b, ty) {
                    Ok(v) => Ok(Some(v)),
                    Err(e) => Err(e),
                },
                _ => Err(self.malformed(at, "expected unsigned integers")),
            }
        } else if matches!(ty, RtType::F64) {
            match (lhs, rhs) {
                (Value::F64(_), Value::F64(_)) => Ok(None),
                _ => Err(self.malformed(at, "expected f64 operands")),
            }
        } else if matches!(ty, RtType::F32 | RtType::F16) {
            match (lhs, rhs) {
                (Value::F32(_), Value::F32(_)) => Ok(None),
                _ => Err(self.malformed(at, "expected f32 operands")),
            }
        } else {
            Err(self.about_type(at, "`", ty, "` has no arithmetic"))
        }
    }

    fn negate(&self, at: usize, v: &Value, ty: RtType) -> (r: Result<Value, RuntimeError>)
        ensures
            match negate(self.code(), at as int, v@, ty) {
                Ok(x) => r matches Ok(y) && y@ == x,
                Err(f) => r matches Err(e) && e@ == f,
            },
    {
        match v {
            Value::Int(a) => {
                if !ty.is_signed_int() {
                    return Err(self.about_type(at, "cannot negate a `", ty, "`"));
                }
                let n = -(*a as i128);
                if Self::fits_type(n, ty) {
                    Ok(Value::Int(n as i64))
                } else {
                    Err(self.overflowed(at, "negation", ty))
                }
            },
            Value::F32(b) => {
                let flipped = *b ^ 0x8000_0000u32;
                if matches!(ty, RtType::F16) {
                    Ok(Value::F32(single_from_half(half_from_single(flipped))))
                } else {
                    Ok(Value::F32(flipped))
                }
            },
            Value::F64(b) => Ok(Value::F64(*b ^ 0x8000_0000_0000_0000u64)),
            _ => Err(self.about_type(at, "cannot negate a `", ty, "`")),
        }
    }

    fn compare(&self, at: usize, op: Op, lhs: &Value, rhs: &Value, ty: RtType) -> (r: Result<
        Option<bool>,
        RuntimeError,
    >)
        ensures
            match compare(self.code(), at as int, op, lhs@, rhs@, ty) {
                Ok(x) => r matches Ok(y) && y == x,
                Err(f) => r matches Err(e) && e@ == f,
            },
    {
        match (lhs, rhs) {
            (Value::Int(a), Value::Int(b)) => Ok(Some(verdict_of(op, order_i64(*a, *b)))),
            (Value::Uint(a), Value::Uint(b)) => {
                let o: i8 = if *a < *b {
                    -1
                } else if *a == *b {
                    0
                } else {
                    1
                };
                Ok(Some(verdict_of(op, o)))
            },
            (Value::F32(_), Value::F32(_)) => Ok(None),
            (Value::F64(_), Value::F64(_)) => Ok(None),
            (Value::Bool(a), Value::Bool(b)) => {
                let o: i8 = if *a == *b {
                    0
                } else if *b {
                    -1
                } else {
                    1
                };
                Ok(Some(verdict_of(op, o)))
            },
            (Value::Str(a), Value::Str(b)) => Ok(Some(verdict_of(op, order_text(a.as_str(), b.as_str())))),
            (Value::Nil, Value::Nil) => Ok(Some(verdict_of(op, 0))),
            _ => Err(self.about_type(at, "cannot compare these `", ty, "` values")),
        }
    }

    /// Run one instruction.
    #[verifier::rlimit(60)]
    pub fn step(&mut self) -> (r: Event)
        ensures
            final(self).code() == old(self).code(),
            final(self).state() == vm_step(old(self).code(), old(self).state()).0,
            r@ == vm_step(old(self).code(), old(self).state()).1,
    {
        let ghost s = self.state();
        let ghost c = self.code();
        if self.pc >= self.chunk.code.len() {
            return Event::Done;
        }
        let at = self.pc;
        let op = self.chunk.code[at];
        self.pc = at + 1;
        let n = self.stack.len();
        proof {
            assert(self.state() == (VmView { pc: at + 1, ..s }));
        }
        match op {
            Op::Halt => Event::Done,
            Op::Pop => {
                if n == 0 {
                    return Event::Fault(self.malformed(at, "operand stack underflow"));
                }
                self.stack.pop();
                proof {
                    assert(self.state().stack =~= s.stack.drop_last());
                }
                Event::Ran
            },
            Op::Const(k) => {
                if (k as usize) >= self.chunk.consts.len() {
                    return Event::Fault(
                        self.fail(at, Rule::BytecodeIsWellFormed, numbered("constant ", k, " is out of range")),
                    );
                }
                let v = Value::from_const(&self.chunk.consts[k as usize]);
                self.stack.push(v);
                proof {
                    assert(self.state().stack =~= s.stack.push(value_of(c.consts[k as int])));
                }
                Event::Ran
            },
            Op::LoadLocal(k) => {
                if (k as usize) >= self.locals.len() {
                    return Event::Fault(
                        self.fail(at, Rule::BytecodeIsWellFormed, numbered("local slot ", k, " is out of range")),
                    );
                }
                let v = match &self.locals[k as usize] {
                    Some(v) => copy_value(v),
                    None => return Event::Fault(self.unassigned(at, self.local_name(k))),
                };
                self.stack.push(v);
                proof {
                    assert(self.state().stack =~= s.stack.push(v@));
                }
                Event::Ran
            },
            Op::StoreLocal(k) => {
                if n == 0 {
                    return Event::Fault(self.malformed(at, "operand stack underflow"));
                }
                if (k as usize) >= self.locals.len() {
                    return Event::Fault(
                        self.fail(at, Rule::BytecodeIsWellFormed, numbered("local slot ", k, " is out of range")),
                    );
                }
                let v = match self.stack.pop() {
                    Some(v) => v,
                    None => return Event::Done,
                };
                let ghost vv = v@;
                self.locals.set(k as usize, Some(v));
                proof {
                    assert(self.state().stack =~= s.stack.drop_last());
                    assert(self.state().locals =~= s.locals.update(k as int, Some(vv)));
                }
                Event::Ran
            },
            Op::LoadGlobal(k) => {
                if (k as usize) >= self.globals.len() {
                    return Event::Fault(
                        self.fail(at, Rule::BytecodeIsWellFormed, numbered("global ", k, " is out of range")),
                    );
                }
                let v = match &self.globals[k as usize] {
                    Some(v) => copy_value(v),
                    None => return Event::Fault(self.unassigned(at, self.global_name(k))),
                };
                self.stack.push(v);
                proof {
                    assert(self.state().stack =~= s.stack.push(v@));
                }
                Event::Ran
            },
            Op::StoreGlobal(k) => {
                if n == 0 {
                    return Event::Fault(self.malformed(at, "operand stack underflow"));
                }
                if (k as usize) >= self.globals.len() {
                    return Event::Fault(
                        self.fail(at, Rule::BytecodeIsWellFormed, numbered("global ", k, " is out of range")),
                    );
                }
                let v = match self.stack.pop() {
                    Some(v) => v,
                    None => return Event::Done,
                };
                let ghost vv = v@;
                self.globals.set(k as usize, Some(v));
                proof {
                    assert(self.state().stack =~= s.stack.drop_last());
                    assert(self.state().globals =~= s.globals.update(k as int, Some(vv)));
                }
                Event::Ran
            },
            Op::Write(t) => {
                let v = match self.stack.pop() {
                    Some(v) => v,
                    None => return Event::Fault(self.malformed(at, "operand stack underflow")),
                };
                proof {
                    assert(self.state().stack =~= s.stack.drop_last());
                }
                Event::Write(v, t)
            },
            Op::Neg(t) => {
                if n == 0 {
                    return Event::Fault(self.malformed(at, "operand stack underflow"));
                }
                let r = match self.negate(at, &self.stack[n - 1], t) {
                    Ok(r) => r,
                    Err(e) => return Event::Fault(e),
                };
                self.stack.pop();
                let ghost rv = r@;
                self.stack.push(r);
                proof {
                    assert(self.state().stack =~= s.stack.drop_last().push(rv));
                }
                Event::Ran
            },
            Op::Jump(t) => {
                self.pc = t as usize;
                Event::Ran
            },
            Op::JumpIfFalse(t) => {
                if n == 0 {
                    return Event::Fault(self.malformed(at, "operand stack underflow"));
                }
                let taken = match &self.stack[n - 1] {
                    Value::Bool(b) => *b,
                    _ => return Event::Fault(self.malformed(at, "expected a bool condition")),
                };
                self.stack.pop();
                if !taken {
                    self.pc = t as usize;
                }
                proof {
                    assert(self.state().stack =~= s.stack.drop_last());
                }
                Event::Ran
            },
            _ => {
                if n < 2 {
                    return Event::Fault(self.malformed(at, "operand stack underflow"));
                }
                let arith_ty = match op {
                    Op::Add(t) => Some(t),
                    Op::Sub(t) => Some(t),
                    Op::Mul(t) => Some(t),
                    Op::Div(t) => Some(t),
                    Op::Rem(t) => Some(t),
                    _ => None,
                };
                let ty = match op {
                    Op::Add(t) | Op::Sub(t) | Op::Mul(t) | Op::Div(t) | Op::Rem(t) => t,
                    Op::Eq(t) | Op::Ne(t) | Op::Lt(t) | Op::Le(t) | Op::Gt(t) | Op::Ge(t) => t,
                    _ => RtType::Nil,
                };
                let result: Option<Value> = if arith_ty.is_some() {
                    match self.arith(at, op, &self.stack[n - 2], &self.stack[n - 1], ty) {
                        Ok(r) => r,
                        Err(e) => return Event::Fault(e),
                    }
                } else {
                    match self.compare(at, op, &self.stack[n - 2], &self.stack[n - 1], ty) {
                        Ok(Some(b)) => Some(Value::Bool(b)),
                        Ok(None) => None,
                        Err(e) => return Event::Fault(e),
                    }
                };
                let rhs = match self.stack.pop() {
                    Some(v) => v,
                    None => return Event::Done,
                };
                let lhs = match self.stack.pop() {
                    Some(v) => v,
                    None => return Event::Done,
                };
                proof {
                    assert(self.state().stack =~= s.stack.subrange(0, n - 2));
                }
                match result {
                    Some(v) => {
                        let ghost vv = v@;
                        self.stack.push(v);
                        proof {
                            assert(self.state().stack =~= s.stack.subrange(0, n - 2).push(vv));
                        }
                        Event::Ran
                    },
                    None => Event::Float { op, lhs, rhs, ty },
                }
            },
        }
    }
}

// ------------------------------------------------------------------ display

/// How `print` shows a value that is not a float: integers in decimal,
/// bools as `true` and `false`, text as itself, nil as `nil`. Floats are
/// shown by the driver, which holds the float formatting.
pub open spec fn shown(v: ValueView) -> Option<Seq<char>> {
    match v {
        ValueView::Int(a) => Some(
            if a < 0 {
                "-"@ + decimal_chars((-(a as int)) as nat)
            } else {
                decimal_chars(a as nat)
            },
        ),
        ValueView::Uint(a) => Some(decimal_chars(a as nat)),
        ValueView::Bool(b) => Some(if b { "true"@ } else { "false"@ }),
        ValueView::Str(s) => Some(s),
        ValueView::Nil => Some("nil"@),
        _ => None,
    }
}

impl Value {
    /// Render for `print`; `None` for a float, which the caller formats.
    pub fn display(&self) -> (r: Option<String>)
        ensures
            match shown(self@) {
                Some(t) => r matches Some(x) && x@ == t,
                None => r is None,
            },
    {
        match self {
            Value::Int(a) => {
                let mut m = String::new();
                if *a < 0 {
                    m.append("-");
                    push_decimal(&mut m, (-(*a as i128)) as u128);
                    proof {
                        assert(m@ =~= "-"@ + decimal_chars((-(*a as int)) as nat));
                    }
                } else {
                    push_decimal(&mut m, *a as u128);
                    proof {
                        assert(m@ =~= decimal_chars(*a as nat));
                    }
                }
                Some(m)
            },
            Value::Uint(a) => {
                let mut m = String::new();
                push_decimal(&mut m, *a as u128);
                proof {
                    assert(m@ =~= decimal_chars(*a as nat));
                }
                Some(m)
            },
            Value::Bool(b) => Some(String::from_str(if *b { "true" } else { "false" })),
            Value::Str(s) => Some(s.clone()),
            Value::Nil => Some(String::from_str("nil")),
            _ => None,
        }
    }
}

// ------------------------------------------------------------------- laws

/// The integer a value carries, where it is of the kind type `t` calls for.
pub open spec fn int_operand(v: ValueView, t: RtType) -> Option<int> {
    match v {
        ValueView::Int(a) => if signed_int(t) { Some(a as int) } else { None },
        ValueView::Uint(a) => if unsigned_int(t) { Some(a as int) } else { None },
        _ => None,
    }
}

/// Whether a value carries the integer `r`.
pub open spec fn carries(v: ValueView, r: int) -> bool {
    match v {
        ValueView::Int(a) => a as int == r,
        ValueView::Uint(a) => a as int == r,
        _ => false,
    }
}

/// Integer arithmetic never wraps. A step of an arithmetic instruction on
/// two integers of its type leaves the exact result in place of its
/// operands where the result fits the type; otherwise it stops on an error
/// citing the rule broken: an unsigned subtraction below zero, a division
/// or remainder by zero, or a result that overflows.
pub proof fn lemma_integer_arithmetic(c: ChunkView, s: VmView, a: int, b: int)
    requires
        0 <= s.pc < c.code.len(),
        s.stack.len() >= 2,
        arith_type(c.code[s.pc]) is Some,
        int_operand(s.stack[s.stack.len() - 2], arith_type(c.code[s.pc])->0) == Some(a),
        int_operand(s.stack[s.stack.len() - 1], arith_type(c.code[s.pc])->0) == Some(b),
    ensures
        ({
            let op = c.code[s.pc];
            let t = arith_type(op)->0;
            let e = vm_step(c, s).1;
            let after = vm_step(c, s).0.stack;
            if unsigned_int(t) && op is Sub && a < b {
                e matches EventView::Fault(f) && f.rule == Some(Rule::UnsignedIsNeverNegative)
            } else {
                match int_result(op, a, b) {
                    None => e matches EventView::Fault(f) && f.rule == Some(Rule::NoDivisionByZero),
                    Some(r) => if fits(r, t) {
                        &&& e is Ran
                        &&& after.len() == s.stack.len() - 1
                        &&& after.subrange(0, after.len() - 1) == s.stack.subrange(0, s.stack.len() - 2)
                        &&& carries(after.last(), r)
                    } else {
                        e matches EventView::Fault(f) && f.rule == Some(Rule::OverflowTraps)
                    },
                }
            }
        }),
{
    let n = s.stack.len();
    let op = c.code[s.pc];
    let t = arith_type(op)->0;
    if let Some(r) = int_result(op, a, b) {
        if fits(r, t) && !(unsigned_int(t) && op is Sub && a < b) {
            let after = vm_step(c, s).0.stack;
            assert(after.subrange(0, after.len() - 1) =~= s.stack.subrange(0, n - 2));
        }
    }
}

/// Reading a slot before anything was stored in it stops the program on an
/// error citing the assign-before-reading rule.
pub proof fn lemma_unassigned_read(c: ChunkView, s: VmView)
    requires
        0 <= s.pc < c.code.len(),
        match c.code[s.pc] {
            Op::LoadLocal(k) => k < s.locals.len() && s.locals[k as int] is None,
            Op::LoadGlobal(k) => k < s.globals.len() && s.globals[k as int] is None,
            _ => false,
        },
    ensures
        vm_step(c, s).1 matches EventView::Fault(f) && f.rule == Some(Rule::AssignBeforeReading),
{
}

/// A stored value is read back unchanged: storing into a slot and then
/// loading it leaves the stored value on the stack.
pub proof fn lemma_store_then_load(c: ChunkView, s: VmView, k: u32)
    requires
        0 <= s.pc,
        s.pc + 1 < c.code.len(),
        c.code[s.pc] == Op::StoreLocal(k),
        c.code[s.pc + 1] == Op::LoadLocal(k),
        k < s.locals.len(),
        s.stack.len() >= 1,
    ensures
        vm_step(c, vm_step(c, s).0).1 is Ran,
        vm_step(c, vm_step(c, s).0).0.stack == s.stack,
        vm_step(c, vm_step(c, s).0).0.pc == s.pc + 2,
{
    let s1 = vm_step(c, s).0;
    assert(s1.locals[k as int] == Some(s.stack.last()));
    assert(s1.stack.push(s.stack.last()) =~= s.stack);
}

} // verus!
