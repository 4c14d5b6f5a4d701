//! The reference interpreter's arithmetic: the oracle the compiled path is
//! checked against.
//!
//! The interpreter walks the checked tree directly. Its integer arithmetic
//! takes a different route from the VM's on purpose: it widens both sides
//! to `i128`, computes there, and range-checks the result against the
//! target type, where the VM works at the target width. Two routes to the
//! same answer, so a wrong bound on one side shows up. That the two agree
//! is stated and proved below.
use vstd::prelude::*;

pub mod walk;

pub use walk::run;

use crate::bytecode::chunk::ChunkView;
use crate::bytecode::half::{half_from_single, half_of_single, single_from_half, single_of_half};
use crate::bytecode::op::Op;
use crate::bytecode::value::{int_bounds, rt_type_name, signed_int, unsigned_int, RtType};
use crate::rule::Rule;
use crate::syntax::ast::BinOp;
use crate::vm::{fits, int_result, num_order, text_order, Value, ValueView};

verus! {

/// A runtime error of the interpreter: the rule broken, what went wrong,
/// and the line of the statement it went wrong in.
#[derive(Debug)]
pub struct InterpError {
    pub rule: Rule,
    pub message: String,
    pub line: u32,
}

/// An interpreter error as plain values.
pub struct InterpErrorView {
    pub rule: Rule,
    pub message: Seq<char>,
    pub line: u32,
}

impl View for InterpError {
    type V = InterpErrorView;

    open spec fn view(&self) -> InterpErrorView {
        InterpErrorView { rule: self.rule, message: self.message@, line: self.line }
    }
}

fn err(rule: Rule, line: u32, message: String) -> (r: InterpError)
    ensures
        r@ == (InterpErrorView { rule, message: message@, line }),
{
    InterpError { rule, message, line }
}

/// The integer a value carries, of either kind.
pub open spec fn int_of(v: ValueView) -> Option<int> {
    match v {
        ValueView::Int(a) => Some(a as int),
        ValueView::Uint(a) => Some(a as int),
        _ => None,
    }
}

/// Widen a value to `i128`, which every integer type fits inside.
pub fn as_int(v: &Value) -> (r: Option<i128>)
    ensures
        match int_of(v@) {
            Some(x) => r matches Some(y) && y as int == x,
            None => r is None,
        },
{
    match v {
        Value::Int(a) => Some(*a as i128),
        Value::Uint(a) => Some(*a as i128),
        _ => None,
    }
}

/// The value `v` of integer type `ty`, or the overflow error.
pub open spec fn fitted(v: int, ty: RtType, line: u32) -> Result<ValueView, InterpErrorView> {
    if !fits(v, ty) {
        Err(
            InterpErrorView {
                rule: Rule::OverflowTraps,
                message: "arithmetic overflowed `"@ + rt_type_name(ty) + "`"@,
                line,
            },
        )
    } else if unsigned_int(ty) {
        Ok(ValueView::Uint(v as u64))
    } else {
        Ok(ValueView::Int(v as i64))
    }
}

/// Narrow `v` to integer type `ty`, or report overflow. The compiled side
/// reaches this by checked operations at the target width; here it falls
/// out of an explicit range test on a wider integer.
pub fn fit(v: i128, ty: RtType, line: u32) -> (r: Result<Value, InterpError>)
    requires
        signed_int(ty) || unsigned_int(ty),
    ensures
        match fitted(v as int, ty, line) {
            Ok(x) => r matches Ok(y) && y@ == x,
            Err(e) => r matches Err(y) && y@ == e,
        },
{
    let (lo, hi) = match ty.int_range() {
        Some(b) => b,
        None => return Err(err(Rule::OverflowTraps, line, String::new())),
    };
    if v < lo || v > hi {
        return Err(
            err(Rule::OverflowTraps, line, String::from_str("arithmetic overflowed `").concat(ty.name()).concat("`")),
        );
    }
    if ty.is_unsigned_int() {
        Ok(Value::Uint(v as u64))
    } else {
        Ok(Value::Int(v as i64))
    }
}

/// The interpreter's negation: exact for signed integers, a sign flip for
/// floats, rounded again for `f16`.
pub open spec fn interp_negate(v: ValueView, ty: RtType, line: u32) -> Result<ValueView, InterpErrorView> {
    match v {
        ValueView::Int(a) => if signed_int(ty) {
            fitted(-(a as int), ty, line)
        } else {
            Err(InterpErrorView { rule: Rule::BytecodeIsWellFormed, message: "cannot negate this value"@, line })
        },
        ValueView::F32(b) => if ty is F16 {
            Ok(ValueView::F32(single_of_half(half_of_single(b ^ 0x8000_0000u32))))
        } else {
            Ok(ValueView::F32(b ^ 0x8000_0000u32))
        },
        ValueView::F64(b) => Ok(ValueView::F64(b ^ 0x8000_0000_0000_0000u64)),
        _ => Err(InterpErrorView { rule: Rule::BytecodeIsWellFormed, message: "cannot negate this value"@, line }),
    }
}

pub fn negate(v: &Value, ty: RtType, line: u32) -> (r: Result<Value, InterpError>)
    ensures
        match interp_negate(v@, ty, line) {
            Ok(x) => r matches Ok(y) && y@ == x,
            Err(e) => r matches Err(y) && y@ == e,
        },
{
    match v {
        Value::Int(a) => {
            if ty.is_signed_int() {
                fit(-(*a as i128), ty, line)
            } else {
                Err(err(Rule::BytecodeIsWellFormed, line, String::from_str("cannot negate this value")))
            }
        },
        Value::F32(b) => {
            let flipped = *b ^ 0x8000_0000u32;
            if matches!(ty, RtType::F16) {
                Ok(Value::F32(single_from_half(half_from_single(flipped))))
            } else {
                Ok(Value::F32(flipped))
            }
        },
        Value::F64(b) => Ok(Value::F64(*b ^ 0x8000_0000_0000_0000u64)),
        _ => Err(err(Rule::BytecodeIsWellFormed, line, String::from_str("cannot negate this value"))),
    }
}

/// The exact result of an arithmetic operator on two integers; `None` for
/// division or remainder by zero and for a comparison.
pub open spec fn op_result(op: BinOp, x: int, y: int) -> Option<int> {
    match op {
        BinOp::Add => Some(x + y),
        BinOp::Sub => Some(x - y),
        BinOp::Mul => Some(x * y),
        BinOp::Div => if y == 0 { None } else { Some(crate::vm::quot(x, y)) },
        BinOp::Rem => if y == 0 { None } else { Some(crate::vm::remainder(x, y)) },
        _ => None,
    }
}

/// What the interpreter makes of an arithmetic operator at type `ty`: a
/// value, `None` where the caller does floating-point work, or an error.
pub open spec fn interp_arith(op: BinOp, a: ValueView, b: ValueView, ty: RtType, line: u32) -> Result<
    Option<ValueView>,
    InterpErrorView,
> {
    if signed_int(ty) || unsigned_int(ty) {
        match (int_of(a), int_of(b)) {
            (Some(x), Some(y)) => if op is Sub && unsigned_int(ty) && y > x {
                Err(
                    InterpErrorView {
                        rule: Rule::UnsignedIsNeverNegative,
                        message: "subtraction went below zero in `"@ + rt_type_name(ty) + "`"@,
                        line,
                    },
                )
            } else if (op is Div || op is Rem) && y == 0 {
                Err(
                    InterpErrorView {
                        rule: Rule::NoDivisionByZero,
                        message: if op is Div { "division by zero"@ } else { "remainder by zero"@ },
                        line,
                    },
                )
            } else {
                match op_result(op, x, y) {
                    Some(r) => match fitted(r, ty, line) {
                        Ok(v) => Ok(Some(v)),
                        Err(e) => Err(e),
                    },
                    None => Err(
                        InterpErrorView {
                            rule: Rule::OverflowTraps,
                            message: "arithmetic overflowed `"@ + rt_type_name(ty) + "`"@,
                            line,
                        },
                    ),
                }
            },
            _ => Err(InterpErrorView { rule: Rule::BytecodeIsWellFormed, message: "expected integers"@, line }),
        }
    } else {
        match (a, b) {
            (ValueView::F64(_), ValueView::F64(_)) => Ok(None),
            (ValueView::F32(_), ValueView::F32(_)) => Ok(None),
            _ => Err(InterpErrorView { rule: Rule::BytecodeIsWellFormed, message: "expected floats"@, line }),
        }
    }
}

proof fn lemma_wide_division(x: i128, y: i128)
    requires
        y != 0,
        -0x1_0000_0000_0000_0000 <= x <= 0x1_0000_0000_0000_0000,
        -0x1_0000_0000_0000_0000 <= y <= 0x1_0000_0000_0000_0000,
    ensures
        x.checked_div(y) matches Some(q) && q as int == crate::vm::quot(x as int, y as int),
        x.checked_rem(y) matches Some(r) && r as int == crate::vm::remainder(x as int, y as int),
{
    let m = if x >= 0 { x as int } else { -(x as int) };
    let d = if y >= 0 { y as int } else { -(y as int) };
    assert(0 <= m % d < d) by (nonlinear_arith)
        requires
            d > 0,
            m >= 0,
    ;
    assert(0int % d == 0) by (nonlinear_arith)
        requires
            d > 0,
    ;
}

/// The interpreter's arithmetic: integers widened to `i128`, computed
/// there, and narrowed to the target type; floats left to the caller.
pub fn arith(op: BinOp, a: &Value, b: &Value, ty: RtType, line: u32) -> (r: Result<Option<Value>, InterpError>)
    requires
        !crate::syntax::ast::comparison(op),
    ensures
        match interp_arith(op, a@, b@, ty, line) {
            Ok(Some(v)) => r matches Ok(Some(x)) && x@ == v,
            Ok(None) => r matches Ok(None),
            Err(e) => r matches Err(x) && x@ == e,
        },
{
    if ty.is_int() {
        let (x, y) = match (as_int(a), as_int(b)) {
            (Some(x), Some(y)) => (x, y),
            _ => return Err(err(Rule::BytecodeIsWellFormed, line, String::from_str("expected integers"))),
        };
        // i128 is wide enough for every operand pair except a u64 product,
        // so the multiply is still checked.
        let r = match op {
            BinOp::Add => x.checked_add(y),
            BinOp::Sub => {
                if ty.is_unsigned_int() && y > x {
                    return Err(
                        err(
                            Rule::UnsignedIsNeverNegative,
                            line,
                            String::from_str("subtraction went below zero in `").concat(ty.name()).concat("`"),
                        ),
                    );
                }
                x.checked_sub(y)
            },
            BinOp::Mul => x.checked_mul(y),
            BinOp::Div => {
                if y == 0 {
                    return Err(err(Rule::NoDivisionByZero, line, String::from_str("division by zero")));
                }
                proof {
                    lemma_wide_division(x, y);
                }
                x.checked_div(y)
            },
            _ => {
                if y == 0 {
                    return Err(err(Rule::NoDivisionByZero, line, String::from_str("remainder by zero")));
                }
                proof {
                    lemma_wide_division(x, y);
                }
                x.checked_rem(y)
            },
        };
        let r = match r {
            Some(r) => r,
            None => {
                return Err(
                    err(Rule::OverflowTraps, line, String::from_str("arithmetic overflowed `").concat(ty.name()).concat("`")),
                );
            },
        };
        return match fit(r, ty, line) {
            Ok(v) => Ok(Some(v)),
            Err(e) => Err(e),
        };
    }
    // Floating point is computed by the caller at its own width.
    match (a, b) {
        (Value::F64(_), Value::F64(_)) => Ok(None),
        (Value::F32(_), Value::F32(_)) => Ok(None),
        _ => Err(err(Rule::BytecodeIsWellFormed, line, String::from_str("expected floats"))),
    }
}

/// What a comparison operator says of an order.
pub open spec fn op_verdict(op: BinOp, order: int) -> bool {
    match op {
        BinOp::Eq => order == 0,
        BinOp::Ne => order != 0,
        BinOp::Lt => order < 0,
        BinOp::Le => order <= 0,
        BinOp::Gt => order > 0,
        _ => order >= 0,
    }
}

/// What the interpreter makes of a comparison: a verdict, `None` where the
/// caller compares floats, or an error.
pub open spec fn interp_compare(op: BinOp, a: ValueView, b: ValueView, line: u32) -> Result<
    Option<bool>,
    InterpErrorView,
> {
    match (a, b) {
        (ValueView::Int(x), ValueView::Int(y)) => Ok(Some(op_verdict(op, num_order(x as int, y as int)))),
        (ValueView::Uint(x), ValueView::Uint(y)) => Ok(Some(op_verdict(op, num_order(x as int, y as int)))),
        (ValueView::F32(_), ValueView::F32(_)) => Ok(None),
        (ValueView::F64(_), ValueView::F64(_)) => Ok(None),
        (ValueView::Bool(x), ValueView::Bool(y)) => Ok(
            Some(op_verdict(op, num_order(if x { 1 } else { 0 }, if y { 1 } else { 0 }))),
        ),
        (ValueView::Str(x), ValueView::Str(y)) => Ok(Some(op_verdict(op, text_order(x, y)))),
        (ValueView::Nil, ValueView::Nil) => Ok(Some(op_verdict(op, 0))),
        _ => Err(InterpErrorView { rule: Rule::BytecodeIsWellFormed, message: "cannot compare these values"@, line }),
    }
}

/// The interpreter decides a comparison of two integers of the same kind
/// as the order of the integers says: `==` when they are equal, `!=` when
/// not, `<`, `<=`, `>` and `>=` as the integers compare.
pub proof fn lemma_interp_compare_orders_integers(line: u32, a: int, b: int, lhs: ValueView, rhs: ValueView)
    requires
        (lhs == ValueView::Int(a as i64) && rhs == ValueView::Int(b as i64) && i64::MIN <= a <= i64::MAX && i64::MIN
            <= b <= i64::MAX) || (lhs == ValueView::Uint(a as u64) && rhs == ValueView::Uint(b as u64) && 0 <= a
            <= u64::MAX && 0 <= b <= u64::MAX),
    ensures
        interp_compare(BinOp::Eq, lhs, rhs, line) == Ok::<Option<bool>, InterpErrorView>(Some(a == b)),
        interp_compare(BinOp::Ne, lhs, rhs, line) == Ok::<Option<bool>, InterpErrorView>(Some(a != b)),
        interp_compare(BinOp::Lt, lhs, rhs, line) == Ok::<Option<bool>, InterpErrorView>(Some(a < b)),
        interp_compare(BinOp::Le, lhs, rhs, line) == Ok::<Option<bool>, InterpErrorView>(Some(a <= b)),
        interp_compare(BinOp::Gt, lhs, rhs, line) == Ok::<Option<bool>, InterpErrorView>(Some(a > b)),
        interp_compare(BinOp::Ge, lhs, rhs, line) == Ok::<Option<bool>, InterpErrorView>(Some(a >= b)),
{
}

fn order_of(a: i128, b: i128) -> (r: i8)
    ensures
        r as int == num_order(a as int, b as int),
{
    if a < b {
        -1
    } else if a == b {
        0
    } else {
        1
    }
}

fn op_verdict_of(op: BinOp, order: i8) -> (r: bool)
    ensures
        r == op_verdict(op, order as int),
{
    match op {
        BinOp::Eq => order == 0,
        BinOp::Ne => order != 0,
        BinOp::Lt => order < 0,
        BinOp::Le => order <= 0,
        BinOp::Gt => order > 0,
        _ => order >= 0,
    }
}

pub fn compare(op: BinOp, a: &Value, b: &Value, line: u32) -> (r: Result<Option<bool>, InterpError>)
    ensures
        match interp_compare(op, a@, b@, line) {
            Ok(x) => r matches Ok(y) && y == x,
            Err(e) => r matches Err(x) && x@ == e,
        },
{
    match (a, b) {
        (Value::Int(x), Value::Int(y)) => Ok(Some(op_verdict_of(op, order_of(*x as i128, *y as i128)))),
        (Value::Uint(x), Value::Uint(y)) => Ok(Some(op_verdict_of(op, order_of(*x as i128, *y as i128)))),
        (Value::F32(_), Value::F32(_)) => Ok(None),
        (Value::F64(_), Value::F64(_)) => Ok(None),
        (Value::Bool(x), Value::Bool(y)) => {
            let p: i128 = if *x {
                1
            } else {
                0
            };
            let q: i128 = if *y {
                1
            } else {
                0
            };
            Ok(Some(op_verdict_of(op, order_of(p, q))))
        },
        (Value::Str(x), Value::Str(y)) => Ok(Some(op_verdict_of(op, crate::vm::order_text(x.as_str(), y.as_str())))),
        (Value::Nil, Value::Nil) => Ok(Some(op_verdict_of(op, 0))),
        _ => Err(err(Rule::BytecodeIsWellFormed, line, String::from_str("cannot compare these values"))),
    }
}

// ------------------------------------------------------------------- laws

/// The instruction an arithmetic operator compiles to, at type `t`.
pub open spec fn instruction(op: BinOp, t: RtType) -> Op {
    match op {
        BinOp::Add => Op::Add(t),
        BinOp::Sub => Op::Sub(t),
        BinOp::Mul => Op::Mul(t),
        BinOp::Div => Op::Div(t),
        _ => Op::Rem(t),
    }
}

/// Whether two integers are of the kind type `t` calls for.
pub open spec fn kinded(v: ValueView, t: RtType) -> bool {
    (v is Int && signed_int(t)) || (v is Uint && unsigned_int(t))
}

/// The two paths agree on integer arithmetic. On operands of the kind its
/// type calls for, the interpreter's widened route and the VM's
/// target-width route give the same value, or both stop, citing the same
/// rule.
pub proof fn lemma_paths_agree(c: ChunkView, at: int, op: BinOp, a: ValueView, b: ValueView, t: RtType, line: u32)
    requires
        !crate::syntax::ast::comparison(op),
        kinded(a, t),
        kinded(b, t),
    ensures
        match (interp_arith(op, a, b, t, line), crate::vm::arith(c, at, instruction(op, t), a, b, t)) {
            (Ok(x), Ok(y)) => x == y && x is Some,
            (Err(e), Err(f)) => Some(e.rule) == f.rule,
            _ => false,
        },
{
    let x = int_of(a)->0;
    let y = int_of(b)->0;
    assert(int_result(instruction(op, t), x, y) == op_result(op, x, y));
}

} // verus!
