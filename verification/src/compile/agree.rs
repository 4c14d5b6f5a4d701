//! The compiled path and the reference interpreter agree.
//!
//! A checked program can be run two ways: lowered to bytecode and stepped
//! by the machine, or walked directly by the interpreter. Both hand their
//! floating-point work out; answered alike, the two print the same values
//! and stop on the same rule at the same line. This is proved here for
//! every well-typed program whose code fits the bytecode format.
use vstd::prelude::*;

use crate::bytecode::chunk::{first_equal, ChunkView, ConstView};
use crate::bytecode::format::{chunk_bytes, decode_chunk, encodable, DecodeFailure};
use crate::bytecode::op::Op;
use crate::bytecode::readback::lemma_round_trip;
use crate::bytecode::value::{signed_int, unsigned_int, RtType};
use crate::compile::codegen::{
    arms_size, bin_op, block_size, emit_arms, emit_block, emit_expr, emit_items, emit_stmt, expr_size, items_size,
    lowered, patch, patch_all, program_size, put_const, put_op, stmt_size, store_op, Emitted,
};
use crate::compile::typeck::{texpr_type, tstmts_view, Checked, Place, TExprView, TStmtView};
use crate::interp::walk::{
    combine, evaluate, fresh, pair_of, pick_arm, print_items, run_block, run_stmt, store, FloatPair, FloatWork,
    WalkView,
};
use crate::interp::{instruction, interp_negate, kinded, lemma_paths_agree};
use crate::syntax::ast::{comparison, BinOp};
use crate::vm::{
    arith, arith_type, compare, compare_type, line_at, negate, start, value_of, vm_step, EventView, FaultView,
    ValueView, VmView,
};

verus! {

// ------------------------------------------------------------ running

/// How a run stopped.
pub enum Stop {
    Done,
    Fault(FaultView),
}

/// Where a run of the machine stands: its state, what it has written, and
/// how it stopped, if it has.
pub struct Trace {
    pub state: VmView,
    pub writes: Seq<ValueView>,
    pub stop: Option<Stop>,
}

/// The operator an arithmetic or comparison instruction applies.
pub open spec fn operator_of(op: Op) -> BinOp {
    match op {
        Op::Add(_) => BinOp::Add,
        Op::Sub(_) => BinOp::Sub,
        Op::Mul(_) => BinOp::Mul,
        Op::Div(_) => BinOp::Div,
        Op::Rem(_) => BinOp::Rem,
        Op::Eq(_) => BinOp::Eq,
        Op::Ne(_) => BinOp::Ne,
        Op::Lt(_) => BinOp::Lt,
        Op::Le(_) => BinOp::Le,
        Op::Gt(_) => BinOp::Gt,
        _ => BinOp::Ge,
    }
}

/// Running the machine for up to `n` steps from `s`, answering each float
/// event with `fw`, as a driver does: the result is pushed back.
#[verifier::opaque]
pub open spec fn run_vm(c: ChunkView, s: VmView, fw: FloatWork, n: nat) -> Trace
    decreases n,
{
    if n == 0 {
        Trace { state: s, writes: Seq::empty(), stop: None }
    } else {
        let (s1, ev) = vm_step(c, s);
        match ev {
            EventView::Done => Trace { state: s1, writes: Seq::empty(), stop: Some(Stop::Done) },
            EventView::Fault(f) => Trace { state: s1, writes: Seq::empty(), stop: Some(Stop::Fault(f)) },
            EventView::Write(v, _) => {
                let t = run_vm(c, s1, fw, (n - 1) as nat);
                Trace { writes: seq![v] + t.writes, ..t }
            },
            EventView::Float(op, l, r, ty) => run_vm(
                c,
                VmView { stack: s1.stack.push(fw(operator_of(op), pair_of(l, r), ty)), ..s1 },
                fw,
                (n - 1) as nat,
            ),
            EventView::Ran => run_vm(c, s1, fw, (n - 1) as nat),
        }
    }
}

/// Running `n` steps and then `m` more is running `n + m`.
pub proof fn lemma_run_split(c: ChunkView, s: VmView, fw: FloatWork, n: nat, m: nat)
    ensures
        ({
            let a = run_vm(c, s, fw, n);
            let b = run_vm(c, a.state, fw, m);
            run_vm(c, s, fw, n + m) == if a.stop is Some {
                a
            } else {
                Trace { writes: a.writes + b.writes, ..b }
            }
        }),
    decreases n,
{
    reveal_with_fuel(run_vm, 2);
    if n > 0 {
        let (s1, ev) = vm_step(c, s);
        match ev {
            EventView::Done => {},
            EventView::Fault(f) => {},
            EventView::Write(v, _) => {
                lemma_run_split(c, s1, fw, (n - 1) as nat, m);
                let a = run_vm(c, s1, fw, (n - 1) as nat);
                let b = run_vm(c, a.state, fw, m);
                assert(seq![v] + (a.writes + b.writes) =~= (seq![v] + a.writes) + b.writes);
                assert((n + m - 1) as nat == (n - 1) as nat + m);
            },
            EventView::Float(op, l, r, ty) => {
                lemma_run_split(
                    c,
                    VmView { stack: s1.stack.push(fw(operator_of(op), pair_of(l, r), ty)), ..s1 },
                    fw,
                    (n - 1) as nat,
                    m,
                );
                assert((n + m - 1) as nat == (n - 1) as nat + m);
            },
            EventView::Ran => {
                lemma_run_split(c, s1, fw, (n - 1) as nat, m);
                assert((n + m - 1) as nat == (n - 1) as nat + m);
            },
        }
    } else {
        assert(Seq::<ValueView>::empty() + run_vm(c, s, fw, m).writes =~= run_vm(c, s, fw, m).writes);
    }
}

// -------------------------------------------------------------- typing

/// A value of the kind type `t` calls for.
pub open spec fn of_kind(v: ValueView, t: RtType) -> bool {
    if signed_int(t) {
        v is Int
    } else if unsigned_int(t) {
        v is Uint
    } else {
        match t {
            RtType::F64 => v is F64,
            RtType::F32 | RtType::F16 => v is F32,
            RtType::Bool => v is Bool,
            RtType::Str => v is Str,
            _ => v is Nil,
        }
    }
}

/// Float work that answers in kind: a verdict for a comparison, and a value
/// of the operand type for arithmetic.
pub open spec fn answers_in_kind(fw: FloatWork) -> bool {
    forall|op: BinOp, p: FloatPair, t: RtType|
        #![trigger fw(op, p, t)]
        (t is F16 || t is F32 || t is F64) ==> if comparison(op) {
            fw(op, p, t) is Bool
        } else {
            of_kind(fw(op, p, t), t)
        }
}

/// A place inside a frame whose slots and globals have the given types.
pub open spec fn place_ok(p: Place, lt: Seq<RtType>, gt: Seq<RtType>) -> bool {
    match p {
        Place::Local(n) => n < lt.len(),
        Place::Global(n) => n < gt.len(),
    }
}

/// The type of a place, given the types of the slots and the globals.
pub open spec fn place_type(p: Place, lt: Seq<RtType>, gt: Seq<RtType>) -> RtType {
    match p {
        Place::Local(n) => lt[n as int],
        Place::Global(n) => gt[n as int],
    }
}

/// A checked expression whose parts have the types they claim and whose
/// places lie in the frame.
pub open spec fn typed_expr(e: TExprView, lt: Seq<RtType>, gt: Seq<RtType>) -> bool
    decreases e,
{
    match e {
        TExprView::Const(c, t) => of_kind(value_of(c), t),
        TExprView::Load(p, t) => place_ok(p, lt, gt) && place_type(p, lt, gt) == t,
        TExprView::Neg(inner, t) => texpr_type(*inner) == t && typed_expr(*inner, lt, gt),
        TExprView::Bin { op, operand_ty, result, lhs, rhs } => {
            &&& texpr_type(*lhs) == operand_ty
            &&& texpr_type(*rhs) == operand_ty
            &&& result == if comparison(op) {
                RtType::Bool
            } else {
                operand_ty
            }
            &&& typed_expr(*lhs, lt, gt)
            &&& typed_expr(*rhs, lt, gt)
        },
    }
}

/// A well-typed statement: stores of their place's type, and `bool`
/// conditions.
pub open spec fn typed_stmt(s: TStmtView, lt: Seq<RtType>, gt: Seq<RtType>) -> bool
    decreases s, 1nat,
{
    match s {
        TStmtView::Store { place, value, .. } => place_ok(place, lt, gt) && place_type(place, lt, gt) == texpr_type(
            value,
        ) && typed_expr(value, lt, gt),
        TStmtView::Print { items, .. } => forall|k: int| 0 <= k < items.len() ==> #[trigger] typed_expr(items[k], lt, gt),
        TStmtView::If { arms, else_arm, .. } => typed_arms(arms, lt, gt) && typed_block(else_arm, lt, gt),
    }
}

pub open spec fn typed_arms(arms: Seq<(TExprView, Seq<TStmtView>)>, lt: Seq<RtType>, gt: Seq<RtType>) -> bool
    decreases arms, 0nat,
{
    if arms.len() == 0 {
        true
    } else {
        let arm = arms[arms.len() - 1];
        &&& typed_arms(arms.subrange(0, arms.len() - 1), lt, gt)
        &&& texpr_type(arm.0) == RtType::Bool
        &&& typed_expr(arm.0, lt, gt)
        &&& typed_block(arm.1, lt, gt)
    }
}

/// A well-typed run of statements.
pub open spec fn typed_block(v: Seq<TStmtView>, lt: Seq<RtType>, gt: Seq<RtType>) -> bool
    decreases v, 0nat,
{
    if v.len() == 0 {
        true
    } else {
        typed_block(v.subrange(0, v.len() - 1), lt, gt) && typed_stmt(v[v.len() - 1], lt, gt)
    }
}

/// Every assigned slot and global holds a value of its type.
pub open spec fn slots_typed(w: WalkView, lt: Seq<RtType>, gt: Seq<RtType>) -> bool {
    &&& w.locals.len() == lt.len()
    &&& w.globals.len() == gt.len()
    &&& forall|i: int| 0 <= i < lt.len() && #[trigger] w.locals[i] is Some ==> of_kind(w.locals[i]->0, lt[i])
    &&& forall|i: int| 0 <= i < gt.len() && #[trigger] w.globals[i] is Some ==> of_kind(w.globals[i]->0, gt[i])
}

// ---------------------------------------------------------------- layout

/// `b` carries on from `a`: everything `a` emitted stands in `b` unchanged.
pub open spec fn grows(a: Emitted, b: Emitted) -> bool {
    &&& a.code.len() <= b.code.len()
    &&& a.lines.len() <= b.lines.len()
    &&& a.consts.len() <= b.consts.len()
    &&& forall|i: int| 0 <= i < a.code.len() ==> #[trigger] b.code[i] == a.code[i]
    &&& forall|i: int| 0 <= i < a.lines.len() ==> #[trigger] b.lines[i] == a.lines[i]
    &&& forall|i: int| 0 <= i < a.consts.len() ==> #[trigger] b.consts[i] == a.consts[i]
}

/// What `em` emitted from instruction `from` on stands in chunk `c`
/// unchanged, with its lines, and every constant it holds.
pub open spec fn laid_from(c: ChunkView, em: Emitted, from: int) -> bool {
    &&& em.code.len() <= c.code.len()
    &&& em.lines.len() <= c.lines.len()
    &&& em.consts.len() <= c.consts.len()
    &&& forall|i: int| from <= i < em.code.len() ==> #[trigger] c.code[i] == em.code[i]
    &&& forall|i: int| from <= i < em.lines.len() ==> #[trigger] c.lines[i] == em.lines[i]
    &&& forall|i: int| 0 <= i < em.consts.len() ==> #[trigger] c.consts[i] == em.consts[i]
}

proof fn lemma_laid_sub(c: ChunkView, a: Emitted, b: Emitted, from: int, from2: int)
    requires
        laid_from(c, b, from),
        grows(a, b),
        0 <= from <= from2,
    ensures
        laid_from(c, a, from2),
{
    assert forall|i: int| from2 <= i < a.code.len() implies #[trigger] c.code[i] == a.code[i] by {
        assert(b.code[i] == a.code[i]);
    }
    assert forall|i: int| from2 <= i < a.lines.len() implies #[trigger] c.lines[i] == a.lines[i] by {
        assert(b.lines[i] == a.lines[i]);
    }
    assert forall|i: int| 0 <= i < a.consts.len() implies #[trigger] c.consts[i] == a.consts[i] by {
        assert(b.consts[i] == a.consts[i]);
    }
}

proof fn lemma_first_equal(s: Seq<ConstView>, c: ConstView)
    ensures
        first_equal(s, c) matches Some(i) ==> 0 <= i < s.len() && s[i] == c,
    decreases s.len(),
{
    if s.len() > 0 {
        lemma_first_equal(s.drop_last(), c);
    }
}

proof fn lemma_grows_trans(a: Emitted, b: Emitted, c: Emitted)
    requires
        grows(a, b),
        grows(b, c),
    ensures
        grows(a, c),
{
}

/// An expression's code is `expr_size` instructions, each with a line,
/// and adds no more constants than instructions.
proof fn lemma_expr_grows(em: Emitted, e: TExprView, line: u32)
    ensures
        grows(em, emit_expr(em, e, line)),
        emit_expr(em, e, line).code.len() == em.code.len() + expr_size(e),
        emit_expr(em, e, line).lines.len() == em.lines.len() + expr_size(e),
        emit_expr(em, e, line).consts.len() <= em.consts.len() + expr_size(e),
        forall|i: int|
            em.lines.len() <= i < emit_expr(em, e, line).lines.len() ==> #[trigger] emit_expr(em, e, line).lines[i]
                == line,
    decreases e,
{
    match e {
        TExprView::Const(c, _) => {},
        TExprView::Load(..) => {},
        TExprView::Neg(inner, t) => {
            lemma_expr_grows(em, *inner, line);
        },
        TExprView::Bin { op, operand_ty, lhs, rhs, .. } => {
            lemma_expr_grows(em, *lhs, line);
            let em1 = emit_expr(em, *lhs, line);
            lemma_expr_grows(em1, *rhs, line);
            let em2 = emit_expr(em1, *rhs, line);
            lemma_grows_trans(em, em1, em2);
        },
    }
}

// ------------------------------------------------------- single operations

/// Whether a machine result and an interpreter result agree: the same value,
/// or errors citing the same rule at the same line.
pub open spec fn agree_on(m: Result<ValueView, FaultView>, i: Result<ValueView, crate::interp::InterpErrorView>) -> bool {
    match (m, i) {
        (Ok(a), Ok(b)) => a == b,
        (Err(f), Err(x)) => f.rule == Some(x.rule) && f.line == x.line,
        _ => false,
    }
}

/// What the machine makes of a binary instruction on two operands, with
/// its float work answered by `fw`.
pub open spec fn vm_binary(c: ChunkView, at: int, op: Op, a: ValueView, b: ValueView, fw: FloatWork) -> Result<
    ValueView,
    FaultView,
> {
    match arith_type(op) {
        Some(t) => match arith(c, at, op, a, b, t) {
            Ok(Some(v)) => Ok(v),
            Ok(None) => Ok(fw(operator_of(op), pair_of(a, b), t)),
            Err(f) => Err(f),
        },
        None => {
            let t = compare_type(op)->0;
            match compare(c, at, op, a, b, t) {
                Ok(Some(v)) => Ok(ValueView::Bool(v)),
                Ok(None) => Ok(fw(operator_of(op), pair_of(a, b), t)),
                Err(f) => Err(f),
            }
        },
    }
}

proof fn lemma_negate_agrees(c: ChunkView, at: int, v: ValueView, t: RtType, line: u32)
    requires
        line_at(c, at) == line,
    ensures
        agree_on(negate(c, at, v, t), interp_negate(v, t, line)),
        of_kind(v, t) ==> (negate(c, at, v, t) matches Ok(r) ==> of_kind(r, t)),
{
}

proof fn lemma_binary_agrees(c: ChunkView, at: int, op: BinOp, a: ValueView, b: ValueView, t: RtType, line: u32, fw: FloatWork)
    requires
        line_at(c, at) == line,
        of_kind(a, t),
        of_kind(b, t),
        answers_in_kind(fw),
    ensures
        agree_on(vm_binary(c, at, bin_op(op, t), a, b, fw), combine(fw, op, a, b, t, line)),
        vm_binary(c, at, bin_op(op, t), a, b, fw) matches Ok(r) ==> of_kind(
            r,
            if comparison(op) {
                RtType::Bool
            } else {
                t
            },
        ),
{
    let instr = bin_op(op, t);
    assert(operator_of(instr) == op);
    if comparison(op) {
        assert(compare_type(instr) == Some(t));
        assert(arith_type(instr) is None);
        if a is F32 || a is F64 {
            assert(t is F16 || t is F32 || t is F64);
            assert(fw(op, pair_of(a, b), t) is Bool);
        }
    } else {
        assert(arith_type(instr) == Some(t));
        assert(instruction(op, t) == instr);
        if signed_int(t) || unsigned_int(t) {
            assert(kinded(a, t) && kinded(b, t));
            lemma_paths_agree(c, at, op, a, b, t, line);
        } else if t is F16 || t is F32 || t is F64 {
            assert(of_kind(fw(op, pair_of(a, b), t), t));
        }
    }
}

// ------------------------------------------------------------ expressions

/// The machine and the walk stand at the same place: the same slots and
/// globals.
pub open spec fn in_step(s: VmView, w: WalkView) -> bool {
    s.locals == w.locals && s.globals == w.globals
}

/// Running an expression's code: on a value, that value pushed and the
/// machine past the code; on an error, a fault citing the same rule at the
/// same line, with nothing written.
pub open spec fn ran_expr(t: Trace, s: VmView, k: nat, r: Result<ValueView, crate::interp::InterpErrorView>) -> bool {
    match r {
        Ok(v) => t == Trace {
            state: VmView { stack: s.stack.push(v), pc: s.pc + k, ..s },
            writes: Seq::empty(),
            stop: None,
        },
        Err(x) => t.writes == Seq::<ValueView>::empty() && (t.stop matches Some(Stop::Fault(f)) && f.rule == Some(
            x.rule,
        ) && f.line == x.line),
    }
}

/// One step of the machine, run through `run_vm`.
pub open spec fn one_step(s: VmView, base: Seq<ValueView>, r: Result<ValueView, FaultView>) -> Trace {
    match r {
        Ok(v) => Trace {
            state: VmView { stack: base.push(v), pc: s.pc + 1, ..s },
            writes: Seq::empty(),
            stop: None,
        },
        Err(f) => Trace { state: VmView { pc: s.pc + 1, ..s }, writes: Seq::empty(), stop: Some(Stop::Fault(f)) },
    }
}

proof fn lemma_step_const(c: ChunkView, s: VmView, fw: FloatWork, k: u32)
    requires
        0 <= s.pc < c.code.len(),
        c.code[s.pc] == Op::Const(k),
        k < c.consts.len(),
    ensures
        run_vm(c, s, fw, 1) == one_step(s, s.stack, Ok(value_of(c.consts[k as int]))),
{
    reveal_with_fuel(run_vm, 2);
}

proof fn lemma_step_load(c: ChunkView, s: VmView, fw: FloatWork, p: Place)
    requires
        0 <= s.pc < c.code.len(),
        c.code[s.pc] == (match p {
            Place::Local(n) => Op::LoadLocal(n),
            Place::Global(n) => Op::LoadGlobal(n),
        }),
        match p {
            Place::Local(n) => n < s.locals.len(),
            Place::Global(n) => n < s.globals.len(),
        },
    ensures
        ({
            let slot = match p {
                Place::Local(n) => s.locals[n as int],
                Place::Global(n) => s.globals[n as int],
            };
            match slot {
                Some(v) => run_vm(c, s, fw, 1) == one_step(s, s.stack, Ok(v)),
                None => run_vm(c, s, fw, 1).writes == Seq::<ValueView>::empty() && (run_vm(c, s, fw, 1).stop matches Some(
                    Stop::Fault(f),
                ) && f.rule == Some(crate::rule::Rule::AssignBeforeReading) && f.line == line_at(c, s.pc)),
            }
        }),
{
    reveal_with_fuel(run_vm, 2);
}

proof fn lemma_step_neg(c: ChunkView, s: VmView, fw: FloatWork, t: RtType, v: ValueView)
    requires
        0 <= s.pc < c.code.len(),
        c.code[s.pc] == Op::Neg(t),
        s.stack.len() > 0,
        s.stack.last() == v,
    ensures
        run_vm(c, s, fw, 1) == one_step(s, s.stack.drop_last(), negate(c, s.pc, v, t)),
{
    reveal_with_fuel(run_vm, 2);
}

proof fn lemma_step_binary(c: ChunkView, s: VmView, fw: FloatWork, op: BinOp, t: RtType, a: ValueView, b: ValueView, rest: Seq<ValueView>)
    requires
        0 <= s.pc < c.code.len(),
        c.code[s.pc] == bin_op(op, t),
        s.stack == rest.push(a).push(b),
    ensures
        run_vm(c, s, fw, 1) == one_step(s, rest, vm_binary(c, s.pc, bin_op(op, t), a, b, fw)),
{
    reveal_with_fuel(run_vm, 2);
    let n = s.stack.len();
    assert(s.stack.subrange(0, n - 2) =~= rest);
    assert(s.stack[n - 2] == a);
    assert(s.stack[n - 1] == b);
}

} // verus!

verus! {

proof fn lemma_expr_runs(
    c: ChunkView,
    em: Emitted,
    e: TExprView,
    line: u32,
    fw: FloatWork,
    w: WalkView,
    s: VmView,
    lt: Seq<RtType>,
    gt: Seq<RtType>,
)
    requires
        laid_from(c, emit_expr(em, e, line), em.code.len() as int),
        em.lines.len() == em.code.len(),
        c.consts.len() <= u32::MAX,
        s.pc == em.code.len(),
        in_step(s, w),
        slots_typed(w, lt, gt),
        typed_expr(e, lt, gt),
        answers_in_kind(fw),
    ensures
        ran_expr(run_vm(c, s, fw, expr_size(e)), s, expr_size(e), evaluate(fw, w, e, line)),
        evaluate(fw, w, e, line) matches Ok(v) ==> of_kind(v, texpr_type(e)),
    decreases e,
{
    lemma_expr_grows(em, e, line);
    let at = s.pc;
    assert(c.lines[at + expr_size(e) - 1] == line);
    match e {
        TExprView::Const(cv, t) => {
            let (em1, k) = put_const(em, cv);
            lemma_first_equal(em.consts, cv);
            assert(c.code[at] == Op::Const(k));
            assert(c.consts[k as int] == cv);
            lemma_step_const(c, s, fw, k);
        },
        TExprView::Load(p, t) => {
            assert(c.code[at] == match p {
                Place::Local(n) => Op::LoadLocal(n),
                Place::Global(n) => Op::LoadGlobal(n),
            });
            lemma_step_load(c, s, fw, p);
        },
        TExprView::Neg(inner, t) => {
            let em1 = emit_expr(em, *inner, line);
            lemma_expr_grows(em, *inner, line);
            lemma_laid_sub(c, em1, emit_expr(em, e, line), em.code.len() as int, em.code.len() as int);
            lemma_expr_runs(c, em, *inner, line, fw, w, s, lt, gt);
            let k1 = expr_size(*inner);
            lemma_run_split(c, s, fw, k1, 1);
            let pc1 = at + k1;
            assert(c.code[pc1] == Op::Neg(t));
            if let Ok(v) = evaluate(fw, w, *inner, line) {
                let s1 = VmView { stack: s.stack.push(v), pc: pc1, ..s };
                lemma_step_neg(c, s1, fw, t, v);
                lemma_negate_agrees(c, pc1, v, t, line);
                assert(s1.stack.drop_last() =~= s.stack);
            }
        },
        TExprView::Bin { op, operand_ty, lhs, rhs, .. } => {
            let em1 = emit_expr(em, *lhs, line);
            let em2 = emit_expr(em1, *rhs, line);
            lemma_expr_grows(em, *lhs, line);
            lemma_expr_grows(em1, *rhs, line);
            lemma_grows_trans(em1, em2, emit_expr(em, e, line));
            lemma_laid_sub(c, em1, emit_expr(em, e, line), em.code.len() as int, em.code.len() as int);
            lemma_laid_sub(c, em2, emit_expr(em, e, line), em.code.len() as int, em1.code.len() as int);
            lemma_expr_runs(c, em, *lhs, line, fw, w, s, lt, gt);
            let k1 = expr_size(*lhs);
            let k2 = expr_size(*rhs);
            lemma_run_split(c, s, fw, k1, k2 + 1);
            assert((k1 + (k2 + 1)) as nat == expr_size(e));
            if let Ok(a) = evaluate(fw, w, *lhs, line) {
                let s1 = VmView { stack: s.stack.push(a), pc: at + k1, ..s };
                lemma_expr_runs(c, em1, *rhs, line, fw, w, s1, lt, gt);
                lemma_run_split(c, s1, fw, k2, 1);
                if let Ok(b) = evaluate(fw, w, *rhs, line) {
                    let s2 = VmView { stack: s1.stack.push(b), pc: at + k1 + k2, ..s1 };
                    let pc2 = at + k1 + k2;
                    assert(c.code[pc2] == bin_op(op, operand_ty));
                    lemma_step_binary(c, s2, fw, op, operand_ty, a, b, s.stack);
                    lemma_binary_agrees(c, pc2, op, a, b, operand_ty, line, fw);
                }
            }
        },
    }
}

} // verus!

verus! {

// ------------------------------------------------------- more single steps

proof fn lemma_run_zero(c: ChunkView, s: VmView, fw: FloatWork)
    ensures
        run_vm(c, s, fw, 0) == (Trace { state: s, writes: Seq::empty(), stop: None }),
{
    reveal_with_fuel(run_vm, 1);
}

proof fn lemma_step_write(c: ChunkView, s: VmView, fw: FloatWork, t: RtType, v: ValueView)
    requires
        0 <= s.pc < c.code.len(),
        c.code[s.pc] == Op::Write(t),
        s.stack.len() > 0,
        s.stack.last() == v,
    ensures
        run_vm(c, s, fw, 1) == (Trace {
            state: VmView { stack: s.stack.drop_last(), pc: s.pc + 1, ..s },
            writes: seq![v],
            stop: None,
        }),
{
    reveal_with_fuel(run_vm, 2);
    assert(seq![v] + Seq::<ValueView>::empty() =~= seq![v]);
}

proof fn lemma_step_store(c: ChunkView, s: VmView, fw: FloatWork, p: Place, v: ValueView)
    requires
        0 <= s.pc < c.code.len(),
        c.code[s.pc] == store_op(p),
        s.stack.len() > 0,
        s.stack.last() == v,
        match p {
            Place::Local(n) => n < s.locals.len(),
            Place::Global(n) => n < s.globals.len(),
        },
    ensures
        run_vm(c, s, fw, 1) == (Trace {
            state: match p {
                Place::Local(n) => VmView {
                    stack: s.stack.drop_last(),
                    locals: s.locals.update(n as int, Some(v)),
                    pc: s.pc + 1,
                    ..s
                },
                Place::Global(n) => VmView {
                    stack: s.stack.drop_last(),
                    globals: s.globals.update(n as int, Some(v)),
                    pc: s.pc + 1,
                    ..s
                },
            },
            writes: Seq::empty(),
            stop: None,
        }),
{
    reveal_with_fuel(run_vm, 2);
}

proof fn lemma_step_halt(c: ChunkView, s: VmView, fw: FloatWork)
    requires
        0 <= s.pc < c.code.len(),
        c.code[s.pc] == Op::Halt,
    ensures
        run_vm(c, s, fw, 1) == (Trace { state: VmView { pc: s.pc + 1, ..s }, writes: Seq::empty(), stop: Some(Stop::Done) }),
{
    reveal_with_fuel(run_vm, 2);
}

// ------------------------------------------------------------------ walks

proof fn lemma_eval_printed(fw: FloatWork, w: WalkView, e: TExprView, line: u32, p: Seq<ValueView>)
    ensures
        evaluate(fw, w, e, line) == evaluate(fw, WalkView { printed: p, ..w }, e, line),
    decreases e,
{
    match e {
        TExprView::Neg(inner, _) => lemma_eval_printed(fw, w, *inner, line, p),
        TExprView::Bin { lhs, rhs, .. } => {
            lemma_eval_printed(fw, w, *lhs, line, p);
            lemma_eval_printed(fw, w, *rhs, line, p);
        },
        _ => {},
    }
}

/// Printing a list is printing all but its last item, then the last.
proof fn lemma_print_items_last(fw: FloatWork, w: WalkView, items: Seq<TExprView>, line: u32)
    requires
        items.len() > 0,
    ensures
        print_items(fw, w, items, line) == ({
            let (w1, r) = print_items(fw, w, items.drop_last(), line);
            match r {
                Err(x) => (w1, Err(x)),
                Ok(()) => match evaluate(fw, w1, items.last(), line) {
                    Ok(v) => (WalkView { printed: w1.printed.push(v), ..w1 }, Ok(())),
                    Err(x) => (w1, Err(x)),
                },
            }
        }),
        print_items(fw, w, items, line).0 == (WalkView { printed: print_items(fw, w, items, line).0.printed, ..w }),
    decreases items.len(),
{
    reveal_with_fuel(print_items, 2);
    let rest = items.subrange(1, items.len() as int);
    if items.len() == 1 {
        assert(items.drop_last() =~= Seq::<TExprView>::empty());
        assert(rest =~= Seq::<TExprView>::empty());
        assert(items.last() == items[0]);
    } else {
        assert(items.drop_last().subrange(1, items.len() - 1) =~= rest.drop_last());
        assert(items.drop_last()[0] == items[0]);
        assert(rest.last() == items.last());
        match evaluate(fw, w, items[0], line) {
            Ok(v) => {
                let w2 = WalkView { printed: w.printed.push(v), ..w };
                lemma_print_items_last(fw, w2, rest, line);
            },
            Err(x) => {},
        }
    }
}

/// A run of statements is all but the last, then the last.
proof fn lemma_run_block_last(fw: FloatWork, w: WalkView, v: Seq<TStmtView>)
    requires
        v.len() > 0,
    ensures
        run_block(fw, w, v) == if run_block(fw, w, v.drop_last()).1 is Ok {
            run_stmt(fw, run_block(fw, w, v.drop_last()).0, v.last())
        } else {
            run_block(fw, w, v.drop_last())
        },
    decreases v.len(),
{
    reveal_with_fuel(run_block, 2);
    let rest = v.subrange(1, v.len() as int);
    let d = v.drop_last();
    let (w1, r) = run_stmt(fw, w, v[0]);
    assert(run_block(fw, w, v) == (match r {
        Ok(()) => run_block(fw, w1, rest),
        Err(x) => (w1, Err(x)),
    }));
    if v.len() == 1 {
        assert(d =~= Seq::<TStmtView>::empty());
        assert(rest =~= Seq::<TStmtView>::empty());
        assert(v.last() == v[0]);
        assert(run_block(fw, w, d) == (w, Ok::<(), crate::interp::InterpErrorView>(())));
        if r is Ok {
            assert(run_block(fw, w1, rest) == (w1, Ok::<(), crate::interp::InterpErrorView>(())));
            let u = r->Ok_0;
            assert(u == ());
            assert(r == Ok::<(), crate::interp::InterpErrorView>(()));
            assert(run_block(fw, w, v) == run_stmt(fw, w, v[0]));
        }
    } else {
        assert(d.subrange(1, d.len() as int) =~= rest.drop_last());
        assert(d[0] == v[0]);
        assert(rest.last() == v.last());
        assert(run_block(fw, w, d) == (match r {
            Ok(()) => run_block(fw, w1, d.subrange(1, d.len() as int)),
            Err(x) => (w1, Err(x)),
        }));
        if r is Ok {
            lemma_run_block_last(fw, w1, rest);
        }
    }
}

} // verus!

verus! {

// ---------------------------------------------------------------- prints

proof fn lemma_items_grows(em: Emitted, items: Seq<TExprView>, line: u32)
    ensures
        grows(em, emit_items(em, items, line)),
        emit_items(em, items, line).code.len() == em.code.len() + items_size(items),
        emit_items(em, items, line).lines.len() == em.lines.len() + items_size(items),
        emit_items(em, items, line).consts.len() <= em.consts.len() + items_size(items),
    decreases items.len(),
{
    if items.len() > 0 {
        let init = items.subrange(0, items.len() - 1);
        lemma_items_grows(em, init, line);
        let em1 = emit_items(em, init, line);
        lemma_expr_grows(em1, items[items.len() - 1], line);
        lemma_grows_trans(em, em1, emit_expr(em1, items[items.len() - 1], line));
    }
}

/// Whether a statement's run on the machine matches the walk's: what was
/// written is what the walk printed, and on success the machine is past
/// the code with the walk's slots; on an error, both cite the same rule at
/// the same line.
pub open spec fn ran_stmt(
    t: Trace,
    s: VmView,
    k: nat,
    w: WalkView,
    res: (WalkView, Result<(), crate::interp::InterpErrorView>),
) -> bool {
    &&& res.0.printed == w.printed + t.writes
    &&& res.0.local_names == w.local_names
    &&& res.0.global_names == w.global_names
    &&& res.0.locals.len() == w.locals.len()
    &&& res.0.globals.len() == w.globals.len()
    &&& match res.1 {
        Ok(()) => t.stop is None && t.state == VmView {
            stack: s.stack,
            locals: res.0.locals,
            globals: res.0.globals,
            pc: s.pc + k,
        },
        Err(x) => t.stop matches Some(Stop::Fault(f)) && f.rule == Some(x.rule) && f.line == x.line,
    }
}

proof fn lemma_items_runs(
    c: ChunkView,
    em: Emitted,
    items: Seq<TExprView>,
    line: u32,
    fw: FloatWork,
    w: WalkView,
    s: VmView,
    lt: Seq<RtType>,
    gt: Seq<RtType>,
)
    requires
        laid_from(c, emit_items(em, items, line), em.code.len() as int),
        em.lines.len() == em.code.len(),
        c.consts.len() <= u32::MAX,
        s.pc == em.code.len(),
        in_step(s, w),
        slots_typed(w, lt, gt),
        forall|k: int| 0 <= k < items.len() ==> #[trigger] typed_expr(items[k], lt, gt),
        answers_in_kind(fw),
    ensures
        ran_stmt(run_vm(c, s, fw, items_size(items)), s, items_size(items), w, print_items(fw, w, items, line)),
        print_items(fw, w, items, line).0.locals == w.locals,
        print_items(fw, w, items, line).0.globals == w.globals,
    decreases items.len(),
{
    reveal_with_fuel(print_items, 1);
    if items.len() == 0 {
        lemma_run_zero(c, s, fw);
        assert(w.printed + Seq::<ValueView>::empty() =~= w.printed);
    } else {
        let n = items.len();
        let init = items.subrange(0, n - 1);
        let last = items[n - 1];
        lemma_items_grows(em, init, line);
        let em1 = emit_items(em, init, line);
        lemma_expr_grows(em1, last, line);
        let em2 = emit_expr(em1, last, line);
        lemma_grows_trans(em1, em2, emit_items(em, items, line));
        lemma_grows_trans(em, em1, em2);
        lemma_laid_sub(c, em1, emit_items(em, items, line), em.code.len() as int, em.code.len() as int);
        lemma_laid_sub(c, em2, emit_items(em, items, line), em.code.len() as int, em1.code.len() as int);
        assert(forall|k: int| 0 <= k < init.len() ==> init[k] == items[k]);
        assert(init =~= items.drop_last());
        lemma_print_items_last(fw, w, items, line);
        lemma_items_runs(c, em, init, line, fw, w, s, lt, gt);
        let ka = items_size(init);
        let kb = expr_size(last);
        assert(items_size(items) == ka + (kb + 1));
        lemma_run_split(c, s, fw, ka, kb + 1);
        let (w1, r) = print_items(fw, w, init, line);
        let ta = run_vm(c, s, fw, ka);
        if r is Ok {
            let sa = ta.state;
            assert(w1 == WalkView { printed: w1.printed, ..w });
            lemma_expr_runs(c, em1, last, line, fw, w1, sa, lt, gt);
            lemma_run_split(c, sa, fw, kb, 1);
            if let Ok(v) = evaluate(fw, w1, last, line) {
                let sb = VmView { stack: sa.stack.push(v), pc: sa.pc + kb, ..sa };
                assert(c.code[sb.pc] == Op::Write(texpr_type(last)));
                lemma_step_write(c, sb, fw, texpr_type(last), v);
                assert(sb.stack.drop_last() =~= s.stack);
                let tb = run_vm(c, sa, fw, kb + 1);
                assert(tb.writes =~= seq![v]);
                assert(w1.printed.push(v) =~= w.printed + (ta.writes + tb.writes));
            } else {
                assert(w1.printed =~= w.printed + (ta.writes + run_vm(c, sa, fw, kb + 1).writes));
            }
        }
    }
}

} // verus!

verus! {

} // verus!

verus! {

// ------------------------------------------------------ emission in general

/// `b` carries on from `a` with lines beside instructions, at most `size`
/// more instructions, and no more new constants than new instructions.
pub open spec fn emits(a: Emitted, b: Emitted, size: nat) -> bool {
    &&& grows(a, b)
    &&& b.lines.len() - a.lines.len() == b.code.len() - a.code.len()
    &&& b.code.len() <= a.code.len() + size
    &&& b.consts.len() - a.consts.len() <= b.code.len() - a.code.len()
}

proof fn lemma_patch_all(em: Emitted, at: Seq<int>, target: u32)
    requires
        forall|k: int| 0 <= k < at.len() ==> 0 <= #[trigger] at[k] < em.code.len() && em.code[at[k]] is Jump,
    ensures
        patch_all(em, at, target).code.len() == em.code.len(),
        patch_all(em, at, target).lines == em.lines,
        patch_all(em, at, target).consts == em.consts,
        forall|i: int| 0 <= i < em.code.len() && !at.contains(i) ==> #[trigger] patch_all(em, at, target).code[i] == em.code[i],
        forall|k: int| 0 <= k < at.len() ==> patch_all(em, at, target).code[#[trigger] at[k]] == Op::Jump(target),
    decreases at.len(),
{
    if at.len() > 0 {
        let init = at.subrange(0, at.len() - 1);
        lemma_patch_all(em, init, target);
        let e1 = patch_all(em, init, target);
        assert forall|i: int| 0 <= i < em.code.len() && !at.contains(i) implies #[trigger] patch_all(em, at, target).code[i]
            == em.code[i] by {
            assert(i != at[at.len() - 1]);
            if init.contains(i) {
                let k = choose|k: int| 0 <= k < init.len() && init[k] == i;
                assert(at[k] == i);
            }
        }
        assert forall|k: int| 0 <= k < at.len() implies patch_all(em, at, target).code[#[trigger] at[k]] == Op::Jump(target) by {
            if k < at.len() - 1 && at[k] != at[at.len() - 1] {
                assert(init[k] == at[k]);
            }
            if at[k] == at[at.len() - 1] {
                if init.contains(at[k]) {
                } else {
                    assert(e1.code[at[k]] == em.code[at[k]]);
                }
            }
        }
    }
}

proof fn lemma_emit_stmt_grows(em: Emitted, s: TStmtView)
    ensures
        emits(em, emit_stmt(em, s), stmt_size(s)),
    decreases s, 1nat,
{
    match s {
        TStmtView::Store { place, value, line } => {
            lemma_expr_grows(em, value, line);
        },
        TStmtView::Print { items, line } => {
            lemma_items_grows(em, items, line);
        },
        TStmtView::If { arms, else_arm, line } => {
            let (em1, to_end) = emit_arms(em, arms, arms.len(), else_arm.len() > 0, line);
            lemma_emit_arms_grows(em, arms, arms.len(), else_arm.len() > 0, line);
            let em2 = emit_block(em1, else_arm);
            lemma_emit_block_grows(em1, else_arm);
            lemma_grows_trans(em, em1, em2);
            lemma_patch_all(em2, to_end, em2.code.len() as u32);
        },
    }
}

proof fn lemma_emit_arms_grows(
    em: Emitted,
    arms: Seq<(TExprView, Seq<TStmtView>)>,
    total: nat,
    has_else: bool,
    line: u32,
)
    ensures
        emits(em, emit_arms(em, arms, total, has_else, line).0, arms_size(arms)),
        forall|k: int|
            0 <= k < emit_arms(em, arms, total, has_else, line).1.len() ==> em.code.len() <= #[trigger] emit_arms(
                em,
                arms,
                total,
                has_else,
                line,
            ).1[k] < emit_arms(em, arms, total, has_else, line).0.code.len() && emit_arms(
                em,
                arms,
                total,
                has_else,
                line,
            ).0.code[emit_arms(em, arms, total, has_else, line).1[k]] == Op::Jump(u32::MAX),
    decreases arms, 0nat,
{
    if arms.len() > 0 {
        let i = arms.len() - 1;
        let init = arms.subrange(0, i);
        let (em1, to_end) = emit_arms(em, init, total, has_else, line);
        lemma_emit_arms_grows(em, init, total, has_else, line);
        let arm = arms[i];
        assert(decreases_to!(arms => arms[i]));
        assert(decreases_to!(arms[i] => arms[i].1));
        let em2 = emit_expr(em1, arm.0, line);
        lemma_expr_grows(em1, arm.0, line);
        let ej = put_op(em2, Op::JumpIfFalse(u32::MAX), line);
        let em3 = emit_block(ej, arm.1);
        lemma_emit_block_grows(ej, arm.1);
        lemma_grows_trans(em1, em2, ej);
        lemma_grows_trans(em1, ej, em3);
        lemma_grows_trans(em, em1, em3);
    }
}

proof fn lemma_emit_block_grows(em: Emitted, v: Seq<TStmtView>)
    ensures
        emits(em, emit_block(em, v), block_size(v)),
    decreases v, 0nat,
{
    if v.len() > 0 {
        let init = v.subrange(0, v.len() - 1);
        lemma_emit_block_grows(em, init);
        let em1 = emit_block(em, init);
        lemma_emit_stmt_grows(em1, v[v.len() - 1]);
        lemma_grows_trans(em, em1, emit_stmt(em1, v[v.len() - 1]));
    }
}

} // verus!

verus! {

// ------------------------------------------------------ runs that go on

/// Whether the machine, from `s`, has run a piece of code the way the walk
/// did: what it wrote is what the walk printed, and on success it stands at
/// `end` with the walk's slots; on an error, it stopped citing the same rule
/// at the same line.
pub open spec fn ran_to(
    t: Trace,
    s: VmView,
    end: int,
    w: WalkView,
    res: (WalkView, Result<(), crate::interp::InterpErrorView>),
) -> bool {
    &&& res.0.printed == w.printed + t.writes
    &&& res.0.local_names == w.local_names
    &&& res.0.global_names == w.global_names
    &&& res.0.locals.len() == w.locals.len()
    &&& res.0.globals.len() == w.globals.len()
    &&& match res.1 {
        Ok(()) => t.stop is None && t.state == VmView {
            stack: s.stack,
            locals: res.0.locals,
            globals: res.0.globals,
            pc: end,
        },
        Err(x) => t.stop matches Some(Stop::Fault(f)) && f.rule == Some(x.rule) && f.line == x.line,
    }
}

/// Two pieces of code run one after the other.
proof fn lemma_ran_seq(
    c: ChunkView,
    s: VmView,
    fw: FloatWork,
    k1: nat,
    k2: nat,
    w: WalkView,
    mid: (WalkView, Result<(), crate::interp::InterpErrorView>),
    end1: int,
    res: (WalkView, Result<(), crate::interp::InterpErrorView>),
    end2: int,
)
    requires
        ran_to(run_vm(c, s, fw, k1), s, end1, w, mid),
        mid.1 is Ok,
        ran_to(run_vm(c, run_vm(c, s, fw, k1).state, fw, k2), run_vm(c, s, fw, k1).state, end2, mid.0, res),
    ensures
        ran_to(run_vm(c, s, fw, k1 + k2), s, end2, w, res),
{
    lemma_run_split(c, s, fw, k1, k2);
    let t1 = run_vm(c, s, fw, k1);
    let t2 = run_vm(c, t1.state, fw, k2);
    assert(w.printed + (t1.writes + t2.writes) =~= (w.printed + t1.writes) + t2.writes);
}

/// A piece of code that stopped stays stopped.
proof fn lemma_ran_stop(
    c: ChunkView,
    s: VmView,
    fw: FloatWork,
    k1: nat,
    k2: nat,
    w: WalkView,
    res: (WalkView, Result<(), crate::interp::InterpErrorView>),
    end: int,
    end2: int,
)
    requires
        ran_to(run_vm(c, s, fw, k1), s, end, w, res),
        res.1 is Err,
    ensures
        ran_to(run_vm(c, s, fw, k1 + k2), s, end2, w, res),
{
    lemma_run_split(c, s, fw, k1, k2);
}

proof fn lemma_step_branch(c: ChunkView, s: VmView, fw: FloatWork, t: u32, b: bool)
    requires
        0 <= s.pc < c.code.len(),
        c.code[s.pc] == Op::JumpIfFalse(t),
        s.stack.len() > 0,
        s.stack.last() == ValueView::Bool(b),
    ensures
        run_vm(c, s, fw, 1) == (Trace {
            state: VmView { stack: s.stack.drop_last(), pc: if b { s.pc + 1 } else { t as int }, ..s },
            writes: Seq::empty(),
            stop: None,
        }),
{
    reveal_with_fuel(run_vm, 2);
}

proof fn lemma_step_jump(c: ChunkView, s: VmView, fw: FloatWork, t: u32)
    requires
        0 <= s.pc < c.code.len(),
        c.code[s.pc] == Op::Jump(t),
    ensures
        run_vm(c, s, fw, 1) == (Trace { state: VmView { pc: t as int, ..s }, writes: Seq::empty(), stop: None }),
{
    reveal_with_fuel(run_vm, 2);
}

/// Picking among some arms is picking among all but the last, then, if none
/// was taken, trying the last.
proof fn lemma_pick_arm_last(fw: FloatWork, w: WalkView, arms: Seq<(TExprView, Seq<TStmtView>)>, line: u32, k: int)
    requires
        arms.len() > 0,
        0 <= k <= arms.len() - 1,
    ensures
        pick_arm(fw, w, arms, k, line) == match pick_arm(fw, w, arms.subrange(0, arms.len() - 1), k, line) {
            Ok(None) => pick_arm(fw, w, arms, arms.len() - 1, line),
            other => other,
        },
    decreases arms.len() - k,
{
    let init = arms.subrange(0, arms.len() - 1);
    if k < arms.len() - 1 {
        assert(init[k] == arms[k]);
        lemma_pick_arm_last(fw, w, arms, line, k + 1);
    }
}

} // verus!

verus! {

// ------------------------------------------------------------ statements

/// What the arms of an `if` emitted stands in chunk `c` from `from` on,
/// but for the jumps past the `if`, which are aimed at `q`.
pub open spec fn laid_arms(c: ChunkView, r: (Emitted, Seq<int>), from: int, q: u32) -> bool {
    &&& r.0.code.len() <= c.code.len()
    &&& r.0.lines.len() <= c.lines.len()
    &&& r.0.consts.len() <= c.consts.len()
    &&& forall|i: int| from <= i < r.0.code.len() && !r.1.contains(i) ==> #[trigger] c.code[i] == r.0.code[i]
    &&& forall|k: int| 0 <= k < r.1.len() ==> c.code[#[trigger] r.1[k]] == Op::Jump(q)
    &&& forall|i: int| from <= i < r.0.lines.len() ==> #[trigger] c.lines[i] == r.0.lines[i]
    &&& forall|i: int| 0 <= i < r.0.consts.len() ==> #[trigger] c.consts[i] == r.0.consts[i]
}

/// The machine and the walk agree on the arms of an `if`: on the arm the
/// walk picks, the machine runs that arm's body and ends at `q`; where no
/// condition holds, it ends just past the arms; on an error, both stop.
pub open spec fn arms_ran(
    c: ChunkView,
    s: VmView,
    fw: FloatWork,
    w: WalkView,
    arms: Seq<(TExprView, Seq<TStmtView>)>,
    line: u32,
    end: int,
    q: u32,
    lt: Seq<RtType>,
    gt: Seq<RtType>,
) -> bool {
    match pick_arm(fw, w, arms, 0, line) {
        Err(x) => exists|k: nat| #[trigger] ran_to(run_vm(c, s, fw, k), s, 0, w, (w, Err(x))),
        Ok(Some(j)) => {
            &&& 0 <= j < arms.len()
            &&& exists|k: nat| #[trigger] ran_to(run_vm(c, s, fw, k), s, q as int, w, run_block(fw, w, arms[j].1))
            &&& run_block(fw, w, arms[j].1).1 is Ok ==> slots_typed(run_block(fw, w, arms[j].1).0, lt, gt)
        },
        Ok(None) => exists|k: nat| #[trigger] ran_to(run_vm(c, s, fw, k), s, end, w, (w, Ok(()))),
    }
}

proof fn lemma_arms_runs(
    c: ChunkView,
    em: Emitted,
    arms: Seq<(TExprView, Seq<TStmtView>)>,
    total: nat,
    has_else: bool,
    line: u32,
    q: u32,
    fw: FloatWork,
    w: WalkView,
    s: VmView,
    lt: Seq<RtType>,
    gt: Seq<RtType>,
)
    requires
        laid_arms(c, emit_arms(em, arms, total, has_else, line), em.code.len() as int, q),
        arms.len() <= total,
        (arms.len() == total && !has_else) ==> q as int == emit_arms(em, arms, total, has_else, line).0.code.len(),
        em.lines.len() == em.code.len(),
        c.consts.len() <= u32::MAX,
        c.code.len() <= u32::MAX,
        s.pc == em.code.len(),
        in_step(s, w),
        slots_typed(w, lt, gt),
        typed_arms(arms, lt, gt),
        answers_in_kind(fw),
    ensures
        arms_ran(c, s, fw, w, arms, line, emit_arms(em, arms, total, has_else, line).0.code.len() as int, q, lt, gt),
    decreases arms, 0nat,
{
    let r = emit_arms(em, arms, total, has_else, line);
    lemma_emit_arms_grows(em, arms, total, has_else, line);
    if arms.len() == 0 {
        lemma_run_zero(c, s, fw);
        assert(w.printed + Seq::<ValueView>::empty() =~= w.printed);
        assert(ran_to(run_vm(c, s, fw, 0), s, r.0.code.len() as int, w, (w, Ok(()))));
    } else {
        let i = arms.len() - 1;
        let init = arms.subrange(0, i);
        let r0 = emit_arms(em, init, total, has_else, line);
        let em1 = r0.0;
        let t0 = r0.1;
        lemma_emit_arms_grows(em, init, total, has_else, line);
        let arm = arms[i];
        assert(decreases_to!(arms => arms[i]));
        assert(decreases_to!(arms[i] => arms[i].1));
        let em2 = emit_expr(em1, arm.0, line);
        lemma_expr_grows(em1, arm.0, line);
        let to_next = em2.code.len() as int;
        let ej = put_op(em2, Op::JumpIfFalse(u32::MAX), line);
        let em3 = emit_block(ej, arm.1);
        lemma_emit_block_grows(ej, arm.1);
        let more = i + 1 < total || has_else;
        let em4 = if more {
            put_op(em3, Op::Jump(u32::MAX), line)
        } else {
            em3
        };
        assert(r.0 == patch(em4, to_next, em4.code.len() as u32));
        assert(r.1 == if more {
            t0.push(em3.code.len() as int)
        } else {
            t0
        });
        lemma_grows_trans(em1, em2, ej);
        lemma_grows_trans(em1, ej, em3);
        lemma_grows_trans(em2, ej, em3);
        assert(grows(em3, em4));
        lemma_grows_trans(em1, em3, em4);
        lemma_grows_trans(em2, em3, em4);
        lemma_grows_trans(ej, em3, em4);
        assert(typed_arms(init, lt, gt));
        assert(texpr_type(arm.0) == RtType::Bool && typed_expr(arm.0, lt, gt) && typed_block(arm.1, lt, gt));
        let p = em.code.len() as int;
        // The earlier arms stand in the chunk as they were emitted.
        assert forall|x: int| p <= x < em1.code.len() && !t0.contains(x) implies #[trigger] c.code[x] == em1.code[x] by {
            assert(!r.1.contains(x));
            assert(r.0.code[x] == em4.code[x]);
        }
        assert forall|k: int| 0 <= k < t0.len() implies c.code[#[trigger] t0[k]] == Op::Jump(q) by {
            assert(r.1[k] == t0[k]);
        }
        assert forall|x: int| p <= x < em1.lines.len() implies #[trigger] c.lines[x] == em1.lines[x] by {
            assert(r.0.lines[x] == em4.lines[x]);
        }
        assert forall|x: int| 0 <= x < em1.consts.len() implies #[trigger] c.consts[x] == em1.consts[x] by {
            assert(r.0.consts[x] == em4.consts[x]);
        }
        assert(laid_arms(c, r0, p, q));
        lemma_arms_runs(c, em, init, total, has_else, line, q, fw, w, s, lt, gt);
        lemma_pick_arm_last(fw, w, arms, line, 0);
        match pick_arm(fw, w, init, 0, line) {
            Ok(None) => {
                let k0 = choose|k: nat| #[trigger] ran_to(run_vm(c, s, fw, k), s, em1.code.len() as int, w, (w, Ok(())));
                let s1 = run_vm(c, s, fw, k0).state;
                assert forall|x: int| em1.code.len() <= x < em2.code.len() implies #[trigger] c.code[x] == em2.code[x] by {
                    assert(!r.1.contains(x));
                    assert(r.0.code[x] == em4.code[x]);
                }
                assert forall|x: int| em1.code.len() <= x < em2.lines.len() implies #[trigger] c.lines[x] == em2.lines[x] by {
                    assert(r.0.lines[x] == em4.lines[x]);
                }
                assert forall|x: int| 0 <= x < em2.consts.len() implies #[trigger] c.consts[x] == em2.consts[x] by {
                    assert(r.0.consts[x] == em4.consts[x]);
                }
                assert(laid_from(c, em2, em1.code.len() as int));
                lemma_expr_runs(c, em1, arm.0, line, fw, w, s1, lt, gt);
                let kc = expr_size(arm.0);
                assert(pick_arm(fw, w, arms, i, line) == match evaluate(fw, w, arm.0, line) {
                    Ok(ValueView::Bool(taken)) => if taken {
                        Ok(Some(i))
                    } else {
                        pick_arm(fw, w, arms, i + 1, line)
                    },
                    Ok(_) => Err(
                        crate::interp::InterpErrorView {
                            rule: crate::rule::Rule::ConditionsAreBool,
                            message: "condition is not a bool"@,
                            line,
                        },
                    ),
                    Err(x) => Err(x),
                });
                match evaluate(fw, w, arm.0, line) {
                    Err(x) => {
                        lemma_run_split(c, s1, fw, kc, 0);
                        assert(ran_to(run_vm(c, s1, fw, kc), s1, 0, w, (w, Err(x))));
                        lemma_ran_seq(c, s, fw, k0, kc, w, (w, Ok(())), em1.code.len() as int, (w, Err(x)), 0);
                    },
                    Ok(v) => {
                        let b = v->Bool_0;
                        let s2 = VmView { stack: s1.stack.push(v), pc: to_next, ..s1 };
                        assert(!r.1.contains(to_next));
                        assert(c.code[to_next] == Op::JumpIfFalse(em4.code.len() as u32));
                        lemma_step_branch(c, s2, fw, em4.code.len() as u32, b);
                        lemma_run_split(c, s1, fw, kc, 1);
                        assert(s2.stack.drop_last() =~= s1.stack);
                        assert(w.printed + Seq::<ValueView>::empty() =~= w.printed);
                        if !b {
                            assert(pick_arm(fw, w, arms, i + 1, line) == Ok::<Option<int>, crate::interp::InterpErrorView>(None));
                            assert(ran_to(run_vm(c, s1, fw, kc + 1), s1, r.0.code.len() as int, w, (w, Ok(()))));
                            lemma_ran_seq(
                                c,
                                s,
                                fw,
                                k0,
                                kc + 1,
                                w,
                                (w, Ok(())),
                                em1.code.len() as int,
                                (w, Ok(())),
                                r.0.code.len() as int,
                            );
                        } else {
                            let jl = ej.code.len() as int;
                            assert(ran_to(run_vm(c, s1, fw, kc + 1), s1, jl, w, (w, Ok(()))));
                            lemma_ran_seq(c, s, fw, k0, kc + 1, w, (w, Ok(())), em1.code.len() as int, (w, Ok(())), jl);
                            let ka = (k0 + kc + 1) as nat;
                            let s3 = run_vm(c, s, fw, ka).state;
                            assert forall|x: int| jl <= x < em3.code.len() implies #[trigger] c.code[x] == em3.code[x] by {
                                assert(!r.1.contains(x));
                                assert(r.0.code[x] == em4.code[x]);
                            }
                            assert forall|x: int| jl <= x < em3.lines.len() implies #[trigger] c.lines[x] == em3.lines[x] by {
                                assert(r.0.lines[x] == em4.lines[x]);
                            }
                            assert forall|x: int| 0 <= x < em3.consts.len() implies #[trigger] c.consts[x] == em3.consts[x] by {
                                assert(r.0.consts[x] == em4.consts[x]);
                            }
                            lemma_block_runs(c, ej, arm.1, fw, w, s3, lt, gt);
                            let rb = run_block(fw, w, arm.1);
                            let kb = choose|k: nat| #[trigger] ran_to(run_vm(c, s3, fw, k), s3, em3.code.len() as int, w, rb);
                            if rb.1 is Ok {
                                if more {
                                    let s4 = run_vm(c, s3, fw, kb).state;
                                    assert(r.1.contains(em3.code.len() as int)) by {
                                        assert(r.1[r.1.len() - 1] == em3.code.len() as int);
                                    }
                                    let kk = choose|kk: int| 0 <= kk < r.1.len() && r.1[kk] == em3.code.len() as int;
                                    assert(c.code[em3.code.len() as int] == Op::Jump(q));
                                    lemma_step_jump(c, s4, fw, q);
                                    assert(rb.0.printed + Seq::<ValueView>::empty() =~= rb.0.printed);
                                    assert(ran_to(run_vm(c, s4, fw, 1), s4, q as int, rb.0, (rb.0, Ok(()))));
                                    lemma_ran_seq(c, s3, fw, kb, 1, w, rb, em3.code.len() as int, (rb.0, Ok(())), q as int);
                                    lemma_ran_seq(c, s, fw, ka, kb + 1, w, (w, Ok(())), jl, rb, q as int);
                                } else {
                                    lemma_ran_seq(c, s, fw, ka, kb, w, (w, Ok(())), jl, rb, q as int);
                                }
                            } else {
                                lemma_ran_stop(c, s3, fw, kb, 0, w, rb, em3.code.len() as int, q as int);
                                lemma_ran_seq(c, s, fw, ka, kb, w, (w, Ok(())), jl, rb, q as int);
                            }
                        }
                    },
                }
            },
            Ok(Some(j)) => {
                assert(init[j] == arms[j]);
            },
            Err(x) => {},
        }
    }
}

proof fn lemma_stmt_runs(
    c: ChunkView,
    em: Emitted,
    st: TStmtView,
    fw: FloatWork,
    w: WalkView,
    s: VmView,
    lt: Seq<RtType>,
    gt: Seq<RtType>,
)
    requires
        laid_from(c, emit_stmt(em, st), em.code.len() as int),
        em.lines.len() == em.code.len(),
        c.consts.len() <= u32::MAX,
        c.code.len() <= u32::MAX,
        s.pc == em.code.len(),
        in_step(s, w),
        slots_typed(w, lt, gt),
        typed_stmt(st, lt, gt),
        answers_in_kind(fw),
    ensures
        exists|k: nat|
            #[trigger] ran_to(run_vm(c, s, fw, k), s, emit_stmt(em, st).code.len() as int, w, run_stmt(fw, w, st)),
        run_stmt(fw, w, st).1 is Ok ==> slots_typed(run_stmt(fw, w, st).0, lt, gt),
    decreases st, 1nat,
{
    let p = em.code.len() as int;
    match st {
        TStmtView::Store { place, value, line } => {
            lemma_expr_grows(em, value, line);
            let em1 = emit_expr(em, value, line);
            lemma_laid_sub(c, em1, emit_stmt(em, st), p, p);
            lemma_expr_runs(c, em, value, line, fw, w, s, lt, gt);
            let k1 = expr_size(value);
            lemma_run_split(c, s, fw, k1, 1);
            assert(w.printed + Seq::<ValueView>::empty() =~= w.printed);
            if let Ok(v) = evaluate(fw, w, value, line) {
                let s1 = VmView { stack: s.stack.push(v), pc: s.pc + k1, ..s };
                assert(c.code[s1.pc] == store_op(place));
                lemma_step_store(c, s1, fw, place, v);
                assert(s1.stack.drop_last() =~= s.stack);
                let w1 = store(w, place, v);
                assert forall|i: int| 0 <= i < lt.len() && #[trigger] w1.locals[i] is Some implies of_kind(
                    w1.locals[i]->0,
                    lt[i],
                ) by {
                    if (place matches Place::Local(n) && n == i) {
                    } else {
                        assert(w1.locals[i] == w.locals[i]);
                    }
                }
                assert forall|i: int| 0 <= i < gt.len() && #[trigger] w1.globals[i] is Some implies of_kind(
                    w1.globals[i]->0,
                    gt[i],
                ) by {
                    if (place matches Place::Global(n) && n == i) {
                    } else {
                        assert(w1.globals[i] == w.globals[i]);
                    }
                }
                assert(ran_to(run_vm(c, s, fw, k1 + 1), s, emit_stmt(em, st).code.len() as int, w, run_stmt(fw, w, st)));
            } else {
                assert(ran_to(run_vm(c, s, fw, k1 + 1), s, emit_stmt(em, st).code.len() as int, w, run_stmt(fw, w, st)));
            }
        },
        TStmtView::Print { items, line } => {
            lemma_items_runs(c, em, items, line, fw, w, s, lt, gt);
            lemma_items_grows(em, items, line);
            let k = items_size(items);
            assert(ran_to(run_vm(c, s, fw, k), s, emit_stmt(em, st).code.len() as int, w, run_stmt(fw, w, st)));
        },
        TStmtView::If { arms, else_arm, line } => {
            let has_else = else_arm.len() > 0;
            let r = emit_arms(em, arms, arms.len(), has_else, line);
            let em1 = r.0;
            let to_end = r.1;
            lemma_emit_arms_grows(em, arms, arms.len(), has_else, line);
            let em2 = emit_block(em1, else_arm);
            lemma_emit_block_grows(em1, else_arm);
            let q = em2.code.len() as u32;
            let e = emit_stmt(em, st);
            assert(e == patch_all(em2, to_end, q));
            assert forall|k: int| 0 <= k < to_end.len() implies 0 <= #[trigger] to_end[k] < em2.code.len() && em2.code[to_end[k]] is Jump by {
                assert(em2.code[to_end[k]] == em1.code[to_end[k]]);
            }
            lemma_patch_all(em2, to_end, q);
            assert(q as int == em2.code.len());
            assert forall|x: int| p <= x < em1.code.len() && !to_end.contains(x) implies #[trigger] c.code[x] == em1.code[x] by {
                assert(e.code[x] == em2.code[x]);
                assert(em2.code[x] == em1.code[x]);
            }
            assert forall|x: int| p <= x < em1.lines.len() implies #[trigger] c.lines[x] == em1.lines[x] by {
                assert(em2.lines[x] == em1.lines[x]);
            }
            assert forall|x: int| 0 <= x < em1.consts.len() implies #[trigger] c.consts[x] == em1.consts[x] by {
                assert(em2.consts[x] == em1.consts[x]);
            }
            assert(laid_arms(c, r, p, q));
            lemma_arms_runs(c, em, arms, arms.len(), has_else, line, q, fw, w, s, lt, gt);
            match pick_arm(fw, w, arms, 0, line) {
                Ok(None) => {
                    let k0 = choose|k: nat| #[trigger] ran_to(run_vm(c, s, fw, k), s, em1.code.len() as int, w, (w, Ok(())));
                    let s1 = run_vm(c, s, fw, k0).state;
                    assert forall|x: int| em1.code.len() <= x < em2.code.len() implies #[trigger] c.code[x] == em2.code[x] by {
                        if to_end.contains(x) {
                            let kk = choose|kk: int| 0 <= kk < to_end.len() && to_end[kk] == x;
                        }
                        assert(e.code[x] == em2.code[x]);
                    }
                    assert(laid_from(c, em2, em1.code.len() as int));
                    assert(decreases_to!(st => else_arm));
                    lemma_block_runs(c, em1, else_arm, fw, w, s1, lt, gt);
                    let rb = run_block(fw, w, else_arm);
                    let kb = choose|k: nat| #[trigger] ran_to(run_vm(c, s1, fw, k), s1, em2.code.len() as int, w, rb);
                    lemma_ran_seq(c, s, fw, k0, kb, w, (w, Ok(())), em1.code.len() as int, rb, em2.code.len() as int);
                },
                Ok(Some(j)) => {},
                Err(x) => {
                    let k0 = choose|k: nat| #[trigger] ran_to(run_vm(c, s, fw, k), s, 0, w, (w, Err(x)));
                    assert(ran_to(run_vm(c, s, fw, k0), s, e.code.len() as int, w, run_stmt(fw, w, st)));
                },
            }
        },
    }
}

proof fn lemma_block_runs(
    c: ChunkView,
    em: Emitted,
    v: Seq<TStmtView>,
    fw: FloatWork,
    w: WalkView,
    s: VmView,
    lt: Seq<RtType>,
    gt: Seq<RtType>,
)
    requires
        laid_from(c, emit_block(em, v), em.code.len() as int),
        em.lines.len() == em.code.len(),
        c.consts.len() <= u32::MAX,
        c.code.len() <= u32::MAX,
        s.pc == em.code.len(),
        in_step(s, w),
        slots_typed(w, lt, gt),
        typed_block(v, lt, gt),
        answers_in_kind(fw),
    ensures
        exists|k: nat| #[trigger] ran_to(run_vm(c, s, fw, k), s, emit_block(em, v).code.len() as int, w, run_block(fw, w, v)),
        run_block(fw, w, v).1 is Ok ==> slots_typed(run_block(fw, w, v).0, lt, gt),
    decreases v, 0nat,
{
    reveal_with_fuel(run_block, 1);
    if v.len() == 0 {
        lemma_run_zero(c, s, fw);
        assert(w.printed + Seq::<ValueView>::empty() =~= w.printed);
        assert(ran_to(run_vm(c, s, fw, 0), s, emit_block(em, v).code.len() as int, w, run_block(fw, w, v)));
    } else {
        let n = v.len();
        let init = v.subrange(0, n - 1);
        let last = v[n - 1];
        let p = em.code.len() as int;
        lemma_emit_block_grows(em, init);
        let em1 = emit_block(em, init);
        lemma_emit_stmt_grows(em1, last);
        let e = emit_block(em, v);
        lemma_laid_sub(c, em1, e, p, p);
        lemma_laid_sub(c, e, e, p, em1.code.len() as int);
        assert(init =~= v.drop_last());
        lemma_run_block_last(fw, w, v);
        lemma_block_runs(c, em, init, fw, w, s, lt, gt);
        let (w1, r) = run_block(fw, w, init);
        let ka = choose|k: nat| #[trigger] ran_to(run_vm(c, s, fw, k), s, em1.code.len() as int, w, (w1, r));
        if r is Ok {
            let sa = run_vm(c, s, fw, ka).state;
            lemma_stmt_runs(c, em1, last, fw, w1, sa, lt, gt);
            let rs = run_stmt(fw, w1, last);
            let kb = choose|k: nat| #[trigger] ran_to(run_vm(c, sa, fw, k), sa, e.code.len() as int, w1, rs);
            lemma_ran_seq(c, s, fw, ka, kb, w, (w1, r), em1.code.len() as int, rs, e.code.len() as int);
        } else {
            assert(ran_to(run_vm(c, s, fw, ka), s, e.code.len() as int, w, run_block(fw, w, v)));
        }
    }
}

} // verus!

verus! {

// ------------------------------------------------------------------ the law

/// The types of a program's globals.
pub open spec fn global_types(checked: Checked) -> Seq<RtType> {
    checked.globals@.map_values(|g: (String, RtType, bool)| g.1)
}

/// The chunk a checked program lowers to, from source `source`.
pub open spec fn lowered_program(checked: Checked, source: Seq<char>) -> ChunkView {
    lowered(
        source,
        tstmts_view(checked.stmts@),
        checked.locals@.map_values(|n: String| n@),
        checked.globals@.map_values(|g: (String, RtType, bool)| (g.0@, g.1, g.2)),
    )
}

/// After `n` steps from the start, the machine running the lowered program
/// has written what the interpreter prints, and has halted where the
/// interpreter succeeds, or faulted citing the interpreter's rule and line.
pub open spec fn machine_agrees(checked: Checked, source: Seq<char>, fw: FloatWork, n: nat) -> bool {
    let c = lowered_program(checked, source);
    let (w, out) = run_block(fw, fresh(checked), tstmts_view(checked.stmts@));
    let t = run_vm(c, start(c), fw, n);
    &&& t.writes == w.printed
    &&& match out {
        Ok(()) => t.stop == Some(Stop::Done),
        Err(x) => t.stop matches Some(Stop::Fault(f)) && f.rule == Some(x.rule) && f.line == x.line,
    }
}

/// The compiled path and the interpreter agree. Take a well-typed checked
/// program, with `lt` the types of its slots, whose code fits the format,
/// and any float work that answers in kind. Lowered to bytecode and run by
/// the machine with that float work, it writes exactly what the interpreter
/// walking the tree prints; where the interpreter succeeds the machine
/// halts, and where the interpreter stops on an error the machine faults
/// citing the same rule at the same line. The chunk read back from its
/// encoded form is the same chunk, so it runs the same way.
pub proof fn lemma_compiled_agrees_with_interpreted(checked: Checked, source: Seq<char>, lt: Seq<RtType>, fw: FloatWork)
    requires
        typed_block(tstmts_view(checked.stmts@), lt, global_types(checked)),
        lt.len() == checked.locals.len(),
        answers_in_kind(fw),
        program_size(checked) + 1 < u32::MAX,
    ensures
        exists|n: nat| #[trigger] machine_agrees(checked, source, fw, n),
        (encodable(lowered_program(checked, source)) && chunk_bytes(lowered_program(checked, source)).len()
            <= usize::MAX) ==> decode_chunk(chunk_bytes(lowered_program(checked, source))) == Ok::<
            ChunkView,
            DecodeFailure,
        >(lowered_program(checked, source)),
{
    let v = tstmts_view(checked.stmts@);
    let c = lowered_program(checked, source);
    let gt = global_types(checked);
    let em0 = Emitted { consts: Seq::empty(), code: Seq::empty(), lines: Seq::empty() };
    let em = emit_block(em0, v);
    lemma_emit_block_grows(em0, v);
    assert(laid_from(c, em, 0));
    let w0 = fresh(checked);
    let s0 = start(c);
    assert(s0.locals =~= w0.locals);
    assert(s0.globals =~= w0.globals);
    assert(slots_typed(w0, lt, gt));
    lemma_block_runs(c, em0, v, fw, w0, s0, lt, gt);
    let (w, out) = run_block(fw, w0, v);
    let k = choose|k: nat| #[trigger] ran_to(run_vm(c, s0, fw, k), s0, em.code.len() as int, w0, (w, out));
    let ta = run_vm(c, s0, fw, k);
    assert(w0.printed + ta.writes =~= ta.writes);
    lemma_run_split(c, s0, fw, k, 1);
    if out is Ok {
        assert(c.code[em.code.len() as int] == Op::Halt);
        lemma_step_halt(c, ta.state, fw);
        assert(ta.writes + Seq::<ValueView>::empty() =~= ta.writes);
        assert(run_vm(c, start(c), fw, k + 1).writes == w.printed);
    } else {
        assert(run_vm(c, start(c), fw, k + 1).writes == w.printed);
    }
    assert(machine_agrees(checked, source, fw, k + 1));
    if encodable(c) && chunk_bytes(c).len() <= usize::MAX {
        lemma_round_trip(c);
    }
}

} // verus!
