//! Lowering the checked program to bytecode.
//!
//! By this point every type is known, so lowering is a straight post-order
//! walk: there is nothing left to decide.
use vstd::prelude::*;

use crate::bytecode::chunk::{first_equal, retarget, Chunk, ChunkView, Const, ConstView, GlobalInfo};
use crate::bytecode::op::Op;
use crate::bytecode::value::RtType;
use crate::compile::typeck::{
    arms_view, texpr_type, texpr_view, texprs_view, tstmt_view, tstmts_view, Checked, Place, TExpr, TExprView,
    TIfArm, TStmt, TStmtView,
};
use crate::syntax::ast::BinOp;

verus! {

/// What emission has produced so far: the constant pool, the instructions
/// and the line of each instruction.
pub struct Emitted {
    pub consts: Seq<ConstView>,
    pub code: Seq<Op>,
    pub lines: Seq<u32>,
}

pub open spec fn emitted(c: ChunkView) -> Emitted {
    Emitted { consts: c.consts, code: c.code, lines: c.lines }
}

/// A constant added to the pool, reusing an equal entry; and its index.
pub open spec fn put_const(em: Emitted, c: ConstView) -> (Emitted, u32) {
    match first_equal(em.consts, c) {
        Some(i) => (em, i as u32),
        None => (Emitted { consts: em.consts.push(c), ..em }, em.consts.len() as u32),
    }
}

/// One instruction appended, with its line.
pub open spec fn put_op(em: Emitted, op: Op, line: u32) -> Emitted {
    Emitted { code: em.code.push(op), lines: em.lines.push(line), ..em }
}

/// The jump at `at` pointed at `target`.
pub open spec fn patch(em: Emitted, at: int, target: u32) -> Emitted {
    Emitted { code: em.code.update(at, retarget(em.code[at], target)), ..em }
}

/// The instruction for a binary operator at a type.
pub open spec fn bin_op(op: BinOp, t: RtType) -> Op {
    match op {
        BinOp::Add => Op::Add(t),
        BinOp::Sub => Op::Sub(t),
        BinOp::Mul => Op::Mul(t),
        BinOp::Div => Op::Div(t),
        BinOp::Rem => Op::Rem(t),
        BinOp::Eq => Op::Eq(t),
        BinOp::Ne => Op::Ne(t),
        BinOp::Lt => Op::Lt(t),
        BinOp::Le => Op::Le(t),
        BinOp::Gt => Op::Gt(t),
        BinOp::Ge => Op::Ge(t),
    }
}

/// The instruction that stores into a place.
pub open spec fn store_op(p: Place) -> Op {
    match p {
        Place::Local(slot) => Op::StoreLocal(slot),
        Place::Global(idx) => Op::StoreGlobal(idx),
    }
}

/// An expression's code: operands first, then the operation.
pub open spec fn emit_expr(em: Emitted, e: TExprView, line: u32) -> Emitted
    decreases e,
{
    match e {
        TExprView::Const(c, _) => {
            let (em1, k) = put_const(em, c);
            put_op(em1, Op::Const(k), line)
        },
        TExprView::Load(Place::Local(slot), _) => put_op(em, Op::LoadLocal(slot), line),
        TExprView::Load(Place::Global(idx), _) => put_op(em, Op::LoadGlobal(idx), line),
        TExprView::Neg(inner, t) => put_op(emit_expr(em, *inner, line), Op::Neg(t), line),
        TExprView::Bin { op, operand_ty, lhs, rhs, .. } => put_op(
            emit_expr(emit_expr(em, *lhs, line), *rhs, line),
            bin_op(op, operand_ty),
            line,
        ),
    }
}

/// A print list's code: each item, then a write of it at its own type.
/// Writing the items in order gives exactly what concatenating them first
/// would.
pub open spec fn emit_items(em: Emitted, items: Seq<TExprView>, line: u32) -> Emitted
    decreases items.len(),
{
    if items.len() == 0 {
        em
    } else {
        let last = items[items.len() - 1];
        put_op(
            emit_expr(emit_items(em, items.subrange(0, items.len() - 1), line), last, line),
            Op::Write(texpr_type(last)),
            line,
        )
    }
}

/// A statement's code.
pub open spec fn emit_stmt(em: Emitted, s: TStmtView) -> Emitted
    decreases s, 1nat,
{
    match s {
        TStmtView::Store { place, value, line } => put_op(emit_expr(em, value, line), store_op(place), line),
        TStmtView::Print { items, line } => emit_items(em, items, line),
        TStmtView::If { arms, else_arm, line } => {
            let (em1, to_end) = emit_arms(em, arms, arms.len(), else_arm.len() > 0, line);
            let em2 = emit_block(em1, else_arm);
            patch_all(em2, to_end, em2.code.len() as u32)
        },
    }
}

/// The arms of an `if`, in order. Each tests its condition and jumps past
/// its body when the condition is false; each but a last one with nothing
/// after it then jumps clear of the rest. The jumps past a body are aimed as
/// soon as the body is done; the jumps clear of the rest come back with
/// where they stand, to be aimed at the end.
pub open spec fn emit_arms(
    em: Emitted,
    arms: Seq<(TExprView, Seq<TStmtView>)>,
    total: nat,
    has_else: bool,
    line: u32,
) -> (Emitted, Seq<int>)
    decreases arms, 0nat,
{
    if arms.len() == 0 {
        (em, Seq::empty())
    } else {
        let i = arms.len() - 1;
        let (em1, to_end) = emit_arms(em, arms.subrange(0, i), total, has_else, line);
        let arm = arms[i];
        let em2 = emit_expr(em1, arm.0, line);
        let to_next = em2.code.len() as int;
        let em3 = emit_block(put_op(em2, Op::JumpIfFalse(u32::MAX), line), arm.1);
        let more_follows = i + 1 < total || has_else;
        let (em4, to_end2) = if more_follows {
            (put_op(em3, Op::Jump(u32::MAX), line), to_end.push(em3.code.len() as int))
        } else {
            (em3, to_end)
        };
        (patch(em4, to_next, em4.code.len() as u32), to_end2)
    }
}

/// Every jump in `at` aimed at `target`.
pub open spec fn patch_all(em: Emitted, at: Seq<int>, target: u32) -> Emitted
    decreases at.len(),
{
    if at.len() == 0 {
        em
    } else {
        patch(patch_all(em, at.subrange(0, at.len() - 1), target), at[at.len() - 1], target)
    }
}

/// A run of statements' code, in order.
pub open spec fn emit_block(em: Emitted, v: Seq<TStmtView>) -> Emitted
    decreases v, 0nat,
{
    if v.len() == 0 {
        em
    } else {
        emit_stmt(emit_block(em, v.subrange(0, v.len() - 1)), v[v.len() - 1])
    }
}

// ------------------------------------------------------------------ sizes

/// How many instructions an expression's code takes.
pub open spec fn expr_size(e: TExprView) -> nat
    decreases e,
{
    match e {
        TExprView::Const(..) => 1,
        TExprView::Load(..) => 1,
        TExprView::Neg(inner, _) => expr_size(*inner) + 1,
        TExprView::Bin { lhs, rhs, .. } => expr_size(*lhs) + expr_size(*rhs) + 1,
    }
}

pub open spec fn items_size(items: Seq<TExprView>) -> nat
    decreases items.len(),
{
    if items.len() == 0 {
        0
    } else {
        items_size(items.subrange(0, items.len() - 1)) + expr_size(items[items.len() - 1]) + 1
    }
}

/// How many instructions a statement's code takes, at most.
pub open spec fn stmt_size(s: TStmtView) -> nat
    decreases s, 1nat,
{
    match s {
        TStmtView::Store { value, .. } => expr_size(value) + 1,
        TStmtView::Print { items, .. } => items_size(items),
        TStmtView::If { arms, else_arm, .. } => arms_size(arms) + block_size(else_arm),
    }
}

pub open spec fn arms_size(arms: Seq<(TExprView, Seq<TStmtView>)>) -> nat
    decreases arms, 0nat,
{
    if arms.len() == 0 {
        0
    } else {
        let arm = arms[arms.len() - 1];
        arms_size(arms.subrange(0, arms.len() - 1)) + expr_size(arm.0) + block_size(arm.1) + 2
    }
}

pub open spec fn block_size(v: Seq<TStmtView>) -> nat
    decreases v, 0nat,
{
    if v.len() == 0 {
        0
    } else {
        block_size(v.subrange(0, v.len() - 1)) + stmt_size(v[v.len() - 1])
    }
}

/// What any emission keeps: the code before it, untouched, with the lines
/// running alongside the code, and no more constants than instructions.
pub open spec fn extends(old: Emitted, new: Emitted) -> bool {
    &&& new.code.len() >= old.code.len()
    &&& new.code.subrange(0, old.code.len() as int) == old.code
    &&& new.lines.len() == new.code.len()
    &&& new.consts.len() <= new.code.len()
}

// ------------------------------------------------------------------- code

/// A copy of a constant.
fn copy_const(c: &Const) -> (r: Const)
    ensures
        r@ == c@,
{
    match c {
        Const::Int(v) => Const::Int(*v),
        Const::Uint(v) => Const::Uint(*v),
        Const::F16(b) => Const::F16(*b),
        Const::F32(b) => Const::F32(*b),
        Const::F64(b) => Const::F64(*b),
        Const::Bool(b) => Const::Bool(*b),
        Const::Str(s) => Const::Str(s.clone()),
        Const::Nil => Const::Nil,
    }
}

/// Append one instruction.
fn put(chunk: &mut Chunk, op: Op, line: u32) -> (r: usize)
    requires
        old(chunk)@.code.len() + 1 < u32::MAX,
        old(chunk)@.lines.len() == old(chunk)@.code.len(),
        old(chunk)@.consts.len() <= old(chunk)@.code.len() + 1,
    ensures
        r == old(chunk)@.code.len(),
        emitted(final(chunk)@) == put_op(emitted(old(chunk)@), op, line),
        final(chunk)@.code.len() == old(chunk)@.code.len() + 1,
        final(chunk)@.code.subrange(0, old(chunk)@.code.len() as int) == old(chunk)@.code,
        final(chunk)@.lines.len() == final(chunk)@.code.len(),
        final(chunk)@.consts.len() <= final(chunk)@.code.len(),
        final(chunk)@.source == old(chunk)@.source,
        final(chunk)@.locals == old(chunk)@.locals,
        final(chunk)@.globals == old(chunk)@.globals,
        final(chunk)@.local_names == old(chunk)@.local_names,
{
    let r = chunk.emit(op, line);
    proof {
        assert(chunk@.code.subrange(0, old(chunk)@.code.len() as int) =~= old(chunk)@.code);
    }
    r
}

/// Emit an expression's code.
fn emit_expr_code(chunk: &mut Chunk, e: &TExpr, line: u32)
    requires
        old(chunk)@.code.len() + expr_size(texpr_view(*e)) < u32::MAX,
        old(chunk)@.lines.len() == old(chunk)@.code.len(),
        old(chunk)@.consts.len() <= old(chunk)@.code.len(),
    ensures
        emitted(final(chunk)@) == emit_expr(emitted(old(chunk)@), texpr_view(*e), line),
        extends(emitted(old(chunk)@), emitted(final(chunk)@)),
        final(chunk)@.code.len() == old(chunk)@.code.len() + expr_size(texpr_view(*e)),
        final(chunk)@.source == old(chunk)@.source,
        final(chunk)@.locals == old(chunk)@.locals,
        final(chunk)@.globals == old(chunk)@.globals,
        final(chunk)@.local_names == old(chunk)@.local_names,
    decreases e,
{
    match e {
        TExpr::Const(c, _) => {
            let k = chunk.add_const(copy_const(c));
            put(chunk, Op::Const(k), line);
        },
        TExpr::Load(Place::Local(slot), _) => {
            put(chunk, Op::LoadLocal(*slot), line);
        },
        TExpr::Load(Place::Global(idx), _) => {
            put(chunk, Op::LoadGlobal(*idx), line);
        },
        TExpr::Neg(inner, ty) => {
            emit_expr_code(chunk, inner, line);
            put(chunk, Op::Neg(*ty), line);
        },
        TExpr::Bin { op, operand_ty, lhs, rhs, .. } => {
            emit_expr_code(chunk, lhs, line);
            emit_expr_code(chunk, rhs, line);
            let t = *operand_ty;
            let instr = match op {
                BinOp::Add => Op::Add(t),
                BinOp::Sub => Op::Sub(t),
                BinOp::Mul => Op::Mul(t),
                BinOp::Div => Op::Div(t),
                BinOp::Rem => Op::Rem(t),
                BinOp::Eq => Op::Eq(t),
                BinOp::Ne => Op::Ne(t),
                BinOp::Lt => Op::Lt(t),
                BinOp::Le => Op::Le(t),
                BinOp::Gt => Op::Gt(t),
                BinOp::Ge => Op::Ge(t),
            };
            put(chunk, instr, line);
        },
    }
    proof {
        let o = emitted(old(chunk)@);
        let n = emitted(chunk@);
        assert(n.code.subrange(0, o.code.len() as int) =~= o.code);
    }
}

/// Positions as plain integers.
pub open spec fn positions(v: Seq<usize>) -> Seq<int> {
    v.map_values(|u: usize| u as int)
}

/// The jumps at `at` all stand in `code` and are plain jumps.
pub open spec fn pending_jumps(code: Seq<Op>, at: Seq<int>) -> bool {
    forall|k: int| 0 <= k < at.len() ==> 0 <= #[trigger] at[k] < code.len() && code[at[k]] is Jump
}

/// The fields a chunk's code emission leaves alone.
pub open spec fn same_frame(a: ChunkView, b: ChunkView) -> bool {
    &&& a.source == b.source
    &&& a.locals == b.locals
    &&& a.globals == b.globals
    &&& a.local_names == b.local_names
}

/// Emit a statement's code.
fn emit_stmt_code(chunk: &mut Chunk, s: &TStmt)
    requires
        old(chunk)@.code.len() + stmt_size(tstmt_view(*s)) < u32::MAX,
        old(chunk)@.lines.len() == old(chunk)@.code.len(),
        old(chunk)@.consts.len() <= old(chunk)@.code.len(),
    ensures
        emitted(final(chunk)@) == emit_stmt(emitted(old(chunk)@), tstmt_view(*s)),
        extends(emitted(old(chunk)@), emitted(final(chunk)@)),
        final(chunk)@.code.len() <= old(chunk)@.code.len() + stmt_size(tstmt_view(*s)),
        same_frame(old(chunk)@, final(chunk)@),
    decreases *s, 1nat,
{
    match s {
        TStmt::Store { place, value, line } => {
            emit_expr_code(chunk, value, *line);
            let op = match place {
                Place::Local(slot) => Op::StoreLocal(*slot),
                Place::Global(idx) => Op::StoreGlobal(*idx),
            };
            put(chunk, op, *line);
            proof {
                assert(emitted(chunk@).code.subrange(0, old(chunk)@.code.len() as int) =~= old(chunk)@.code);
            }
        },
        TStmt::Print { items, line } => {
            emit_items_code(chunk, items, *line);
        },
        TStmt::If { arms, else_arm, line } => {
            emit_if_code(chunk, s);
        },
    }
}

/// Emit a print list's code.
fn emit_items_code(chunk: &mut Chunk, items: &Vec<TExpr>, line: u32)
    requires
        old(chunk)@.code.len() + items_size(texprs_view(items@)) < u32::MAX,
        old(chunk)@.lines.len() == old(chunk)@.code.len(),
        old(chunk)@.consts.len() <= old(chunk)@.code.len(),
    ensures
        emitted(final(chunk)@) == emit_items(emitted(old(chunk)@), texprs_view(items@), line),
        extends(emitted(old(chunk)@), emitted(final(chunk)@)),
        final(chunk)@.code.len() == old(chunk)@.code.len() + items_size(texprs_view(items@)),
        same_frame(old(chunk)@, final(chunk)@),
{
    let ghost all = texprs_view(items@);
    let mut i: usize = 0;
    proof {
        assert(all.subrange(0, 0) =~= Seq::<TExprView>::empty());
        assert(emitted(chunk@).code.subrange(0, old(chunk)@.code.len() as int) =~= old(chunk)@.code);
    }
    while i < items.len()
        invariant
            i <= items@.len(),
            all == texprs_view(items@),
            all.len() == items@.len(),
            emitted(chunk@) == emit_items(emitted(old(chunk)@), all.subrange(0, i as int), line),
            extends(emitted(old(chunk)@), emitted(chunk@)),
            chunk@.code.len() == old(chunk)@.code.len() + items_size(all.subrange(0, i as int)),
            old(chunk)@.code.len() + items_size(all) < u32::MAX,
            same_frame(old(chunk)@, chunk@),
        decreases items@.len() - i,
    {
        proof {
            let next = all.subrange(0, i + 1);
            assert(next.subrange(0, i as int) =~= all.subrange(0, i as int));
            assert(next[i as int] == texpr_view(items@[i as int]));
            lemma_items_size_prefix(all, i + 1);
        }
        emit_expr_code(chunk, &items[i], line);
        let ty = items[i].ty();
        put(chunk, Op::Write(ty), line);
        proof {
            assert(emitted(chunk@).code.subrange(0, old(chunk)@.code.len() as int) =~= old(chunk)@.code);
        }
        i = i + 1;
    }
    proof {
        assert(all.subrange(0, all.len() as int) =~= all);
    }
}

/// A prefix of a print list takes no more room than the whole.
proof fn lemma_items_size_prefix(all: Seq<TExprView>, k: int)
    requires
        0 <= k <= all.len(),
    ensures
        items_size(all.subrange(0, k)) <= items_size(all),
    decreases all.len() - k,
{
    if k < all.len() {
        lemma_items_size_prefix(all, k + 1);
        assert(all.subrange(0, k + 1).subrange(0, k) =~= all.subrange(0, k));
    } else {
        assert(all.subrange(0, k) =~= all);
    }
}

proof fn lemma_tstmts_view_len(v: Seq<TStmt>)
    ensures
        tstmts_view(v).len() == v.len(),
    decreases v.len(),
{
    if v.len() > 0 {
        lemma_tstmts_view_len(v.subrange(0, v.len() - 1));
    }
}

proof fn lemma_tstmts_view_step(v: Seq<TStmt>, i: int)
    requires
        0 <= i < v.len(),
    ensures
        tstmts_view(v.subrange(0, i + 1)) == tstmts_view(v.subrange(0, i)).push(tstmt_view(v[i])),
{
    assert(v.subrange(0, i + 1).subrange(0, i) =~= v.subrange(0, i));
}

proof fn lemma_arms_view_step(v: Seq<TIfArm>, i: int)
    requires
        0 <= i < v.len(),
    ensures
        arms_view(v.subrange(0, i + 1)) == arms_view(v.subrange(0, i)).push(
            (texpr_view(v[i].cond), tstmts_view(v[i].body@)),
        ),
{
    assert(v.subrange(0, i + 1).subrange(0, i) =~= v.subrange(0, i));
}

proof fn lemma_arms_size_prefix(v: Seq<TIfArm>, k: int)
    requires
        0 <= k <= v.len(),
    ensures
        arms_size(arms_view(v.subrange(0, k))) <= arms_size(arms_view(v)),
    decreases v.len() - k,
{
    if k < v.len() {
        lemma_arms_size_prefix(v, k + 1);
        lemma_arms_view_step(v, k);
        let a = arms_view(v.subrange(0, k + 1));
        assert(a.subrange(0, a.len() - 1) =~= arms_view(v.subrange(0, k)));
    } else {
        assert(v.subrange(0, k) =~= v);
    }
}

proof fn lemma_block_size_prefix(v: Seq<TStmt>, k: int)
    requires
        0 <= k <= v.len(),
    ensures
        block_size(tstmts_view(v.subrange(0, k))) <= block_size(tstmts_view(v)),
    decreases v.len() - k,
{
    if k < v.len() {
        lemma_block_size_prefix(v, k + 1);
        lemma_tstmts_view_step(v, k);
        let a = tstmts_view(v.subrange(0, k + 1));
        assert(a.subrange(0, a.len() - 1) =~= tstmts_view(v.subrange(0, k)));
    } else {
        assert(v.subrange(0, k) =~= v);
    }
}

/// Emit a run of statements' code.
fn emit_block_code(chunk: &mut Chunk, stmts: &Vec<TStmt>)
    requires
        old(chunk)@.code.len() + block_size(tstmts_view(stmts@)) < u32::MAX,
        old(chunk)@.lines.len() == old(chunk)@.code.len(),
        old(chunk)@.consts.len() <= old(chunk)@.code.len(),
    ensures
        emitted(final(chunk)@) == emit_block(emitted(old(chunk)@), tstmts_view(stmts@)),
        extends(emitted(old(chunk)@), emitted(final(chunk)@)),
        final(chunk)@.code.len() <= old(chunk)@.code.len() + block_size(tstmts_view(stmts@)),
        same_frame(old(chunk)@, final(chunk)@),
    decreases stmts@, 0nat,
{
    let mut i: usize = 0;
    proof {
        assert(stmts@.subrange(0, 0) =~= Seq::<TStmt>::empty());
        assert(emitted(chunk@).code.subrange(0, old(chunk)@.code.len() as int) =~= old(chunk)@.code);
    }
    while i < stmts.len()
        invariant
            i <= stmts@.len(),
            emitted(chunk@) == emit_block(emitted(old(chunk)@), tstmts_view(stmts@.subrange(0, i as int))),
            extends(emitted(old(chunk)@), emitted(chunk@)),
            chunk@.code.len() <= old(chunk)@.code.len() + block_size(tstmts_view(stmts@.subrange(0, i as int))),
            old(chunk)@.code.len() + block_size(tstmts_view(stmts@)) < u32::MAX,
            same_frame(old(chunk)@, chunk@),
        decreases stmts@.len() - i,
    {
        let ghost before = emitted(chunk@);
        proof {
            lemma_tstmts_view_step(stmts@, i as int);
            lemma_block_size_prefix(stmts@, i + 1);
            let a = tstmts_view(stmts@.subrange(0, i + 1));
            assert(a.subrange(0, a.len() - 1) =~= tstmts_view(stmts@.subrange(0, i as int)));
            assert(a[a.len() - 1] == tstmt_view(stmts@[i as int]));
        }
        emit_stmt_code(chunk, &stmts[i]);
        proof {
            assert(emitted(chunk@).code.subrange(0, old(chunk)@.code.len() as int) =~= old(chunk)@.code) by {
                assert(emitted(chunk@).code.subrange(0, before.code.len() as int) == before.code);
                assert(before.code.subrange(0, old(chunk)@.code.len() as int) == old(chunk)@.code);
            }
        }
        i = i + 1;
    }
    proof {
        assert(stmts@.subrange(0, stmts@.len() as int) =~= stmts@);
    }
}

/// Emit an `if`: each arm tests, runs, and jumps clear of the rest. Jump
/// destinations are unknown when the jumps are emitted, so they go out with
/// a placeholder and are corrected on arrival.
fn emit_if_code(chunk: &mut Chunk, s: &TStmt)
    requires
        *s is If,
        old(chunk)@.code.len() + stmt_size(tstmt_view(*s)) < u32::MAX,
        old(chunk)@.lines.len() == old(chunk)@.code.len(),
        old(chunk)@.consts.len() <= old(chunk)@.code.len(),
    ensures
        emitted(final(chunk)@) == emit_stmt(emitted(old(chunk)@), tstmt_view(*s)),
        extends(emitted(old(chunk)@), emitted(final(chunk)@)),
        final(chunk)@.code.len() <= old(chunk)@.code.len() + stmt_size(tstmt_view(*s)),
        same_frame(old(chunk)@, final(chunk)@),
    decreases *s, 0nat,
{
    let TStmt::If { arms, else_arm, line } = s else {
        proof {
            assert(false);
        }
        return;
    };
    let line = *line;
    let ghost em0 = emitted(chunk@);
    let ghost all = arms_view(arms@);
    let ghost has_else = tstmts_view(else_arm@).len() > 0;
    proof {
        lemma_tstmts_view_len(else_arm@);
        assert(arms@.subrange(0, 0) =~= Seq::<TIfArm>::empty());
        assert(emitted(chunk@).code.subrange(0, em0.code.len() as int) =~= em0.code);
        lemma_arms_len(arms@);
    }
    let n = arms.len();
    let mut to_end: Vec<usize> = Vec::new();
    let mut i: usize = 0;
    while i < n
        invariant
            n == arms@.len(),
            i <= n,
            *s == (TStmt::If { arms: *arms, else_arm: *else_arm, line }),
            em0 == emitted(old(chunk)@),
            has_else == (else_arm@.len() > 0),
            (emitted(chunk@), positions(to_end@)) == emit_arms(
                em0,
                arms_view(arms@.subrange(0, i as int)),
                n as nat,
                has_else,
                line,
            ),
            extends(em0, emitted(chunk@)),
            pending_jumps(chunk@.code, positions(to_end@)),
            forall|k: int| 0 <= k < to_end@.len() ==> #[trigger] to_end@[k] >= em0.code.len(),
            chunk@.code.len() <= em0.code.len() + arms_size(arms_view(arms@.subrange(0, i as int))),
            em0.code.len() + arms_size(arms_view(arms@)) + block_size(tstmts_view(else_arm@)) < u32::MAX,
            same_frame(old(chunk)@, chunk@),
        decreases n - i,
    {
        let arm = &arms[i];
        let ghost e1 = emitted(chunk@);
        let ghost te = positions(to_end@);
        proof {
            lemma_arms_view_step(arms@, i as int);
            lemma_arms_size_prefix(arms@, i + 1);
            let a = arms_view(arms@.subrange(0, i + 1));
            assert(a.subrange(0, a.len() - 1) =~= arms_view(arms@.subrange(0, i as int)));
            assert(decreases_to!(*s => (*s)->arms));
            assert((*s)->arms == *arms);
            assert(decreases_to!(*arms => arms@));
            assert(decreases_to!(arms@ => arms@[i as int]));
            assert(decreases_to!(arms@[i as int] => arms@[i as int].body));
            assert(decreases_to!(arms@[i as int].body => arms@[i as int].body@));
        }
        emit_expr_code(chunk, &arm.cond, line);
        let ghost e2 = emitted(chunk@);
        let to_next = put(chunk, Op::JumpIfFalse(u32::MAX), line);
        emit_block_code(chunk, &arm.body);
        let ghost e3 = emitted(chunk@);
        let more_follows = i + 1 < n || else_arm.len() > 0;
        if more_follows {
            let j = put(chunk, Op::Jump(u32::MAX), line);
            to_end.push(j);
        }
        let next = chunk.code.len() as u32;
        proof {
            assert(chunk@.code.subrange(0, e2.code.len() + 1int)[to_next as int] == Op::JumpIfFalse(u32::MAX)) by {
                assert(chunk@.code.subrange(0, e3.code.len() as int).subrange(0, e2.code.len() + 1int)
                    =~= chunk@.code.subrange(0, e2.code.len() + 1int));
            }
        }
        let ghost e4 = emitted(chunk@);
        chunk.patch_jump(to_next, next);
        proof {
            assert(positions(to_end@) =~= (if more_follows {
                te.push(e3.code.len() as int)
            } else {
                te
            }));
            lemma_arms_view_step(arms@, i as int);
            lemma_arms_len(arms@.subrange(0, i as int));
            let a = arms_view(arms@.subrange(0, i + 1));
            let x = (texpr_view(arm.cond), tstmts_view(arm.body@));
            assert(a.subrange(0, i as int) =~= arms_view(arms@.subrange(0, i as int)));
            assert(a[i as int] == x);
            assert(a.len() == i + 1);
            assert(e2 == emit_expr(e1, x.0, line));
            assert(e3 == emit_block(put_op(e2, Op::JumpIfFalse(u32::MAX), line), x.1));
            assert(more_follows == (i + 1 < n || has_else));
            assert(e4 == (if more_follows {
                put_op(e3, Op::Jump(u32::MAX), line)
            } else {
                e3
            }));
            assert(emitted(chunk@) == patch(e4, e2.code.len() as int, e4.code.len() as u32));
            assert(emitted(chunk@).code.subrange(0, em0.code.len() as int) =~= em0.code);
            assert(pending_jumps(chunk@.code, positions(to_end@)));
        }
        i = i + 1;
    }
    proof {
        assert(arms@.subrange(0, n as int) =~= arms@);
    }
    let ghost e4b = emitted(chunk@);
    emit_block_code(chunk, else_arm);
    let ghost e5 = emitted(chunk@);
    proof {
        assert(e5.code.subrange(0, em0.code.len() as int) =~= em0.code) by {
            assert(e5.code.subrange(0, e4b.code.len() as int) == e4b.code);
            assert(e4b.code.subrange(0, em0.code.len() as int) == em0.code);
        }
    }
    let target = chunk.code.len() as u32;
    let mut k: usize = 0;
    proof {
        assert(positions(to_end@).subrange(0, 0) =~= Seq::<int>::empty());
    }
    while k < to_end.len()
        invariant
            k <= to_end@.len(),
            forall|j: int| 0 <= j < to_end@.len() ==> #[trigger] to_end@[j] >= em0.code.len(),
            chunk@.code.subrange(0, em0.code.len() as int) == em0.code,
            em0.code.len() <= chunk@.code.len(),
            em0 == emitted(old(chunk)@),
            emitted(chunk@) == patch_all(e5, positions(to_end@).subrange(0, k as int), target),
            pending_jumps(chunk@.code, positions(to_end@)),
            chunk@.code.len() == e5.code.len(),
            chunk@.lines == e5.lines,
            chunk@.consts == e5.consts,
            same_frame(old(chunk)@, chunk@),
        decreases to_end@.len() - k,
    {
        proof {
            let p = positions(to_end@);
            assert(p.subrange(0, k + 1).subrange(0, k as int) =~= p.subrange(0, k as int));
            assert(p[k as int] == to_end@[k as int] as int);
        }
        let ghost before = chunk@.code;
        chunk.patch_jump(to_end[k], target);
        proof {
            assert(chunk@.code.subrange(0, em0.code.len() as int) =~= before.subrange(0, em0.code.len() as int));
        }
        k = k + 1;
    }
    proof {
        assert(positions(to_end@).subrange(0, to_end@.len() as int) =~= positions(to_end@));
    }
}

proof fn lemma_arms_len(v: Seq<TIfArm>)
    ensures
        arms_view(v).len() == v.len(),
    decreases v.len(),
{
    if v.len() > 0 {
        lemma_arms_len(v.subrange(0, v.len() - 1));
    }
}

/// The chunk a checked program lowers to: its statements' code and a final
/// `halt` on the last line used, with the program's slots and globals.
pub open spec fn lowered(
    source: Seq<char>,
    stmts: Seq<TStmtView>,
    locals: Seq<Seq<char>>,
    globals: Seq<(Seq<char>, RtType, bool)>,
) -> ChunkView {
    let em = emit_block(Emitted { consts: Seq::empty(), code: Seq::empty(), lines: Seq::empty() }, stmts);
    let last: u32 = if em.lines.len() == 0 {
        1
    } else {
        em.lines.last()
    };
    ChunkView {
        source,
        consts: em.consts,
        code: em.code.push(Op::Halt),
        lines: em.lines.push(last),
        locals: locals.len() as usize,
        globals,
        local_names: locals,
    }
}

/// How many instructions a checked program's code takes, at most.
pub open spec fn program_size(checked: Checked) -> nat {
    block_size(tstmts_view(checked.stmts@))
}

/// A size, counted up to the first one too large for the format.
pub open spec fn capped(n: nat) -> nat {
    if n < 0xFFFF_FFFF {
        n
    } else {
        0xFFFF_FFFF
    }
}

fn add_capped(a: u64, b: u64) -> (r: u64)
    requires
        a <= 0xFFFF_FFFF,
        b <= 0xFFFF_FFFF,
    ensures
        r == capped((a + b) as nat),
{
    let s = a + b;
    if s < 0xFFFF_FFFF {
        s
    } else {
        0xFFFF_FFFF
    }
}

fn expr_cost(e: &TExpr) -> (r: u64)
    ensures
        r == capped(expr_size(texpr_view(*e))),
    decreases *e,
{
    match e {
        TExpr::Const(..) => 1,
        TExpr::Load(..) => 1,
        TExpr::Neg(inner, _) => add_capped(expr_cost(inner), 1),
        TExpr::Bin { lhs, rhs, .. } => {
            let a = expr_cost(lhs);
            let b = expr_cost(rhs);
            add_capped(add_capped(a, b), 1)
        },
    }
}

fn items_cost(items: &Vec<TExpr>) -> (r: u64)
    ensures
        r == capped(items_size(texprs_view(items@))),
{
    let ghost all = texprs_view(items@);
    let mut acc: u64 = 0;
    let mut i: usize = 0;
    proof {
        assert(all.subrange(0, 0) =~= Seq::<TExprView>::empty());
    }
    while i < items.len()
        invariant
            all == texprs_view(items@),
            i <= items@.len(),
            acc == capped(items_size(all.subrange(0, i as int))),
        decreases items@.len() - i,
    {
        proof {
            let next = all.subrange(0, i + 1);
            assert(next.subrange(0, i as int) =~= all.subrange(0, i as int));
            assert(next[i as int] == texpr_view(items@[i as int]));
        }
        let c = expr_cost(&items[i]);
        acc = add_capped(add_capped(acc, c), 1);
        i = i + 1;
    }
    proof {
        assert(all.subrange(0, all.len() as int) =~= all);
    }
    acc
}

fn stmt_cost(s: &TStmt) -> (r: u64)
    ensures
        r == capped(stmt_size(tstmt_view(*s))),
    decreases *s, 1nat,
{
    match s {
        TStmt::Store { value, .. } => add_capped(expr_cost(value), 1),
        TStmt::Print { items, .. } => items_cost(items),
        TStmt::If { arms, else_arm, line } => {
            let mut acc: u64 = 0;
            let mut i: usize = 0;
            proof {
                assert(arms@.subrange(0, 0) =~= Seq::<TIfArm>::empty());
            }
            while i < arms.len()
                invariant
                    *s == (TStmt::If { arms: *arms, else_arm: *else_arm, line: *line }),
                    i <= arms@.len(),
                    acc == capped(arms_size(arms_view(arms@.subrange(0, i as int)))),
                decreases arms@.len() - i,
            {
                proof {
                    lemma_arms_view_step(arms@, i as int);
                    let a = arms_view(arms@.subrange(0, i + 1));
                    assert(a.subrange(0, a.len() - 1) =~= arms_view(arms@.subrange(0, i as int)));
                    assert(decreases_to!(*s => (*s)->arms));
                    assert((*s)->arms == *arms);
                    assert(decreases_to!(*arms => arms@));
                    assert(decreases_to!(arms@ => arms@[i as int]));
                    assert(decreases_to!(arms@[i as int] => arms@[i as int].body));
                    assert(decreases_to!(arms@[i as int].body => arms@[i as int].body@));
                }
                let c = expr_cost(&arms[i].cond);
                let b = block_cost(&arms[i].body);
                acc = add_capped(add_capped(acc, c), add_capped(b, 2));
                i = i + 1;
            }
            proof {
                assert(arms@.subrange(0, arms@.len() as int) =~= arms@);
                assert(decreases_to!(*s => (*s)->else_arm));
                assert((*s)->else_arm == *else_arm);
                assert(decreases_to!(*else_arm => else_arm@));
            }
            let e = block_cost(else_arm);
            add_capped(acc, e)
        },
    }
}

fn block_cost(stmts: &Vec<TStmt>) -> (r: u64)
    ensures
        r == capped(block_size(tstmts_view(stmts@))),
    decreases stmts@, 0nat,
{
    let mut acc: u64 = 0;
    let mut i: usize = 0;
    proof {
        assert(stmts@.subrange(0, 0) =~= Seq::<TStmt>::empty());
    }
    while i < stmts.len()
        invariant
            i <= stmts@.len(),
            acc == capped(block_size(tstmts_view(stmts@.subrange(0, i as int)))),
        decreases stmts@.len() - i,
    {
        proof {
            lemma_tstmts_view_step(stmts@, i as int);
            let a = tstmts_view(stmts@.subrange(0, i + 1));
            assert(a.subrange(0, a.len() - 1) =~= tstmts_view(stmts@.subrange(0, i as int)));
            assert(decreases_to!(stmts@ => stmts@[i as int]));
        }
        let c = stmt_cost(&stmts[i]);
        acc = add_capped(acc, c);
        i = i + 1;
    }
    proof {
        assert(stmts@.subrange(0, stmts@.len() as int) =~= stmts@);
    }
    acc
}

/// Whether a checked program fits the format, which numbers instructions and
/// constants with `u32`.
pub fn fits(checked: &Checked) -> (r: bool)
    ensures
        r == (program_size(*checked) + 1 < u32::MAX),
{
    block_cost(&checked.stmts) < 0xFFFF_FFFE
}

/// Lower a checked program to a chunk. The program must fit the format,
/// which numbers instructions and constants with `u32`.
pub fn emit(source_name: &str, checked: &Checked) -> (r: Chunk)
    requires
        program_size(*checked) + 1 < u32::MAX,
    ensures
        r@ == lowered(
            source_name@,
            tstmts_view(checked.stmts@),
            checked.locals@.map_values(|n: String| n@),
            checked.globals@.map_values(|g: (String, RtType, bool)| (g.0@, g.1, g.2)),
        ),
{
    let mut chunk = Chunk::new(source_name);
    chunk.locals = checked.locals.len();
    let mut names: Vec<String> = Vec::new();
    let mut i: usize = 0;
    while i < checked.locals.len()
        invariant
            i <= checked.locals@.len(),
            names@.len() == i,
            forall|k: int| 0 <= k < i ==> #[trigger] names@[k]@ == checked.locals@[k]@,
        decreases checked.locals@.len() - i,
    {
        names.push(checked.locals[i].clone());
        i = i + 1;
    }
    let mut globals: Vec<GlobalInfo> = Vec::new();
    let mut j: usize = 0;
    while j < checked.globals.len()
        invariant
            j <= checked.globals@.len(),
            globals@.len() == j,
            forall|k: int|
                0 <= k < j ==> #[trigger] globals@[k]@ == (
                    checked.globals@[k].0@,
                    checked.globals@[k].1,
                    checked.globals@[k].2,
                ),
        decreases checked.globals@.len() - j,
    {
        let g = &checked.globals[j];
        globals.push(GlobalInfo { name: g.0.clone(), ty: g.1, exported: g.2 });
        j = j + 1;
    }
    chunk.local_names = names;
    chunk.globals = globals;
    proof {
        assert(chunk@.local_names =~= checked.locals@.map_values(|n: String| n@));
        assert(chunk@.globals =~= checked.globals@.map_values(|g: (String, RtType, bool)| (g.0@, g.1, g.2)));
        assert(chunk@.consts =~= Seq::<ConstView>::empty());
        assert(chunk@.code =~= Seq::<Op>::empty());
        assert(chunk@.lines =~= Seq::<u32>::empty());
        assert(emitted(chunk@) == Emitted { consts: Seq::empty(), code: Seq::empty(), lines: Seq::empty() });
    }
    emit_block_code(&mut chunk, &checked.stmts);
    let n = chunk.lines.len();
    let last = if n == 0 {
        1
    } else {
        chunk.lines[n - 1]
    };
    chunk.emit(Op::Halt, last);
    chunk
}

} // verus!
