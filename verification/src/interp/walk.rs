//! The reference interpreter's tree walk.
//!
//! It runs a checked program straight from its tree: arms and conditions
//! where the compiled form has jumps, a slot per binding where it has an
//! operand stack. Floating-point arithmetic and comparison are handed to the
//! caller's `float` work, one operator and its two operands at a time; what
//! the walk does is stated for whatever that work answers.
use vstd::prelude::*;

use crate::bytecode::value::RtType;
use crate::compile::typeck::{
    arms_view, texpr_view, texprs_view, tstmt_view, tstmts_view, Checked, Place, TExpr, TExprView, TIfArm, TStmt, TStmtView,
};
use crate::interp::{compare, interp_arith, interp_compare, interp_negate, negate, InterpError, InterpErrorView};
use crate::rule::Rule;
use crate::syntax::ast::{comparison, BinOp};
use crate::vm::{copy_value, slot_view, value_of, Value, ValueView};

verus! {

/// The operands of a floating-point operator, as their bits.
#[derive(Clone, Copy, Debug, PartialEq, Eq, Structural)]
pub enum FloatPair {
    Single(u32, u32),
    Double(u64, u64),
}

/// What floating-point work answers: the value an operator gives on two
/// operands at a type, a `Bool` for a comparison.
pub type FloatWork = spec_fn(BinOp, FloatPair, RtType) -> ValueView;

/// `fw` gives what the executable float work `float` returns, on every
/// question.
pub open spec fn agrees<F: Fn(BinOp, FloatPair, RtType) -> Value>(float: F, fw: FloatWork) -> bool {
    forall|op: BinOp, p: FloatPair, t: RtType, r: Value| #[trigger]
        call_ensures(float, (op, p, t), r) ==> r@ == fw(op, p, t)
}

/// Two float operands as a question for the float work.
pub open spec fn pair_of(a: ValueView, b: ValueView) -> FloatPair {
    match (a, b) {
        (ValueView::F64(x), ValueView::F64(y)) => FloatPair::Double(x, y),
        (ValueView::F32(x), ValueView::F32(y)) => FloatPair::Single(x, y),
        _ => FloatPair::Single(0, 0),
    }
}

/// Where the walk stands: every slot and global, assigned or not, their
/// names, and the values printed so far, in order.
#[verifier::ext_equal]
pub struct WalkView {
    pub locals: Seq<Option<ValueView>>,
    pub globals: Seq<Option<ValueView>>,
    pub local_names: Seq<Seq<char>>,
    pub global_names: Seq<Seq<char>>,
    pub printed: Seq<ValueView>,
}

/// The error for reading a binding that holds nothing yet.
pub open spec fn unassigned_read(name: Seq<char>, line: u32) -> InterpErrorView {
    InterpErrorView {
        rule: Rule::AssignBeforeReading,
        message: "`("@ + name + ")` is read before it is assigned"@,
        line,
    }
}

/// A binary operator applied to two evaluated operands: a comparison or
/// arithmetic the interpreter does itself, or the float work's answer.
pub open spec fn combine(fw: FloatWork, op: BinOp, a: ValueView, b: ValueView, t: RtType, line: u32) -> Result<
    ValueView,
    InterpErrorView,
> {
    if comparison(op) {
        match interp_compare(op, a, b, line) {
            Ok(Some(x)) => Ok(ValueView::Bool(x)),
            Ok(None) => Ok(fw(op, pair_of(a, b), t)),
            Err(e) => Err(e),
        }
    } else {
        match interp_arith(op, a, b, t, line) {
            Ok(Some(v)) => Ok(v),
            Ok(None) => Ok(fw(op, pair_of(a, b), t)),
            Err(e) => Err(e),
        }
    }
}

/// The value of an expression, operands left to right.
pub open spec fn evaluate(fw: FloatWork, w: WalkView, e: TExprView, line: u32) -> Result<
    ValueView,
    InterpErrorView,
>
    decreases e,
{
    match e {
        TExprView::Const(c, _) => Ok(value_of(c)),
        TExprView::Load(place, _) => {
            let (slot, name) = match place {
                Place::Local(n) => (w.locals[n as int], w.local_names[n as int]),
                Place::Global(n) => (w.globals[n as int], w.global_names[n as int]),
            };
            match slot {
                Some(v) => Ok(v),
                None => Err(unassigned_read(name, line)),
            }
        },
        TExprView::Neg(inner, ty) => match evaluate(fw, w, *inner, line) {
            Ok(v) => interp_negate(v, ty, line),
            Err(x) => Err(x),
        },
        TExprView::Bin { op, operand_ty, lhs, rhs, .. } => match evaluate(fw, w, *lhs, line) {
            Err(x) => Err(x),
            Ok(a) => match evaluate(fw, w, *rhs, line) {
                Err(x) => Err(x),
                Ok(b) => combine(fw, op, a, b, operand_ty, line),
            },
        },
    }
}

/// `v` stored at `place`.
pub open spec fn store(w: WalkView, place: Place, v: ValueView) -> WalkView {
    match place {
        Place::Local(n) => WalkView { locals: w.locals.update(n as int, Some(v)), ..w },
        Place::Global(n) => WalkView { globals: w.globals.update(n as int, Some(v)), ..w },
    }
}

/// Printing a list of items: each evaluated and printed in turn, up to
/// the first that fails.
pub open spec fn print_items(fw: FloatWork, w: WalkView, items: Seq<TExprView>, line: u32) -> (
    WalkView,
    Result<(), InterpErrorView>,
)
    decreases items.len(),
{
    if items.len() == 0 {
        (w, Ok(()))
    } else {
        match evaluate(fw, w, items[0], line) {
            Ok(v) => print_items(
                fw,
                WalkView { printed: w.printed.push(v), ..w },
                items.subrange(1, items.len() as int),
                line,
            ),
            Err(x) => (w, Err(x)),
        }
    }
}

/// The first arm from `from` on whose condition holds, `None` when none
/// does; a condition that is not a `bool` is an error.
pub open spec fn pick_arm(
    fw: FloatWork,
    w: WalkView,
    arms: Seq<(TExprView, Seq<TStmtView>)>,
    from: int,
    line: u32,
) -> Result<Option<int>, InterpErrorView>
    decreases arms.len() - from,
{
    if from < 0 || from >= arms.len() {
        Ok(None)
    } else {
        match evaluate(fw, w, arms[from].0, line) {
            Ok(ValueView::Bool(taken)) => if taken {
                Ok(Some(from))
            } else {
                pick_arm(fw, w, arms, from + 1, line)
            },
            Ok(_) => Err(
                InterpErrorView { rule: Rule::ConditionsAreBool, message: "condition is not a bool"@, line },
            ),
            Err(x) => Err(x),
        }
    }
}

/// Running one statement: where the walk ends up, and whether it stopped.
pub open spec fn run_stmt(fw: FloatWork, w: WalkView, s: TStmtView) -> (WalkView, Result<(), InterpErrorView>)
    decreases s, 1nat,
{
    match s {
        TStmtView::Store { place, value, line } => match evaluate(fw, w, value, line) {
            Ok(v) => (store(w, place, v), Ok(())),
            Err(x) => (w, Err(x)),
        },
        TStmtView::Print { items, line } => print_items(fw, w, items, line),
        TStmtView::If { arms, else_arm, line } => match pick_arm(fw, w, arms, 0, line) {
            Err(x) => (w, Err(x)),
            Ok(Some(i)) => if 0 <= i < arms.len() {
                proof {
                    assert(decreases_to!(s => arms));
                    assert(decreases_to!(arms => arms[i]));
                    assert(decreases_to!(arms[i] => arms[i].1));
                }
                run_block(fw, w, arms[i].1)
            } else {
                (w, Ok(()))
            },
            Ok(None) => run_block(fw, w, else_arm),
        },
    }
}

/// Running statements in order, up to the first that stops.
pub open spec fn run_block(fw: FloatWork, w: WalkView, v: Seq<TStmtView>) -> (
    WalkView,
    Result<(), InterpErrorView>,
)
    decreases v, 0nat,
{
    if v.len() == 0 {
        (w, Ok(()))
    } else {
        let (w1, r) = run_stmt(fw, w, v[0]);
        match r {
            Ok(()) => run_block(fw, w1, v.subrange(1, v.len() as int)),
            Err(x) => (w1, Err(x)),
        }
    }
}

// ------------------------------------------------------------ slot ranges

/// A place inside a frame of `nl` slots and `ng` globals.
pub open spec fn place_fits(p: Place, nl: nat, ng: nat) -> bool {
    match p {
        Place::Local(n) => n < nl,
        Place::Global(n) => n < ng,
    }
}

pub open spec fn expr_fits(e: TExprView, nl: nat, ng: nat) -> bool
    decreases e,
{
    match e {
        TExprView::Const(..) => true,
        TExprView::Load(p, _) => place_fits(p, nl, ng),
        TExprView::Neg(inner, _) => expr_fits(*inner, nl, ng),
        TExprView::Bin { lhs, rhs, .. } => expr_fits(*lhs, nl, ng) && expr_fits(*rhs, nl, ng),
    }
}

pub open spec fn items_fit(items: Seq<TExprView>, nl: nat, ng: nat) -> bool {
    forall|i: int| 0 <= i < items.len() ==> #[trigger] expr_fits(items[i], nl, ng)
}

pub open spec fn stmt_fits(s: TStmtView, nl: nat, ng: nat) -> bool
    decreases s, 1nat,
{
    match s {
        TStmtView::Store { place, value, .. } => place_fits(place, nl, ng) && expr_fits(value, nl, ng),
        TStmtView::Print { items, .. } => items_fit(items, nl, ng),
        TStmtView::If { arms, else_arm, .. } => arms_fit(arms, nl, ng) && block_fits(else_arm, nl, ng),
    }
}

pub open spec fn arms_fit(arms: Seq<(TExprView, Seq<TStmtView>)>, nl: nat, ng: nat) -> bool
    decreases arms, 0nat,
{
    if arms.len() == 0 {
        true
    } else {
        proof {
            assert(decreases_to!(arms => arms[0]));
            assert(decreases_to!(arms[0] => arms[0].1));
        }
        expr_fits(arms[0].0, nl, ng) && block_fits(arms[0].1, nl, ng) && arms_fit(
            arms.subrange(1, arms.len() as int),
            nl,
            ng,
        )
    }
}

/// Every place a run of statements reads or writes lies inside a frame of
/// `nl` slots and `ng` globals.
pub open spec fn block_fits(v: Seq<TStmtView>, nl: nat, ng: nat) -> bool
    decreases v, 0nat,
{
    if v.len() == 0 {
        true
    } else {
        stmt_fits(v[0], nl, ng) && block_fits(v.subrange(1, v.len() as int), nl, ng)
    }
}

// ------------------------------------------------------------------ lemmas

proof fn lemma_tstmts_index(v: Seq<TStmt>)
    ensures
        tstmts_view(v).len() == v.len(),
        forall|i: int| 0 <= i < v.len() ==> #[trigger] tstmts_view(v)[i] == tstmt_view(v[i]),
    decreases v.len(),
{
    if v.len() > 0 {
        lemma_tstmts_index(v.subrange(0, v.len() - 1));
        assert forall|i: int| 0 <= i < v.len() implies #[trigger] tstmts_view(v)[i] == tstmt_view(v[i]) by {
            if i < v.len() - 1 {
                assert(v.subrange(0, v.len() - 1)[i] == v[i]);
            }
        }
    }
}

proof fn lemma_arms_index(v: Seq<TIfArm>)
    ensures
        arms_view(v).len() == v.len(),
        forall|i: int|
            0 <= i < v.len() ==> #[trigger] arms_view(v)[i] == (texpr_view(v[i].cond), tstmts_view(v[i].body@)),
    decreases v.len(),
{
    if v.len() > 0 {
        lemma_arms_index(v.subrange(0, v.len() - 1));
        assert forall|i: int| 0 <= i < v.len() implies #[trigger] arms_view(v)[i] == (
            texpr_view(v[i].cond),
            tstmts_view(v[i].body@),
        ) by {
            if i < v.len() - 1 {
                assert(v.subrange(0, v.len() - 1)[i] == v[i]);
            }
        }
    }
}

// -------------------------------------------------------------- the walk

/// Whether an outcome is the one stated.
pub open spec fn same_value(r: Result<Value, InterpError>, s: Result<ValueView, InterpErrorView>) -> bool {
    match s {
        Ok(v) => r matches Ok(x) && x@ == v,
        Err(e) => r matches Err(x) && x@ == e,
    }
}

pub open spec fn same_outcome(r: Result<(), InterpError>, s: Result<(), InterpErrorView>) -> bool {
    match s {
        Ok(()) => r is Ok,
        Err(e) => r matches Err(x) && x@ == e,
    }
}

fn pair_from(a: &Value, b: &Value) -> (r: FloatPair)
    ensures
        r == pair_of(a@, b@),
{
    match (a, b) {
        (Value::F64(x), Value::F64(y)) => FloatPair::Double(*x, *y),
        (Value::F32(x), Value::F32(y)) => FloatPair::Single(*x, *y),
        _ => FloatPair::Single(0, 0),
    }
}

struct Walker<'a, F> {
    float: F,
    locals: Vec<Option<Value>>,
    globals: Vec<Option<Value>>,
    local_names: &'a Vec<String>,
    global_names: &'a Vec<(String, RtType, bool)>,
    printed: Vec<Value>,
}

impl<'a, F: Fn(BinOp, FloatPair, RtType) -> Value> Walker<'a, F> {
    spec fn state(&self) -> WalkView {
        WalkView {
            locals: self.locals@.map_values(|o: Option<Value>| slot_view(o)),
            globals: self.globals@.map_values(|o: Option<Value>| slot_view(o)),
            local_names: self.local_names@.map_values(|n: String| n@),
            global_names: self.global_names@.map_values(|g: (String, RtType, bool)| g.0@),
            printed: self.printed@.map_values(|v: Value| v@),
        }
    }

    spec fn ready(&self) -> bool {
        &&& self.locals.len() == self.local_names.len()
        &&& self.globals.len() == self.global_names.len()
        &&& forall|op: BinOp, p: FloatPair, t: RtType| call_requires(self.float, (op, p, t))
    }

    fn eval(&self, e: &TExpr, line: u32) -> (r: Result<Value, InterpError>)
        requires
            self.ready(),
            expr_fits(texpr_view(*e), self.locals.len() as nat, self.globals.len() as nat),
        ensures
            forall|fw: FloatWork| #[trigger]
                agrees(self.float, fw) ==> same_value(r, evaluate(fw, self.state(), texpr_view(*e), line)),
        decreases e,
    {
        match e {
            TExpr::Const(c, _) => Ok(Value::from_const(c)),
            TExpr::Load(place, _) => {
                let (slot, name) = match place {
                    Place::Local(n) => (&self.locals[*n as usize], &self.local_names[*n as usize]),
                    Place::Global(n) => (&self.globals[*n as usize], &self.global_names[*n as usize].0),
                };
                match slot {
                    Some(v) => Ok(copy_value(v)),
                    None => Err(
                        InterpError {
                            rule: Rule::AssignBeforeReading,
                            message: String::from_str("`(").concat(name.as_str()).concat(
                                ")` is read before it is assigned",
                            ),
                            line,
                        },
                    ),
                }
            },
            TExpr::Neg(inner, ty) => {
                let v = match self.eval(inner, line) {
                    Ok(v) => v,
                    Err(x) => return Err(x),
                };
                negate(&v, *ty, line)
            },
            TExpr::Bin { op, operand_ty, lhs, rhs, .. } => {
                let a = match self.eval(lhs, line) {
                    Ok(v) => v,
                    Err(x) => return Err(x),
                };
                let b = match self.eval(rhs, line) {
                    Ok(v) => v,
                    Err(x) => return Err(x),
                };
                if op.is_comparison() {
                    match compare(*op, &a, &b, line) {
                        Ok(Some(x)) => Ok(Value::Bool(x)),
                        Ok(None) => {
                            let p = pair_from(&a, &b);
                            Ok((self.float)(*op, p, *operand_ty))
                        },
                        Err(x) => Err(x),
                    }
                } else {
                    match crate::interp::arith(*op, &a, &b, *operand_ty, line) {
                        Ok(Some(v)) => Ok(v),
                        Ok(None) => {
                            let p = pair_from(&a, &b);
                            Ok((self.float)(*op, p, *operand_ty))
                        },
                        Err(x) => Err(x),
                    }
                }
            },
        }
    }

    /// What a step keeps: the float work, the frame's size and names.
    spec fn keeps(&self, other: &Self) -> bool {
        &&& other.ready()
        &&& other.float == self.float
        &&& other.locals.len() == self.locals.len()
        &&& other.globals.len() == self.globals.len()
        &&& other.local_names == self.local_names
        &&& other.global_names == self.global_names
    }

    fn stmt(&mut self, s: &TStmt) -> (r: Result<(), InterpError>)
        requires
            old(self).ready(),
            stmt_fits(tstmt_view(*s), old(self).locals.len() as nat, old(self).globals.len() as nat),
        ensures
            old(self).keeps(final(self)),
            forall|fw: FloatWork| #[trigger]
                agrees(old(self).float, fw) ==> {
                    let (w, out) = run_stmt(fw, old(self).state(), tstmt_view(*s));
                    final(self).state() == w && same_outcome(r, out)
                },
        decreases *s, 1nat,
    {
        match s {
            TStmt::Store { place, value, line } => {
                let v = match self.eval(value, *line) {
                    Ok(v) => v,
                    Err(x) => return Err(x),
                };
                let ghost w0 = self.state();
                let ghost vv = v@;
                match place {
                    Place::Local(n) => {
                        self.locals.set(*n as usize, Some(v));
                        proof {
                            assert(self.state().locals =~= w0.locals.update(*n as int, Some(vv)));
                            assert(self.state() =~= store(w0, *place, vv));
                        }
                    },
                    Place::Global(n) => {
                        self.globals.set(*n as usize, Some(v));
                        proof {
                            assert(self.state().globals =~= w0.globals.update(*n as int, Some(vv)));
                            assert(self.state() =~= store(w0, *place, vv));
                        }
                    },
                }
                Ok(())
            },
            TStmt::Print { items, line } => {
                let ghost w0 = self.state();
                let ghost iv = texprs_view(items@);
                let ghost n = items@.len() as int;
                proof {
                    assert(iv.subrange(0, n) =~= iv);
                    assert(tstmt_view(*s) == (TStmtView::Print { items: iv, line: *line }));
                    let nl = self.locals.len() as nat;
                    let ng = self.globals.len() as nat;
                    assert(stmt_fits(TStmtView::Print { items: iv, line: *line }, nl, ng));
                    assert(iv.len() == n);
                    assert(items_fit(iv, nl, ng));
                }
                let mut i: usize = 0;
                while i < items.len()
                    invariant
                        i <= n,
                        n == items@.len(),
                        iv == texprs_view(items@),
                        iv.len() == n,
                        tstmt_view(*s) == (TStmtView::Print { items: iv, line: *line }),
                        old(self).keeps(self),
                        self.locals == old(self).locals,
                        self.globals == old(self).globals,
                        w0 == old(self).state(),
                        self.state() == (WalkView { printed: self.state().printed, ..w0 }),
                        forall|k: int| 0 <= k < n ==> #[trigger] expr_fits(iv[k], self.locals.len() as nat, self.globals.len() as nat),
                        forall|fw: FloatWork| #[trigger]
                            agrees(self.float, fw) ==> print_items(fw, w0, iv, *line) == print_items(
                                fw,
                                self.state(),
                                iv.subrange(i as int, n),
                                *line,
                            ),
                    decreases n - i,
                {
                    let ghost before = self.state();
                    let ghost rest = iv.subrange(i as int, n);
                    proof {
                        assert(rest[0] == iv[i as int]);
                        assert(rest.subrange(1, rest.len() as int) =~= iv.subrange(i + 1, n));
                    }
                    let v = match self.eval(&items[i], *line) {
                        Ok(v) => v,
                        Err(x) => return Err(x),
                    };
                    self.printed.push(v);
                    proof {
                        assert(self.state() =~= WalkView { printed: before.printed.push(v@), ..before });
                    }
                    i = i + 1;
                }
                proof {
                    assert(iv.subrange(n, n) =~= Seq::<TExprView>::empty());
                }
                Ok(())
            },
            TStmt::If { .. } => self.branch(s),
        }
    }

    fn branch(&mut self, s: &TStmt) -> (r: Result<(), InterpError>)
        requires
            old(self).ready(),
            s is If,
            stmt_fits(tstmt_view(*s), old(self).locals.len() as nat, old(self).globals.len() as nat),
        ensures
            old(self).keeps(final(self)),
            forall|fw: FloatWork| #[trigger]
                agrees(old(self).float, fw) ==> {
                    let (w, out) = run_stmt(fw, old(self).state(), tstmt_view(*s));
                    final(self).state() == w && same_outcome(r, out)
                },
        decreases *s, 0nat,
    {
        let TStmt::If { arms, else_arm, line } = s else {
            proof {
                assert(false);
            }
            return Ok(());
        };
        let ghost w0 = self.state();
        let ghost av = arms_view(arms@);
        let ghost n = arms@.len() as int;
        proof {
            lemma_arms_index(arms@);
            assert(av.subrange(0, n) =~= av);
        }
        let mut i: usize = 0;
        while i < arms.len()
            invariant
                i <= n,
                n == arms@.len(),
                av == arms_view(arms@),
                av.len() == n,
                forall|k: int|
                    0 <= k < n ==> #[trigger] av[k] == (texpr_view(arms@[k].cond), tstmts_view(arms@[k].body@)),
                *s == (TStmt::If { arms: *arms, else_arm: *else_arm, line: *line }),
                *self == *old(self),
                w0 == self.state(),
                self.ready(),
                arms_fit(av.subrange(i as int, n), self.locals.len() as nat, self.globals.len() as nat),
                block_fits(tstmts_view(else_arm@), self.locals.len() as nat, self.globals.len() as nat),
                forall|fw: FloatWork| #[trigger]
                    agrees(self.float, fw) ==> pick_arm(fw, w0, av, 0, *line) == pick_arm(fw, w0, av, i as int, *line),
            decreases n - i,
        {
            let arm = &arms[i];
            proof {
                let rest = av.subrange(i as int, n);
                assert(rest[0] == av[i as int]);
                assert(rest.subrange(1, rest.len() as int) =~= av.subrange(i + 1, n));
                assert(decreases_to!(*s => (*s)->arms));
                assert((*s)->arms == *arms);
                assert(decreases_to!(*arms => arms@));
                assert(decreases_to!(arms@ => arms@[i as int]));
                assert(decreases_to!(arms@[i as int] => arms@[i as int].body));
                assert(decreases_to!(arms@[i as int].body => arms@[i as int].body@));
            }
            let c = match self.eval(&arm.cond, *line) {
                Ok(v) => v,
                Err(x) => return Err(x),
            };
            match c {
                Value::Bool(taken) => {
                    if taken {
                        return self.block(&arm.body);
                    }
                },
                _ => {
                    return Err(
                        InterpError {
                            rule: Rule::ConditionsAreBool,
                            message: String::from_str("condition is not a bool"),
                            line: *line,
                        },
                    );
                },
            }
            i = i + 1;
        }
        proof {
            assert(decreases_to!(*s => (*s)->else_arm));
            assert((*s)->else_arm == *else_arm);
            assert(decreases_to!(*else_arm => else_arm@));
        }
        self.block(else_arm)
    }

    fn block(&mut self, stmts: &Vec<TStmt>) -> (r: Result<(), InterpError>)
        requires
            old(self).ready(),
            block_fits(tstmts_view(stmts@), old(self).locals.len() as nat, old(self).globals.len() as nat),
        ensures
            old(self).keeps(final(self)),
            forall|fw: FloatWork| #[trigger]
                agrees(old(self).float, fw) ==> {
                    let (w, out) = run_block(fw, old(self).state(), tstmts_view(stmts@));
                    final(self).state() == w && same_outcome(r, out)
                },
        decreases stmts@, 0nat,
    {
        let ghost v = tstmts_view(stmts@);
        let ghost n = stmts@.len() as int;
        proof {
            lemma_tstmts_index(stmts@);
            assert(v.subrange(0, n) =~= v);
        }
        let mut i: usize = 0;
        while i < stmts.len()
            invariant
                i <= n,
                n == stmts@.len(),
                v == tstmts_view(stmts@),
                v.len() == n,
                forall|k: int| 0 <= k < n ==> #[trigger] v[k] == tstmt_view(stmts@[k]),
                old(self).keeps(self),
                block_fits(v.subrange(i as int, n), self.locals.len() as nat, self.globals.len() as nat),
                forall|fw: FloatWork| #[trigger]
                    agrees(self.float, fw) ==> run_block(fw, old(self).state(), v) == run_block(
                        fw,
                        self.state(),
                        v.subrange(i as int, n),
                    ),
            decreases n - i,
        {
            proof {
                let rest = v.subrange(i as int, n);
                assert(rest[0] == v[i as int]);
                assert(rest.subrange(1, rest.len() as int) =~= v.subrange(i + 1, n));
                assert(decreases_to!(stmts@ => stmts@[i as int]));
            }
            match self.stmt(&stmts[i]) {
                Ok(()) => {},
                Err(x) => return Err(x),
            }
            i = i + 1;
        }
        proof {
            assert(v.subrange(n, n) =~= Seq::<TStmtView>::empty());
        }
        Ok(())
    }
}


/// Where a walk of `checked` starts: nothing assigned, nothing printed.
pub open spec fn fresh(checked: Checked) -> WalkView {
    WalkView {
        locals: Seq::new(checked.locals.len() as nat, |i: int| None),
        globals: Seq::new(checked.globals.len() as nat, |i: int| None),
        local_names: checked.locals@.map_values(|n: String| n@),
        global_names: checked.globals@.map_values(|g: (String, RtType, bool)| g.0@),
        printed: Seq::empty(),
    }
}

fn unassigned_slots(n: usize) -> (r: Vec<Option<Value>>)
    ensures
        r@.len() == n,
        r@.map_values(|o: Option<Value>| slot_view(o)) =~= Seq::new(n as nat, |i: int| None::<ValueView>),
{
    let mut v: Vec<Option<Value>> = Vec::new();
    let mut i: usize = 0;
    while i < n
        invariant
            i <= n,
            v@.len() == i,
            forall|j: int| 0 <= j < i ==> #[trigger] v@[j] is None,
        decreases n - i,
    {
        v.push(None);
        i = i + 1;
    }
    v
}

/// Interpret a checked program. What it prints comes back in order, beside
/// how the run ended. Floating-point arithmetic and comparison are put to
/// `float`; for any answers it gives, the run is the one `run_block` states
/// with those answers.
pub fn run<F: Fn(BinOp, FloatPair, RtType) -> Value>(checked: &Checked, float: F) -> (r: (
    Vec<Value>,
    Result<(), InterpError>,
))
    requires
        forall|op: BinOp, p: FloatPair, t: RtType| call_requires(float, (op, p, t)),
        block_fits(tstmts_view(checked.stmts@), checked.locals.len() as nat, checked.globals.len() as nat),
    ensures
        forall|fw: FloatWork| #[trigger]
            agrees(float, fw) ==> {
                let (w, out) = run_block(fw, fresh(*checked), tstmts_view(checked.stmts@));
                r.0@.map_values(|v: Value| v@) == w.printed && same_outcome(r.1, out)
            },
{
    let locals = unassigned_slots(checked.locals.len());
    let globals = unassigned_slots(checked.globals.len());
    let mut walker = Walker {
        float,
        locals,
        globals,
        local_names: &checked.locals,
        global_names: &checked.globals,
        printed: Vec::new(),
    };
    proof {
        assert(walker.state().printed =~= Seq::<ValueView>::empty());
        assert(walker.state() =~= fresh(*checked));
    }
    let out = walker.block(&checked.stmts);
    (walker.printed, out)
}

// ------------------------------------------------- checking the slot ranges

fn expr_in_frame(e: &TExpr, nl: usize, ng: usize) -> (r: bool)
    ensures
        r == expr_fits(texpr_view(*e), nl as nat, ng as nat),
    decreases e,
{
    match e {
        TExpr::Const(..) => true,
        TExpr::Load(p, _) => place_in_frame(*p, nl, ng),
        TExpr::Neg(inner, _) => expr_in_frame(inner, nl, ng),
        TExpr::Bin { lhs, rhs, .. } => expr_in_frame(lhs, nl, ng) && expr_in_frame(rhs, nl, ng),
    }
}

fn place_in_frame(p: Place, nl: usize, ng: usize) -> (r: bool)
    ensures
        r == place_fits(p, nl as nat, ng as nat),
{
    match p {
        Place::Local(n) => (n as usize) < nl,
        Place::Global(n) => (n as usize) < ng,
    }
}

fn stmt_in_frame(s: &TStmt, nl: usize, ng: usize) -> (r: bool)
    ensures
        r == stmt_fits(tstmt_view(*s), nl as nat, ng as nat),
    decreases *s, 1nat,
{
    match s {
        TStmt::Store { place, value, .. } => place_in_frame(*place, nl, ng) && expr_in_frame(value, nl, ng),
        TStmt::Print { items, line } => {
            let ghost iv = texprs_view(items@);
            proof {
                assert(tstmt_view(*s) == (TStmtView::Print { items: iv, line: *line }));
                assert(stmt_fits(tstmt_view(*s), nl as nat, ng as nat) == items_fit(iv, nl as nat, ng as nat));
            }
            let mut i: usize = 0;
            while i < items.len()
                invariant
                    i <= items@.len(),
                    iv == texprs_view(items@),
                    stmt_fits(tstmt_view(*s), nl as nat, ng as nat) == items_fit(iv, nl as nat, ng as nat),
                    forall|k: int| 0 <= k < i ==> #[trigger] expr_fits(iv[k], nl as nat, ng as nat),
                decreases items@.len() - i,
            {
                if !expr_in_frame(&items[i], nl, ng) {
                    proof {
                        assert(iv[i as int] == texpr_view(items@[i as int]));
                        assert(!items_fit(iv, nl as nat, ng as nat));
                    }
                    return false;
                }
                i = i + 1;
            }
            true
        },
        TStmt::If { arms, else_arm, .. } => {
            proof {
                assert(decreases_to!(*s => (*s)->arms));
                assert(decreases_to!(*arms => arms@));
                assert(decreases_to!(*s => (*s)->else_arm));
                assert(decreases_to!(*else_arm => else_arm@));
            }
            arms_in_frame(arms, nl, ng) && block_in_frame(else_arm, nl, ng)
        },
    }
}

fn arms_in_frame(arms: &Vec<TIfArm>, nl: usize, ng: usize) -> (r: bool)
    ensures
        r == arms_fit(arms_view(arms@), nl as nat, ng as nat),
    decreases arms@, 0nat,
{
    let ghost av = arms_view(arms@);
    let ghost n = arms@.len() as int;
    proof {
        lemma_arms_index(arms@);
        assert(av.subrange(0, n) =~= av);
    }
    let mut i: usize = 0;
    while i < arms.len()
        invariant
            i <= n,
            n == arms@.len(),
            av == arms_view(arms@),
            av.len() == n,
            forall|k: int|
                0 <= k < n ==> #[trigger] av[k] == (texpr_view(arms@[k].cond), tstmts_view(arms@[k].body@)),
            arms_fit(av, nl as nat, ng as nat) == arms_fit(av.subrange(i as int, n), nl as nat, ng as nat),
        decreases n - i,
    {
        proof {
            let rest = av.subrange(i as int, n);
            assert(rest[0] == av[i as int]);
            assert(rest.subrange(1, rest.len() as int) =~= av.subrange(i + 1, n));
            assert(decreases_to!(arms@ => arms@[i as int]));
            assert(decreases_to!(arms@[i as int] => arms@[i as int].body));
            assert(decreases_to!(arms@[i as int].body => arms@[i as int].body@));
        }
        if !expr_in_frame(&arms[i].cond, nl, ng) || !block_in_frame(&arms[i].body, nl, ng) {
            return false;
        }
        i = i + 1;
    }
    proof {
        assert(av.subrange(n, n) =~= Seq::<(TExprView, Seq<TStmtView>)>::empty());
    }
    true
}

fn block_in_frame(v: &Vec<TStmt>, nl: usize, ng: usize) -> (r: bool)
    ensures
        r == block_fits(tstmts_view(v@), nl as nat, ng as nat),
    decreases v@, 0nat,
{
    let ghost sv = tstmts_view(v@);
    let ghost n = v@.len() as int;
    proof {
        lemma_tstmts_index(v@);
        assert(sv.subrange(0, n) =~= sv);
    }
    let mut i: usize = 0;
    while i < v.len()
        invariant
            i <= n,
            n == v@.len(),
            sv == tstmts_view(v@),
            sv.len() == n,
            forall|k: int| 0 <= k < n ==> #[trigger] sv[k] == tstmt_view(v@[k]),
            block_fits(sv, nl as nat, ng as nat) == block_fits(sv.subrange(i as int, n), nl as nat, ng as nat),
        decreases n - i,
    {
        proof {
            let rest = sv.subrange(i as int, n);
            assert(rest[0] == sv[i as int]);
            assert(rest.subrange(1, rest.len() as int) =~= sv.subrange(i + 1, n));
            assert(decreases_to!(v@ => v@[i as int]));
        }
        if !stmt_in_frame(&v[i], nl, ng) {
            return false;
        }
        i = i + 1;
    }
    proof {
        assert(sv.subrange(n, n) =~= Seq::<TStmtView>::empty());
    }
    true
}

/// Whether every place a checked program reads or writes lies inside its
/// frame: the condition `run` asks. A program the checker accepted has it.
pub fn in_frame(checked: &Checked) -> (r: bool)
    ensures
        r == block_fits(tstmts_view(checked.stmts@), checked.locals.len() as nat, checked.globals.len() as nat),
{
    block_in_frame(&checked.stmts, checked.locals.len(), checked.globals.len())
}

} // verus!
