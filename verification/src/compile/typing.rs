//! Every program the checker accepts is well typed: there are types for its
//! slots under which each place it names exists and each expression has the
//! type it claims.
use vstd::prelude::*;
use vstd::string::StringSliceAdditionalSpecFns;

use crate::bytecode::chunk::ConstView;
use crate::bytecode::value::RtType;
use crate::compile::agree::{
    answers_in_kind, global_types, lemma_compiled_agrees_with_interpreted, machine_agrees, of_kind, place_ok, place_type,
    typed_arms, typed_block, typed_expr, typed_stmt,
};
use crate::compile::codegen::program_size;
use crate::compile::front_end;
use crate::interp::walk::FloatWork;
use crate::syntax::ast::stmts_view;
use crate::syntax::parser::parsed;
use crate::compile::laws::{const_fits, lemma_literal_fits};
use crate::compile::literal::FloatReading;
use crate::compile::typeck::{
    check_arm, check_arms, check_block, check_expr, check_items, check_stmt, enter, find, find_in, leave,
    texpr_type, with_error, accepted, initial_state, program_check, tstmts_view, Binding, CheckState, Checked,
    ScopeView, TExprView, TStmtView,
};
use crate::syntax::ast::{comparison, Expr, IfArm, Stmt};
use crate::vm::value_of;

verus! {

/// Every binding in the open scopes names a place in the frame, at the type
/// the frame gives it.
pub open spec fn consistent(scopes: Seq<ScopeView>, lt: Seq<RtType>, gt: Seq<RtType>) -> bool {
    forall|i: int, j: int|
        0 <= i < scopes.len() && 0 <= j < scopes[i].len() ==> {
            let b = #[trigger] scopes[i][j].1;
            place_ok(b.place, lt, gt) && place_type(b.place, lt, gt) == b.ty
        }
}

/// The types of the globals declared so far.
pub open spec fn global_types_of(g: Seq<(Seq<char>, RtType, bool)>) -> Seq<RtType> {
    g.map_values(|x: (Seq<char>, RtType, bool)| x.1)
}

/// `b` extends `a`.
pub open spec fn extends_types(a: Seq<RtType>, b: Seq<RtType>) -> bool {
    a.len() <= b.len() && forall|i: int| 0 <= i < a.len() ==> #[trigger] b[i] == a[i]
}

/// What the checker holds fits slot types `lt`.
pub open spec fn fits_state(st: CheckState, lt: Seq<RtType>) -> bool {
    &&& lt.len() == st.locals.len()
    &&& consistent(st.scopes, lt, global_types_of(st.globals))
}

proof fn lemma_const_kind(c: ConstView, t: RtType)
    requires
        const_fits(c, t),
    ensures
        of_kind(value_of(c), t),
{
}

proof fn lemma_find_in(scope: ScopeView, name: Seq<char>)
    ensures
        find_in(scope, name) matches Some(b) ==> exists|j: int| 0 <= j < scope.len() && scope[j].1 == b,
    decreases scope.len(),
{
    if scope.len() > 0 && scope.last().0 != name {
        lemma_find_in(scope.drop_last(), name);
        if let Some(b) = find_in(scope.drop_last(), name) {
            let j = choose|j: int| 0 <= j < scope.drop_last().len() && scope.drop_last()[j].1 == b;
            assert(scope[j].1 == b);
        }
    } else if scope.len() > 0 {
        assert(scope[scope.len() - 1].1 == scope.last().1);
    }
}

proof fn lemma_find(scopes: Seq<ScopeView>, name: Seq<char>, lt: Seq<RtType>, gt: Seq<RtType>)
    requires
        consistent(scopes, lt, gt),
    ensures
        find(scopes, name) matches Some(b) ==> place_ok(b.place, lt, gt) && place_type(b.place, lt, gt) == b.ty,
    decreases scopes.len(),
{
    if scopes.len() > 0 {
        let last = scopes.len() - 1;
        lemma_find_in(scopes.last(), name);
        if let Some(b) = find_in(scopes.last(), name) {
            let j = choose|j: int| 0 <= j < scopes.last().len() && scopes.last()[j].1 == b;
            assert(scopes[last][j].1 == b);
        } else {
            let rest = scopes.drop_last();
            assert forall|i: int, j: int| 0 <= i < rest.len() && 0 <= j < rest[i].len() implies {
                let b = #[trigger] rest[i][j].1;
                place_ok(b.place, lt, gt) && place_type(b.place, lt, gt) == b.ty
            } by {
                assert(rest[i] == scopes[i]);
            }
            lemma_find(rest, name, lt, gt);
        }
    }
}

/// An expression that checks is typed, under any slot types the scopes fit.
pub proof fn lemma_expr_typed(
    scopes: Seq<ScopeView>,
    floats: Seq<FloatReading>,
    e: Expr,
    expected: RtType,
    lt: Seq<RtType>,
    gt: Seq<RtType>,
)
    requires
        consistent(scopes, lt, gt),
    ensures
        check_expr(scopes, floats, e, expected) matches Ok(t) ==> texpr_type(t) == expected && typed_expr(t, lt, gt),
    decreases e,
{
    reveal(check_expr);
    match e {
        Expr::Literal { text, .. } => {
            lemma_literal_fits(text@, expected, floats);
            if let Ok(TExprView::Const(c, t)) = check_expr(scopes, floats, e, expected) {
                lemma_const_kind(c, t);
            }
        },
        Expr::TypedLiteral { text, .. } => {
            lemma_literal_fits(text@, expected, floats);
            if let Ok(TExprView::Const(c, t)) = check_expr(scopes, floats, e, expected) {
                lemma_const_kind(c, t);
            }
        },
        Expr::Ident(n) => {
            lemma_find(scopes, n.text@, lt, gt);
        },
        Expr::Group { inner, .. } => {
            lemma_expr_typed(scopes, floats, *inner, expected, lt, gt);
        },
        Expr::Unary { operand, .. } => {
            lemma_expr_typed(scopes, floats, *operand, expected, lt, gt);
        },
        Expr::Binary { op, lhs, rhs, .. } => {
            if comparison(op) {
                let side = match crate::compile::typeck::probe(scopes, *lhs) {
                    Some(t) => Some(t),
                    None => crate::compile::typeck::probe(scopes, *rhs),
                };
                if let Some(t) = side {
                    lemma_expr_typed(scopes, floats, *lhs, t, lt, gt);
                    lemma_expr_typed(scopes, floats, *rhs, t, lt, gt);
                }
            } else {
                lemma_expr_typed(scopes, floats, *lhs, expected, lt, gt);
                lemma_expr_typed(scopes, floats, *rhs, expected, lt, gt);
            }
        },
        _ => {},
    }
}

proof fn lemma_items_typed(
    scopes: Seq<ScopeView>,
    floats: Seq<FloatReading>,
    items: Seq<Expr>,
    lt: Seq<RtType>,
    gt: Seq<RtType>,
)
    requires
        consistent(scopes, lt, gt),
    ensures
        check_items(scopes, floats, items) matches Ok(ts) ==> forall|k: int|
            0 <= k < ts.len() ==> #[trigger] typed_expr(ts[k], lt, gt),
    decreases items.len(),
{
    reveal(check_items);
    if items.len() > 0 {
        lemma_items_typed(scopes, floats, items.drop_last(), lt, gt);
        let ty = match crate::compile::typeck::probe(scopes, items.last()) {
            Some(t) => t,
            None => RtType::Str,
        };
        lemma_expr_typed(scopes, floats, items.last(), ty, lt, gt);
    }
}

// ------------------------------------------------------------ more slots

proof fn lemma_mono_expr(e: TExprView, lt: Seq<RtType>, gt: Seq<RtType>, lt2: Seq<RtType>, gt2: Seq<RtType>)
    requires
        typed_expr(e, lt, gt),
        extends_types(lt, lt2),
        extends_types(gt, gt2),
    ensures
        typed_expr(e, lt2, gt2),
    decreases e,
{
    match e {
        TExprView::Neg(inner, _) => lemma_mono_expr(*inner, lt, gt, lt2, gt2),
        TExprView::Bin { lhs, rhs, .. } => {
            lemma_mono_expr(*lhs, lt, gt, lt2, gt2);
            lemma_mono_expr(*rhs, lt, gt, lt2, gt2);
        },
        _ => {},
    }
}

proof fn lemma_mono_stmt(s: TStmtView, lt: Seq<RtType>, gt: Seq<RtType>, lt2: Seq<RtType>, gt2: Seq<RtType>)
    requires
        typed_stmt(s, lt, gt),
        extends_types(lt, lt2),
        extends_types(gt, gt2),
    ensures
        typed_stmt(s, lt2, gt2),
    decreases s, 1nat,
{
    match s {
        TStmtView::Store { value, .. } => lemma_mono_expr(value, lt, gt, lt2, gt2),
        TStmtView::Print { items, .. } => {
            assert forall|k: int| 0 <= k < items.len() implies #[trigger] typed_expr(items[k], lt2, gt2) by {
                lemma_mono_expr(items[k], lt, gt, lt2, gt2);
            }
        },
        TStmtView::If { arms, else_arm, .. } => {
            lemma_mono_arms(arms, lt, gt, lt2, gt2);
            lemma_mono_block(else_arm, lt, gt, lt2, gt2);
        },
    }
}

proof fn lemma_mono_arms(
    arms: Seq<(TExprView, Seq<TStmtView>)>,
    lt: Seq<RtType>,
    gt: Seq<RtType>,
    lt2: Seq<RtType>,
    gt2: Seq<RtType>,
)
    requires
        typed_arms(arms, lt, gt),
        extends_types(lt, lt2),
        extends_types(gt, gt2),
    ensures
        typed_arms(arms, lt2, gt2),
    decreases arms, 0nat,
{
    if arms.len() > 0 {
        let i = arms.len() - 1;
        assert(decreases_to!(arms => arms[i]));
        assert(decreases_to!(arms[i] => arms[i].1));
        lemma_mono_arms(arms.subrange(0, i), lt, gt, lt2, gt2);
        lemma_mono_expr(arms[i].0, lt, gt, lt2, gt2);
        lemma_mono_block(arms[i].1, lt, gt, lt2, gt2);
    }
}

proof fn lemma_mono_block(v: Seq<TStmtView>, lt: Seq<RtType>, gt: Seq<RtType>, lt2: Seq<RtType>, gt2: Seq<RtType>)
    requires
        typed_block(v, lt, gt),
        extends_types(lt, lt2),
        extends_types(gt, gt2),
    ensures
        typed_block(v, lt2, gt2),
    decreases v, 0nat,
{
    if v.len() > 0 {
        lemma_mono_block(v.subrange(0, v.len() - 1), lt, gt, lt2, gt2);
        lemma_mono_stmt(v[v.len() - 1], lt, gt, lt2, gt2);
    }
}

proof fn lemma_consistent_mono(scopes: Seq<ScopeView>, lt: Seq<RtType>, gt: Seq<RtType>, lt2: Seq<RtType>, gt2: Seq<RtType>)
    requires
        consistent(scopes, lt, gt),
        extends_types(lt, lt2),
        extends_types(gt, gt2),
    ensures
        consistent(scopes, lt2, gt2),
{
    assert forall|i: int, j: int| 0 <= i < scopes.len() && 0 <= j < scopes[i].len() implies {
        let b = #[trigger] scopes[i][j].1;
        place_ok(b.place, lt2, gt2) && place_type(b.place, lt2, gt2) == b.ty
    } by {
        let b = scopes[i][j].1;
        assert(place_ok(b.place, lt, gt) && place_type(b.place, lt, gt) == b.ty);
    }
}

proof fn lemma_enter_leave(st: CheckState, lt: Seq<RtType>)
    requires
        fits_state(st, lt),
    ensures
        fits_state(enter(st), lt),
        st.scopes.len() > 0 ==> fits_state(leave(st), lt),
{
    let gt = global_types_of(st.globals);
    let e = enter(st).scopes;
    assert forall|i: int, j: int| 0 <= i < e.len() && 0 <= j < e[i].len() implies {
        let b = #[trigger] e[i][j].1;
        place_ok(b.place, lt, gt) && place_type(b.place, lt, gt) == b.ty
    } by {
        assert(i < st.scopes.len());
        assert(e[i] == st.scopes[i]);
    }
    let l = leave(st).scopes;
    if st.scopes.len() > 0 {
    assert forall|i: int, j: int| 0 <= i < l.len() && 0 <= j < l[i].len() implies {
        let b = #[trigger] l[i][j].1;
        place_ok(b.place, lt, gt) && place_type(b.place, lt, gt) == b.ty
    } by {
        assert(l[i] == st.scopes[i]);
    }
    }
}

// ---------------------------------------------------------------- checking

/// From `st` with slot types `lt` the checker reached `st2`, whose slot
/// types `lt2` carry on from `lt`, with globals carrying on too and as many
/// scopes open.
pub open spec fn grew(st: CheckState, st2: CheckState, lt: Seq<RtType>, lt2: Seq<RtType>) -> bool {
    &&& extends_types(lt, lt2)
    &&& fits_state(st2, lt2)
    &&& extends_types(global_types_of(st.globals), global_types_of(st2.globals))
    &&& st2.scopes.len() == st.scopes.len()
}

/// Checking only adds slots and globals.
pub open spec fn counts_grow(st: CheckState, st2: CheckState) -> bool {
    st.locals.len() <= st2.locals.len() && st.globals.len() <= st2.globals.len()
}

/// Slot and global numbers that fit a `u32`.
pub open spec fn counts_fit(st: CheckState) -> bool {
    st.locals.len() <= u32::MAX && st.globals.len() <= u32::MAX
}

proof fn lemma_counts_stmt(st: CheckState, src: Seq<u8>, floats: Seq<FloatReading>, s: Stmt)
    ensures
        counts_grow(st, check_stmt(st, src, floats, s).0),
    decreases s, 0nat,
{
    reveal(check_stmt);
    reveal(check_arms);
    reveal(check_arm);
    reveal(check_block);
    if let Stmt::If { arms, else_arm, .. } = s {
        lemma_counts_arms(st, src, floats, arms@);
        let st1 = check_arms(st, src, floats, arms@).0;
        lemma_counts_block(enter(st1), src, floats, else_arm@);
    }
}

proof fn lemma_counts_arms(st: CheckState, src: Seq<u8>, floats: Seq<FloatReading>, arms: Seq<IfArm>)
    ensures
        counts_grow(st, check_arms(st, src, floats, arms).0),
    decreases arms, 0nat,
{
    reveal(check_stmt);
    reveal(check_arms);
    reveal(check_arm);
    reveal(check_block);
    if arms.len() > 0 {
        let init = arms.subrange(0, arms.len() - 1);
        lemma_counts_arms(st, src, floats, init);
        let (st1, done) = check_arms(st, src, floats, init);
        lemma_counts_arm(st1, src, floats, arms[arms.len() - 1], done);
    }
}

proof fn lemma_counts_arm(
    st: CheckState,
    src: Seq<u8>,
    floats: Seq<FloatReading>,
    arm: IfArm,
    done: Seq<(TExprView, Seq<TStmtView>)>,
)
    ensures
        counts_grow(st, check_arm(st, src, floats, arm, done).0),
    decreases arm, 0nat,
{
    reveal(check_stmt);
    reveal(check_arms);
    reveal(check_arm);
    reveal(check_block);
    let cond_ty = match crate::compile::typeck::probe(st.scopes, arm.cond) {
        Some(t) => t,
        None => RtType::Bool,
    };
    let st0 = if cond_ty != RtType::Bool {
        with_error(st, crate::compile::typeck::condition_error(crate::syntax::ast::expr_span(arm.cond), cond_ty))
    } else {
        match check_expr(st.scopes, floats, arm.cond, RtType::Bool) {
            Ok(_) => st,
            Err(d) => with_error(st, d),
        }
    };
    lemma_counts_block(enter(st0), src, floats, arm.body@);
}

proof fn lemma_counts_block(st: CheckState, src: Seq<u8>, floats: Seq<FloatReading>, stmts: Seq<Stmt>)
    ensures
        counts_grow(st, check_block(st, src, floats, stmts).0),
    decreases stmts, 0nat,
{
    reveal(check_stmt);
    reveal(check_arms);
    reveal(check_arm);
    reveal(check_block);
    if stmts.len() > 0 {
        let init = stmts.subrange(0, stmts.len() - 1);
        lemma_counts_block(st, src, floats, init);
        let st1 = check_block(st, src, floats, init).0;
        lemma_counts_stmt(st1, src, floats, stmts[stmts.len() - 1]);
    }
}

proof fn lemma_grew_trans(a: CheckState, b: CheckState, c: CheckState, la: Seq<RtType>, lb: Seq<RtType>, lc: Seq<RtType>)
    requires
        grew(a, b, la, lb),
        grew(b, c, lb, lc),
    ensures
        grew(a, c, la, lc),
{
}

proof fn lemma_stmt_checked(st: CheckState, src: Seq<u8>, floats: Seq<FloatReading>, s: Stmt, lt: Seq<RtType>)
    requires
        fits_state(st, lt),
        st.scopes.len() > 0,
        counts_fit(check_stmt(st, src, floats, s).0),
    ensures
        exists|lt2: Seq<RtType>|
            #[trigger] grew(st, check_stmt(st, src, floats, s).0, lt, lt2) && (check_stmt(st, src, floats, s).1 matches Ok(
                t,
            ) ==> typed_stmt(t, lt2, global_types_of(check_stmt(st, src, floats, s).0.globals))),
    decreases s, 0nat,
{
    reveal(check_stmt);
    reveal(check_arms);
    reveal(check_arm);
    reveal(check_block);
    let gt = global_types_of(st.globals);
    let r = check_stmt(st, src, floats, s);
    match s {
        Stmt::Var { modifier, ty, name, value, .. } => {
            match crate::bytecode::value::type_named(ty.text@) {
                None => {
                    assert(grew(st, r.0, lt, lt));
                },
                Some(declared) => {
                    lemma_expr_typed(st.scopes, floats, value, declared, lt, gt);
                    match check_expr(st.scopes, floats, value, declared) {
                        Err(d) => {
                            assert(grew(st, r.0, lt, lt));
                        },
                        Ok(v) => {
                            if find(st.scopes, name.text@) is Some {
                                assert(grew(st, r.0, lt, lt));
                            } else {
                                let last = st.scopes.len() - 1;
                                let st2 = r.0;
                                if modifier is None {
                                    let lt2 = lt.push(declared);
                                    let b = Binding {
                                        place: crate::compile::typeck::Place::Local(st.locals.len() as u32),
                                        ty: declared,
                                        declared_at: name.span,
                                    };
                                    assert(extends_types(lt, lt2));
                                    assert(global_types_of(st2.globals) =~= gt);
                                    assert(extends_types(gt, gt));
                                    lemma_consistent_mono(st.scopes, lt, gt, lt2, gt);
                                    assert forall|i: int, j: int| 0 <= i < st2.scopes.len() && 0 <= j < st2.scopes[i].len() implies {
                                        let bb = #[trigger] st2.scopes[i][j].1;
                                        place_ok(bb.place, lt2, gt) && place_type(bb.place, lt2, gt) == bb.ty
                                    } by {
                                        if i == last && j == st.scopes[last].len() {
                                            assert(st2.scopes[i][j].1 == b);
                                        } else if i == last {
                                            assert(st2.scopes[i][j] == st.scopes[i][j]);
                                            assert(place_ok(st.scopes[i][j].1.place, lt2, gt));
                                        } else {
                                            assert(st2.scopes[i] == st.scopes[i]);
                                            assert(place_ok(st.scopes[i][j].1.place, lt2, gt));
                                        }
                                    }
                                    lemma_mono_expr(v, lt, gt, lt2, gt);
                                    assert(grew(st, st2, lt, lt2) && typed_stmt(r.1->Ok_0, lt2, gt));
                                } else {
                                    let gt2 = global_types_of(st2.globals);
                                    assert(gt2 =~= gt.push(declared));
                                    assert(extends_types(gt, gt2));
                                    assert(extends_types(lt, lt));
                                    let b = Binding {
                                        place: crate::compile::typeck::Place::Global(st.globals.len() as u32),
                                        ty: declared,
                                        declared_at: name.span,
                                    };
                                    lemma_consistent_mono(st.scopes, lt, gt, lt, gt2);
                                    assert forall|i: int, j: int| 0 <= i < st2.scopes.len() && 0 <= j < st2.scopes[i].len() implies {
                                        let bb = #[trigger] st2.scopes[i][j].1;
                                        place_ok(bb.place, lt, gt2) && place_type(bb.place, lt, gt2) == bb.ty
                                    } by {
                                        if i == last && j == st.scopes[last].len() {
                                            assert(st2.scopes[i][j].1 == b);
                                        } else if i == last {
                                            assert(st2.scopes[i][j] == st.scopes[i][j]);
                                            assert(place_ok(st.scopes[i][j].1.place, lt, gt2));
                                        } else {
                                            assert(st2.scopes[i] == st.scopes[i]);
                                            assert(place_ok(st.scopes[i][j].1.place, lt, gt2));
                                        }
                                    }
                                    lemma_mono_expr(v, lt, gt, lt, gt2);
                                    assert(grew(st, st2, lt, lt) && typed_stmt(r.1->Ok_0, lt, gt2));
                                }
                            }
                        },
                    }
                },
            }
        },
        Stmt::Assign { name, value, .. } => {
            lemma_find(st.scopes, name.text@, lt, gt);
            if let Some(b) = find(st.scopes, name.text@) {
                lemma_expr_typed(st.scopes, floats, value, b.ty, lt, gt);
            }
            assert(extends_types(lt, lt));
            assert(extends_types(gt, gt));
            assert(grew(st, r.0, lt, lt) && (r.1 matches Ok(t) ==> typed_stmt(t, lt, gt)));
        },
        Stmt::Print { items, .. } => {
            lemma_items_typed(st.scopes, floats, items@, lt, gt);
            assert(extends_types(lt, lt));
            assert(extends_types(gt, gt));
            assert(grew(st, r.0, lt, lt) && (r.1 matches Ok(t) ==> typed_stmt(t, lt, gt)));
        },
        Stmt::If { arms, else_arm, .. } => {
            lemma_counts_arms(st, src, floats, arms@);
            let (st1, tarms) = check_arms(st, src, floats, arms@);
            lemma_counts_block(enter(st1), src, floats, else_arm@);
            lemma_arms_checked(st, src, floats, arms@, lt);
            let l1 = choose|l1: Seq<RtType>| #[trigger] grew(st, st1, lt, l1) && typed_arms(tarms, l1, global_types_of(st1.globals));
            lemma_enter_leave(st1, l1);
            lemma_block_checked(enter(st1), src, floats, else_arm@, l1);
            let (st2, telse) = check_block(enter(st1), src, floats, else_arm@);
            let l2 = choose|l2: Seq<RtType>| #[trigger] grew(enter(st1), st2, l1, l2) && typed_block(telse, l2, global_types_of(st2.globals));
            lemma_enter_leave(st2, l2);
            lemma_mono_arms(tarms, l1, global_types_of(st1.globals), l2, global_types_of(st2.globals));
            assert(grew(st, leave(st2), lt, l2) && typed_stmt(r.1->Ok_0, l2, global_types_of(leave(st2).globals)));
        },
    }
}

proof fn lemma_arms_checked(
    st: CheckState,
    src: Seq<u8>,
    floats: Seq<FloatReading>,
    arms: Seq<IfArm>,
    lt: Seq<RtType>,
)
    requires
        fits_state(st, lt),
        st.scopes.len() > 0,
        counts_fit(check_arms(st, src, floats, arms).0),
    ensures
        exists|lt2: Seq<RtType>|
            #[trigger] grew(st, check_arms(st, src, floats, arms).0, lt, lt2) && typed_arms(
                check_arms(st, src, floats, arms).1,
                lt2,
                global_types_of(check_arms(st, src, floats, arms).0.globals),
            ),
    decreases arms, 0nat,
{
    reveal(check_stmt);
    reveal(check_arms);
    reveal(check_arm);
    reveal(check_block);
    if arms.len() == 0 {
        assert(extends_types(lt, lt));
        assert(extends_types(global_types_of(st.globals), global_types_of(st.globals)));
        assert(grew(st, st, lt, lt) && typed_arms(Seq::<(TExprView, Seq<TStmtView>)>::empty(), lt, global_types_of(st.globals)));
    } else {
        let init = arms.subrange(0, arms.len() - 1);
        let (st1, done) = check_arms(st, src, floats, init);
        lemma_counts_arm(st1, src, floats, arms[arms.len() - 1], done);
        lemma_arms_checked(st, src, floats, init, lt);
        let l1 = choose|l1: Seq<RtType>| #[trigger] grew(st, st1, lt, l1) && typed_arms(done, l1, global_types_of(st1.globals));
        lemma_arm_checked(st1, src, floats, arms[arms.len() - 1], done, l1);
        let r = check_arm(st1, src, floats, arms[arms.len() - 1], done);
        let l2 = choose|l2: Seq<RtType>| #[trigger] grew(st1, r.0, l1, l2) && typed_arms(r.1, l2, global_types_of(r.0.globals));
        lemma_grew_trans(st, st1, r.0, lt, l1, l2);
        assert(grew(st, r.0, lt, l2) && typed_arms(r.1, l2, global_types_of(r.0.globals)));
    }
}

proof fn lemma_arm_checked(
    st: CheckState,
    src: Seq<u8>,
    floats: Seq<FloatReading>,
    arm: IfArm,
    done: Seq<(TExprView, Seq<TStmtView>)>,
    lt: Seq<RtType>,
)
    requires
        fits_state(st, lt),
        st.scopes.len() > 0,
        typed_arms(done, lt, global_types_of(st.globals)),
        counts_fit(check_arm(st, src, floats, arm, done).0),
    ensures
        exists|lt2: Seq<RtType>|
            #[trigger] grew(st, check_arm(st, src, floats, arm, done).0, lt, lt2) && typed_arms(
                check_arm(st, src, floats, arm, done).1,
                lt2,
                global_types_of(check_arm(st, src, floats, arm, done).0.globals),
            ),
    decreases arm, 0nat,
{
    reveal(check_stmt);
    reveal(check_arms);
    reveal(check_arm);
    reveal(check_block);
    let gt = global_types_of(st.globals);
    let cond_ty = match crate::compile::typeck::probe(st.scopes, arm.cond) {
        Some(t) => t,
        None => RtType::Bool,
    };
    lemma_expr_typed(st.scopes, floats, arm.cond, RtType::Bool, lt, gt);
    let good = cond_ty == RtType::Bool && check_expr(st.scopes, floats, arm.cond, RtType::Bool) is Ok;
    let st0 = if cond_ty != RtType::Bool {
        with_error(st, crate::compile::typeck::condition_error(crate::syntax::ast::expr_span(arm.cond), cond_ty))
    } else {
        match check_expr(st.scopes, floats, arm.cond, RtType::Bool) {
            Ok(_) => st,
            Err(d) => with_error(st, d),
        }
    };
    assert(fits_state(st0, lt));
    lemma_enter_leave(st0, lt);
    lemma_block_checked(enter(st0), src, floats, arm.body@, lt);
    let (st3, body) = check_block(enter(st0), src, floats, arm.body@);
    let l3 = choose|l3: Seq<RtType>| #[trigger] grew(enter(st0), st3, lt, l3) && typed_block(body, l3, global_types_of(st3.globals));
    lemma_enter_leave(st3, l3);
    let g3 = global_types_of(st3.globals);
    lemma_mono_arms(done, lt, gt, l3, g3);
    assert(global_types_of(st0.globals) == gt);
    let r = check_arm(st, src, floats, arm, done);
    if good {
        let c = check_expr(st.scopes, floats, arm.cond, RtType::Bool)->Ok_0;
        lemma_mono_expr(c, lt, gt, l3, g3);
        let res = done.push((c, body));
        assert(res.subrange(0, res.len() - 1) =~= done);
        assert(typed_arms(res, l3, g3));
    }
    assert(grew(st, leave(st3), lt, l3));
    assert(grew(st, r.0, lt, l3) && typed_arms(r.1, l3, global_types_of(r.0.globals)));
}

proof fn lemma_block_checked(st: CheckState, src: Seq<u8>, floats: Seq<FloatReading>, stmts: Seq<Stmt>, lt: Seq<RtType>)
    requires
        fits_state(st, lt),
        st.scopes.len() > 0,
        counts_fit(check_block(st, src, floats, stmts).0),
    ensures
        exists|lt2: Seq<RtType>|
            #[trigger] grew(st, check_block(st, src, floats, stmts).0, lt, lt2) && typed_block(
                check_block(st, src, floats, stmts).1,
                lt2,
                global_types_of(check_block(st, src, floats, stmts).0.globals),
            ),
    decreases stmts, 0nat,
{
    reveal(check_stmt);
    reveal(check_arms);
    reveal(check_arm);
    reveal(check_block);
    if stmts.len() == 0 {
        assert(extends_types(lt, lt));
        assert(extends_types(global_types_of(st.globals), global_types_of(st.globals)));
        assert(grew(st, st, lt, lt) && typed_block(Seq::<TStmtView>::empty(), lt, global_types_of(st.globals)));
    } else {
        let init = stmts.subrange(0, stmts.len() - 1);
        let (st1, done) = check_block(st, src, floats, init);
        lemma_counts_stmt(st1, src, floats, stmts[stmts.len() - 1]);
        lemma_block_checked(st, src, floats, init, lt);
        let l1 = choose|l1: Seq<RtType>| #[trigger] grew(st, st1, lt, l1) && typed_block(done, l1, global_types_of(st1.globals));
        lemma_stmt_checked(st1, src, floats, stmts[stmts.len() - 1], l1);
        let (st2, r) = check_stmt(st1, src, floats, stmts[stmts.len() - 1]);
        let l2 = choose|l2: Seq<RtType>| #[trigger] grew(st1, st2, l1, l2) && (r matches Ok(t) ==> typed_stmt(t, l2, global_types_of(st2.globals)));
        lemma_grew_trans(st, st1, st2, lt, l1, l2);
        lemma_mono_block(done, l1, global_types_of(st1.globals), l2, global_types_of(st2.globals));
        let res = check_block(st, src, floats, stmts);
        match r {
            Ok(t) => {
                let out = done.push(t);
                assert(out.subrange(0, out.len() - 1) =~= done);
                assert(grew(st, res.0, lt, l2) && typed_block(res.1, l2, global_types_of(res.0.globals)));
            },
            Err(d) => {
                assert(grew(st, res.0, lt, l2) && typed_block(res.1, l2, global_types_of(res.0.globals)));
            },
        }
    }
}

// ------------------------------------------------------------- programs

/// Every program the checker accepts is well typed: under the types its
/// slots were declared with, each place it names exists and each
/// expression has the type it claims, provided its slots and globals are
/// numbered within a `u32`.
pub proof fn lemma_accepted_is_typed(src: Seq<u8>, floats: Seq<FloatReading>, p: Seq<Stmt>, c: Checked)
    requires
        accepted(src, floats, p, Ok(c)),
        c.locals.len() <= u32::MAX,
        c.globals.len() <= u32::MAX,
    ensures
        exists|lt: Seq<RtType>|
            lt.len() == c.locals.len() && #[trigger] typed_block(tstmts_view(c.stmts@), lt, global_types(c)),
{
    let st0 = initial_state();
    let (st, out) = program_check(src, floats, p);
    assert(consistent(st0.scopes, Seq::empty(), global_types_of(st0.globals)));
    assert(fits_state(st0, Seq::empty()));
    assert(st.locals.len() == c.locals.len());
    assert(st.globals.len() == c.globals.len());
    lemma_block_checked(st0, src, floats, p, Seq::empty());
    let lt = choose|lt: Seq<RtType>| #[trigger] grew(st0, st, Seq::empty(), lt) && typed_block(out, lt, global_types_of(st.globals));
    assert(global_types_of(st.globals) =~= global_types(c));
    assert(lt.len() == c.locals.len() && typed_block(tstmts_view(c.stmts@), lt, global_types(c)));
}

/// The two paths agree on every program the front end accepts: for any
/// float work that answers in kind, the machine running the program's
/// lowered code writes what the interpreter prints, and halts where the
/// interpreter succeeds or faults citing its rule and line where it fails.
/// The program's code fits the format and its slots and globals are
/// numbered within a `u32`, as the format requires.
pub proof fn lemma_accepted_programs_agree(
    src: &str,
    floats: Seq<FloatReading>,
    c: Checked,
    source: Seq<char>,
    fw: FloatWork,
)
    requires
        front_end(src, floats, Ok(c)),
        answers_in_kind(fw),
        program_size(c) + 1 < u32::MAX,
        c.locals.len() <= u32::MAX,
        c.globals.len() <= u32::MAX,
    ensures
        exists|n: nat| #[trigger] machine_agrees(c, source, fw, n),
{
    let p = choose|p: Seq<Stmt>| stmts_view(p) == parsed(src@)->Ok_0 && #[trigger] accepted(src.spec_bytes(), floats, p, Ok(c));
    lemma_accepted_is_typed(src.spec_bytes(), floats, p, c);
    let lt = choose|lt: Seq<RtType>| lt.len() == c.locals.len() && #[trigger] typed_block(tstmts_view(c.stmts@), lt, global_types(c));
    lemma_compiled_agrees_with_interpreted(c, source, lt, fw);
}

} // verus!
