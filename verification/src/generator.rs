//! A generator of Luarus programs, for differential testing.
//!
//! Generation is type-directed: an expression is built to order for a type
//! that is wanted, rather than built freely and checked afterwards. So the
//! generator obeys the language's rules by construction: both operands of an
//! arithmetic expression share a type, a condition is a `bool`, an unsigned
//! value is never negated, comparisons do not chain, a name is declared once
//! and only names still in scope are referenced, and a literal appears bare
//! only where a declared type gives it one.
//!
//! Every choice comes from a seeded generator, so the same seed always gives
//! the same text. `generated` states the text a seed gives.
use vstd::prelude::*;

use crate::bytecode::value::{rt_type_name, signed_int, unsigned_int, RtType};
use crate::num::decimal::{decimal_chars, push_decimal};
use crate::rng::{output, seed_state, step, Rng};
use crate::num::literal::{is_whitespace, white_space};
use crate::text::{chars_of, string_of};

verus! {

// ------------------------------------------------------------ the choices

/// `Rng::below`: the state after, and a number in `0..n`.
pub open spec fn below_of(x: u64, n: nat) -> (u64, nat) {
    if n == 0 {
        (x, 0)
    } else {
        (step(x), (output(step(x)) % (n as u64)) as nat)
    }
}

/// `Rng::chance`: the state after, and whether the chance came up.
pub open spec fn chance_of(x: u64, num: nat, den: nat) -> (u64, bool) {
    if den == 0 {
        (x, num > 0)
    } else {
        (step(x), (output(step(x)) % (den as u64)) < num)
    }
}

/// `Rng::between`: the state after, and a number in `lo..=hi`.
pub open spec fn between_of(x: u64, lo: int, hi: int) -> (u64, int) {
    if hi <= lo {
        (x, lo)
    } else {
        (step(x), lo + output(step(x)) % ((hi - lo + 1) as u64))
    }
}

/// The types worth generating over, weighted by how much they exercise.
pub open spec fn type_table() -> Seq<RtType> {
    seq![
        RtType::I32,
        RtType::I32,
        RtType::I64,
        RtType::I64,
        RtType::F64,
        RtType::F64,
        RtType::Str,
        RtType::Bool,
        RtType::U8,
        RtType::U32,
        RtType::U64,
        RtType::I8,
        RtType::I16,
        RtType::F32,
        RtType::F16,
    ]
}

/// Names that stress the lexer rather than the type checker.
pub open spec fn exotic_table() -> Seq<Seq<char>> {
    seq!["v with spaces"@, "🎯 score"@, "🧑‍🧑‍🧒‍🧒"@, "Δt"@, "a + b end"@, "end"@]
}

/// The text literals.
pub open spec fn word_table() -> Seq<Seq<char>> {
    seq!["a"@, "hi"@, "luarus"@, ""@, "x y"@, "🎯"@, "tab\\there"@]
}

/// The float literal bodies.
pub open spec fn float_table() -> Seq<Seq<char>> {
    seq!["0"@, "1"@, "1.5"@, "0.25"@, "2"@, "10"@, "0.5"@, "3"@]
}

/// The operators of a comparison: all six where the type is ordered.
pub open spec fn comparison_table(ordered: bool) -> Seq<Seq<char>> {
    if ordered {
        seq!["=="@, "!="@, "<"@, "<="@, ">"@, ">="@]
    } else {
        seq!["=="@, "!="@]
    }
}

/// A number in decimal, with a sign when negative.
pub open spec fn signed_chars(v: int) -> Seq<char> {
    if v < 0 {
        "-"@ + decimal_chars((-v) as nat)
    } else {
        decimal_chars(v as nat)
    }
}

/// `n` copies of two spaces.
pub open spec fn indent(n: nat) -> Seq<char>
    decreases n,
{
    if n == 0 {
        Seq::empty()
    } else {
        indent((n - 1) as nat) + "  "@
    }
}

/// Texts joined with `sep` between them.
pub open spec fn joined(parts: Seq<Seq<char>>, sep: Seq<char>) -> Seq<char>
    decreases parts.len(),
{
    if parts.len() == 0 {
        Seq::empty()
    } else if parts.len() == 1 {
        parts[0]
    } else {
        joined(parts.drop_last(), sep) + sep + parts.last()
    }
}

/// How deep a comparison may nest inside another before it is cut short by
/// a plain leaf. Far beyond anything the dice reach.
pub const DEPTH_LIMIT: usize = 1000;

// ------------------------------------------------------------- the state

/// The generator's state: the dice, the scopes of the names declared so
/// far, the next name's number, and the limits it was made with.
pub struct GenView {
    pub rng: u64,
    pub scopes: Seq<Seq<(Seq<char>, RtType)>>,
    pub next_id: nat,
    pub max_depth: nat,
    pub max_block: nat,
}

/// Every name visible, outermost scope first.
pub open spec fn visible(scopes: Seq<Seq<(Seq<char>, RtType)>>) -> Seq<(Seq<char>, RtType)>
    decreases scopes.len(),
{
    if scopes.len() == 0 {
        Seq::empty()
    } else {
        visible(scopes.drop_last()) + scopes.last()
    }
}

/// The names of type `ty` among `vars`, in order.
pub open spec fn names_of(vars: Seq<(Seq<char>, RtType)>, ty: RtType) -> Seq<Seq<char>>
    decreases vars.len(),
{
    if vars.len() == 0 {
        Seq::empty()
    } else if vars.last().1 == ty {
        names_of(vars.drop_last(), ty).push(vars.last().0)
    } else {
        names_of(vars.drop_last(), ty)
    }
}

/// The state with the dice moved on.
pub open spec fn rolled(g: GenView, x: u64) -> GenView {
    GenView { rng: x, ..g }
}

/// A name never used before.
#[verifier::opaque]
pub open spec fn gen_fresh_name(g: GenView) -> (GenView, Seq<char>) {
    let id = g.next_id;
    let g1 = GenView { next_id: if id < usize::MAX { id + 1 } else { id }, ..g };
    let (x1, c) = chance_of(g.rng, 1, 8);
    if c {
        let (x2, k) = below_of(x1, 6);
        (rolled(g1, x2), exotic_table()[k as int] + " "@ + decimal_chars(id))
    } else {
        (rolled(g1, x1), "v"@ + decimal_chars(id))
    }
}

/// A visible name of type `ty`, if there is one.
#[verifier::opaque]
pub open spec fn gen_any_of_type(g: GenView, ty: RtType) -> (GenView, Option<Seq<char>>) {
    let names = names_of(visible(g.scopes), ty);
    if names.len() == 0 {
        (g, None)
    } else {
        let (x, k) = below_of(g.rng, names.len());
        (rolled(g, x), Some(names[k as int]))
    }
}

/// A type that some visible variable already has, for comparisons.
#[verifier::opaque]
pub open spec fn gen_live_type(g: GenView) -> (GenView, Option<RtType>) {
    let vars = visible(g.scopes);
    if vars.len() == 0 {
        (g, None)
    } else {
        let (x, k) = below_of(g.rng, vars.len());
        (rolled(g, x), Some(vars[k as int].1))
    }
}

/// A literal body for `ty`, kept small so that programs usually survive
/// long enough to exercise more than their first statement.
#[verifier::opaque]
pub open spec fn gen_literal(g: GenView, ty: RtType) -> (GenView, Seq<char>) {
    if ty is Bool {
        let (x, c) = chance_of(g.rng, 1, 2);
        (rolled(g, x), if c { "true"@ } else { "false"@ })
    } else if ty is Nil {
        (g, "nil"@)
    } else if ty is Str {
        let (x, k) = below_of(g.rng, 7);
        (rolled(g, x), word_table()[k as int])
    } else if ty is F16 || ty is F32 || ty is F64 {
        let (x1, k) = below_of(g.rng, 8);
        let (x2, c) = chance_of(x1, 1, 6);
        (rolled(g, x2), if c { "-"@ + float_table()[k as int] } else { float_table()[k as int] })
    } else if unsigned_int(ty) {
        let (x, v) = between_of(g.rng, 0, 9);
        (rolled(g, x), signed_chars(v))
    } else {
        let (x1, k) = below_of(g.rng, 12);
        if k == 0 {
            (rolled(g, x1), "0xf"@)
        } else if k == 1 {
            (rolled(g, x1), "0b101"@)
        } else if k == 2 {
            (rolled(g, x1), "1_0"@)
        } else {
            let (x2, v) = between_of(x1, -9, 9);
            (rolled(g, x2), signed_chars(v))
        }
    }
}

/// A leaf: a variable if one is in scope, else a literal. Where nothing
/// around it supplies a type (`bare_ok` false), the literal says its own.
#[verifier::opaque]
pub open spec fn gen_leaf(g: GenView, ty: RtType, bare_ok: bool) -> (GenView, Seq<char>) {
    let (x1, c) = chance_of(g.rng, 3, 5);
    let g1 = rolled(g, x1);
    let (g2, found) = if c { gen_any_of_type(g1, ty) } else { (g1, None) };
    match found {
        Some(name) => (g2, "("@ + name + ")"@),
        None => {
            let (g3, body) = gen_literal(g2, ty);
            let (x4, bare) = if bare_ok { chance_of(g3.rng, 1, 2) } else { (g3.rng, false) };
            if bare {
                (rolled(g3, x4), "'"@ + body + "'"@)
            } else {
                (rolled(g3, x4), rt_type_name(ty) + " '"@ + body + "'"@)
            }
        },
    }
}

/// An expression of type `ty`.
pub open spec fn gen_expr(g: GenView, ty: RtType, depth: nat, bare_ok: bool) -> (GenView, Seq<char>)
    decreases DEPTH_LIMIT - depth, 2nat,
{
    let stop = depth >= g.max_depth || depth >= DEPTH_LIMIT;
    let (x, c) = if stop { (g.rng, true) } else { chance_of(g.rng, 2, 5) };
    let g1 = rolled(g, x);
    if c {
        gen_leaf(g1, ty, bare_ok)
    } else if ty is Bool {
        gen_bool_expr(g1, depth, bare_ok)
    } else if signed_int(ty) || unsigned_int(ty) || ty is F16 || ty is F32 || ty is F64 {
        gen_numeric_expr(g1, ty, depth, bare_ok)
    } else {
        let (g2, inner) = gen_expr(g1, ty, depth + 1, bare_ok);
        (g2, "| "@ + inner + " |"@)
    }
}

/// A numeric expression of type `ty`. Division and remainder are rarer:
/// they end a program more often than they extend it.
pub open spec fn gen_numeric_expr(g: GenView, ty: RtType, depth: nat, bare_ok: bool) -> (GenView, Seq<char>)
    decreases DEPTH_LIMIT - depth, 1nat,
{
    if depth >= DEPTH_LIMIT {
        gen_leaf(g, ty, bare_ok)
    } else {
        let (x, k) = below_of(g.rng, 12);
        let g1 = rolled(g, x);
        if k == 0 {
            let (g2, a) = gen_expr(g1, ty, depth + 1, bare_ok);
            let (g3, b) = gen_expr(g2, ty, depth + 1, bare_ok);
            let (x4, c) = chance_of(g3.rng, 1, 2);
            (rolled(g3, x4), a + " "@ + (if c { "/"@ } else { "%"@ }) + " "@ + b)
        } else if 1 <= k <= 6 {
            let (g2, a) = gen_expr(g1, ty, depth + 1, bare_ok);
            let (g3, b) = gen_expr(g2, ty, depth + 1, bare_ok);
            let (x4, j) = below_of(g3.rng, 3);
            let op = if j == 0 { "+"@ } else if j == 1 { "-"@ } else { "*"@ };
            (rolled(g3, x4), a + " "@ + op + " "@ + b)
        } else if 7 <= k <= 8 && (signed_int(ty) || ty is F16 || ty is F32 || ty is F64) {
            // Negation is only legal on signed and floating types.
            let (g2, inner) = gen_expr(g1, ty, depth + 1, bare_ok);
            (g2, "-| "@ + inner + " |"@)
        } else if 9 <= k <= 10 {
            let (g2, inner) = gen_expr(g1, ty, depth + 1, bare_ok);
            (g2, "| "@ + inner + " |"@)
        } else {
            gen_leaf(g1, ty, bare_ok)
        }
    }
}

/// The type a comparison compares at: mostly one some variable has.
#[verifier::opaque]
pub open spec fn gen_compared_type(g: GenView) -> (GenView, RtType) {
    let (g1, live) = gen_live_type(g);
    let (x2, keep) = if live is Some { chance_of(g1.rng, 2, 3) } else { (g1.rng, false) };
    if keep {
        (rolled(g1, x2), live->0)
    } else {
        let (x3, k) = below_of(x2, 15);
        (rolled(g1, x3), type_table()[k as int])
    }
}

/// A `bool` expression: a leaf, or a comparison of two operands of one type.
pub open spec fn gen_bool_expr(g: GenView, depth: nat, bare_ok: bool) -> (GenView, Seq<char>)
    decreases DEPTH_LIMIT - depth, 1nat,
{
    let (x, c) = chance_of(g.rng, 1, 4);
    let g1 = rolled(g, x);
    if c || depth >= DEPTH_LIMIT {
        gen_leaf(g1, RtType::Bool, bare_ok)
    } else {
        let (g2, ty) = gen_compared_type(g1);
        let ordered = signed_int(ty) || unsigned_int(ty) || ty is F16 || ty is F32 || ty is F64 || ty is Str;
        let ops = comparison_table(ordered);
        let (x3, j) = below_of(g2.rng, ops.len());
        let op = ops[j as int];
        let (x4, same) = chance_of(x3, 1, 5);
        let g4 = rolled(g2, x4);
        let (g5, found) = if same { gen_any_of_type(g4, ty) } else { (g4, None) };
        match found {
            // Equal operands now and then, so `<` and `<=` are told apart.
            Some(name) => (g5, "("@ + name + ") "@ + op + " ("@ + name + ")"@),
            None => {
                let (g6, a) = gen_operand(g5, ty, depth + 1);
                let (g7, b) = gen_operand(g6, ty, depth + 1);
                (g7, a + " "@ + op + " "@ + b)
            },
        }
    }
}

/// One side of a comparison. A `bool` side is grouped when it is itself a
/// comparison, so that comparisons never chain.
pub open spec fn gen_operand(g: GenView, ty: RtType, depth: nat) -> (GenView, Seq<char>)
    decreases DEPTH_LIMIT - depth, 3nat,
{
    if depth > DEPTH_LIMIT {
        (g, Seq::empty())
    } else if !(ty is Bool) {
        gen_expr(g, ty, depth, false)
    } else {
        let (x, c) = chance_of(g.rng, 1, 3);
        let g1 = rolled(g, x);
        if c && depth < DEPTH_LIMIT {
            let (g2, inner) = gen_bool_expr(g1, depth + 1, false);
            (g2, "| "@ + inner + " |"@)
        } else {
            gen_leaf(g1, RtType::Bool, false)
        }
    }
}

// ------------------------------------------------------------ statements

/// Add a variable to the innermost scope.
pub open spec fn add_var(scopes: Seq<Seq<(Seq<char>, RtType)>>, v: (Seq<char>, RtType)) -> Seq<
    Seq<(Seq<char>, RtType)>,
> {
    if scopes.len() == 0 {
        scopes
    } else {
        scopes.update(scopes.len() - 1, scopes.last().push(v))
    }
}

/// Declare a fresh name of type `ty` in the innermost scope.
#[verifier::opaque]
pub open spec fn gen_declare(g: GenView, ty: RtType) -> (GenView, Seq<char>) {
    let (g1, name) = gen_fresh_name(g);
    (GenView { scopes: add_var(g1.scopes, (name, ty)), ..g1 }, name)
}

/// The items of a `print`: `n` more after those in `acc`. A print list
/// supplies no type, so nothing here may be bare; an item that begins with
/// `-` is grouped, or it would read as subtracting from the item before it.
pub open spec fn gen_print_items(g: GenView, n: nat, acc: Seq<Seq<char>>) -> (GenView, Seq<Seq<char>>)
    decreases n,
{
    if n == 0 {
        (g, acc)
    } else {
        let (x, k) = below_of(g.rng, 15);
        let (g2, item) = gen_expr(rolled(g, x), type_table()[k as int], 2, false);
        let item2 = if item.len() > 0 && item[0] == '-' { "| "@ + item + " |"@ } else { item };
        gen_print_items(g2, (n - 1) as nat, acc.push(item2))
    }
}

/// A `print` of one to three items, usually ending the line.
#[verifier::opaque]
pub open spec fn gen_print(g: GenView) -> (GenView, Seq<char>) {
    let (x, k) = below_of(g.rng, 3);
    let (g2, items) = gen_print_items(rolled(g, x), 1 + k, Seq::empty());
    let (x3, nl) = chance_of(g2.rng, 3, 4);
    let all = if nl { items.push("\\n"@) } else { items };
    (rolled(g2, x3), "print["@ + joined(all, " "@) + "]"@)
}

/// A simple statement, without its `end`, so it can be chained.
#[verifier::opaque]
pub open spec fn gen_simple(g: GenView) -> (GenView, Seq<char>) {
    let (x, k) = below_of(g.rng, 10);
    let g1 = rolled(g, x);
    if k <= 4 {
        let (x2, t) = below_of(g1.rng, 15);
        let ty = type_table()[t as int];
        // The declared type gives bare literals somewhere to get one.
        let (g3, value) = gen_expr(rolled(g1, x2), ty, 1, true);
        let (x4, m) = below_of(g3.rng, 12);
        let modifier = if m == 0 { "global "@ } else if m == 1 { "pub "@ } else { ""@ };
        let (g5, name) = gen_declare(rolled(g3, x4), ty);
        (g5, modifier + "var "@ + rt_type_name(ty) + " ("@ + name + ") = "@ + value)
    } else if k <= 6 {
        // Assignment, if there is anything to assign to.
        let live = visible(g1.scopes);
        if live.len() == 0 {
            gen_print(g1)
        } else {
            let (x2, j) = below_of(g1.rng, live.len());
            let v = live[j as int];
            let (g3, value) = gen_expr(rolled(g1, x2), v.1, 1, true);
            (g3, "set ("@ + v.0 + ") = "@ + value)
        }
    } else {
        gen_print(g1)
    }
}

/// `n` more simple statements after those in `acc`.
pub open spec fn gen_simples(g: GenView, n: nat, acc: Seq<Seq<char>>) -> (GenView, Seq<Seq<char>>)
    decreases n,
{
    if n == 0 {
        (g, acc)
    } else {
        let (g1, s) = gen_simple(g);
        gen_simples(g1, (n - 1) as nat, acc.push(s))
    }
}

/// `n` statements at `depth`, one after another.
pub open spec fn gen_stmts(g: GenView, depth: nat, n: nat) -> (GenView, Seq<char>)
    decreases 2 - depth, 5nat, n,
{
    if n == 0 || depth > 2 {
        (g, Seq::empty())
    } else {
        let (g1, s) = gen_statement(g, depth);
        let (g2, rest) = gen_stmts(g1, depth, (n - 1) as nat);
        (g2, s + rest)
    }
}

/// One statement at `depth`: an `if` now and then while shallow,
/// and otherwise a chain of one to three simple statements under one `end`.
pub open spec fn gen_statement(g: GenView, depth: nat) -> (GenView, Seq<char>)
    decreases 2 - depth, 4nat, 0nat,
{
    if depth > 2 {
        (g, Seq::empty())
    } else {
        let pad = indent(depth);
        let (x1, c1) = if depth < 2 { chance_of(g.rng, 1, 5) } else { (g.rng, false) };
        let g1 = rolled(g, x1);
        if c1 {
            gen_if(g1, depth)
        } else {
            let (x3, c3) = chance_of(g1.rng, 1, 5);
            let g3 = rolled(g1, x3);
            let (x4, k) = if c3 { below_of(g3.rng, 2) } else { (g3.rng, 0nat) };
            let n: nat = if c3 { 1 + k } else { 0 };
            let (g5, first) = gen_simple(rolled(g3, x4));
            let (g6, parts) = gen_simples(g5, n, seq![first]);
            (g6, pad + joined(parts, ", "@) + " end\n"@)
        }
    }
}

/// The statements of one arm of an `if`, in a scope of their own.
pub open spec fn gen_arm_body(g: GenView, depth: nat) -> (GenView, Seq<char>)
    decreases 2 - depth, 1nat, 0nat,
{
    if depth >= 2 {
        (g, Seq::empty())
    } else {
        let g1 = GenView { scopes: g.scopes.push(Seq::empty()), ..g };
        let (x, k) = below_of(g1.rng, g.max_block);
        let (g2, body) = gen_stmts(rolled(g1, x), depth + 1, 1 + k);
        (GenView { scopes: g2.scopes.drop_last(), ..g2 }, body)
    }
}

/// `k` more `elseif` arms.
pub open spec fn gen_elseifs(g: GenView, depth: nat, k: nat) -> (GenView, Seq<char>)
    decreases 2 - depth, 2nat, k,
{
    if k == 0 || depth >= 2 {
        (g, Seq::empty())
    } else {
        let (g1, cond) = gen_bool_expr(g, 1, false);
        let (g2, body) = gen_arm_body(g1, depth);
        let (g3, rest) = gen_elseifs(g2, depth, (k - 1) as nat);
        (g3, indent(depth) + "elseif "@ + cond + "\n"@ + body + rest)
    }
}

/// An `if` with its `elseif` and `else` arms, all in one brace pair.
pub open spec fn gen_if(g: GenView, depth: nat) -> (GenView, Seq<char>)
    decreases 2 - depth, 3nat, 0nat,
{
    if depth >= 2 {
        (g, Seq::empty())
    } else {
        let pad = indent(depth);
        let (g1, cond) = gen_bool_expr(g, 1, false);
        let (g2, body) = gen_arm_body(g1, depth);
        let (x3, k) = below_of(g2.rng, 3);
        let (g4, elseifs) = gen_elseifs(rolled(g2, x3), depth, k);
        let (x5, e) = chance_of(g4.rng, 1, 2);
        let g5 = rolled(g4, x5);
        let (g6, els) = if e {
            let (g6, b) = gen_arm_body(g5, depth);
            (g6, pad + "else\n"@ + b)
        } else {
            (g5, Seq::empty())
        };
        (g6, pad + "if "@ + cond + " {\n"@ + body + elseifs + els + pad + "}\n"@)
    }
}

/// The program a seed gives under the given limits.
pub open spec fn gen_program(seed: u64, max_stmts: nat, max_depth: nat, max_block: nat) -> Seq<char> {
    let g = GenView { rng: seed_state(seed), scopes: seq![Seq::empty()], next_id: 0, max_depth, max_block };
    let (x, k) = below_of(g.rng, max_stmts);
    let (g2, body) = gen_stmts(rolled(g, x), 0, 1 + k);
    "-- generated from seed "@ + decimal_chars(seed as nat) + "\n"@ + body + "print[\"end\" \\n] end\n"@
}

/// The program a seed gives under the default limits.
pub open spec fn generated(seed: u64) -> Seq<char> {
    gen_program(seed, 12, 3, 3)
}

// -------------------------------------------------------------- the tables

fn type_at(k: usize) -> (r: RtType)
    requires
        k < 15,
    ensures
        r == type_table()[k as int],
{
    match k {
        0 | 1 => RtType::I32,
        2 | 3 => RtType::I64,
        4 | 5 => RtType::F64,
        6 => RtType::Str,
        7 => RtType::Bool,
        8 => RtType::U8,
        9 => RtType::U32,
        10 => RtType::U64,
        11 => RtType::I8,
        12 => RtType::I16,
        13 => RtType::F32,
        _ => RtType::F16,
    }
}

fn exotic_at(k: usize) -> (r: &'static str)
    requires
        k < 6,
    ensures
        r@ == exotic_table()[k as int],
{
    match k {
        0 => "v with spaces",
        1 => "🎯 score",
        2 => "🧑‍🧑‍🧒‍🧒",
        3 => "Δt",
        4 => "a + b end",
        _ => "end",
    }
}

fn word_at(k: usize) -> (r: &'static str)
    requires
        k < 7,
    ensures
        r@ == word_table()[k as int],
{
    match k {
        0 => "a",
        1 => "hi",
        2 => "luarus",
        3 => "",
        4 => "x y",
        5 => "🎯",
        _ => "tab\\there",
    }
}

fn float_at(k: usize) -> (r: &'static str)
    requires
        k < 8,
    ensures
        r@ == float_table()[k as int],
{
    match k {
        0 => "0",
        1 => "1",
        2 => "1.5",
        3 => "0.25",
        4 => "2",
        5 => "10",
        6 => "0.5",
        _ => "3",
    }
}

fn comparison_at(ordered: bool, k: usize) -> (r: &'static str)
    requires
        k < comparison_table(ordered).len(),
    ensures
        r@ == comparison_table(ordered)[k as int],
{
    match k {
        0 => "==",
        1 => "!=",
        2 => "<",
        3 => "<=",
        4 => ">",
        _ => ">=",
    }
}

/// A number in decimal, with a sign when negative.
fn signed_text(v: i64) -> (r: String)
    ensures
        r@ == signed_chars(v as int),
{
    let mut m = String::new();
    if v < 0 {
        m.append("-");
        push_decimal(&mut m, (-(v as i128)) as u128);
    } else {
        push_decimal(&mut m, v as u128);
    }
    proof {
        assert(m@ =~= signed_chars(v as int));
    }
    m
}

/// `n` copies of two spaces.
fn indent_text(n: usize) -> (r: String)
    ensures
        r@ == indent(n as nat),
{
    let mut m = String::new();
    let mut i: usize = 0;
    proof {
        assert(m@ =~= indent(0));
    }
    while i < n
        invariant
            i <= n,
            m@ == indent(i as nat),
        decreases n - i,
    {
        m.append("  ");
        i = i + 1;
    }
    m
}

/// The views of some texts.
pub open spec fn texts(v: Seq<String>) -> Seq<Seq<char>> {
    v.map_values(|s: String| s@)
}

/// Texts joined with `sep` between them.
fn join(parts: &Vec<String>, sep: &str) -> (r: String)
    ensures
        r@ == joined(texts(parts@), sep@),
{
    let mut m = String::new();
    let mut i: usize = 0;
    proof {
        assert(m@ =~= joined(texts(parts@).take(0), sep@));
    }
    while i < parts.len()
        invariant
            i <= parts@.len(),
            m@ == joined(texts(parts@).take(i as int), sep@),
        decreases parts@.len() - i,
    {
        let ghost all = texts(parts@);
        proof {
            assert(all.take(i + 1).drop_last() =~= all.take(i as int));
        }
        if i > 0 {
            m.append(sep);
        }
        m.append(parts[i].as_str());
        proof {
            if i == 0 {
                assert(m@ =~= joined(all.take(1), sep@));
            }
        }
        i = i + 1;
    }
    proof {
        assert(texts(parts@).take(parts@.len() as int) =~= texts(parts@));
    }
    m
}

// ------------------------------------------------------------- the machine

/// A declared variable.
struct Var {
    name: String,
    ty: RtType,
}

/// The views of a scope's variables.
spec fn vars_view(v: Seq<Var>) -> Seq<(Seq<char>, RtType)> {
    v.map_values(|x: Var| (x.name@, x.ty))
}

/// How big the generated programs may get.
pub struct Config {
    pub max_stmts: usize,
    pub max_depth: usize,
    pub max_block_stmts: usize,
}

impl Default for Config {
    fn default() -> (r: Self)
        ensures
            r.max_stmts == 12,
            r.max_depth == 3,
            r.max_block_stmts == 3,
    {
        Config { max_stmts: 12, max_depth: 3, max_block_stmts: 3 }
    }
}

struct Gen {
    rng: Rng,
    scopes: Vec<Vec<Var>>,
    next_id: usize,
    max_depth: usize,
    max_block: usize,
}

impl Gen {
    spec fn st(&self) -> GenView {
        GenView {
            rng: self.rng.state(),
            scopes: self.scopes@.map_values(|s: Vec<Var>| vars_view(s@)),
            next_id: self.next_id as nat,
            max_depth: self.max_depth as nat,
            max_block: self.max_block as nat,
        }
    }

    fn fresh_name(&mut self) -> (r: String)
        ensures
            final(self).scopes@.len() == old(self).scopes@.len(),
            final(self).max_depth == old(self).max_depth,
            final(self).max_block == old(self).max_block,
            final(self).st() == gen_fresh_name(old(self).st()).0,
            r@ == gen_fresh_name(old(self).st()).1,
    {
        proof {
            reveal(gen_fresh_name);
        }
        let id = self.next_id;
        self.next_id = if id < usize::MAX {
            id + 1
        } else {
            id
        };
        if self.rng.chance(1, 8) {
            let k = self.rng.below(6);
            let mut m = String::from_str(exotic_at(k));
            m.append(" ");
            push_decimal(&mut m, id as u128);
            m
        } else {
            let mut m = String::from_str("v");
            push_decimal(&mut m, id as u128);
            m
        }
    }

    /// Every visible variable, outermost scope first.
    fn visible(&self) -> (r: Vec<(String, RtType)>)
        ensures
            r@.map_values(|v: (String, RtType)| (v.0@, v.1)) == visible(self.st().scopes),
    {
        let ghost sv = self.st().scopes;
        let mut out: Vec<(String, RtType)> = Vec::new();
        let mut i: usize = 0;
        proof {
            assert(sv.take(0) =~= Seq::<Seq<(Seq<char>, RtType)>>::empty());
            assert(out@.map_values(|v: (String, RtType)| (v.0@, v.1)) =~= visible(sv.take(0)));
        }
        while i < self.scopes.len()
            invariant
                sv == self.st().scopes,
                i <= self.scopes@.len(),
                out@.map_values(|v: (String, RtType)| (v.0@, v.1)) == visible(sv.take(i as int)),
            decreases self.scopes@.len() - i,
        {
            let scope = &self.scopes[i];
            let ghost before = out@.map_values(|v: (String, RtType)| (v.0@, v.1));
            let mut j: usize = 0;
            proof {
                assert(sv[i as int] == vars_view(scope@));
                assert(vars_view(scope@).take(0) =~= Seq::<(Seq<char>, RtType)>::empty());
                assert(before + vars_view(scope@).take(0) =~= before);
            }
            while j < scope.len()
                invariant
                    j <= scope@.len(),
                    out@.map_values(|v: (String, RtType)| (v.0@, v.1)) == before + vars_view(scope@).take(j as int),
                decreases scope@.len() - j,
            {
                let v = &scope[j];
                let ghost prev = out@;
                out.push((v.name.clone(), v.ty));
                proof {
                    assert(out@.map_values(|v: (String, RtType)| (v.0@, v.1)) =~= prev.map_values(
                        |v: (String, RtType)| (v.0@, v.1),
                    ).push((v.name@, v.ty)));
                    assert(vars_view(scope@).take(j + 1) =~= vars_view(scope@).take(j as int).push((v.name@, v.ty)));
                    assert(before + vars_view(scope@).take(j + 1) =~= (before + vars_view(scope@).take(j as int)).push(
                        (v.name@, v.ty),
                    ));
                }
                j = j + 1;
            }
            proof {
                assert(vars_view(scope@).take(scope@.len() as int) =~= vars_view(scope@));
                assert(sv.take(i + 1).drop_last() =~= sv.take(i as int));
            }
            i = i + 1;
        }
        proof {
            assert(sv.take(self.scopes@.len() as int) =~= sv);
        }
        out
    }

    fn any_of_type(&mut self, ty: RtType) -> (r: Option<String>)
        ensures
            final(self).scopes@.len() == old(self).scopes@.len(),
            final(self).max_depth == old(self).max_depth,
            final(self).max_block == old(self).max_block,
            final(self).st() == gen_any_of_type(old(self).st(), ty).0,
            match gen_any_of_type(old(self).st(), ty).1 {
                Some(n) => r matches Some(x) && x@ == n,
                None => r is None,
            },
    {
        proof {
            reveal(gen_any_of_type);
        }
        let vars = self.visible();
        let ghost all = vars@.map_values(|v: (String, RtType)| (v.0@, v.1));
        let mut names: Vec<String> = Vec::new();
        let mut i: usize = 0;
        proof {
            assert(all.take(0) =~= Seq::<(Seq<char>, RtType)>::empty());
            assert(texts(names@) =~= names_of(all.take(0), ty));
        }
        while i < vars.len()
            invariant
                all == vars@.map_values(|v: (String, RtType)| (v.0@, v.1)),
                i <= vars@.len(),
                texts(names@) == names_of(all.take(i as int), ty),
            decreases vars@.len() - i,
        {
            proof {
                assert(all.take(i + 1).drop_last() =~= all.take(i as int));
            }
            if vars[i].1 == ty {
                let ghost prev = names@;
                names.push(vars[i].0.clone());
                proof {
                    assert(texts(names@) =~= texts(prev).push(vars@[i as int].0@));
                }
            }
            i = i + 1;
        }
        proof {
            assert(all.take(vars@.len() as int) =~= all);
        }
        if names.len() == 0 {
            return None;
        }
        let k = self.rng.below(names.len());
        Some(names[k].clone())
    }

    fn live_type(&mut self) -> (r: Option<RtType>)
        ensures
            final(self).scopes@.len() == old(self).scopes@.len(),
            final(self).max_depth == old(self).max_depth,
            final(self).max_block == old(self).max_block,
            final(self).st() == gen_live_type(old(self).st()).0,
            r == gen_live_type(old(self).st()).1,
    {
        proof {
            reveal(gen_live_type);
        }
        let vars = self.visible();
        if vars.len() == 0 {
            return None;
        }
        let k = self.rng.below(vars.len());
        Some(vars[k].1)
    }

    fn literal(&mut self, ty: RtType) -> (r: String)
        ensures
            final(self).scopes@.len() == old(self).scopes@.len(),
            final(self).max_depth == old(self).max_depth,
            final(self).max_block == old(self).max_block,
            final(self).st() == gen_literal(old(self).st(), ty).0,
            r@ == gen_literal(old(self).st(), ty).1,
    {
        proof {
            reveal(gen_literal);
        }
        match ty {
            RtType::Bool => {
                let c = self.rng.chance(1, 2);
                String::from_str(
                    if c {
                        "true"
                    } else {
                        "false"
                    },
                )
            },
            RtType::Nil => String::from_str("nil"),
            RtType::Str => {
                let k = self.rng.below(7);
                String::from_str(word_at(k))
            },
            RtType::F16 | RtType::F32 | RtType::F64 => {
                let k = self.rng.below(8);
                let body = float_at(k);
                if self.rng.chance(1, 6) {
                    String::from_str("-").concat(body)
                } else {
                    String::from_str(body)
                }
            },
            _ => {
                if ty.is_unsigned_int() {
                    let v = self.rng.between(0, 9);
                    return signed_text(v);
                }
                // Underscores and radix prefixes now and then, to keep the
                // literal parser in the loop.
                let k = self.rng.below(12);
                if k == 0 {
                    String::from_str("0xf")
                } else if k == 1 {
                    String::from_str("0b101")
                } else if k == 2 {
                    String::from_str("1_0")
                } else {
                    let v = self.rng.between(-9, 9);
                    signed_text(v)
                }
            },
        }
    }

    fn leaf(&mut self, ty: RtType, bare_ok: bool) -> (r: String)
        ensures
            final(self).scopes@.len() == old(self).scopes@.len(),
            final(self).max_depth == old(self).max_depth,
            final(self).max_block == old(self).max_block,
            final(self).st() == gen_leaf(old(self).st(), ty, bare_ok).0,
            r@ == gen_leaf(old(self).st(), ty, bare_ok).1,
    {
        proof {
            reveal(gen_leaf);
        }
        if self.rng.chance(3, 5) {
            if let Some(name) = self.any_of_type(ty) {
                return String::from_str("(").concat(name.as_str()).concat(")");
            }
        }
        let body = self.literal(ty);
        let bare = if bare_ok {
            self.rng.chance(1, 2)
        } else {
            false
        };
        if bare {
            String::from_str("'").concat(body.as_str()).concat("'")
        } else {
            String::from_str(ty.name()).concat(" '").concat(body.as_str()).concat("'")
        }
    }

    fn pick_type(&mut self) -> (r: RtType)
        ensures
            final(self).scopes@.len() == old(self).scopes@.len(),
            final(self).max_depth == old(self).max_depth,
            final(self).max_block == old(self).max_block,
            final(self).st() == rolled(old(self).st(), below_of(old(self).st().rng, 15).0),
            r == type_table()[below_of(old(self).st().rng, 15).1 as int],
    {
        let k = self.rng.below(15);
        type_at(k)
    }

    fn expr(&mut self, ty: RtType, depth: usize, bare_ok: bool) -> (r: String)
        ensures
            final(self).scopes@.len() == old(self).scopes@.len(),
            final(self).max_depth == old(self).max_depth,
            final(self).max_block == old(self).max_block,
            final(self).st() == gen_expr(old(self).st(), ty, depth as nat, bare_ok).0,
            r@ == gen_expr(old(self).st(), ty, depth as nat, bare_ok).1,
        decreases DEPTH_LIMIT - depth, 2nat,
    {
        if depth >= self.max_depth || depth >= DEPTH_LIMIT || self.rng.chance(2, 5) {
            return self.leaf(ty, bare_ok);
        }
        match ty {
            RtType::Bool => self.bool_expr(depth, bare_ok),
            RtType::Str | RtType::Nil => {
                // `str` and `nil` have no operators, so grouping is all that
                // is left.
                let inner = self.expr(ty, depth + 1, bare_ok);
                String::from_str("| ").concat(inner.as_str()).concat(" |")
            },
            _ => self.numeric_expr(ty, depth, bare_ok),
        }
    }

    fn numeric_expr(&mut self, ty: RtType, depth: usize, bare_ok: bool) -> (r: String)
        requires
            depth < DEPTH_LIMIT,
        ensures
            final(self).scopes@.len() == old(self).scopes@.len(),
            final(self).max_depth == old(self).max_depth,
            final(self).max_block == old(self).max_block,
            final(self).st() == gen_numeric_expr(old(self).st(), ty, depth as nat, bare_ok).0,
            r@ == gen_numeric_expr(old(self).st(), ty, depth as nat, bare_ok).1,
        decreases DEPTH_LIMIT - depth, 1nat,
    {
        let k = self.rng.below(12);
        if k == 0 {
            let a = self.expr(ty, depth + 1, bare_ok);
            let b = self.expr(ty, depth + 1, bare_ok);
            let op = if self.rng.chance(1, 2) {
                "/"
            } else {
                "%"
            };
            a.concat(" ").concat(op).concat(" ").concat(b.as_str())
        } else if k <= 6 {
            let a = self.expr(ty, depth + 1, bare_ok);
            let b = self.expr(ty, depth + 1, bare_ok);
            let j = self.rng.below(3);
            let op = if j == 0 {
                "+"
            } else if j == 1 {
                "-"
            } else {
                "*"
            };
            a.concat(" ").concat(op).concat(" ").concat(b.as_str())
        } else if k <= 8 && (ty.is_signed_int() || ty.is_float()) {
            // Negation is only legal on signed and floating types.
            let inner = self.expr(ty, depth + 1, bare_ok);
            String::from_str("-| ").concat(inner.as_str()).concat(" |")
        } else if 9 <= k && k <= 10 {
            let inner = self.expr(ty, depth + 1, bare_ok);
            String::from_str("| ").concat(inner.as_str()).concat(" |")
        } else {
            self.leaf(ty, bare_ok)
        }
    }

    /// The type a comparison compares at: mostly one some variable has.
    fn compared_type(&mut self) -> (r: RtType)
        ensures
            final(self).scopes@.len() == old(self).scopes@.len(),
            final(self).max_depth == old(self).max_depth,
            final(self).max_block == old(self).max_block,
            final(self).st() == gen_compared_type(old(self).st()).0,
            r == gen_compared_type(old(self).st()).1,
    {
        proof {
            reveal(gen_compared_type);
        }
        match self.live_type() {
            Some(t) => if self.rng.chance(2, 3) {
                t
            } else {
                self.pick_type()
            },
            None => self.pick_type(),
        }
    }

    fn bool_expr(&mut self, depth: usize, bare_ok: bool) -> (r: String)
        ensures
            final(self).scopes@.len() == old(self).scopes@.len(),
            final(self).max_depth == old(self).max_depth,
            final(self).max_block == old(self).max_block,
            final(self).st() == gen_bool_expr(old(self).st(), depth as nat, bare_ok).0,
            r@ == gen_bool_expr(old(self).st(), depth as nat, bare_ok).1,
        decreases DEPTH_LIMIT - depth, 1nat,
    {
        if self.rng.chance(1, 4) || depth >= DEPTH_LIMIT {
            return self.leaf(RtType::Bool, bare_ok);
        }
        // A comparison needs both sides at one type, and its own type is
        // bool, so the operands cannot take a type from context: they must
        // carry one.
        let ty = self.compared_type();
        let ordered = ty.is_numeric() || matches!(ty, RtType::Str);
        let n: usize = if ordered {
            6
        } else {
            2
        };
        let j = self.rng.below(n);
        let op = comparison_at(ordered, j);
        // Equal operands now and then, so `<` and `<=` are told apart.
        if self.rng.chance(1, 5) {
            if let Some(name) = self.any_of_type(ty) {
                return String::from_str("(").concat(name.as_str()).concat(") ").concat(op).concat(" (").concat(
                    name.as_str(),
                ).concat(")");
            }
        }
        let a = self.operand(ty, depth + 1);
        let b = self.operand(ty, depth + 1);
        a.concat(" ").concat(op).concat(" ").concat(b.as_str())
    }

    /// One side of a comparison. Comparing two bools is the awkward case: a
    /// comparison is itself a bool, so a side generated freely could be
    /// another comparison and the whole would be a chain, which Luarus
    /// rejects. Grouping breaks the chain.
    fn operand(&mut self, ty: RtType, depth: usize) -> (r: String)
        requires
            depth <= DEPTH_LIMIT,
        ensures
            final(self).scopes@.len() == old(self).scopes@.len(),
            final(self).max_depth == old(self).max_depth,
            final(self).max_block == old(self).max_block,
            final(self).st() == gen_operand(old(self).st(), ty, depth as nat).0,
            r@ == gen_operand(old(self).st(), ty, depth as nat).1,
        decreases DEPTH_LIMIT - depth, 3nat,
    {
        if !matches!(ty, RtType::Bool) {
            return self.expr(ty, depth, false);
        }
        if self.rng.chance(1, 3) && depth < DEPTH_LIMIT {
            let inner = self.bool_expr(depth + 1, false);
            String::from_str("| ").concat(inner.as_str()).concat(" |")
        } else {
            self.leaf(RtType::Bool, false)
        }
    }

    fn declare(&mut self, ty: RtType) -> (r: String)
        ensures
            final(self).scopes@.len() == old(self).scopes@.len(),
            final(self).max_depth == old(self).max_depth,
            final(self).max_block == old(self).max_block,
            final(self).st() == gen_declare(old(self).st(), ty).0,
            r@ == gen_declare(old(self).st(), ty).1,
    {
        proof {
            reveal(gen_declare);
        }
        let name = self.fresh_name();
        let ghost before = self.st();
        match self.scopes.pop() {
            Some(mut last) => {
                let ghost lv = vars_view(last@);
                last.push(Var { name: name.clone(), ty });
                self.scopes.push(last);
                proof {
                    assert(vars_view(last@) =~= lv.push((name@, ty)));
                    assert(self.st().scopes =~= add_var(before.scopes, (name@, ty)));
                }
            },
            None => {
                proof {
                    assert(self.st().scopes =~= before.scopes);
                }
            },
        }
        name
    }

    #[verifier::rlimit(60)]
    fn print_stmt(&mut self) -> (r: String)
        ensures
            final(self).scopes@.len() == old(self).scopes@.len(),
            final(self).max_depth == old(self).max_depth,
            final(self).max_block == old(self).max_block,
            final(self).st() == gen_print(old(self).st()).0,
            r@ == gen_print(old(self).st()).1,
    {
        proof {
            reveal(gen_print);
        }
        let n = 1 + self.rng.below(3);
        let ghost g1 = self.st();
        let mut items: Vec<String> = Vec::new();
        let mut i: usize = 0;
        proof {
            assert(texts(items@) =~= Seq::<Seq<char>>::empty());
        }
        while i < n
            invariant
                i <= n,
                n <= 3,
                self.max_depth == old(self).max_depth,
                self.scopes@.len() == old(self).scopes@.len(),
                self.max_block == old(self).max_block,
                gen_print_items(g1, n as nat, Seq::empty()) == gen_print_items(self.st(), (n - i) as nat, texts(items@)),
            decreases n - i,
        {
            let ty = self.pick_type();
            // A print list supplies no type, so nothing here may be bare.
            let item = self.expr(ty, 2, false);
            let cs = chars_of(item.as_str());
            // Juxtaposition binds looser than every operator, so an item that
            // begins with `-` would be read as subtracting from the item
            // before it. Grouping keeps it a separate value.
            let item2 = if cs.len() > 0 && cs[0] == '-' {
                String::from_str("| ").concat(item.as_str()).concat(" |")
            } else {
                item
            };
            let ghost prev = items@;
            items.push(item2);
            proof {
                assert(texts(items@) =~= texts(prev).push(item2@));
            }
            i = i + 1;
        }
        if self.rng.chance(3, 4) {
            let ghost prev = items@;
            items.push(String::from_str("\\n"));
            proof {
                assert(texts(items@) =~= texts(prev).push("\\n"@));
            }
        }
        String::from_str("print[").concat(join(&items, " ").as_str()).concat("]")
    }

    /// A simple statement, without its `end`, so it can be chained.
    fn simple(&mut self) -> (r: String)
        ensures
            final(self).scopes@.len() == old(self).scopes@.len(),
            final(self).max_depth == old(self).max_depth,
            final(self).max_block == old(self).max_block,
            final(self).st() == gen_simple(old(self).st()).0,
            r@ == gen_simple(old(self).st()).1,
    {
        proof {
            reveal(gen_simple);
        }
        let k = self.rng.below(10);
        if k <= 4 {
            let ty = self.pick_type();
            // The declared type gives bare literals somewhere to get one.
            let value = self.expr(ty, 1, true);
            let m = self.rng.below(12);
            let modifier = if m == 0 {
                "global "
            } else if m == 1 {
                "pub "
            } else {
                ""
            };
            let name = self.declare(ty);
            String::from_str(modifier).concat("var ").concat(ty.name()).concat(" (").concat(name.as_str()).concat(
                ") = ",
            ).concat(value.as_str())
        } else if k <= 6 {
            // Assignment, if there is anything to assign to.
            let live = self.visible();
            if live.len() == 0 {
                return self.print_stmt();
            }
            let j = self.rng.below(live.len());
            let value = self.expr(live[j].1, 1, true);
            String::from_str("set (").concat(live[j].0.as_str()).concat(") = ").concat(value.as_str())
        } else {
            self.print_stmt()
        }
    }

    /// `n` statements at `depth`, one after another.
    fn stmts(&mut self, depth: usize, n: usize) -> (r: String)
        requires
            depth <= 2,
        ensures
            final(self).scopes@.len() == old(self).scopes@.len(),
            final(self).max_depth == old(self).max_depth,
            final(self).max_block == old(self).max_block,
            final(self).st() == gen_stmts(old(self).st(), depth as nat, n as nat).0,
            r@ == gen_stmts(old(self).st(), depth as nat, n as nat).1,
        decreases 2 - depth, 5nat, n,
    {
        let ghost g0 = self.st();
        let mut out = String::new();
        let mut i: usize = 0;
        proof {
            assert(out@ + gen_stmts(g0, depth as nat, n as nat).1 =~= gen_stmts(g0, depth as nat, n as nat).1);
        }
        while i < n
            invariant
                i <= n,
                depth <= 2,
                self.scopes@.len() == old(self).scopes@.len(),
                self.max_depth == old(self).max_depth,
                self.max_block == old(self).max_block,
                gen_stmts(g0, depth as nat, n as nat).0 == gen_stmts(self.st(), depth as nat, (n - i) as nat).0,
                gen_stmts(g0, depth as nat, n as nat).1 == out@ + gen_stmts(self.st(), depth as nat, (n - i) as nat).1,
            decreases n - i,
        {
            let ghost before = self.st();
            let s = self.statement(depth);
            proof {
                let rest = gen_stmts(self.st(), depth as nat, (n - i - 1) as nat);
                assert(gen_stmts(before, depth as nat, (n - i) as nat) == (rest.0, s@ + rest.1));
                assert(out@ + (s@ + rest.1) =~= (out@ + s@) + rest.1);
            }
            out.append(s.as_str());
            i = i + 1;
        }
        proof {
            assert(out@ + gen_stmts(self.st(), depth as nat, 0).1 =~= out@);
        }
        out
    }

    fn statement(&mut self, depth: usize) -> (r: String)
        requires
            depth <= 2,
        ensures
            final(self).scopes@.len() == old(self).scopes@.len(),
            final(self).max_depth == old(self).max_depth,
            final(self).max_block == old(self).max_block,
            final(self).st() == gen_statement(old(self).st(), depth as nat).0,
            r@ == gen_statement(old(self).st(), depth as nat).1,
        decreases 2 - depth, 4nat, 0nat,
    {
        let pad = indent_text(depth);
        if depth < 2 && self.rng.chance(1, 5) {
            return self.if_stmt(depth);
        }
        // Chain two or three simple statements under one `end` now and then.
        let n: usize = if self.rng.chance(1, 5) {
            1 + self.rng.below(2)
        } else {
            0
        };
        let ghost g5 = self.st();
        let first = self.simple();
        let ghost fv = first@;
        let mut parts: Vec<String> = Vec::new();
        parts.push(first);
        let ghost g6 = self.st();
        let mut i: usize = 0;
        proof {
            assert(texts(parts@) =~= seq![fv]);
        }
        while i < n
            invariant
                i <= n,
                n <= 2,
                self.scopes@.len() == old(self).scopes@.len(),
                self.max_depth == old(self).max_depth,
                self.max_block == old(self).max_block,
                gen_simples(g6, n as nat, seq![fv]) == gen_simples(self.st(), (n - i) as nat, texts(parts@)),
            decreases n - i,
        {
            let s = self.simple();
            let ghost prev = parts@;
            parts.push(s);
            proof {
                assert(texts(parts@) =~= texts(prev).push(s@));
            }
            i = i + 1;
        }
        pad.concat(join(&parts, ", ").as_str()).concat(" end\n")
    }

    /// The statements of one arm of an `if`, in a scope of their own.
    fn arm_body(&mut self, depth: usize) -> (r: String)
        requires
            depth < 2,
        ensures
            final(self).scopes@.len() == old(self).scopes@.len(),
            final(self).max_depth == old(self).max_depth,
            final(self).max_block == old(self).max_block,
            final(self).st() == gen_arm_body(old(self).st(), depth as nat).0,
            r@ == gen_arm_body(old(self).st(), depth as nat).1,
        decreases 2 - depth, 1nat, 0nat,
    {
        let ghost before = self.st();
        let fresh: Vec<Var> = Vec::new();
        proof {
            assert(vars_view(fresh@) =~= Seq::<(Seq<char>, RtType)>::empty());
        }
        self.scopes.push(fresh);
        proof {
            assert(self.st().scopes =~= before.scopes.push(Seq::empty()));
        }
        let k = self.rng.below(self.max_block);
        let body = self.stmts(depth + 1, 1 + k);
        let ghost after = self.st();
        self.scopes.pop();
        proof {
            assert(self.st().scopes =~= after.scopes.drop_last());
        }
        body
    }

    /// `k` more `elseif` arms.
    fn elseifs(&mut self, depth: usize, k: usize) -> (r: String)
        requires
            depth < 2,
        ensures
            final(self).scopes@.len() == old(self).scopes@.len(),
            final(self).max_depth == old(self).max_depth,
            final(self).max_block == old(self).max_block,
            final(self).st() == gen_elseifs(old(self).st(), depth as nat, k as nat).0,
            r@ == gen_elseifs(old(self).st(), depth as nat, k as nat).1,
        decreases 2 - depth, 2nat, k,
    {
        let ghost g0 = self.st();
        let pad = indent_text(depth);
        let mut out = String::new();
        let mut i: usize = 0;
        proof {
            assert(out@ + gen_elseifs(g0, depth as nat, k as nat).1 =~= gen_elseifs(g0, depth as nat, k as nat).1);
        }
        while i < k
            invariant
                i <= k,
                depth < 2,
                pad@ == indent(depth as nat),
                self.scopes@.len() == old(self).scopes@.len(),
                self.max_depth == old(self).max_depth,
                self.max_block == old(self).max_block,
                gen_elseifs(g0, depth as nat, k as nat).0 == gen_elseifs(self.st(), depth as nat, (k - i) as nat).0,
                gen_elseifs(g0, depth as nat, k as nat).1 == out@ + gen_elseifs(
                    self.st(),
                    depth as nat,
                    (k - i) as nat,
                ).1,
            decreases k - i,
        {
            let ghost before = self.st();
            let cond = self.bool_expr(1, false);
            let body = self.arm_body(depth);
            let piece = pad.clone().concat("elseif ").concat(cond.as_str()).concat("\n").concat(body.as_str());
            proof {
                let rest = gen_elseifs(self.st(), depth as nat, (k - i - 1) as nat);
                assert(gen_elseifs(before, depth as nat, (k - i) as nat) == (rest.0, piece@ + rest.1));
                assert(out@ + (piece@ + rest.1) =~= (out@ + piece@) + rest.1);
            }
            out.append(piece.as_str());
            i = i + 1;
        }
        proof {
            assert(out@ + gen_elseifs(self.st(), depth as nat, 0).1 =~= out@);
        }
        out
    }

    fn if_stmt(&mut self, depth: usize) -> (r: String)
        requires
            depth < 2,
        ensures
            final(self).scopes@.len() == old(self).scopes@.len(),
            final(self).max_depth == old(self).max_depth,
            final(self).max_block == old(self).max_block,
            final(self).st() == gen_if(old(self).st(), depth as nat).0,
            r@ == gen_if(old(self).st(), depth as nat).1,
        decreases 2 - depth, 3nat, 0nat,
    {
        let pad = indent_text(depth);
        let cond = self.bool_expr(1, false);
        let body = self.arm_body(depth);
        let k = self.rng.below(3);
        let elseifs = self.elseifs(depth, k);
        let els = if self.rng.chance(1, 2) {
            let b = self.arm_body(depth);
            pad.clone().concat("else\n").concat(b.as_str())
        } else {
            String::new()
        };
        pad.clone().concat("if ").concat(cond.as_str()).concat(" {\n").concat(body.as_str()).concat(
            elseifs.as_str(),
        ).concat(els.as_str()).concat(pad.as_str()).concat("}\n")
    }
}

/// Generate one program from a seed. The same seed always gives the same
/// text.
pub fn program(seed: u64) -> (r: String)
    ensures
        r@ == generated(seed),
{
    program_with(seed, &Config::default())
}

/// Generate one program from a seed under the given limits.
pub fn program_with(seed: u64, config: &Config) -> (r: String)
    ensures
        r@ == gen_program(seed, config.max_stmts as nat, config.max_depth as nat, config.max_block_stmts as nat),
{
    let mut scopes: Vec<Vec<Var>> = Vec::new();
    let fresh: Vec<Var> = Vec::new();
    proof {
        assert(vars_view(fresh@) =~= Seq::<(Seq<char>, RtType)>::empty());
    }
    scopes.push(fresh);
    let mut g = Gen {
        rng: Rng::new(seed),
        scopes,
        next_id: 0,
        max_depth: config.max_depth,
        max_block: config.max_block_stmts,
    };
    proof {
        assert(g.st().scopes =~= seq![Seq::<(Seq<char>, RtType)>::empty()]);
    }
    let mut out = String::from_str("-- generated from seed ");
    push_decimal(&mut out, seed as u128);
    out.append("\n");
    let k = g.rng.below(config.max_stmts);
    let body = g.stmts(0, 1 + k);
    out.append(body.as_str());
    // Something at the end that always runs, so a program is never empty
    // output.
    out.append("print[\"end\" \\n] end\n");
    out
}

// -------------------------------------------------------------- shrinking

/// Where the first `\n` at or after `i` stands, or the end.
pub open spec fn newline_from(s: Seq<char>, i: int) -> int
    decreases s.len() - i,
{
    if i < 0 || i >= s.len() {
        s.len() as int
    } else if s[i] == '\n' {
        i
    } else {
        newline_from(s, i + 1)
    }
}

pub proof fn lemma_newline_from(s: Seq<char>, i: int)
    requires
        0 <= i <= s.len(),
    ensures
        i <= newline_from(s, i) <= s.len(),
        newline_from(s, i) < s.len() ==> s[newline_from(s, i)] == '\n',
    decreases s.len() - i,
{
    if i < s.len() && s[i] != '\n' {
        lemma_newline_from(s, i + 1);
    }
}

/// A line with a carriage return before its line feed taken off.
pub open spec fn strip_cr(l: Seq<char>) -> Seq<char> {
    if l.len() > 0 && l.last() == '\r' {
        l.drop_last()
    } else {
        l
    }
}

/// The lines of a text, as `str::lines` splits it: at each `\n`, with a
/// `\r` just before it dropped, and no empty line after a final `\n`.
pub open spec fn text_lines(s: Seq<char>) -> Seq<Seq<char>>
    decreases s.len(),
{
    if s.len() == 0 {
        Seq::empty()
    } else {
        let i = newline_from(s, 0);
        if i >= s.len() {
            seq![s]
        } else {
            proof {
                lemma_newline_from(s, 0);
            }
            seq![strip_cr(s.take(i))] + text_lines(s.skip(i + 1))
        }
    }
}

/// Whether a text holds nothing but white space.
pub open spec fn blank(s: Seq<char>) -> bool {
    forall|i: int| 0 <= i < s.len() ==> white_space(#[trigger] s[i])
}

/// The lines of a text.
fn split_lines(src: &str) -> (r: Vec<String>)
    ensures
        texts(r@) == text_lines(src@),
{
    let chars = chars_of(src);
    let ghost s = chars@;
    let mut lines: Vec<String> = Vec::new();
    let mut start: usize = 0;
    proof {
        assert(s.skip(0) =~= s);
        assert(texts(lines@) + text_lines(s.skip(0)) =~= text_lines(s));
    }
    while start < chars.len()
        invariant
            s == chars@,
            s == src@,
            start <= s.len(),
            texts(lines@) + text_lines(s.skip(start as int)) == text_lines(s),
        decreases s.len() - start,
    {
        let ghost t = s.skip(start as int);
        let mut j = start;
        proof {
            lemma_newline_from(t, 0);
        }
        while j < chars.len() && chars[j] != '\n'
            invariant
                s == chars@,
                t == s.skip(start as int),
                start <= j <= s.len(),
                newline_from(t, 0) == newline_from(t, j - start),
            decreases s.len() - j,
        {
            j = j + 1;
        }
        proof {
            assert(newline_from(t, 0) == j - start);
        }
        let mut line: Vec<char> = Vec::new();
        let mut k = start;
        while k < j
            invariant
                s == chars@,
                start <= k <= j <= s.len(),
                line@ == s.subrange(start as int, k as int),
            decreases j - k,
        {
            line.push(chars[k]);
            proof {
                assert(line@ =~= s.subrange(start as int, k + 1));
            }
            k = k + 1;
        }
        let ghost before = lines@;
        if j < chars.len() {
            if line.len() > 0 && line[line.len() - 1] == '\r' {
                line.pop();
            }
            let text = string_of(&line);
            lines.push(text);
            proof {
                assert(t.take(j - start) =~= s.subrange(start as int, j as int));
                assert(t.skip(j - start + 1) =~= s.skip(j + 1));
                assert(texts(lines@) =~= texts(before).push(strip_cr(t.take(j - start))));
                assert(text_lines(t) == seq![strip_cr(t.take(j - start))] + text_lines(t.skip(j - start + 1)));
                assert(texts(lines@) + text_lines(s.skip(j + 1)) =~= texts(before) + text_lines(t));
            }
            start = j + 1;
        } else {
            let text = string_of(&line);
            lines.push(text);
            proof {
                assert(t =~= s.subrange(start as int, j as int));
                assert(text_lines(t) == seq![t]);
                assert(s.skip(j as int) =~= Seq::<char>::empty());
                assert(texts(lines@) + text_lines(s.skip(j as int)) =~= texts(before) + text_lines(t));
            }
            start = j;
        }
    }
    proof {
        assert(s.skip(start as int) =~= Seq::<char>::empty());
        assert(texts(lines@) + text_lines(s.skip(start as int)) =~= texts(lines@));
    }
    lines
}

/// Whether a text holds nothing but white space.
fn is_blank(text: &str) -> (r: bool)
    ensures
        r == blank(text@),
{
    let chars = chars_of(text);
    let mut i: usize = 0;
    while i < chars.len()
        invariant
            chars@ == text@,
            i <= chars@.len(),
            forall|k: int| 0 <= k < i ==> white_space(#[trigger] chars@[k]),
        decreases chars@.len() - i,
    {
        if !is_whitespace(chars[i]) {
            return false;
        }
        i = i + 1;
    }
    true
}

/// Strictly increasing positions below `n`.
pub open spec fn increasing(idx: Seq<int>, n: int) -> bool {
    &&& forall|a: int, b: int| 0 <= a < b < idx.len() ==> idx[a] < idx[b]
    &&& forall|a: int| 0 <= a < idx.len() ==> 0 <= #[trigger] idx[a] < n
}

/// The lines at the given positions.
pub open spec fn picked(lines: Seq<Seq<char>>, idx: Seq<int>) -> Seq<Seq<char>> {
    idx.map_values(|k: int| lines[k])
}

fn copy_texts(v: &Vec<String>) -> (r: Vec<String>)
    ensures
        texts(r@) == texts(v@),
{
    let mut out: Vec<String> = Vec::new();
    let mut i: usize = 0;
    while i < v.len()
        invariant
            i <= v@.len(),
            texts(out@) == texts(v@).take(i as int),
        decreases v@.len() - i,
    {
        let ghost prev = out@;
        let c = v[i].clone();
        assert(c@ == v@[i as int]@);
        out.push(c);
        proof {
            assert(texts(out@) =~= texts(prev).push(v@[i as int]@));
            assert(texts(v@).take(i + 1) =~= texts(v@).take(i as int).push(v@[i as int]@));
        }
        i = i + 1;
    }
    proof {
        assert(texts(v@).take(v@.len() as int) =~= texts(v@));
    }
    out
}

/// `t` is `src` with some of its lines deleted, in order, and is not blank:
/// the only texts `shrink` asks its predicate about.
pub open spec fn deletion_of(src: Seq<char>, t: Seq<char>) -> bool {
    &&& !blank(t)
    &&& exists|idx: Seq<int>|
        increasing(idx, text_lines(src).len() as int) && t == joined(picked(text_lines(src), idx), "\n"@)
}

/// Taking line `k` out of `lines` leaves blank text, or text that
/// `still_fails` answered `false` for.
pub open spec fn refused<F: Fn(&str) -> bool>(still_fails: F, lines: Seq<Seq<char>>, k: int) -> bool {
    let d = joined(lines.remove(k), "\n"@);
    blank(d) || exists|s: &str| s@ == d && still_fails.ensures((s,), false)
}

/// Reduce a failing program by deleting lines, keeping any smaller version
/// that still fails. The result keeps some of the lines, in order; where it
/// is not the whole program, `still_fails` accepted it; and taking any one
/// more line out of it leaves blank text or text `still_fails` refused. Line deletion
/// breaks braces as often as not; `still_fails` is expected to reject
/// anything that no longer compiles.
pub fn shrink<F: Fn(&str) -> bool>(src: &str, still_fails: F) -> (r: String)
    requires
        forall|s: &str| #[trigger] deletion_of(src@, s@) ==> still_fails.requires((s,)),
    ensures
        exists|idx: Seq<int>|
            increasing(idx, text_lines(src@).len() as int) && r@ == joined(picked(text_lines(src@), idx), "\n"@)
                && forall|k: int|
                0 <= k < idx.len() ==> #[trigger] refused(still_fails, picked(text_lines(src@), idx), k),
        r@ == joined(text_lines(src@), "\n"@) || exists|s: &str| s@ == r@ && still_fails.ensures((s,), true),
{
    let lines = split_lines(src);
    let ghost all = text_lines(src@);
    let ghost n = all.len() as int;
    let mut best = copy_texts(&lines);
    let ghost mut idx: Seq<int> = Seq::new(all.len(), |k: int| k);
    let ghost mut ever = false;
    proof {
        assert(texts(best@) =~= picked(all, idx));
    }
    let mut improved = true;
    while improved
        invariant
            increasing(idx, n),
            texts(best@) == picked(all, idx),
            !ever ==> texts(best@) == all,
            ever ==> exists|s: &str| s@ == joined(texts(best@), "\n"@) && still_fails.ensures((s,), true),
            forall|s: &str| #[trigger] deletion_of(src@, s@) ==> still_fails.requires((s,)),
            all == text_lines(src@),
            n == all.len(),
            !improved ==> forall|k: int| 0 <= k < best@.len() ==> #[trigger] refused(still_fails, texts(best@), k),
        decreases best@.len() + if improved { 1int } else { 0int },
    {
        improved = false;
        let mut i: usize = 0;
        let ghost len0 = best@.len();
        while i < best.len()
            invariant
                increasing(idx, n),
                texts(best@) == picked(all, idx),
                !ever ==> texts(best@) == all,
                ever ==> exists|s: &str| s@ == joined(texts(best@), "\n"@) && still_fails.ensures((s,), true),
                forall|s: &str| #[trigger] deletion_of(src@, s@) ==> still_fails.requires((s,)),
                all == text_lines(src@),
                n == all.len(),
                i <= best@.len(),
                improved ==> best@.len() < len0,
                !improved ==> best@.len() == len0,
                !improved ==> forall|k: int| 0 <= k < i ==> #[trigger] refused(still_fails, texts(best@), k),
            decreases best@.len() - i,
        {
            let mut candidate = copy_texts(&best);
            candidate.remove(i);
            let text = join(&candidate, "\n");
            proof {
                let k = i as int;
                assert(texts(candidate@) =~= texts(best@).remove(k));
                assert(picked(all, idx.remove(k)) =~= picked(all, idx).remove(k));
                assert(increasing(idx.remove(k), n));
            }
            let blank_text = is_blank(text.as_str());
            let mut keep = false;
            if !blank_text {
                proof {
                    let k = i as int;
                    let nidx = idx.remove(k);
                    assert(text@ == joined(picked(all, nidx), "\n"@));
                    assert(deletion_of(src@, text@));
                }
                keep = still_fails(text.as_str());
            }
            if keep {
                proof {
                    let k = i as int;
                    assert(texts(candidate@) =~= texts(best@).remove(k));
                    let nidx = idx.remove(k);
                    assert(picked(all, nidx) =~= picked(all, idx).remove(k));
                    idx = nidx;
                    ever = true;
                }
                best = candidate;
                improved = true;
            } else {
                proof {
                    assert(texts(candidate@) =~= texts(best@).remove(i as int));
                    assert(refused(still_fails, texts(best@), i as int));
                }
                i = i + 1;
            }
        }
    }
    proof {
        assert(texts(best@).len() == idx.len());
    }
    join(&best, "\n")
}

} // verus!
