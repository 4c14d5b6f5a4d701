//! The parser: tokens to a syntax tree.
//!
//! Statements are grouped into chains: `stmt (',' stmt)* 'end'`. A lone
//! statement is a one-element chain and still needs its `end`. Errors are
//! collected rather than thrown one at a time: the parser resynchronises at
//! the next `end` so one bad chain does not hide the rest.
use vstd::prelude::*;
use vstd::string::StringSliceAdditionalSpecFns;

use crate::diag::{diag, helped, DiagView, Diagnostic, Span};
use crate::rule::Rule;
use crate::syntax::ast::{
    espan, expr_span, expr_view, exprs_view, if_arms_view, modifier_text, stmt_view, stmts_view, BinOp, Expr, ExprView, IfArm,
    Modifier, Name, Program, Stmt, StmtView, TypeRef, UnOp, op_text,
};
use crate::syntax::lexer::{describe, lemma_tokens_end, single, token_view, tokens_of, Lexer, Tok, TokView, Token};
use crate::text::str_eq;

verus! {

/// A sequence of tokens as the parser sees them.
pub type Toks = Seq<(TokView, Span)>;

/// What a parse gives: a value and where parsing goes on, or an error and
/// where the parser stood when it met it.
pub type Parsed<T> = Result<(T, int), (DiagView, int)>;

/// The tokens the lexer hands over: at least one, the last one `Eof`.
pub open spec fn well_formed(ts: Toks) -> bool {
    ts.len() >= 1 && ts[ts.len() - 1].0 is Eof
}

/// Whether `q` lies past `p` and within the tokens.
pub open spec fn ahead(ts: Toks, p: int, q: int) -> bool {
    p < q <= ts.len()
}

/// The error of a parse that could not go on. Never met on well-formed
/// tokens: the parse functions always advance.
pub open spec fn stuck(ts: Toks, p: int) -> DiagView {
    diag(tok_at(ts, p).1, Rule::StatementForm, Seq::empty())
}

/// The token at `p`; past the end, the last one, which is `Eof`.
pub open spec fn tok_at(ts: Toks, p: int) -> (TokView, Span) {
    if p < ts.len() - 1 {
        ts[p]
    } else {
        ts[ts.len() - 1]
    }
}

/// The position after the token at `p`; the end stays put.
pub open spec fn next_pos(ts: Toks, p: int) -> int {
    if p < ts.len() - 1 {
        p + 1
    } else {
        p
    }
}

/// Whether the token at `p` is the word `w`.
pub open spec fn at_word(ts: Toks, p: int, w: Seq<char>) -> bool {
    tok_at(ts, p).0 == TokView::Word(w)
}

/// The comparison a token writes, if it writes one.
pub open spec fn comparison_of(t: TokView) -> Option<BinOp> {
    match t {
        TokView::EqEq => Some(BinOp::Eq),
        TokView::BangEq => Some(BinOp::Ne),
        TokView::Lt => Some(BinOp::Lt),
        TokView::LtEq => Some(BinOp::Le),
        TokView::Gt => Some(BinOp::Gt),
        TokView::GtEq => Some(BinOp::Ge),
        _ => None,
    }
}

/// The additive operator a token writes, if it writes one.
pub open spec fn additive_of(t: TokView) -> Option<BinOp> {
    match t {
        TokView::Plus => Some(BinOp::Add),
        TokView::Minus => Some(BinOp::Sub),
        _ => None,
    }
}

/// The multiplicative operator a token writes, if it writes one.
pub open spec fn multiplicative_of(t: TokView) -> Option<BinOp> {
    match t {
        TokView::Star => Some(BinOp::Mul),
        TokView::Slash => Some(BinOp::Div),
        TokView::Percent => Some(BinOp::Rem),
        _ => None,
    }
}

/// Each operator token stands for the operator it spells: the operator the
/// parser reads from an arithmetic or comparison token is written, in its
/// own text, just as the token is named.
pub proof fn lemma_operator_tokens_name_their_operator(t: TokView, op: BinOp)
    requires
        multiplicative_of(t) == Some(op) || additive_of(t) == Some(op) || comparison_of(t) == Some(op),
    ensures
        describe(t) == "`"@ + op_text(op) + "`"@,
{
    reveal_strlit("`");
    reveal_strlit("+");
    reveal_strlit("-");
    reveal_strlit("*");
    reveal_strlit("/");
    reveal_strlit("%");
    reveal_strlit("==");
    reveal_strlit("!=");
    reveal_strlit("<");
    reveal_strlit("<=");
    reveal_strlit(">");
    reveal_strlit(">=");
    reveal_strlit("`+`");
    reveal_strlit("`-`");
    reveal_strlit("`*`");
    reveal_strlit("`/`");
    reveal_strlit("`%`");
    reveal_strlit("`==`");
    reveal_strlit("`!=`");
    reveal_strlit("`<`");
    reveal_strlit("`<=`");
    reveal_strlit("`>`");
    reveal_strlit("`>=`");
    assert(describe(t) =~= "`"@ + op_text(op) + "`"@);
}

/// A one-character operator in the source parses to the operator written by
/// that very character: `%` to the remainder, `/` to division, `*` to
/// multiplication, `+` to addition and `-` to subtraction.
pub proof fn lemma_operator_characters_parse_as_written(c: char, t: TokView, op: BinOp)
    requires
        single(c) == Some(t),
        multiplicative_of(t) == Some(op) || additive_of(t) == Some(op),
    ensures
        op_text(op) == seq![c],
{
    reveal_strlit("+");
    reveal_strlit("-");
    reveal_strlit("*");
    reveal_strlit("/");
    reveal_strlit("%");
    assert(op_text(op) =~= seq![c]);
}

/// The span from the start of one to the end of another.
pub open spec fn join(a: Span, b: Span) -> Span {
    Span { start: a.start, end: b.end }
}

/// The two sides of a binary expression, joined.
pub open spec fn binary(op: BinOp, lhs: ExprView, rhs: ExprView) -> ExprView {
    ExprView::Binary { op, lhs: Box::new(lhs), rhs: Box::new(rhs), span: join(espan(lhs), espan(rhs)) }
}

// ------------------------------------------------------------- expressions

/// `comparison`: two additive expressions at most, with one comparison
/// between them. Comparisons do not chain: `a < b < c` is rejected rather
/// than misread.
pub open spec fn parse_expr(ts: Toks, p: int) -> Parsed<ExprView>
    decreases ts.len() - p, 6nat,
{
    if p < 0 || p >= ts.len() {
        Err((stuck(ts, p), p))
    } else {
        match parse_additive(ts, p) {
            Err(d) => Err(d),
            Ok((lhs, p1)) => if p1 < p || p1 >= ts.len() {
                Ok((lhs, p1))
            } else {
                match comparison_of(tok_at(ts, p1).0) {
                    None => Ok((lhs, p1)),
                    Some(op) => match parse_additive(ts, next_pos(ts, p1)) {
                        Err(d) => Err(d),
                        Ok((rhs, p2)) => if comparison_of(tok_at(ts, p2).0) is Some {
                            Err(
                                (
                                    helped(
                                        diag(
                                            tok_at(ts, p2).1,
                                            Rule::ComparisonsDoNotChain,
                                            "comparison operators cannot be chained"@,
                                        ),
                                        "group one side explicitly, as in `[ (a) < (b) ] == (c)`"@,
                                    ),
                                    p2,
                                ),
                            )
                        } else {
                            Ok((binary(op, lhs, rhs), p2))
                        },
                    },
                }
            },
        }
    }
}

/// `additive`: multiplicative expressions joined by `+` and `-`, to the left.
pub open spec fn parse_additive(ts: Toks, p: int) -> Parsed<ExprView>
    decreases ts.len() - p, 5nat,
{
    if p < 0 || p >= ts.len() {
        Err((stuck(ts, p), p))
    } else {
        match parse_multiplicative(ts, p) {
            Err(d) => Err(d),
            Ok((lhs, p1)) => if p1 < p || p1 >= ts.len() {
                Ok((lhs, p1))
            } else {
                additive_rest(ts, p1, lhs)
            },
        }
    }
}

/// More `+` and `-` after `lhs`, at `p`.
pub open spec fn additive_rest(ts: Toks, p: int, lhs: ExprView) -> Parsed<ExprView>
    decreases ts.len() - p, 4nat,
{
    if p < 0 || p >= ts.len() {
        Ok((lhs, p))
    } else {
        match additive_of(tok_at(ts, p).0) {
            None => Ok((lhs, p)),
            Some(op) => if next_pos(ts, p) <= p {
                Ok((lhs, p))
            } else {
                match parse_multiplicative(ts, next_pos(ts, p)) {
                    Err(d) => Err(d),
                    Ok((rhs, p2)) => if p2 <= p || p2 >= ts.len() {
                        Ok((lhs, p))
                    } else {
                        additive_rest(ts, p2, binary(op, lhs, rhs))
                    },
                }
            },
        }
    }
}

/// `multiplicative`: unary expressions joined by `*`, `/` and `%`, to the
/// left.
pub open spec fn parse_multiplicative(ts: Toks, p: int) -> Parsed<ExprView>
    decreases ts.len() - p, 3nat,
{
    if p < 0 || p >= ts.len() {
        Err((stuck(ts, p), p))
    } else {
        match parse_unary(ts, p) {
            Err(d) => Err(d),
            Ok((lhs, p1)) => if p1 < p || p1 >= ts.len() {
                Ok((lhs, p1))
            } else {
                multiplicative_rest(ts, p1, lhs)
            },
        }
    }
}

/// More `*`, `/` and `%` after `lhs`, at `p`.
pub open spec fn multiplicative_rest(ts: Toks, p: int, lhs: ExprView) -> Parsed<ExprView>
    decreases ts.len() - p, 2nat,
{
    if p < 0 || p >= ts.len() {
        Ok((lhs, p))
    } else {
        match multiplicative_of(tok_at(ts, p).0) {
            None => Ok((lhs, p)),
            Some(op) => if next_pos(ts, p) <= p {
                Ok((lhs, p))
            } else {
                match parse_unary(ts, next_pos(ts, p)) {
                    Err(d) => Err(d),
                    Ok((rhs, p2)) => if p2 <= p || p2 >= ts.len() {
                        Ok((lhs, p))
                    } else {
                        multiplicative_rest(ts, p2, binary(op, lhs, rhs))
                    },
                }
            },
        }
    }
}

/// `unary`: any number of `-` in front of a primary.
pub open spec fn parse_unary(ts: Toks, p: int) -> Parsed<ExprView>
    decreases ts.len() - p, 1nat,
{
    if p < 0 || p >= ts.len() {
        Err((stuck(ts, p), p))
    } else if tok_at(ts, p).0 is Minus && next_pos(ts, p) > p {
        let start = tok_at(ts, p).1;
        match parse_unary(ts, next_pos(ts, p)) {
            Err(d) => Err(d),
            Ok((operand, p2)) => Ok(
                (ExprView::Neg { operand: Box::new(operand), span: join(start, espan(operand)) }, p2),
            ),
        }
    } else {
        parse_primary(ts, p)
    }
}

/// `primary`: a literal, a name, a bare escape, a typed literal such as
/// `f16 '5'`, or a group `| ... |`.
pub open spec fn parse_primary(ts: Toks, p: int) -> Parsed<ExprView>
    decreases ts.len() - p, 0nat,
{
    if p < 0 || p >= ts.len() {
        Err((stuck(ts, p), p))
    } else {
        let (t, span) = tok_at(ts, p);
        match t {
            TokView::Str(text) => Ok((ExprView::Literal { text, span }, next_pos(ts, p))),
            TokView::Ident(text) => Ok((ExprView::Ident { text, span }, next_pos(ts, p))),
            TokView::Escape(text) => Ok((ExprView::Escape { text, span }, next_pos(ts, p))),
            TokView::Word(word) => {
                let p1 = next_pos(ts, p);
                match tok_at(ts, p1).0 {
                    TokView::Str(text) => Ok(
                        (
                            ExprView::TypedLiteral {
                                ty: word,
                                ty_span: span,
                                text,
                                span: join(span, tok_at(ts, p1).1),
                            },
                            next_pos(ts, p1),
                        ),
                    ),
                    other => Err(
                        (
                            helped(
                                diag(
                                    join(span, tok_at(ts, p1).1),
                                    Rule::LiteralsNeedAType,
                                    "expected a literal after `"@ + word + "`, found "@ + describe(other),
                                ),
                                "a type in front of a value states that value's type, as in `f16 '5'`"@,
                            ),
                            p1,
                        ),
                    ),
                }
            },
            TokView::Pipe => if next_pos(ts, p) <= p {
                Err((stuck(ts, p), p))
            } else {
                match parse_expr(ts, next_pos(ts, p)) {
                    Err(d) => Err(d),
                    Ok((inner, p2)) => if tok_at(ts, p2).0 is Pipe {
                        Ok(
                            (
                                ExprView::Group { inner: Box::new(inner), span: join(span, tok_at(ts, p2).1) },
                                next_pos(ts, p2),
                            ),
                        )
                    } else {
                        Err(
                            (
                                helped(
                                    diag(
                                        tok_at(ts, p2).1,
                                        Rule::GroupsArePiped,
                                        "expected `|` to close this group, found "@ + describe(tok_at(ts, p2).0),
                                    ),
                                    "grouping uses pipes: `(...)` is a name and `[...]` is print's list, so neither was free"@,
                                ),
                                p2,
                            ),
                        )
                    },
                }
            },
            other => Err(
                (
                    helped(
                        diag(span, Rule::ValuesAreQuoted, "expected a value, found "@ + describe(other)),
                        "a value is a quoted literal like `'12'`, a name like `(x)`, or `| ... |`"@,
                    ),
                    p,
                ),
            ),
        }
    }
}

// --------------------------------------------------------------- statements

/// The help attached to a missing `end`.
pub open spec fn end_help() -> Seq<char> {
    "`end` closes a statement chain; chain statements with `,` or close this one with `end`"@
}

/// `end`, closing a chain.
pub open spec fn parse_end(ts: Toks, p: int) -> Parsed<()> {
    if at_word(ts, p, "end"@) {
        Ok(((), next_pos(ts, p)))
    } else {
        Err(
            (
                helped(
                    diag(tok_at(ts, p).1, Rule::EndClosesAChain, "expected `end`, found "@ + describe(tok_at(ts, p).0)),
                    end_help(),
                ),
                p,
            ),
        )
    }
}

/// `=`, between a name and its value.
pub open spec fn parse_equals(ts: Toks, p: int) -> Parsed<()> {
    if tok_at(ts, p).0 is Assign {
        Ok(((), next_pos(ts, p)))
    } else {
        Err((diag(tok_at(ts, p).1, Rule::StatementForm, "expected `=`, found "@ + describe(tok_at(ts, p).0)), p))
    }
}

/// A name `(...)`; `ctx` says where it was wanted.
pub open spec fn parse_ident(ts: Toks, p: int, ctx: Seq<char>) -> Parsed<(Seq<char>, Span)> {
    match tok_at(ts, p).0 {
        TokView::Ident(text) => Ok(((text, tok_at(ts, p).1), next_pos(ts, p))),
        other => Err(
            (
                helped(
                    diag(
                        tok_at(ts, p).1,
                        Rule::NamesAreParenthesised,
                        "expected a name "@ + ctx + ", found "@ + describe(other),
                    ),
                    "names are parenthesised so they can hold spaces and emoji, as in `(item count)`"@,
                ),
                p,
            ),
        ),
    }
}

/// After `var`: a type, a name, `=` and a value.
pub open spec fn parse_var(ts: Toks, p: int, modifier: Option<Modifier>, start: Span) -> Parsed<StmtView> {
    match tok_at(ts, p).0 {
        TokView::Word(ty) => match parse_ident(ts, next_pos(ts, p), "after the type in a `var` declaration"@) {
            Err(e) => Err(e),
            Ok(((name, name_span), p2)) => match parse_equals(ts, p2) {
                Err(e) => Err(e),
                Ok((_, p3)) => match parse_expr(ts, p3) {
                    Err(e) => Err(e),
                    Ok((value, p4)) => Ok(
                        (
                            StmtView::Var {
                                modifier,
                                ty,
                                ty_span: tok_at(ts, p).1,
                                name,
                                name_span,
                                value,
                                span: join(start, espan(value)),
                            },
                            p4,
                        ),
                    ),
                },
            },
        },
        other => Err(
            (
                helped(
                    diag(tok_at(ts, p).1, Rule::TypesMustExist, "expected a type after `var`, found "@ + describe(other)),
                    "the type comes before the name: `var i32 (x) = '1' end`"@,
                ),
                p,
            ),
        ),
    }
}

/// After `set`: a name, `=` and a value.
pub open spec fn parse_set(ts: Toks, p: int, start: Span) -> Parsed<StmtView> {
    match parse_ident(ts, p, "after `set`"@) {
        Err(e) => Err(e),
        Ok(((name, name_span), p2)) => match parse_equals(ts, p2) {
            Err(e) => Err(e),
            Ok((_, p3)) => match parse_expr(ts, p3) {
                Err(e) => Err(e),
                Ok((value, p4)) => Ok(
                    (StmtView::Assign { name, name_span, value, span: join(start, espan(value)) }, p4),
                ),
            },
        },
    }
}

/// The items of a `print`, juxtaposed, up to its `]`; `acc` holds those read.
pub open spec fn parse_items(ts: Toks, p: int, open: Span, acc: Seq<ExprView>) -> Parsed<Seq<ExprView>>
    decreases ts.len() - p,
{
    if p < 0 || p >= ts.len() {
        Err((stuck(ts, p), p))
    } else if tok_at(ts, p).0 is RBracket {
        Ok((acc, p))
    } else if tok_at(ts, p).0 is Eof {
        Err((helped(diag(open, Rule::PrintTakesBrackets, "unterminated `print`"@), "this `[` is never closed by a `]`"@), p))
    } else {
        match parse_expr(ts, p) {
            Err(e) => Err(e),
            Ok((e, p1)) => if !ahead(ts, p, p1) {
                Err((stuck(ts, p1), p1))
            } else {
                parse_items(ts, p1, open, acc.push(e))
            },
        }
    }
}

/// After `print`: `[ item item ... ]`.
pub open spec fn parse_print(ts: Toks, p: int, start: Span) -> Parsed<StmtView> {
    if !(tok_at(ts, p).0 is LBracket) {
        Err(
            (
                helped(
                    diag(tok_at(ts, p).1, Rule::PrintTakesBrackets, "expected `[` after `print`, found "@ + describe(tok_at(ts, p).0)),
                    "print takes its values in brackets: `print[\"hello \" (name)] end`"@,
                ),
                p,
            ),
        )
    } else {
        match parse_items(ts, next_pos(ts, p), tok_at(ts, p).1, Seq::empty()) {
            Err(e) => Err(e),
            Ok((items, p2)) => Ok((StmtView::Print { items, span: join(start, tok_at(ts, p2).1) }, next_pos(ts, p2))),
        }
    }
}

/// The modifier at `p`, if one stands there.
pub open spec fn modifier_at(ts: Toks, p: int) -> Option<Modifier> {
    if at_word(ts, p, "global"@) {
        Some(Modifier::Global)
    } else if at_word(ts, p, "pub"@) {
        Some(Modifier::Pub)
    } else {
        None
    }
}

/// One statement: `var`, `set` or `print`, a declaration perhaps behind a
/// modifier.
#[verifier::opaque]
pub open spec fn parse_stmt(ts: Toks, p: int) -> Parsed<StmtView> {
    let start = tok_at(ts, p).1;
    let modifier = modifier_at(ts, p);
    let q = if modifier is Some { next_pos(ts, p) } else { p };
    if modifier is Some && !at_word(ts, q, "var"@) {
        Err(
            (
                helped(
                    diag(
                        tok_at(ts, q).1,
                        Rule::StatementForm,
                        "expected `var` after `"@ + modifier_text(modifier->0) + "`, found "@ + describe(tok_at(ts, q).0),
                    ),
                    "modifiers attach to a declaration, as in `global var i32 (n) = '0' end`"@,
                ),
                q,
            ),
        )
    } else if at_word(ts, q, "var"@) {
        parse_var(ts, next_pos(ts, q), modifier, start)
    } else if at_word(ts, q, "set"@) {
        parse_set(ts, next_pos(ts, q), start)
    } else if at_word(ts, q, "print"@) {
        parse_print(ts, next_pos(ts, q), start)
    } else if tok_at(ts, q).0 is RBrace {
        Err(
            (
                helped(
                    diag(tok_at(ts, q).1, Rule::BlocksAreBraced, "unmatched `}`"@),
                    "this brace closes a block that was never opened"@,
                ),
                q,
            ),
        )
    } else {
        Err(
            (
                helped(
                    diag(tok_at(ts, q).1, Rule::StatementForm, "expected a statement, found "@ + describe(tok_at(ts, q).0)),
                    "a statement starts with `var`, `set`, `print`, `global` or `pub`"@,
                ),
                q,
            ),
        )
    }
}

/// More statements of a chain, each behind a `,`; `acc` holds those read.
pub open spec fn parse_links(ts: Toks, p: int, acc: Seq<StmtView>) -> Parsed<Seq<StmtView>>
    decreases ts.len() - p,
{
    if p < 0 || p >= ts.len() {
        Err((stuck(ts, p), p))
    } else if tok_at(ts, p).0 is Comma {
        match parse_stmt(ts, next_pos(ts, p)) {
            Err(e) => Err(e),
            Ok((s, p2)) => if !ahead(ts, p, p2) {
                Err((stuck(ts, p2), p2))
            } else {
                parse_links(ts, p2, acc.push(s))
            },
        }
    } else {
        Ok((acc, p))
    }
}

/// A chain: `stmt (',' stmt)* 'end'`.
pub open spec fn parse_chain(ts: Toks, p: int) -> Parsed<Seq<StmtView>> {
    match parse_stmt(ts, p) {
        Err(e) => Err(e),
        Ok((s, p1)) => match parse_links(ts, p1, seq![s]) {
            Err(e) => Err(e),
            Ok((stmts, p2)) => match parse_end(ts, p2) {
                Err(e) => Err(e),
                Ok((_, p3)) => Ok((stmts, p3)),
            },
        },
    }
}

/// One thing at statement level: an `if`, which closes itself with its
/// brace, or a chain, which closes with `end`.
pub open spec fn parse_item(ts: Toks, p: int) -> Parsed<Seq<StmtView>>
    decreases ts.len() - p, 0nat,
{
    if p < 0 || p >= ts.len() {
        Err((stuck(ts, p), p))
    } else if at_word(ts, p, "if"@) {
        if !ahead(ts, p, next_pos(ts, p)) {
            Err((stuck(ts, p), p))
        } else {
            match parse_if(ts, next_pos(ts, p), tok_at(ts, p).1) {
                Err(e) => Err(e),
                Ok((s, p2)) => Ok((seq![s], p2)),
            }
        }
    } else {
        parse_chain(ts, p)
    }
}

/// Statements up to the next divider or the closing brace; `acc` holds
/// those read. `open` is the brace that opened the block.
pub open spec fn parse_arm(ts: Toks, p: int, open: Span, acc: Seq<StmtView>) -> Parsed<Seq<StmtView>>
    decreases ts.len() - p, 1nat,
{
    if p < 0 || p >= ts.len() {
        Err((stuck(ts, p), p))
    } else if tok_at(ts, p).0 is RBrace || at_word(ts, p, "else"@) || at_word(ts, p, "elseif"@) {
        Ok((acc, p))
    } else if tok_at(ts, p).0 is Eof {
        Err((helped(diag(open, Rule::BlocksAreBraced, "unterminated block"@), "this `{` is never closed by a `}`"@), p))
    } else {
        match parse_item(ts, p) {
            Err(e) => Err(e),
            Ok((c, p1)) => if !ahead(ts, p, p1) {
                Err((stuck(ts, p1), p1))
            } else {
                parse_arm(ts, p1, open, acc + c)
            },
        }
    }
}

/// More `elseif cond` arms, after those in `arms`.
pub open spec fn parse_elseifs(ts: Toks, p: int, open: Span, arms: Seq<(ExprView, Seq<StmtView>)>) -> Parsed<
    Seq<(ExprView, Seq<StmtView>)>,
>
    decreases ts.len() - p, 2nat,
{
    if p < 0 || p >= ts.len() {
        Err((stuck(ts, p), p))
    } else if at_word(ts, p, "elseif"@) {
        match parse_expr(ts, next_pos(ts, p)) {
            Err(e) => Err(e),
            Ok((cond, p2)) => if !ahead(ts, p, p2) {
                Err((stuck(ts, p2), p2))
            } else {
                match parse_arm(ts, p2, open, Seq::empty()) {
                    Err(e) => Err(e),
                    Ok((body, p3)) => if !ahead(ts, p, p3) {
                        Err((stuck(ts, p3), p3))
                    } else {
                        parse_elseifs(ts, p3, open, arms.push((cond, body)))
                    },
                }
            },
        }
    } else {
        Ok((arms, p))
    }
}

/// The end of an `if`: nothing may divide the block after `else`, and `}`
/// closes it.
#[verifier::opaque]
pub open spec fn close_if(
    ts: Toks,
    p: int,
    arms: Seq<(ExprView, Seq<StmtView>)>,
    else_arm: Seq<StmtView>,
    start: Span,
) -> Parsed<StmtView> {
    if at_word(ts, p, "elseif"@) {
        Err(
            (
                helped(
                    diag(tok_at(ts, p).1, Rule::BlocksAreBraced, "`elseif` cannot come after `else`"@),
                    "`else` is the last arm; move it below the `elseif` arms"@,
                ),
                p,
            ),
        )
    } else if at_word(ts, p, "else"@) {
        Err((diag(tok_at(ts, p).1, Rule::BlocksAreBraced, "a block may have only one `else`"@), p))
    } else if !(tok_at(ts, p).0 is RBrace) {
        Err(
            (
                diag(
                    tok_at(ts, p).1,
                    Rule::BlocksAreBraced,
                    "expected `}` to close this `if`, found "@ + describe(tok_at(ts, p).0),
                ),
                p,
            ),
        )
    } else {
        Ok((StmtView::If { arms, else_arm, span: join(start, tok_at(ts, p).1) }, next_pos(ts, p)))
    }
}

/// After `if`: `cond { ... elseif cond ... else ... }`. The whole chain lives
/// in one brace pair: `elseif` and `else` divide it rather than opening
/// blocks of their own.
pub open spec fn parse_if(ts: Toks, p: int, start: Span) -> Parsed<StmtView>
    decreases ts.len() - p, 2nat,
{
    if p < 0 || p >= ts.len() {
        Err((stuck(ts, p), p))
    } else {
        match parse_expr(ts, p) {
            Err(e) => Err(e),
            Ok((cond, p1)) => if !(tok_at(ts, p1).0 is LBrace) {
                Err(
                    (
                        helped(
                            diag(
                                tok_at(ts, p1).1,
                                Rule::BlocksAreBraced,
                                "expected `{` after the condition, found "@ + describe(tok_at(ts, p1).0),
                            ),
                            "an `if` body is braced: `if (x) > '5' { ... }`"@,
                        ),
                        p1,
                    ),
                )
            } else if !ahead(ts, p, next_pos(ts, p1)) {
                Err((stuck(ts, p1), p1))
            } else {
                let open = tok_at(ts, p1).1;
                match parse_arm(ts, next_pos(ts, p1), open, Seq::empty()) {
                    Err(e) => Err(e),
                    Ok((body, p3)) => if !ahead(ts, p, p3) {
                        Err((stuck(ts, p3), p3))
                    } else {
                        match parse_elseifs(ts, p3, open, seq![(cond, body)]) {
                            Err(e) => Err(e),
                            Ok((arms, p4)) => if !at_word(ts, p4, "else"@) {
                                close_if(ts, p4, arms, Seq::empty(), start)
                            } else if !ahead(ts, p, next_pos(ts, p4)) {
                                Err((stuck(ts, p4), p4))
                            } else {
                                match parse_arm(ts, next_pos(ts, p4), open, Seq::empty()) {
                                    Err(e) => Err(e),
                                    Ok((else_arm, p6)) => close_if(ts, p6, arms, else_arm, start),
                                }
                            },
                        }
                    },
                }
            },
        }
    }
}

// ------------------------------------------------------------------ programs

/// Where parsing resumes after an error at `p`: just past the next `end`, or
/// at a `}` (which closes an enclosing block), or at the end of the input.
pub open spec fn recover(ts: Toks, p: int) -> int
    decreases ts.len() - p,
{
    if p < 0 || p >= ts.len() {
        p
    } else if tok_at(ts, p).0 is Eof || tok_at(ts, p).0 is RBrace {
        p
    } else if at_word(ts, p, "end"@) {
        next_pos(ts, p)
    } else if !ahead(ts, p, next_pos(ts, p)) {
        p
    } else {
        recover(ts, next_pos(ts, p))
    }
}

/// The rest of a program from `p`, after the statements and errors so far.
/// An error is recorded and parsing resumes past it, so one bad chain does
/// not hide the rest; where nothing was consumed, one token is skipped.
pub open spec fn parse_rest(ts: Toks, p: int, stmts: Seq<StmtView>, errs: Seq<DiagView>) -> (
    Seq<StmtView>,
    Seq<DiagView>,
)
    decreases ts.len() - p,
{
    if p < 0 || p >= ts.len() || tok_at(ts, p).0 is Eof {
        (stmts, errs)
    } else {
        let (stmts2, errs2, q) = match parse_item(ts, p) {
            Ok((c, p1)) => (stmts + c, errs, p1),
            Err((d, pe)) => (stmts, errs.push(d), recover(ts, pe)),
        };
        let q2 = if q <= p { next_pos(ts, p) } else { q };
        if !ahead(ts, p, q2) {
            (stmts2, errs2)
        } else {
            parse_rest(ts, q2, stmts2, errs2)
        }
    }
}

/// What parsing a source text gives: its statements, or every error found.
pub open spec fn parsed(src: Seq<char>) -> Result<Seq<StmtView>, Seq<DiagView>> {
    match tokens_of(src) {
        Err(d) => Err(seq![d]),
        Ok(ts) => {
            let (stmts, errs) = parse_rest(ts, 0, Seq::empty(), Seq::empty());
            if errs.len() == 0 {
                Ok(stmts)
            } else {
                Err(errs)
            }
        },
    }
}

// -------------------------------------------------------------- view lemmas

proof fn lemma_espan(e: Expr)
    ensures
        espan(expr_view(e)) == expr_span(e),
{
    match e {
        Expr::Literal { .. } => {},
        Expr::Ident(_) => {},
        Expr::Escape { .. } => {},
        Expr::TypedLiteral { .. } => {},
        Expr::Unary { .. } => {},
        Expr::Binary { .. } => {},
        Expr::Group { .. } => {},
    }
}

proof fn lemma_stmts_push(v: Seq<Stmt>, s: Stmt)
    ensures
        stmts_view(v.push(s)) == stmts_view(v).push(stmt_view(s)),
{
    assert(v.push(s).subrange(0, v.len() as int) =~= v);
}

proof fn lemma_stmts_concat(a: Seq<Stmt>, b: Seq<Stmt>)
    ensures
        stmts_view(a + b) == stmts_view(a) + stmts_view(b),
    decreases b.len(),
{
    if b.len() == 0 {
        assert(a + b =~= a);
        assert(stmts_view(a) + stmts_view(b) =~= stmts_view(a));
    } else {
        let c = b.subrange(0, b.len() - 1);
        lemma_stmts_concat(a, c);
        assert((a + b).subrange(0, (a + b).len() - 1) =~= a + c);
        assert(stmts_view(b) == stmts_view(c).push(stmt_view(b[b.len() - 1])));
        assert(stmts_view(a + b) =~= stmts_view(a) + stmts_view(b));
    }
}

proof fn lemma_arms_push(v: Seq<IfArm>, a: IfArm)
    ensures
        if_arms_view(v.push(a)) == if_arms_view(v).push((expr_view(a.cond), stmts_view(a.body@))),
{
    assert(v.push(a).subrange(0, v.len() as int) =~= v);
}

// -------------------------------------------------------------------- parser

/// What a parse step returns agrees with what the grammar gives, the value
/// taken by `f`.
pub open spec fn agrees<T, V>(r: Result<(T, usize), (Diagnostic, usize)>, s: Parsed<V>, f: spec_fn(T) -> V) -> bool {
    match r {
        Ok((x, q)) => s == Ok::<(V, int), (DiagView, int)>((f(x), q as int)),
        Err((d, q)) => s == Err::<(V, int), (DiagView, int)>((d@, q as int)),
    }
}

/// Where a parse from `p` leaves the parser: within the `n` tokens, and
/// past `p` on success where `strict` (a construct that reads at least one
/// token).
pub open spec fn lands<V>(s: Parsed<V>, p: int, n: int, strict: bool) -> bool {
    match s {
        Ok((_, q)) => (if strict { p < q } else { p <= q }) && q < n,
        Err((_, q)) => p <= q < n,
    }
}

/// The comparison a token writes, if it writes one.
fn comparison_op(t: &Tok) -> (r: Option<BinOp>)
    ensures
        r == comparison_of(t@),
{
    match t {
        Tok::EqEq => Some(BinOp::Eq),
        Tok::BangEq => Some(BinOp::Ne),
        Tok::Lt => Some(BinOp::Lt),
        Tok::LtEq => Some(BinOp::Le),
        Tok::Gt => Some(BinOp::Gt),
        Tok::GtEq => Some(BinOp::Ge),
        _ => None,
    }
}

/// The additive operator a token writes, if it writes one.
fn additive_op(t: &Tok) -> (r: Option<BinOp>)
    ensures
        r == additive_of(t@),
{
    match t {
        Tok::Plus => Some(BinOp::Add),
        Tok::Minus => Some(BinOp::Sub),
        _ => None,
    }
}

/// The multiplicative operator a token writes, if it writes one.
fn multiplicative_op(t: &Tok) -> (r: Option<BinOp>)
    ensures
        r == multiplicative_of(t@),
{
    match t {
        Tok::Star => Some(BinOp::Mul),
        Tok::Slash => Some(BinOp::Div),
        Tok::Percent => Some(BinOp::Rem),
        _ => None,
    }
}

/// A diagnostic whose message is a text followed by the name of a token.
fn found(span: Span, rule: Rule, text: &str, t: &Tok) -> (r: Diagnostic)
    ensures
        r@ == diag(span, rule, text@ + describe(t@)),
{
    Diagnostic::new(span, rule, String::from_str(text).concat(t.describe().as_str()))
}

/// A diagnostic with a fixed message.
fn plain(span: Span, rule: Rule, text: &str) -> (r: Diagnostic)
    ensures
        r@ == diag(span, rule, text@),
{
    Diagnostic::new(span, rule, String::from_str(text))
}

/// The same diagnostic with help attached.
fn help(d: Diagnostic, text: &str) -> (r: Diagnostic)
    ensures
        r@ == helped(d@, text@),
{
    d.with_help(String::from_str(text))
}

/// The tokens of one source file and the grammar over them.
struct Parser {
    tokens: Vec<Token>,
}

impl Parser {
    spec fn toks(&self) -> Toks {
        self.tokens@.map_values(|t: Token| token_view(t))
    }

    spec fn wf(&self) -> bool {
        well_formed(self.toks())
    }

    /// Where the token at `p` is: past the end, the last one.
    fn index(&self, p: usize) -> (r: usize)
        requires
            self.wf(),
        ensures
            r < self.tokens@.len(),
            self.toks()[r as int] == tok_at(self.toks(), p as int),
    {
        let n = self.tokens.len();
        if p < n - 1 {
            p
        } else {
            n - 1
        }
    }

    fn tok(&self, p: usize) -> (r: &Tok)
        requires
            self.wf(),
        ensures
            r@ == tok_at(self.toks(), p as int).0,
    {
        let i = self.index(p);
        &self.tokens[i].tok
    }

    fn span(&self, p: usize) -> (r: Span)
        requires
            self.wf(),
        ensures
            r == tok_at(self.toks(), p as int).1,
    {
        let i = self.index(p);
        self.tokens[i].span
    }

    fn next(&self, p: usize) -> (r: usize)
        requires
            self.wf(),
        ensures
            r == next_pos(self.toks(), p as int),
    {
        if p < self.tokens.len() - 1 {
            p + 1
        } else {
            p
        }
    }

    fn at_word(&self, p: usize, w: &str) -> (r: bool)
        requires
            self.wf(),
        ensures
            r == at_word(self.toks(), p as int, w@),
    {
        match self.tok(p) {
            Tok::Word(x) => str_eq(x.as_str(), w),
            _ => false,
        }
    }

    fn at_comma(&self, p: usize) -> (r: bool)
        requires
            self.wf(),
        ensures
            r == (tok_at(self.toks(), p as int).0 is Comma),
    {
        matches!(self.tok(p), Tok::Comma)
    }

    fn at_eof(&self, p: usize) -> (r: bool)
        requires
            self.wf(),
        ensures
            r == (tok_at(self.toks(), p as int).0 is Eof),
    {
        matches!(self.tok(p), Tok::Eof)
    }

    fn at_brace(&self, p: usize) -> (r: bool)
        requires
            self.wf(),
        ensures
            r == (tok_at(self.toks(), p as int).0 is RBrace),
    {
        matches!(self.tok(p), Tok::RBrace)
    }

    /// Comparisons do not chain: `a < b < c` is rejected rather than misread.
    fn expr(&self, p: usize) -> (r: Result<(Expr, usize), (Diagnostic, usize)>)
        requires
            self.wf(),
            p < self.tokens@.len(),
        ensures
            agrees(r, parse_expr(self.toks(), p as int), |e: Expr| expr_view(e)),
            lands(parse_expr(self.toks(), p as int), p as int, self.tokens@.len() as int, true),
        decreases self.tokens@.len() - p, 6nat,
    {
        let (lhs, p1) = match self.additive(p) {
            Ok(x) => x,
            Err(e) => return Err(e),
        };
        let op = match comparison_op(self.tok(p1)) {
            Some(op) => op,
            None => return Ok((lhs, p1)),
        };
        let (rhs, p2) = match self.additive(self.next(p1)) {
            Ok(x) => x,
            Err(e) => return Err(e),
        };
        proof {
            lemma_espan(lhs);
            lemma_espan(rhs);
        }
        let span = lhs.span().to(rhs.span());
        let e = Expr::Binary { op, lhs: Box::new(lhs), rhs: Box::new(rhs), span };
        if comparison_op(self.tok(p2)).is_some() {
            return Err(
                (
                    help(
                        plain(self.span(p2), Rule::ComparisonsDoNotChain, "comparison operators cannot be chained"),
                        "group one side explicitly, as in `[ (a) < (b) ] == (c)`",
                    ),
                    p2,
                ),
            );
        }
        Ok((e, p2))
    }

    fn additive(&self, p: usize) -> (r: Result<(Expr, usize), (Diagnostic, usize)>)
        requires
            self.wf(),
            p < self.tokens@.len(),
        ensures
            agrees(r, parse_additive(self.toks(), p as int), |e: Expr| expr_view(e)),
            lands(parse_additive(self.toks(), p as int), p as int, self.tokens@.len() as int, true),
        decreases self.tokens@.len() - p, 5nat,
    {
        let (mut lhs, mut q) = match self.multiplicative(p) {
            Ok(x) => x,
            Err(e) => return Err(e),
        };
        loop
            invariant
                self.wf(),
                p < q < self.tokens@.len(),
                parse_additive(self.toks(), p as int) == additive_rest(self.toks(), q as int, expr_view(lhs)),
            decreases self.tokens@.len() - q,
        {
            let op = match additive_op(self.tok(q)) {
                Some(op) => op,
                None => return Ok((lhs, q)),
            };
            let (rhs, q2) = match self.multiplicative(self.next(q)) {
                Ok(x) => x,
                Err(e) => return Err(e),
            };
            proof {
                lemma_espan(lhs);
                lemma_espan(rhs);
            }
            let span = lhs.span().to(rhs.span());
            lhs = Expr::Binary { op, lhs: Box::new(lhs), rhs: Box::new(rhs), span };
            q = q2;
        }
    }

    fn multiplicative(&self, p: usize) -> (r: Result<(Expr, usize), (Diagnostic, usize)>)
        requires
            self.wf(),
            p < self.tokens@.len(),
        ensures
            agrees(r, parse_multiplicative(self.toks(), p as int), |e: Expr| expr_view(e)),
            lands(parse_multiplicative(self.toks(), p as int), p as int, self.tokens@.len() as int, true),
        decreases self.tokens@.len() - p, 3nat,
    {
        let (mut lhs, mut q) = match self.unary(p) {
            Ok(x) => x,
            Err(e) => return Err(e),
        };
        loop
            invariant
                self.wf(),
                p < q < self.tokens@.len(),
                parse_multiplicative(self.toks(), p as int) == multiplicative_rest(
                    self.toks(),
                    q as int,
                    expr_view(lhs),
                ),
            decreases self.tokens@.len() - q,
        {
            let op = match multiplicative_op(self.tok(q)) {
                Some(op) => op,
                None => return Ok((lhs, q)),
            };
            let (rhs, q2) = match self.unary(self.next(q)) {
                Ok(x) => x,
                Err(e) => return Err(e),
            };
            proof {
                lemma_espan(lhs);
                lemma_espan(rhs);
            }
            let span = lhs.span().to(rhs.span());
            lhs = Expr::Binary { op, lhs: Box::new(lhs), rhs: Box::new(rhs), span };
            q = q2;
        }
    }

    fn unary(&self, p: usize) -> (r: Result<(Expr, usize), (Diagnostic, usize)>)
        requires
            self.wf(),
            p < self.tokens@.len(),
        ensures
            agrees(r, parse_unary(self.toks(), p as int), |e: Expr| expr_view(e)),
            lands(parse_unary(self.toks(), p as int), p as int, self.tokens@.len() as int, true),
        decreases self.tokens@.len() - p, 1nat,
    {
        if matches!(self.tok(p), Tok::Minus) {
            let start = self.span(p);
            let (operand, q) = match self.unary(self.next(p)) {
                Ok(x) => x,
                Err(e) => return Err(e),
            };
            proof {
                lemma_espan(operand);
            }
            let span = start.to(operand.span());
            return Ok((Expr::Unary { op: UnOp::Neg, operand: Box::new(operand), span }, q));
        }
        self.primary(p)
    }

    fn primary(&self, p: usize) -> (r: Result<(Expr, usize), (Diagnostic, usize)>)
        requires
            self.wf(),
            p < self.tokens@.len(),
        ensures
            agrees(r, parse_primary(self.toks(), p as int), |e: Expr| expr_view(e)),
            lands(parse_primary(self.toks(), p as int), p as int, self.tokens@.len() as int, true),
        decreases self.tokens@.len() - p, 0nat,
    {
        let span = self.span(p);
        match self.tok(p) {
            Tok::Str(text) => Ok((Expr::Literal { text: text.clone(), span }, self.next(p))),
            Tok::Ident(text) => Ok((Expr::Ident(Name { text: text.clone(), span }), self.next(p))),
            Tok::Escape(text) => Ok((Expr::Escape { text: text.clone(), span }, self.next(p))),
            // `f16 '5'`: a literal saying its own type, so it can stand where
            // nothing else would supply one.
            Tok::Word(word) => {
                let p1 = self.next(p);
                match self.tok(p1) {
                    Tok::Str(text) => Ok(
                        (
                            Expr::TypedLiteral {
                                ty: TypeRef { text: word.clone(), span },
                                text: text.clone(),
                                span: span.to(self.span(p1)),
                            },
                            self.next(p1),
                        ),
                    ),
                    other => {
                        let m = String::from_str("expected a literal after `").concat(word.as_str()).concat(
                            "`, found ",
                        ).concat(other.describe().as_str());
                        Err(
                            (
                                help(
                                    Diagnostic::new(span.to(self.span(p1)), Rule::LiteralsNeedAType, m),
                                    "a type in front of a value states that value's type, as in `f16 '5'`",
                                ),
                                p1,
                            ),
                        )
                    },
                }
            },
            Tok::Pipe => {
                let (inner, p2) = match self.expr(self.next(p)) {
                    Ok(x) => x,
                    Err(e) => return Err(e),
                };
                if matches!(self.tok(p2), Tok::Pipe) {
                    Ok((Expr::Group { inner: Box::new(inner), span: span.to(self.span(p2)) }, self.next(p2)))
                } else {
                    Err(
                        (
                            help(
                                found(
                                    self.span(p2),
                                    Rule::GroupsArePiped,
                                    "expected `|` to close this group, found ",
                                    self.tok(p2),
                                ),
                                "grouping uses pipes: `(...)` is a name and `[...]` is print's list, so neither was free",
                            ),
                            p2,
                        ),
                    )
                }
            },
            other => Err(
                (
                    help(
                        found(span, Rule::ValuesAreQuoted, "expected a value, found ", other),
                        "a value is a quoted literal like `'12'`, a name like `(x)`, or `| ... |`",
                    ),
                    p,
                ),
            ),
        }
    }

    fn end(&self, p: usize) -> (r: Result<((), usize), (Diagnostic, usize)>)
        requires
            self.wf(),
            p < self.tokens@.len(),
        ensures
            agrees(r, parse_end(self.toks(), p as int), |u: ()| u),
            lands(parse_end(self.toks(), p as int), p as int, self.tokens@.len() as int, true),
    {
        if self.at_word(p, "end") {
            Ok(((), self.next(p)))
        } else {
            Err(
                (
                    help(
                        found(self.span(p), Rule::EndClosesAChain, "expected `end`, found ", self.tok(p)),
                        "`end` closes a statement chain; chain statements with `,` or close this one with `end`",
                    ),
                    p,
                ),
            )
        }
    }

    fn equals(&self, p: usize) -> (r: Result<((), usize), (Diagnostic, usize)>)
        requires
            self.wf(),
            p < self.tokens@.len(),
        ensures
            agrees(r, parse_equals(self.toks(), p as int), |u: ()| u),
            lands(parse_equals(self.toks(), p as int), p as int, self.tokens@.len() as int, true),
    {
        if matches!(self.tok(p), Tok::Assign) {
            Ok(((), self.next(p)))
        } else {
            Err((found(self.span(p), Rule::StatementForm, "expected `=`, found ", self.tok(p)), p))
        }
    }

    fn ident(&self, p: usize, ctx: &str) -> (r: Result<(Name, usize), (Diagnostic, usize)>)
        requires
            self.wf(),
            p < self.tokens@.len(),
        ensures
            agrees(r, parse_ident(self.toks(), p as int, ctx@), |n: Name| (n.text@, n.span)),
            lands(parse_ident(self.toks(), p as int, ctx@), p as int, self.tokens@.len() as int, true),
    {
        match self.tok(p) {
            Tok::Ident(text) => Ok((Name { text: text.clone(), span: self.span(p) }, self.next(p))),
            other => {
                let m = String::from_str("expected a name ").concat(ctx).concat(", found ").concat(
                    other.describe().as_str(),
                );
                Err(
                    (
                        help(
                            Diagnostic::new(self.span(p), Rule::NamesAreParenthesised, m),
                            "names are parenthesised so they can hold spaces and emoji, as in `(item count)`",
                        ),
                        p,
                    ),
                )
            },
        }
    }

    fn var_stmt(&self, p: usize, modifier: Option<Modifier>, start: Span) -> (r: Result<
        (Stmt, usize),
        (Diagnostic, usize),
    >)
        requires
            self.wf(),
            p < self.tokens@.len(),
        ensures
            agrees(r, parse_var(self.toks(), p as int, modifier, start), |s: Stmt| stmt_view(s)),
            lands(parse_var(self.toks(), p as int, modifier, start), p as int, self.tokens@.len() as int, true),
    {
        let ty = match self.tok(p) {
            Tok::Word(text) => TypeRef { text: text.clone(), span: self.span(p) },
            other => {
                return Err(
                    (
                        help(
                            found(self.span(p), Rule::TypesMustExist, "expected a type after `var`, found ", other),
                            "the type comes before the name: `var i32 (x) = '1' end`",
                        ),
                        p,
                    ),
                );
            },
        };
        let (name, p2) = match self.ident(self.next(p), "after the type in a `var` declaration") {
            Ok(x) => x,
            Err(e) => return Err(e),
        };
        let (_, p3) = match self.equals(p2) {
            Ok(x) => x,
            Err(e) => return Err(e),
        };
        let (value, p4) = match self.expr(p3) {
            Ok(x) => x,
            Err(e) => return Err(e),
        };
        proof {
            lemma_espan(value);
        }
        let span = start.to(value.span());
        Ok((Stmt::Var { modifier, ty, name, value, span }, p4))
    }

    fn assign_stmt(&self, p: usize, start: Span) -> (r: Result<(Stmt, usize), (Diagnostic, usize)>)
        requires
            self.wf(),
            p < self.tokens@.len(),
        ensures
            agrees(r, parse_set(self.toks(), p as int, start), |s: Stmt| stmt_view(s)),
            lands(parse_set(self.toks(), p as int, start), p as int, self.tokens@.len() as int, true),
    {
        let (name, p2) = match self.ident(p, "after `set`") {
            Ok(x) => x,
            Err(e) => return Err(e),
        };
        let (_, p3) = match self.equals(p2) {
            Ok(x) => x,
            Err(e) => return Err(e),
        };
        let (value, p4) = match self.expr(p3) {
            Ok(x) => x,
            Err(e) => return Err(e),
        };
        proof {
            lemma_espan(value);
        }
        let span = start.to(value.span());
        Ok((Stmt::Assign { name, value, span }, p4))
    }

    /// `print [ item item ... ]`. Items are juxtaposed, not separated.
    fn print_stmt(&self, p: usize, start: Span) -> (r: Result<(Stmt, usize), (Diagnostic, usize)>)
        requires
            self.wf(),
            p < self.tokens@.len(),
        ensures
            agrees(r, parse_print(self.toks(), p as int, start), |s: Stmt| stmt_view(s)),
            lands(parse_print(self.toks(), p as int, start), p as int, self.tokens@.len() as int, true),
    {
        if !matches!(self.tok(p), Tok::LBracket) {
            return Err(
                (
                    help(
                        found(self.span(p), Rule::PrintTakesBrackets, "expected `[` after `print`, found ", self.tok(p)),
                        "print takes its values in brackets: `print[\"hello \" (name)] end`",
                    ),
                    p,
                ),
            );
        }
        let open = self.span(p);
        let mut items: Vec<Expr> = Vec::new();
        let mut q = self.next(p);
        proof {
            assert(exprs_view(items@) =~= Seq::<ExprView>::empty());
        }
        loop
            invariant
                self.wf(),
                p < q < self.tokens@.len(),
                parse_items(self.toks(), q as int, open, exprs_view(items@)) == parse_items(
                    self.toks(),
                    next_pos(self.toks(), p as int),
                    open,
                    Seq::empty(),
                ),
                parse_print(self.toks(), p as int, start) == match parse_items(
                    self.toks(),
                    next_pos(self.toks(), p as int),
                    open,
                    Seq::empty(),
                ) {
                    Err(e) => Err(e),
                    Ok((items, p2)) => Ok(
                        (
                            StmtView::Print { items, span: join(start, tok_at(self.toks(), p2).1) },
                            next_pos(self.toks(), p2),
                        ),
                    ),
                },
            decreases self.tokens@.len() - q,
        {
            if matches!(self.tok(q), Tok::RBracket) {
                let end = self.span(q);
                return Ok((Stmt::Print { items, span: start.to(end) }, self.next(q)));
            }
            if self.at_eof(q) {
                return Err(
                    (help(plain(open, Rule::PrintTakesBrackets, "unterminated `print`"), "this `[` is never closed by a `]`"), q),
                );
            }
            let (e, q2) = match self.expr(q) {
                Ok(x) => x,
                Err(e) => return Err(e),
            };
            proof {
                assert(exprs_view(items@.push(e)) =~= exprs_view(items@).push(expr_view(e)));
            }
            items.push(e);
            q = q2;
        }
    }

    fn stmt(&self, p: usize) -> (r: Result<(Stmt, usize), (Diagnostic, usize)>)
        requires
            self.wf(),
            p < self.tokens@.len(),
        ensures
            agrees(r, parse_stmt(self.toks(), p as int), |s: Stmt| stmt_view(s)),
            lands(parse_stmt(self.toks(), p as int), p as int, self.tokens@.len() as int, true),
    {
        proof {
            reveal(parse_stmt);
        }
        let start = self.span(p);
        // Modifiers come before `var`: `global var i32 (n) = '0' end`.
        let modifier = if self.at_word(p, "global") {
            Some(Modifier::Global)
        } else if self.at_word(p, "pub") {
            Some(Modifier::Pub)
        } else {
            None
        };
        let q = if modifier.is_some() {
            self.next(p)
        } else {
            p
        };
        if let Some(m) = modifier {
            if !self.at_word(q, "var") {
                let msg = String::from_str("expected `var` after `").concat(m.as_str()).concat("`, found ").concat(
                    self.tok(q).describe().as_str(),
                );
                return Err(
                    (
                        help(
                            Diagnostic::new(self.span(q), Rule::StatementForm, msg),
                            "modifiers attach to a declaration, as in `global var i32 (n) = '0' end`",
                        ),
                        q,
                    ),
                );
            }
        }
        if self.at_word(q, "var") {
            return self.var_stmt(self.next(q), modifier, start);
        }
        if self.at_word(q, "set") {
            return self.assign_stmt(self.next(q), start);
        }
        if self.at_word(q, "print") {
            return self.print_stmt(self.next(q), start);
        }
        if self.at_brace(q) {
            return Err(
                (
                    help(
                        plain(self.span(q), Rule::BlocksAreBraced, "unmatched `}`"),
                        "this brace closes a block that was never opened",
                    ),
                    q,
                ),
            );
        }
        Err(
            (
                help(
                    found(self.span(q), Rule::StatementForm, "expected a statement, found ", self.tok(q)),
                    "a statement starts with `var`, `set`, `print`, `global` or `pub`",
                ),
                q,
            ),
        )
    }

    /// `stmt (',' stmt)* 'end'`.
    fn chain(&self, p: usize) -> (r: Result<(Vec<Stmt>, usize), (Diagnostic, usize)>)
        requires
            self.wf(),
            p < self.tokens@.len(),
        ensures
            agrees(r, parse_chain(self.toks(), p as int), |v: Vec<Stmt>| stmts_view(v@)),
            lands(parse_chain(self.toks(), p as int), p as int, self.tokens@.len() as int, true),
    {
        let (first, p1) = match self.stmt(p) {
            Ok(x) => x,
            Err(e) => return Err(e),
        };
        let ghost head = stmt_view(first);
        let mut stmts: Vec<Stmt> = Vec::new();
        proof {
            lemma_stmts_push(stmts@, first);
            assert(stmts_view(stmts@) =~= Seq::<StmtView>::empty());
        }
        stmts.push(first);
        let mut q = p1;
        while self.at_comma(q)
            invariant
                self.wf(),
                p < p1 <= q < self.tokens@.len(),
                parse_stmt(self.toks(), p as int) == Ok::<(StmtView, int), (DiagView, int)>((head, p1 as int)),
                parse_links(self.toks(), q as int, stmts_view(stmts@)) == parse_links(self.toks(), p1 as int, seq![head]),
            decreases self.tokens@.len() - q,
        {
            let (s, q2) = match self.stmt(self.next(q)) {
                Ok(x) => x,
                Err(e) => return Err(e),
            };
            proof {
                lemma_stmts_push(stmts@, s);
            }
            stmts.push(s);
            q = q2;
        }
        let (_, q3) = match self.end(q) {
            Ok(x) => x,
            Err(e) => return Err(e),
        };
        Ok((stmts, q3))
    }

    /// One thing at statement level: either a braced construct, which closes
    /// itself, or a chain, which closes with `end`.
    fn item(&self, p: usize) -> (r: Result<(Vec<Stmt>, usize), (Diagnostic, usize)>)
        requires
            self.wf(),
            p < self.tokens@.len(),
        ensures
            agrees(r, parse_item(self.toks(), p as int), |v: Vec<Stmt>| stmts_view(v@)),
            lands(parse_item(self.toks(), p as int), p as int, self.tokens@.len() as int, true),
        decreases self.tokens@.len() - p, 0nat,
    {
        if self.at_word(p, "if") {
            let start = self.span(p);
            let (s, q) = match self.if_stmt(self.next(p), start) {
                Ok(x) => x,
                Err(e) => return Err(e),
            };
            let mut v: Vec<Stmt> = Vec::new();
            proof {
                lemma_stmts_push(v@, s);
                assert(stmts_view(v@) =~= Seq::<StmtView>::empty());
            }
            v.push(s);
            return Ok((v, q));
        }
        self.chain(p)
    }

    /// Statements up to the next divider or the closing brace.
    fn arm(&self, p: usize, open: Span) -> (r: Result<(Vec<Stmt>, usize), (Diagnostic, usize)>)
        requires
            self.wf(),
            p < self.tokens@.len(),
        ensures
            agrees(r, parse_arm(self.toks(), p as int, open, Seq::empty()), |v: Vec<Stmt>| stmts_view(v@)),
            lands(parse_arm(self.toks(), p as int, open, Seq::empty()), p as int, self.tokens@.len() as int, false),
        decreases self.tokens@.len() - p, 1nat,
    {
        let mut stmts: Vec<Stmt> = Vec::new();
        let mut q = p;
        proof {
            assert(stmts_view(stmts@) =~= Seq::<StmtView>::empty());
        }
        loop
            invariant
                self.wf(),
                p <= q < self.tokens@.len(),
                parse_arm(self.toks(), q as int, open, stmts_view(stmts@)) == parse_arm(
                    self.toks(),
                    p as int,
                    open,
                    Seq::empty(),
                ),
            decreases self.tokens@.len() - q,
        {
            if self.at_brace(q) || self.at_word(q, "else") || self.at_word(q, "elseif") {
                return Ok((stmts, q));
            }
            if self.at_eof(q) {
                return Err(
                    (help(plain(open, Rule::BlocksAreBraced, "unterminated block"), "this `{` is never closed by a `}`"), q),
                );
            }
            let (mut c, q2) = match self.item(q) {
                Ok(x) => x,
                Err(e) => return Err(e),
            };
            proof {
                lemma_stmts_concat(stmts@, c@);
            }
            stmts.append(&mut c);
            q = q2;
        }
    }

    /// `if cond { ... elseif cond ... else ... }`, after the `if`.
    ///
    /// The whole chain lives in one brace pair: `elseif` and `else` divide it
    /// rather than opening blocks of their own, so nothing piles up at the end.
    fn if_stmt(&self, p: usize, start: Span) -> (r: Result<(Stmt, usize), (Diagnostic, usize)>)
        requires
            self.wf(),
            p < self.tokens@.len(),
        ensures
            agrees(r, parse_if(self.toks(), p as int, start), |s: Stmt| stmt_view(s)),
            lands(parse_if(self.toks(), p as int, start), p as int, self.tokens@.len() as int, true),
        decreases self.tokens@.len() - p, 2nat,
    {
        let (cond, p1) = match self.expr(p) {
            Ok(x) => x,
            Err(e) => return Err(e),
        };
        if !matches!(self.tok(p1), Tok::LBrace) {
            return Err(
                (
                    help(
                        found(self.span(p1), Rule::BlocksAreBraced, "expected `{` after the condition, found ", self.tok(p1)),
                        "an `if` body is braced: `if (x) > '5' { ... }`",
                    ),
                    p1,
                ),
            );
        }
        let open = self.span(p1);
        let (body, p3) = match self.arm(self.next(p1), open) {
            Ok(x) => x,
            Err(e) => return Err(e),
        };
        let ghost cv = expr_view(cond);
        let ghost bv = stmts_view(body@);
        let ghost first = seq![(cv, bv)];
        let mut arms: Vec<IfArm> = Vec::new();
        proof {
            lemma_arms_push(arms@, IfArm { cond, body });
            assert(if_arms_view(arms@) =~= Seq::<(ExprView, Seq<StmtView>)>::empty());
        }
        arms.push(IfArm { cond, body });
        let mut q = p3;
        while self.at_word(q, "elseif")
            invariant
                self.wf(),
                p < p1 < p3 <= q < self.tokens@.len(),
                parse_expr(self.toks(), p as int) == Ok::<(ExprView, int), (DiagView, int)>((cv, p1 as int)),
                tok_at(self.toks(), p1 as int).0 is LBrace,
                open == tok_at(self.toks(), p1 as int).1,
                parse_arm(self.toks(), next_pos(self.toks(), p1 as int), open, Seq::empty()) == Ok::<
                    (Seq<StmtView>, int),
                    (DiagView, int),
                >((bv, p3 as int)),
                first == seq![(cv, bv)],
                parse_elseifs(self.toks(), q as int, open, if_arms_view(arms@)) == parse_elseifs(
                    self.toks(),
                    p3 as int,
                    open,
                    first,
                ),
            decreases self.tokens@.len() - q,
        {
            let (c, q2) = match self.expr(self.next(q)) {
                Ok(x) => x,
                Err(e) => return Err(e),
            };
            let (b, q3) = match self.arm(q2, open) {
                Ok(x) => x,
                Err(e) => return Err(e),
            };
            proof {
                lemma_arms_push(arms@, IfArm { cond: c, body: b });
            }
            arms.push(IfArm { cond: c, body: b });
            q = q3;
        }
        let else_arm = if self.at_word(q, "else") {
            let (e, q5) = match self.arm(self.next(q), open) {
                Ok(x) => x,
                Err(e) => return Err(e),
            };
            q = q5;
            e
        } else {
            let e: Vec<Stmt> = Vec::new();
            proof {
                assert(stmts_view(e@) =~= Seq::<StmtView>::empty());
            }
            e
        };
        proof {
            reveal(close_if);
        }
        // `else` ends the chain, so anything dividing the block after it is
        // a mistake worth naming rather than a parse failure.
        if self.at_word(q, "elseif") {
            return Err(
                (
                    help(
                        plain(self.span(q), Rule::BlocksAreBraced, "`elseif` cannot come after `else`"),
                        "`else` is the last arm; move it below the `elseif` arms",
                    ),
                    q,
                ),
            );
        }
        if self.at_word(q, "else") {
            return Err((plain(self.span(q), Rule::BlocksAreBraced, "a block may have only one `else`"), q));
        }
        if !self.at_brace(q) {
            return Err(
                (found(self.span(q), Rule::BlocksAreBraced, "expected `}` to close this `if`, found ", self.tok(q)), q),
            );
        }
        let end = self.span(q);
        Ok((Stmt::If { arms, else_arm, span: start.to(end) }, self.next(q)))
    }

    /// Skip forward to the end of the current construct, so the next one can
    /// still be parsed. A `}` is left in place, since it closes an enclosing
    /// block rather than this statement.
    fn recover(&self, p: usize) -> (r: usize)
        requires
            self.wf(),
            p < self.tokens@.len(),
        ensures
            r == recover(self.toks(), p as int),
            p <= r < self.tokens@.len(),
    {
        let mut q = p;
        while !self.at_eof(q) && !self.at_brace(q)
            invariant
                self.wf(),
                p <= q < self.tokens@.len(),
                recover(self.toks(), q as int) == recover(self.toks(), p as int),
            decreases self.tokens@.len() - q,
        {
            if self.at_word(q, "end") {
                return self.next(q);
            }
            q = self.next(q);
        }
        q
    }

    /// Every statement of the file, and every error met on the way.
    fn program(&self) -> (r: (Vec<Stmt>, Vec<Diagnostic>))
        requires
            self.wf(),
        ensures
            stmts_view(r.0@) == parse_rest(self.toks(), 0, Seq::empty(), Seq::empty()).0,
            r.1@.map_values(|d: Diagnostic| d@) == parse_rest(self.toks(), 0, Seq::empty(), Seq::empty()).1,
    {
        let mut stmts: Vec<Stmt> = Vec::new();
        let mut errors: Vec<Diagnostic> = Vec::new();
        let mut q: usize = 0;
        proof {
            assert(stmts_view(stmts@) =~= Seq::<StmtView>::empty());
            assert(errors@.map_values(|d: Diagnostic| d@) =~= Seq::<DiagView>::empty());
        }
        while !self.at_eof(q)
            invariant
                self.wf(),
                q < self.tokens@.len(),
                parse_rest(self.toks(), q as int, stmts_view(stmts@), errors@.map_values(|d: Diagnostic| d@))
                    == parse_rest(self.toks(), 0, Seq::empty(), Seq::empty()),
            decreases self.tokens@.len() - q,
        {
            let before = q;
            match self.item(q) {
                Ok((mut c, q1)) => {
                    proof {
                        lemma_stmts_concat(stmts@, c@);
                    }
                    stmts.append(&mut c);
                    q = q1;
                },
                Err((d, pe)) => {
                    proof {
                        assert(errors@.push(d).map_values(|d: Diagnostic| d@) =~= errors@.map_values(
                            |d: Diagnostic| d@,
                        ).push(d@));
                    }
                    errors.push(d);
                    q = self.recover(pe);
                },
            }
            // Recovery stops *at* a `}` rather than consuming it, since
            // normally that brace closes an enclosing block. At the top level
            // there is no enclosing block, so without this the parser would
            // never advance.
            if q == before {
                q = self.next(q);
            }
        }
        (stmts, errors)
    }
}

/// Parse a whole source file.
///
/// Statements are grouped into chains: `stmt (',' stmt)* 'end'`. A lone
/// statement is a one-element chain and still needs its `end`.
///
/// Errors are collected rather than thrown one at a time: the parser
/// resynchronises at the next `end` so one bad chain does not hide the rest.
pub fn parse(src: &str) -> (r: Result<Program, Vec<Diagnostic>>)
    requires
        src.spec_bytes().len() + 2 < usize::MAX,
    ensures
        match parsed(src@) {
            Ok(stmts) => r matches Ok(p) && stmts_view(p.stmts@) == stmts,
            Err(ds) => r matches Err(es) && es@.map_values(|d: Diagnostic| d@) == ds,
        },
{
    let tokens = match Lexer::new(src).tokenize() {
        Ok(t) => t,
        Err(d) => {
            let mut v: Vec<Diagnostic> = Vec::new();
            v.push(d);
            proof {
                assert(v@.map_values(|d: Diagnostic| d@) =~= seq![d@]);
            }
            return Err(v);
        },
    };
    proof {
        lemma_tokens_end(src@, 0);
    }
    let p = Parser { tokens };
    let (stmts, errors) = p.program();
    if errors.len() == 0 {
        Ok(Program { stmts })
    } else {
        Err(errors)
    }
}

} // verus!
