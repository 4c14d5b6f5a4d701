//! The front end: reading literals, type checking and code generation.
use vstd::prelude::*;
use vstd::string::StringSliceAdditionalSpecFns;

pub mod agree;
pub mod codegen;
pub mod laws;
pub mod literal;
pub mod typeck;
pub mod typing;

use crate::bytecode::chunk::Chunk;
use crate::bytecode::value::RtType;
use crate::diag::{diag, DiagView, Diagnostic, Span};
use crate::rule::Rule;
use crate::syntax::ast::{stmts_view, Stmt};
use crate::syntax::lexer::{token_view, tokens_of, Lexer, Tok, TokView, Token};
use crate::syntax::parser::{parse, parsed};
use codegen::{emit, fits, lowered, program_size};
use literal::{body_of, literal_body, FloatReading};
use typeck::{accepted, check_program, Checked};

verus! {

/// What the front end makes of a source text, with the float reader's
/// answers in `floats`: the parser's errors, or the checker's verdict on the
/// parsed program.
pub open spec fn front_end(src: &str, floats: Seq<FloatReading>, r: Result<Checked, Vec<Diagnostic>>) -> bool {
    match parsed(src@) {
        Err(ds) => r matches Err(es) && es@.map_values(|d: Diagnostic| d@) == ds,
        Ok(stmts) => exists|p: Seq<Stmt>| stmts_view(p) == stmts && #[trigger] accepted(src.spec_bytes(), floats, p, r),
    }
}

/// The error of a program whose code does not fit the bytecode format.
pub open spec fn too_large() -> DiagView {
    diag(Span { start: 0, end: 0 }, Rule::BytecodeIsWellFormed, "the program is too large for the bytecode format"@)
}

/// Parse and type-check, returning the checked tree.
///
/// The reference interpreter runs this directly, so that it shares a front
/// end with the compiler and differs only in the back end.
pub fn check_tree(src: &str, floats: &[FloatReading]) -> (r: Result<Checked, Vec<Diagnostic>>)
    requires
        src.spec_bytes().len() + 2 < usize::MAX,
    ensures
        front_end(src, floats@, r),
{
    let program = match parse(src) {
        Ok(p) => p,
        Err(e) => return Err(e),
    };
    let r = check_program(src, &program, floats);
    proof {
        assert(accepted(src.spec_bytes(), floats@, program.stmts@, r));
    }
    r
}

/// Type-check without generating code.
pub fn check(src: &str, floats: &[FloatReading]) -> (r: Result<(), Vec<Diagnostic>>)
    requires
        src.spec_bytes().len() + 2 < usize::MAX,
    ensures
        match r {
            Ok(()) => exists|c: Checked| front_end(src, floats@, Ok(c)),
            Err(es) => front_end(src, floats@, Err(es)),
        },
{
    match check_tree(src, floats) {
        Ok(c) => {
            proof {
                assert(front_end(src, floats@, Ok(c)));
            }
            Ok(())
        },
        Err(e) => Err(e),
    }
}

/// Compile source text to a chunk, reporting every error found. A program
/// whose code would not fit the format's `u32` numbering is refused.
pub fn compile(src: &str, source_name: &str, floats: &[FloatReading]) -> (r: Result<Chunk, Vec<Diagnostic>>)
    requires
        src.spec_bytes().len() + 2 < usize::MAX,
    ensures
        match r {
            Ok(chunk) => exists|c: Checked|
                {
                    &&& #[trigger] front_end(src, floats@, Ok(c))
                    &&& program_size(c) + 1 < u32::MAX
                    &&& chunk@ == lowered(
                        source_name@,
                        typeck::tstmts_view(c.stmts@),
                        c.locals@.map_values(|n: String| n@),
                        c.globals@.map_values(|g: (String, RtType, bool)| (g.0@, g.1, g.2)),
                    )
                },
            Err(es) => front_end(src, floats@, Err(es)) || exists|c: Checked|
                {
                    &&& #[trigger] front_end(src, floats@, Ok(c))
                    &&& program_size(c) + 1 >= u32::MAX
                    &&& es@.map_values(|d: Diagnostic| d@) == seq![too_large()]
                },
        },
{
    let checked = match check_tree(src, floats) {
        Ok(c) => c,
        Err(e) => return Err(e),
    };
    if !fits(&checked) {
        let mut v: Vec<Diagnostic> = Vec::new();
        v.push(
            Diagnostic::new(
                Span::new(0, 0),
                Rule::BytecodeIsWellFormed,
                String::from_str("the program is too large for the bytecode format"),
            ),
        );
        proof {
            assert(v@.map_values(|d: Diagnostic| d@) =~= seq![too_large()]);
            assert(front_end(src, floats@, Ok(checked)));
        }
        return Err(v);
    }
    let chunk = emit(source_name, &checked);
    proof {
        assert(front_end(src, floats@, Ok(checked)));
    }
    Ok(chunk)
}

/// The bodies of the literals among `ts`, in order.
pub open spec fn bodies(ts: Seq<(TokView, Span)>) -> Seq<Seq<char>>
    decreases ts.len(),
{
    if ts.len() == 0 {
        Seq::empty()
    } else {
        let rest = bodies(ts.subrange(0, ts.len() - 1));
        match ts[ts.len() - 1].0 {
            TokView::Str(text) => rest.push(literal_body(text)),
            _ => rest,
        }
    }
}

/// The body of every literal of a source text, in order: what the float
/// reader is asked about. Nothing when the text does not lex.
pub fn literal_bodies(src: &str) -> (r: Vec<String>)
    requires
        src.spec_bytes().len() + 2 < usize::MAX,
    ensures
        r@.map_values(|s: String| s@) == match tokens_of(src@) {
            Ok(ts) => bodies(ts),
            Err(_) => Seq::empty(),
        },
{
    let mut out: Vec<String> = Vec::new();
    let tokens = match Lexer::new(src).tokenize() {
        Ok(t) => t,
        Err(_) => {
            proof {
                assert(out@.map_values(|s: String| s@) =~= Seq::<Seq<char>>::empty());
            }
            return out;
        },
    };
    let ghost ts = tokens@.map_values(|t: Token| token_view(t));
    let mut i: usize = 0;
    proof {
        assert(ts.subrange(0, 0) =~= Seq::<(TokView, Span)>::empty());
        assert(out@.map_values(|s: String| s@) =~= Seq::<Seq<char>>::empty());
    }
    while i < tokens.len()
        invariant
            ts == tokens@.map_values(|t: Token| token_view(t)),
            i <= tokens@.len(),
            out@.map_values(|s: String| s@) == bodies(ts.subrange(0, i as int)),
        decreases tokens@.len() - i,
    {
        proof {
            assert(ts.subrange(0, i + 1).subrange(0, i as int) =~= ts.subrange(0, i as int));
        }
        match &tokens[i].tok {
            Tok::Str(text) => {
                let b = body_of(text.as_str());
                proof {
                    assert(out@.push(b).map_values(|s: String| s@) =~= out@.map_values(|s: String| s@).push(b@));
                }
                out.push(b);
            },
            _ => {},
        }
        i = i + 1;
    }
    proof {
        assert(ts.subrange(0, tokens@.len() as int) =~= ts);
    }
    out
}

} // verus!
