//! Disassembly: a chunk as text, in the spirit of `javap -c`.
//!
//! Constants are shown as the caller renders them, since some of them are
//! floats; everything else, the layout included, is laid out here.
use vstd::prelude::*;

use crate::bytecode::chunk::{Chunk, ChunkView};
use crate::bytecode::op::{mnemonic_text, Op};
use crate::bytecode::value::{rt_type_name, RtType};
use crate::num::decimal::{decimal_chars, push_decimal};
use crate::text::chars_of;

verus! {

/// `n` spaces.
pub open spec fn spaces(n: nat) -> Seq<char> {
    Seq::new(n, |i: int| ' ')
}

/// `s` right-aligned in a field `w` wide.
pub open spec fn right(s: Seq<char>, w: nat) -> Seq<char> {
    if s.len() < w {
        spaces((w - s.len()) as nat) + s
    } else {
        s
    }
}

/// `s` left-aligned in a field `w` wide.
pub open spec fn left(s: Seq<char>, w: nat) -> Seq<char> {
    if s.len() < w {
        s + spaces((w - s.len()) as nat)
    } else {
        s
    }
}

/// The type an instruction works at, if it names one.
pub open spec fn op_type(op: Op) -> Option<RtType> {
    match op {
        Op::Add(t) => Some(t),
        Op::Sub(t) => Some(t),
        Op::Mul(t) => Some(t),
        Op::Div(t) => Some(t),
        Op::Rem(t) => Some(t),
        Op::Neg(t) => Some(t),
        Op::Eq(t) => Some(t),
        Op::Ne(t) => Some(t),
        Op::Lt(t) => Some(t),
        Op::Le(t) => Some(t),
        Op::Gt(t) => Some(t),
        Op::Ge(t) => Some(t),
        Op::Write(t) => Some(t),
        _ => None,
    }
}

/// Entry `n` of `s`, or nothing.
pub open spec fn entry(s: Seq<Seq<char>>, n: u32) -> Seq<char> {
    if n < s.len() {
        s[n as int]
    } else {
        Seq::empty()
    }
}

/// How an instruction is listed: its mnemonic, and its operand with what
/// the operand refers to. `shown` holds the constants' texts.
pub open spec fn op_line(c: ChunkView, shown: Seq<Seq<char>>, op: Op) -> Seq<char> {
    let m = mnemonic_text(op);
    match op {
        Op::Const(n) => left(m, 14) + " "@ + decimal_chars(n as nat) + "    -- "@ + entry(shown, n),
        Op::LoadLocal(n) => left(m, 14) + " "@ + decimal_chars(n as nat) + "    -- ("@ + entry(c.local_names, n) + ")"@,
        Op::StoreLocal(n) => left(m, 14) + " "@ + decimal_chars(n as nat) + "    -- ("@ + entry(c.local_names, n) + ")"@,
        Op::Jump(t) => left(m, 14) + " "@ + decimal_chars(t as nat),
        Op::JumpIfFalse(t) => left(m, 14) + " "@ + decimal_chars(t as nat),
        Op::LoadGlobal(n) => left(m, 14) + " "@ + decimal_chars(n as nat) + "    -- ("@ + entry(
            c.globals.map_values(|g: (Seq<char>, RtType, bool)| g.0),
            n,
        ) + ")"@,
        Op::StoreGlobal(n) => left(m, 14) + " "@ + decimal_chars(n as nat) + "    -- ("@ + entry(
            c.globals.map_values(|g: (Seq<char>, RtType, bool)| g.0),
            n,
        ) + ")"@,
        _ => match op_type(op) {
            Some(t) => m + "."@ + rt_type_name(t),
            None => m,
        },
    }
}

/// The first `n` local slots, a line each.
pub open spec fn slot_lines(names: Seq<Seq<char>>, n: nat) -> Seq<char>
    decreases n,
{
    if n == 0 {
        Seq::empty()
    } else {
        slot_lines(names, (n - 1) as nat) + "    "@ + right(decimal_chars((n - 1) as nat), 3) + "  ("@ + names[n
            - 1] + ")\n"@
    }
}

/// The first `n` globals, a line each.
pub open spec fn global_lines(globals: Seq<(Seq<char>, RtType, bool)>, n: nat) -> Seq<char>
    decreases n,
{
    if n == 0 {
        Seq::empty()
    } else {
        let g = globals[n - 1];
        global_lines(globals, (n - 1) as nat) + "    "@ + right(decimal_chars((n - 1) as nat), 3) + "  "@ + (if g.2 {
            "pub"@
        } else {
            "global"@
        }) + " "@ + rt_type_name(g.1) + " ("@ + g.0 + ")\n"@
    }
}

/// The first `n` constants, a line each.
pub open spec fn const_lines(shown: Seq<Seq<char>>, n: nat) -> Seq<char>
    decreases n,
{
    if n == 0 {
        Seq::empty()
    } else {
        const_lines(shown, (n - 1) as nat) + "    "@ + right(decimal_chars((n - 1) as nat), 3) + "  "@ + shown[n - 1]
            + "\n"@
    }
}

/// The line of instruction `i`, or 0 where none is recorded.
pub open spec fn line_of_op(c: ChunkView, i: int) -> u32 {
    if 0 <= i < c.lines.len() {
        c.lines[i]
    } else {
        0
    }
}

/// The first `n` instructions, a line each: index, source line, and the
/// instruction.
pub open spec fn code_lines(c: ChunkView, shown: Seq<Seq<char>>, n: nat) -> Seq<char>
    decreases n,
{
    if n == 0 {
        Seq::empty()
    } else {
        code_lines(c, shown, (n - 1) as nat) + "  "@ + right(decimal_chars((n - 1) as nat), 5) + "  "@ + right(
            decimal_chars(line_of_op(c, n - 1) as nat),
            5,
        ) + "  "@ + op_line(c, shown, c.code[n - 1]) + "\n"@
    }
}

/// A whole chunk as text. `shown` holds the constants' texts.
pub open spec fn listing(c: ChunkView, shown: Seq<Seq<char>>) -> Seq<char> {
    "chunk "@ + c.source + "\n"@ + "  locals: "@ + decimal_chars(c.locals as nat) + "\n"@ + (if c.local_names.len()
        == 0 {
        Seq::empty()
    } else {
        "  local slots:\n"@ + slot_lines(c.local_names, c.local_names.len())
    }) + (if c.globals.len() == 0 {
        Seq::empty()
    } else {
        "  globals:\n"@ + global_lines(c.globals, c.globals.len())
    }) + (if c.consts.len() == 0 {
        Seq::empty()
    } else {
        "  constants:\n"@ + const_lines(shown, c.consts.len())
    }) + "  code:\n"@ + code_lines(c, shown, c.code.len())
}

// -------------------------------------------------------------- the layout

fn push_spaces(out: &mut String, n: usize)
    ensures
        final(out)@ == old(out)@ + spaces(n as nat),
{
    let mut i: usize = 0;
    proof {
        assert(old(out)@ + spaces(0) =~= old(out)@);
    }
    while i < n
        invariant
            i <= n,
            out@ == old(out)@ + spaces(i as nat),
        decreases n - i,
    {
        out.append(" ");
        proof {
            assert(spaces(i as nat) + " "@ =~= spaces((i + 1) as nat)) by {
                reveal_strlit(" ");
            }
            assert(out@ =~= old(out)@ + spaces((i + 1) as nat));
        }
        i = i + 1;
    }
}

/// The decimal spelling of a number.
fn decimal(n: u128) -> (r: String)
    ensures
        r@ == decimal_chars(n as nat),
{
    let mut m = String::new();
    push_decimal(&mut m, n);
    proof {
        assert(m@ =~= decimal_chars(n as nat));
    }
    m
}

/// Append `s` right-aligned in a field `w` wide.
fn push_right(out: &mut String, s: &str, w: usize)
    ensures
        final(out)@ == old(out)@ + right(s@, w as nat),
{
    let n = chars_of(s).len();
    if n < w {
        push_spaces(out, w - n);
    }
    out.append(s);
    proof {
        assert(final(out)@ =~= old(out)@ + right(s@, w as nat));
    }
}

/// Append `s` left-aligned in a field `w` wide.
fn push_left(out: &mut String, s: &str, w: usize)
    ensures
        final(out)@ == old(out)@ + left(s@, w as nat),
{
    let n = chars_of(s).len();
    out.append(s);
    if n < w {
        push_spaces(out, w - n);
    }
    proof {
        assert(final(out)@ =~= old(out)@ + left(s@, w as nat));
    }
}

/// The text of entry `n`, or nothing.
fn entry_text(v: &Vec<String>, n: u32) -> (r: String)
    ensures
        r@ == entry(v@.map_values(|s: String| s@), n),
{
    if (n as usize) < v.len() {
        v[n as usize].clone()
    } else {
        String::new()
    }
}

/// Append how an instruction is listed.
fn push_op(out: &mut String, chunk: &Chunk, shown: &Vec<String>, op: Op)
    ensures
        final(out)@ == old(out)@ + op_line(chunk@, shown@.map_values(|s: String| s@), op),
{
    let m = op.mnemonic();
    let ghost c = chunk@;
    let ghost sh = shown@.map_values(|s: String| s@);
    let ghost start = out@;
    match op {
        Op::Const(n) => {
            push_left(out, m, 14);
            out.append(" ");
            out.append(decimal(n as u128).as_str());
            out.append("    -- ");
            out.append(entry_text(shown, n).as_str());
        },
        Op::LoadLocal(n) | Op::StoreLocal(n) => {
            push_left(out, m, 14);
            out.append(" ");
            out.append(decimal(n as u128).as_str());
            out.append("    -- (");
            out.append(entry_text(&chunk.local_names, n).as_str());
            out.append(")");
        },
        Op::Jump(t) | Op::JumpIfFalse(t) => {
            push_left(out, m, 14);
            out.append(" ");
            out.append(decimal(t as u128).as_str());
        },
        Op::LoadGlobal(n) | Op::StoreGlobal(n) => {
            push_left(out, m, 14);
            out.append(" ");
            out.append(decimal(n as u128).as_str());
            out.append("    -- (");
            let name = if (n as usize) < chunk.globals.len() {
                chunk.globals[n as usize].name.clone()
            } else {
                String::new()
            };
            proof {
                let names = c.globals.map_values(|g: (Seq<char>, RtType, bool)| g.0);
                assert(name@ == entry(names, n));
            }
            out.append(name.as_str());
            out.append(")");
        },
        Op::Add(t) | Op::Sub(t) | Op::Mul(t) | Op::Div(t) | Op::Rem(t) | Op::Neg(t) | Op::Eq(t) | Op::Ne(t)
        | Op::Lt(t) | Op::Le(t) | Op::Gt(t) | Op::Ge(t) | Op::Write(t) => {
            out.append(m);
            out.append(".");
            out.append(t.name());
        },
        Op::Pop | Op::Halt => {
            out.append(m);
        },
    }
    proof {
        assert(out@ =~= start + op_line(c, sh, op));
    }
}

#[verifier::spinoff_prover]
#[verifier::rlimit(40)]
fn push_slots(out: &mut String, chunk: &Chunk)
    ensures
        final(out)@ == old(out)@ + slot_lines(chunk@.local_names, chunk@.local_names.len()),
{
    let ghost c = chunk@;
    let mut i: usize = 0;
    while i < chunk.local_names.len()
        invariant
            c == chunk@,
            i <= chunk.local_names@.len(),
            out@ == old(out)@ + slot_lines(c.local_names, i as nat),
        decreases chunk.local_names@.len() - i,
    {
        out.append("    ");
        push_right(out, decimal(i as u128).as_str(), 3);
        out.append("  (");
        out.append(chunk.local_names[i].as_str());
        out.append(")\n");
        proof {
            assert(out@ =~= old(out)@ + slot_lines(c.local_names, (i + 1) as nat));
        }
        i = i + 1;
    }
}

#[verifier::spinoff_prover]
#[verifier::rlimit(40)]
fn push_globals(out: &mut String, chunk: &Chunk)
    ensures
        final(out)@ == old(out)@ + global_lines(chunk@.globals, chunk@.globals.len()),
{
    let ghost c = chunk@;
    let mut i: usize = 0;
    while i < chunk.globals.len()
        invariant
            c == chunk@,
            i <= chunk.globals@.len(),
            out@ == old(out)@ + global_lines(c.globals, i as nat),
        decreases chunk.globals@.len() - i,
    {
        let g = &chunk.globals[i];
        out.append("    ");
        push_right(out, decimal(i as u128).as_str(), 3);
        out.append("  ");
        out.append(
            if g.exported {
                "pub"
            } else {
                "global"
            },
        );
        out.append(" ");
        out.append(g.ty.name());
        out.append(" (");
        out.append(g.name.as_str());
        out.append(")\n");
        proof {
            assert(c.globals[i as int] == g@);
            assert(out@ =~= old(out)@ + global_lines(c.globals, (i + 1) as nat));
        }
        i = i + 1;
    }
}

#[verifier::spinoff_prover]
#[verifier::rlimit(40)]
fn push_consts(out: &mut String, shown: &Vec<String>)
    ensures
        final(out)@ == old(out)@ + const_lines(shown@.map_values(|s: String| s@), shown@.len()),
{
    let ghost sh = shown@.map_values(|s: String| s@);
    let mut i: usize = 0;
    while i < shown.len()
        invariant
            sh == shown@.map_values(|s: String| s@),
            i <= shown@.len(),
            out@ == old(out)@ + const_lines(sh, i as nat),
        decreases shown@.len() - i,
    {
        out.append("    ");
        push_right(out, decimal(i as u128).as_str(), 3);
        out.append("  ");
        out.append(shown[i].as_str());
        out.append("\n");
        proof {
            assert(out@ =~= old(out)@ + const_lines(sh, (i + 1) as nat));
        }
        i = i + 1;
    }
}

#[verifier::spinoff_prover]
#[verifier::rlimit(40)]
fn push_code(out: &mut String, chunk: &Chunk, shown: &Vec<String>)
    ensures
        final(out)@ == old(out)@ + code_lines(chunk@, shown@.map_values(|s: String| s@), chunk@.code.len()),
{
    let ghost c = chunk@;
    let ghost sh = shown@.map_values(|s: String| s@);
    let mut i: usize = 0;
    while i < chunk.code.len()
        invariant
            c == chunk@,
            sh == shown@.map_values(|s: String| s@),
            i <= chunk.code@.len(),
            out@ == old(out)@ + code_lines(c, sh, i as nat),
        decreases chunk.code@.len() - i,
    {
        let line: u32 = if i < chunk.lines.len() {
            chunk.lines[i]
        } else {
            0
        };
        out.append("  ");
        push_right(out, decimal(i as u128).as_str(), 5);
        out.append("  ");
        push_right(out, decimal(line as u128).as_str(), 5);
        out.append("  ");
        push_op(out, chunk, shown, chunk.code[i]);
        out.append("\n");
        proof {
            assert(out@ =~= old(out)@ + code_lines(c, sh, (i + 1) as nat));
        }
        i = i + 1;
    }
}

impl Chunk {
    /// The chunk as text, in the spirit of `javap -c`. `shown` holds the
    /// text of each constant, in pool order.
    pub fn disassemble(&self, shown: &Vec<String>) -> (r: String)
        requires
            shown@.len() == self.consts@.len(),
        ensures
            r@ == listing(self@, shown@.map_values(|s: String| s@)),
    {
        let ghost c = self@;
        let ghost sh = shown@.map_values(|s: String| s@);
        let mut out = String::from_str("chunk ");
        out.append(self.source.as_str());
        out.append("\n");
        out.append("  locals: ");
        out.append(decimal(self.locals as u128).as_str());
        out.append("\n");
        let ghost p0 = out@;
        if self.local_names.len() > 0 {
            out.append("  local slots:\n");
            push_slots(&mut out, self);
        }
        let ghost p1 = out@;
        if self.globals.len() > 0 {
            out.append("  globals:\n");
            push_globals(&mut out, self);
        }
        let ghost p2 = out@;
        if self.consts.len() > 0 {
            out.append("  constants:\n");
            push_consts(&mut out, shown);
        }
        let ghost p3 = out@;
        out.append("  code:\n");
        push_code(&mut out, self, shown);
        proof {
            let a = if c.local_names.len() == 0 {
                Seq::empty()
            } else {
                "  local slots:\n"@ + slot_lines(c.local_names, c.local_names.len())
            };
            let b = if c.globals.len() == 0 {
                Seq::empty()
            } else {
                "  globals:\n"@ + global_lines(c.globals, c.globals.len())
            };
            let d = if c.consts.len() == 0 {
                Seq::empty()
            } else {
                "  constants:\n"@ + const_lines(sh, c.consts.len())
            };
            assert(p1 =~= p0 + a);
            assert(p2 =~= p1 + b);
            assert(p3 =~= p2 + d);
            assert(out@ =~= listing(c, sh));
        }
        out
    }
}

} // verus!
