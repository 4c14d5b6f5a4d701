//! The bytes of the `.lrb` container format, as mathematical sequences: what
//! encoding writes, and how each field reads back.
use vstd::prelude::*;
use vstd::utf8::{decode_utf8, encode_utf8, valid_utf8};

use crate::bytecode::chunk::{ChunkView, ConstView};
use crate::bytecode::op::Op;
use crate::bytecode::value::{type_of_tag, type_tag, RtType};

verus! {

/// The four bytes every chunk file starts with: `LRSB`.
pub const MAGIC: [u8; 4] = [76, 82, 83, 66];

/// The format version this code reads and writes.
pub const VERSION: u16 = 6;

/// A `u16`, least significant byte first.
pub open spec fn le16(v: u16) -> Seq<u8> {
    seq![(v % 256) as u8, (v / 256) as u8]
}

/// A `u32`, least significant byte first.
pub open spec fn le32(v: u32) -> Seq<u8> {
    seq![(v % 256) as u8, (v / 256 % 256) as u8, (v / 65536 % 256) as u8, (v / 16777216) as u8]
}

/// A `u64`, least significant byte first.
pub open spec fn le64(v: u64) -> Seq<u8> {
    le32((v % 0x1_0000_0000) as u32) + le32((v / 0x1_0000_0000) as u32)
}

/// A string: its UTF-8 length as a `u32`, then its UTF-8 bytes.
pub open spec fn str_bytes(s: Seq<char>) -> Seq<u8> {
    le32(encode_utf8(s).len() as u32) + encode_utf8(s)
}

/// A flag as one byte.
pub open spec fn flag_byte(b: bool) -> u8 {
    if b {
        1
    } else {
        0
    }
}

/// A constant: a tag byte, then its payload.
pub open spec fn const_bytes(c: ConstView) -> Seq<u8> {
    match c {
        ConstView::Int(v) => seq![0u8] + le64(v as u64),
        ConstView::Uint(v) => seq![1u8] + le64(v),
        ConstView::F16(b) => seq![2u8] + le16(b),
        ConstView::F32(b) => seq![3u8] + le32(b),
        ConstView::F64(b) => seq![4u8] + le64(b),
        ConstView::Bool(b) => seq![5u8, flag_byte(b)],
        ConstView::Str(s) => seq![6u8] + str_bytes(s),
        ConstView::Nil => seq![7u8],
    }
}

/// An instruction: an opcode byte, then its operand.
pub open spec fn op_bytes(op: Op) -> Seq<u8> {
    match op {
        Op::Const(n) => seq![0u8] + le32(n),
        Op::LoadLocal(n) => seq![1u8] + le32(n),
        Op::StoreLocal(n) => seq![2u8] + le32(n),
        Op::LoadGlobal(n) => seq![3u8] + le32(n),
        Op::StoreGlobal(n) => seq![4u8] + le32(n),
        Op::Add(t) => seq![5u8, type_tag(t)],
        Op::Sub(t) => seq![6u8, type_tag(t)],
        Op::Mul(t) => seq![7u8, type_tag(t)],
        Op::Div(t) => seq![8u8, type_tag(t)],
        Op::Rem(t) => seq![9u8, type_tag(t)],
        Op::Neg(t) => seq![10u8, type_tag(t)],
        Op::Eq(t) => seq![11u8, type_tag(t)],
        Op::Ne(t) => seq![12u8, type_tag(t)],
        Op::Lt(t) => seq![13u8, type_tag(t)],
        Op::Le(t) => seq![14u8, type_tag(t)],
        Op::Gt(t) => seq![15u8, type_tag(t)],
        Op::Ge(t) => seq![16u8, type_tag(t)],
        Op::Write(t) => seq![17u8, type_tag(t)],
        Op::Pop => seq![18u8],
        Op::Halt => seq![19u8],
        Op::Jump(t) => seq![20u8] + le32(t),
        Op::JumpIfFalse(t) => seq![21u8] + le32(t),
    }
}

/// A global: its name, its type tag, and whether it is exported.
pub open spec fn global_bytes(g: (Seq<char>, RtType, bool)) -> Seq<u8> {
    str_bytes(g.0) + seq![type_tag(g.1), flag_byte(g.2)]
}

/// Items one after another, each written by `f`.
pub open spec fn all_bytes<A>(xs: Seq<A>, f: spec_fn(A) -> Seq<u8>) -> Seq<u8>
    decreases xs.len(),
{
    if xs.len() == 0 {
        Seq::empty()
    } else {
        f(xs[0]) + all_bytes(xs.drop_first(), f)
    }
}

/// A list: its length as a `u32`, then its items.
pub open spec fn list_bytes<A>(xs: Seq<A>, f: spec_fn(A) -> Seq<u8>) -> Seq<u8> {
    le32(xs.len() as u32) + all_bytes(xs, f)
}

/// A whole chunk file.
pub open spec fn chunk_bytes(c: ChunkView) -> Seq<u8> {
    MAGIC@ + le16(VERSION) + str_bytes(c.source) + le32(c.locals as u32) + list_bytes(
        c.local_names,
        |s: Seq<char>| str_bytes(s),
    ) + list_bytes(c.globals, |g: (Seq<char>, RtType, bool)| global_bytes(g)) + list_bytes(
        c.consts,
        |k: ConstView| const_bytes(k),
    ) + list_bytes(c.code, |op: Op| op_bytes(op)) + list_bytes(c.lines, |l: u32| le32(l))
}

/// Every count and length in the chunk fits the `u32` the format gives it.
pub open spec fn encodable(c: ChunkView) -> bool {
    &&& encode_utf8(c.source).len() <= u32::MAX
    &&& c.locals <= u32::MAX
    &&& c.local_names.len() <= u32::MAX
    &&& forall|i: int| 0 <= i < c.local_names.len() ==> encode_utf8(#[trigger] c.local_names[i]).len() <= u32::MAX
    &&& c.globals.len() <= u32::MAX
    &&& forall|i: int| 0 <= i < c.globals.len() ==> encode_utf8((#[trigger] c.globals[i]).0).len() <= u32::MAX
    &&& c.consts.len() <= u32::MAX
    &&& forall|i: int|
        0 <= i < c.consts.len() ==> (#[trigger] c.consts[i] matches ConstView::Str(s) ==> encode_utf8(s).len()
            <= u32::MAX)
    &&& c.code.len() <= u32::MAX
    &&& c.lines.len() <= u32::MAX
}

// ------------------------------------------------------------------ reading

/// Why a file could not be read.
#[derive(Clone, Copy, Debug, PartialEq, Eq, Structural)]
pub enum DecodeFailure {
    /// A length that would run past the end of the address space.
    LengthOverflow,
    /// The file ends inside a field that starts at this byte.
    Truncated(usize),
    /// The file does not start with the magic bytes.
    BadMagic,
    /// The file is written in another version of the format.
    BadVersion(u16),
    /// A string's bytes are not UTF-8.
    BadUtf8,
    /// A byte that names no runtime type.
    BadTypeTag(u8),
    /// A list claims more items than there are bytes left.
    BadCount(u32),
    /// A byte that names no kind of constant.
    BadConstTag(u8),
    /// A byte that names no instruction.
    BadOpcode(u8),
}

/// Reading `n` bytes at `pos`.
pub open spec fn rd_bytes(b: Seq<u8>, pos: nat, n: nat) -> Result<(Seq<u8>, nat), DecodeFailure> {
    if pos + n > usize::MAX {
        Err(DecodeFailure::LengthOverflow)
    } else if pos + n > b.len() {
        Err(DecodeFailure::Truncated(pos as usize))
    } else {
        Ok((b.subrange(pos as int, (pos + n) as int), pos + n))
    }
}

pub open spec fn rd_u8(b: Seq<u8>, pos: nat) -> Result<(u8, nat), DecodeFailure> {
    match rd_bytes(b, pos, 1) {
        Ok((s, p)) => Ok((s[0], p)),
        Err(e) => Err(e),
    }
}

pub open spec fn rd_u16(b: Seq<u8>, pos: nat) -> Result<(u16, nat), DecodeFailure> {
    match rd_bytes(b, pos, 2) {
        Ok((s, p)) => Ok(((s[0] + 256 * s[1]) as u16, p)),
        Err(e) => Err(e),
    }
}

/// The `u32` four bytes spell, least significant first.
pub open spec fn u32_of(s: Seq<u8>) -> u32 {
    (s[0] + 256 * s[1] + 65536 * s[2] + 16777216 * s[3]) as u32
}

pub open spec fn rd_u32(b: Seq<u8>, pos: nat) -> Result<(u32, nat), DecodeFailure> {
    match rd_bytes(b, pos, 4) {
        Ok((s, p)) => Ok((u32_of(s), p)),
        Err(e) => Err(e),
    }
}

pub open spec fn rd_u64(b: Seq<u8>, pos: nat) -> Result<(u64, nat), DecodeFailure> {
    match rd_bytes(b, pos, 8) {
        Ok((s, p)) => Ok(((u32_of(s.subrange(0, 4)) + 0x1_0000_0000 * u32_of(s.subrange(4, 8))) as u64, p)),
        Err(e) => Err(e),
    }
}

pub open spec fn rd_str(b: Seq<u8>, pos: nat) -> Result<(Seq<char>, nat), DecodeFailure> {
    match rd_u32(b, pos) {
        Ok((n, p)) => match rd_bytes(b, p, n as nat) {
            Ok((s, q)) => if valid_utf8(s) {
                Ok((decode_utf8(s), q))
            } else {
                Err(DecodeFailure::BadUtf8)
            },
            Err(e) => Err(e),
        },
        Err(e) => Err(e),
    }
}

pub open spec fn rd_ty(b: Seq<u8>, pos: nat) -> Result<(RtType, nat), DecodeFailure> {
    match rd_u8(b, pos) {
        Ok((t, p)) => match type_of_tag(t) {
            Some(ty) => Ok((ty, p)),
            None => Err(DecodeFailure::BadTypeTag(t)),
        },
        Err(e) => Err(e),
    }
}

/// A list length, refused when it claims more items than bytes remain.
pub open spec fn rd_count(b: Seq<u8>, pos: nat) -> Result<(nat, nat), DecodeFailure> {
    match rd_u32(b, pos) {
        Ok((n, p)) => if n > b.len() - p + 1 {
            Err(DecodeFailure::BadCount(n))
        } else {
            Ok((n as nat, p))
        },
        Err(e) => Err(e),
    }
}

pub open spec fn rd_global(b: Seq<u8>, pos: nat) -> Result<((Seq<char>, RtType, bool), nat), DecodeFailure> {
    match rd_str(b, pos) {
        Ok((name, p)) => match rd_ty(b, p) {
            Ok((ty, q)) => match rd_u8(b, q) {
                Ok((x, r)) => Ok(((name, ty, x != 0), r)),
                Err(e) => Err(e),
            },
            Err(e) => Err(e),
        },
        Err(e) => Err(e),
    }
}

pub open spec fn rd_const(b: Seq<u8>, pos: nat) -> Result<(ConstView, nat), DecodeFailure> {
    match rd_u8(b, pos) {
        Ok((tag, p)) => if tag == 0 {
            match rd_u64(b, p) {
                Ok((v, q)) => Ok((ConstView::Int(v as i64), q)),
                Err(e) => Err(e),
            }
        } else if tag == 1 {
            match rd_u64(b, p) {
                Ok((v, q)) => Ok((ConstView::Uint(v), q)),
                Err(e) => Err(e),
            }
        } else if tag == 2 {
            match rd_u16(b, p) {
                Ok((v, q)) => Ok((ConstView::F16(v), q)),
                Err(e) => Err(e),
            }
        } else if tag == 3 {
            match rd_u32(b, p) {
                Ok((v, q)) => Ok((ConstView::F32(v), q)),
                Err(e) => Err(e),
            }
        } else if tag == 4 {
            match rd_u64(b, p) {
                Ok((v, q)) => Ok((ConstView::F64(v), q)),
                Err(e) => Err(e),
            }
        } else if tag == 5 {
            match rd_u8(b, p) {
                Ok((v, q)) => Ok((ConstView::Bool(v != 0), q)),
                Err(e) => Err(e),
            }
        } else if tag == 6 {
            match rd_str(b, p) {
                Ok((s, q)) => Ok((ConstView::Str(s), q)),
                Err(e) => Err(e),
            }
        } else if tag == 7 {
            Ok((ConstView::Nil, p))
        } else {
            Err(DecodeFailure::BadConstTag(tag))
        },
        Err(e) => Err(e),
    }
}

/// An opcode with a `u32` operand.
pub open spec fn with_u32(b: Seq<u8>, p: nat, mk: spec_fn(u32) -> Op) -> Result<(Op, nat), DecodeFailure> {
    match rd_u32(b, p) {
        Ok((n, q)) => Ok((mk(n), q)),
        Err(e) => Err(e),
    }
}

/// An opcode with a type operand.
pub open spec fn with_ty(b: Seq<u8>, p: nat, mk: spec_fn(RtType) -> Op) -> Result<(Op, nat), DecodeFailure> {
    match rd_ty(b, p) {
        Ok((t, q)) => Ok((mk(t), q)),
        Err(e) => Err(e),
    }
}

pub open spec fn rd_op(b: Seq<u8>, pos: nat) -> Result<(Op, nat), DecodeFailure> {
    match rd_u8(b, pos) {
        Ok((code, p)) => if code == 0 {
            with_u32(b, p, |n: u32| Op::Const(n))
        } else if code == 1 {
            with_u32(b, p, |n: u32| Op::LoadLocal(n))
        } else if code == 2 {
            with_u32(b, p, |n: u32| Op::StoreLocal(n))
        } else if code == 3 {
            with_u32(b, p, |n: u32| Op::LoadGlobal(n))
        } else if code == 4 {
            with_u32(b, p, |n: u32| Op::StoreGlobal(n))
        } else if code == 5 {
            with_ty(b, p, |t: RtType| Op::Add(t))
        } else if code == 6 {
            with_ty(b, p, |t: RtType| Op::Sub(t))
        } else if code == 7 {
            with_ty(b, p, |t: RtType| Op::Mul(t))
        } else if code == 8 {
            with_ty(b, p, |t: RtType| Op::Div(t))
        } else if code == 9 {
            with_ty(b, p, |t: RtType| Op::Rem(t))
        } else if code == 10 {
            with_ty(b, p, |t: RtType| Op::Neg(t))
        } else if code == 11 {
            with_ty(b, p, |t: RtType| Op::Eq(t))
        } else if code == 12 {
            with_ty(b, p, |t: RtType| Op::Ne(t))
        } else if code == 13 {
            with_ty(b, p, |t: RtType| Op::Lt(t))
        } else if code == 14 {
            with_ty(b, p, |t: RtType| Op::Le(t))
        } else if code == 15 {
            with_ty(b, p, |t: RtType| Op::Gt(t))
        } else if code == 16 {
            with_ty(b, p, |t: RtType| Op::Ge(t))
        } else if code == 17 {
            with_ty(b, p, |t: RtType| Op::Write(t))
        } else if code == 18 {
            Ok((Op::Pop, p))
        } else if code == 19 {
            Ok((Op::Halt, p))
        } else if code == 20 {
            with_u32(b, p, |n: u32| Op::Jump(n))
        } else if code == 21 {
            with_u32(b, p, |n: u32| Op::JumpIfFalse(n))
        } else {
            Err(DecodeFailure::BadOpcode(code))
        },
        Err(e) => Err(e),
    }
}

/// Reading `n` items with `rd`, one after another.
pub open spec fn rd_all<A>(
    b: Seq<u8>,
    pos: nat,
    n: nat,
    rd: spec_fn(Seq<u8>, nat) -> Result<(A, nat), DecodeFailure>,
) -> Result<(Seq<A>, nat), DecodeFailure>
    decreases n,
{
    if n == 0 {
        Ok((Seq::empty(), pos))
    } else {
        match rd(b, pos) {
            Ok((x, p)) => match rd_all(b, p, (n - 1) as nat, rd) {
                Ok((xs, q)) => Ok((seq![x] + xs, q)),
                Err(e) => Err(e),
            },
            Err(e) => Err(e),
        }
    }
}

/// Reading a counted list with `rd`.
pub open spec fn rd_list<A>(
    b: Seq<u8>,
    pos: nat,
    rd: spec_fn(Seq<u8>, nat) -> Result<(A, nat), DecodeFailure>,
) -> Result<(Seq<A>, nat), DecodeFailure> {
    match rd_count(b, pos) {
        Ok((n, p)) => rd_all(b, p, n, rd),
        Err(e) => Err(e),
    }
}

/// What a file reads as. Bytes after the last field are ignored.
pub open spec fn decode_chunk(b: Seq<u8>) -> Result<ChunkView, DecodeFailure> {
    match rd_bytes(b, 0, 4) {
        Err(e) => Err(e),
        Ok((magic, p0)) => if magic != MAGIC@ {
            Err(DecodeFailure::BadMagic)
        } else {
            match rd_u16(b, p0) {
                Err(e) => Err(e),
                Ok((version, p1)) => if version != VERSION {
                    Err(DecodeFailure::BadVersion(version))
                } else {
                    match rd_str(b, p1) {
                        Err(e) => Err(e),
                        Ok((source, p2)) => match rd_u32(b, p2) {
                            Err(e) => Err(e),
                            Ok((locals, p3)) => match rd_list(b, p3, |b: Seq<u8>, p: nat| rd_str(b, p)) {
                                Err(e) => Err(e),
                                Ok((local_names, p4)) => match rd_list(
                                    b,
                                    p4,
                                    |b: Seq<u8>, p: nat| rd_global(b, p),
                                ) {
                                    Err(e) => Err(e),
                                    Ok((globals, p5)) => match rd_list(
                                        b,
                                        p5,
                                        |b: Seq<u8>, p: nat| rd_const(b, p),
                                    ) {
                                        Err(e) => Err(e),
                                        Ok((consts, p6)) => match rd_list(
                                            b,
                                            p6,
                                            |b: Seq<u8>, p: nat| rd_op(b, p),
                                        ) {
                                            Err(e) => Err(e),
                                            Ok((code, p7)) => match rd_list(
                                                b,
                                                p7,
                                                |b: Seq<u8>, p: nat| rd_u32(b, p),
                                            ) {
                                                Err(e) => Err(e),
                                                Ok((lines, _)) => Ok(
                                                    ChunkView {
                                                        source,
                                                        consts,
                                                        code,
                                                        lines,
                                                        locals: locals as usize,
                                                        globals,
                                                        local_names,
                                                    },
                                                ),
                                            },
                                        },
                                    },
                                },
                            },
                        },
                    }
                },
            }
        },
    }
}

} // verus!
