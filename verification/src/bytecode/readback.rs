//! Reading back what was written: every encodable chunk decodes to itself.
use vstd::prelude::*;
use vstd::utf8::{encode_utf8, encode_utf8_decode_utf8, encode_utf8_valid_utf8};

use crate::bytecode::chunk::{ChunkView, ConstView};
use crate::bytecode::format::{
    all_bytes, chunk_bytes, const_bytes, decode_chunk, encodable, list_bytes, rd_list, MAGIC, VERSION, flag_byte, global_bytes, le16, le32, le64, op_bytes, rd_all, rd_bytes, rd_const,
    rd_count, rd_global, rd_op, rd_str, rd_ty, rd_u16, rd_u32, rd_u64, rd_u8, str_bytes, u32_of, DecodeFailure,
};
use crate::bytecode::op::Op;
use crate::bytecode::value::{lemma_tag_round_trip, type_tag, RtType};

verus! {

/// `x` stands in `b` at position `p`.
pub open spec fn at(b: Seq<u8>, p: nat, x: Seq<u8>) -> bool {
    p + x.len() <= b.len() && b.subrange(p as int, (p + x.len()) as int) == x
}

/// Bytes written one after the other stand one after the other.
pub proof fn lemma_at_split(b: Seq<u8>, p: nat, x: Seq<u8>, y: Seq<u8>)
    requires
        at(b, p, x + y),
    ensures
        at(b, p, x),
        at(b, p + x.len(), y),
{
    assert(b.subrange(p as int, (p + x.len()) as int) =~= (x + y).subrange(0, x.len() as int));
    assert((x + y).subrange(0, x.len() as int) =~= x);
    assert(b.subrange((p + x.len()) as int, (p + x.len() + y.len()) as int) =~= (x + y).subrange(
        x.len() as int,
        (x.len() + y.len()) as int,
    ));
    assert((x + y).subrange(x.len() as int, (x.len() + y.len()) as int) =~= y);
}

/// Reading as many bytes as stand at `p` gives them.
pub proof fn lemma_rd_bytes_at(b: Seq<u8>, p: nat, x: Seq<u8>)
    requires
        at(b, p, x),
        b.len() <= usize::MAX,
    ensures
        rd_bytes(b, p, x.len()) == Ok::<(Seq<u8>, nat), DecodeFailure>((x, p + x.len())),
{
}

pub proof fn lemma_rd_u8_at(b: Seq<u8>, p: nat, v: u8)
    requires
        at(b, p, seq![v]),
        b.len() <= usize::MAX,
    ensures
        rd_u8(b, p) == Ok::<(u8, nat), DecodeFailure>((v, p + 1)),
{
    lemma_rd_bytes_at(b, p, seq![v]);
}

pub proof fn lemma_rd_u16_at(b: Seq<u8>, p: nat, v: u16)
    requires
        at(b, p, le16(v)),
        b.len() <= usize::MAX,
    ensures
        rd_u16(b, p) == Ok::<(u16, nat), DecodeFailure>((v, p + 2)),
{
    lemma_rd_bytes_at(b, p, le16(v));
    assert(((v % 256) as u8) + 256 * ((v / 256) as u8) == v) by (bit_vector);
}

/// The four bytes of a `u32` spell it.
pub proof fn lemma_u32_of_le32(v: u32)
    ensures
        u32_of(le32(v)) == v,
{
    assert(((v % 256) as u8) + 256 * ((v / 256 % 256) as u8) + 65536 * ((v / 65536 % 256) as u8) + 16777216 * ((v
        / 16777216) as u8) == v) by (bit_vector);
}

pub proof fn lemma_rd_u32_at(b: Seq<u8>, p: nat, v: u32)
    requires
        at(b, p, le32(v)),
        b.len() <= usize::MAX,
    ensures
        rd_u32(b, p) == Ok::<(u32, nat), DecodeFailure>((v, p + 4)),
{
    lemma_rd_bytes_at(b, p, le32(v));
    lemma_u32_of_le32(v);
}

pub proof fn lemma_rd_u64_at(b: Seq<u8>, p: nat, v: u64)
    requires
        at(b, p, le64(v)),
        b.len() <= usize::MAX,
    ensures
        rd_u64(b, p) == Ok::<(u64, nat), DecodeFailure>((v, p + 8)),
{
    let lo = (v % 0x1_0000_0000) as u32;
    let hi = (v / 0x1_0000_0000) as u32;
    lemma_rd_bytes_at(b, p, le64(v));
    assert(le64(v).subrange(0, 4) =~= le32(lo));
    assert(le64(v).subrange(4, 8) =~= le32(hi));
    lemma_u32_of_le32(lo);
    lemma_u32_of_le32(hi);
    assert((lo + 0x1_0000_0000 * hi) as u64 == v) by (bit_vector)
        requires
            lo == (v % 0x1_0000_0000) as u32,
            hi == (v / 0x1_0000_0000) as u32,
    ;
}

/// A written string reads back as itself.
pub proof fn lemma_rd_str_at(b: Seq<u8>, p: nat, s: Seq<char>)
    requires
        at(b, p, str_bytes(s)),
        encode_utf8(s).len() <= u32::MAX,
        b.len() <= usize::MAX,
    ensures
        rd_str(b, p) == Ok::<(Seq<char>, nat), DecodeFailure>((s, p + str_bytes(s).len())),
{
    let n = encode_utf8(s).len() as u32;
    lemma_at_split(b, p, le32(n), encode_utf8(s));
    lemma_rd_u32_at(b, p, n);
    lemma_rd_bytes_at(b, p + 4, encode_utf8(s));
    encode_utf8_valid_utf8(s);
    encode_utf8_decode_utf8(s);
}

pub proof fn lemma_rd_ty_at(b: Seq<u8>, p: nat, t: RtType)
    requires
        at(b, p, seq![type_tag(t)]),
        b.len() <= usize::MAX,
    ensures
        rd_ty(b, p) == Ok::<(RtType, nat), DecodeFailure>((t, p + 1)),
{
    lemma_rd_u8_at(b, p, type_tag(t));
    lemma_tag_round_trip(t, 0);
}

/// A written global reads back as itself.
pub proof fn lemma_rd_global_at(b: Seq<u8>, p: nat, g: (Seq<char>, RtType, bool))
    requires
        at(b, p, global_bytes(g)),
        encode_utf8(g.0).len() <= u32::MAX,
        b.len() <= usize::MAX,
    ensures
        rd_global(b, p) == Ok::<((Seq<char>, RtType, bool), nat), DecodeFailure>((g, p + global_bytes(g).len())),
{
    let q = p + str_bytes(g.0).len();
    lemma_at_split(b, p, str_bytes(g.0), seq![type_tag(g.1), flag_byte(g.2)]);
    assert(seq![type_tag(g.1), flag_byte(g.2)] =~= seq![type_tag(g.1)] + seq![flag_byte(g.2)]);
    lemma_at_split(b, q, seq![type_tag(g.1)], seq![flag_byte(g.2)]);
    lemma_rd_str_at(b, p, g.0);
    lemma_rd_ty_at(b, q, g.1);
    lemma_rd_u8_at(b, q + 1, flag_byte(g.2));
}

/// A written constant reads back as itself.
pub proof fn lemma_rd_const_at(b: Seq<u8>, p: nat, c: ConstView)
    requires
        at(b, p, const_bytes(c)),
        c matches ConstView::Str(s) ==> encode_utf8(s).len() <= u32::MAX,
        b.len() <= usize::MAX,
    ensures
        rd_const(b, p) == Ok::<(ConstView, nat), DecodeFailure>((c, p + const_bytes(c).len())),
{
    let x = const_bytes(c);
    let tag = x[0];
    let rest = x.drop_first();
    assert(x =~= seq![tag] + rest);
    lemma_at_split(b, p, seq![tag], rest);
    lemma_rd_u8_at(b, p, tag);
    match c {
        ConstView::Int(v) => {
            assert(rest =~= le64(v as u64));
            lemma_rd_u64_at(b, p + 1, v as u64);
            assert((v as u64) as i64 == v) by (bit_vector);
        },
        ConstView::Uint(v) => {
            assert(rest =~= le64(v));
            lemma_rd_u64_at(b, p + 1, v);
        },
        ConstView::F16(v) => {
            assert(rest =~= le16(v));
            lemma_rd_u16_at(b, p + 1, v);
        },
        ConstView::F32(v) => {
            assert(rest =~= le32(v));
            lemma_rd_u32_at(b, p + 1, v);
        },
        ConstView::F64(v) => {
            assert(rest =~= le64(v));
            lemma_rd_u64_at(b, p + 1, v);
        },
        ConstView::Bool(v) => {
            assert(rest =~= seq![flag_byte(v)]);
            lemma_rd_u8_at(b, p + 1, flag_byte(v));
        },
        ConstView::Str(s) => {
            assert(rest =~= str_bytes(s));
            lemma_rd_str_at(b, p + 1, s);
        },
        ConstView::Nil => {},
    }
}

/// A written instruction reads back as itself.
pub proof fn lemma_rd_op_at(b: Seq<u8>, p: nat, op: Op)
    requires
        at(b, p, op_bytes(op)),
        b.len() <= usize::MAX,
    ensures
        rd_op(b, p) == Ok::<(Op, nat), DecodeFailure>((op, p + op_bytes(op).len())),
{
    let x = op_bytes(op);
    let code = x[0];
    let rest = x.drop_first();
    assert(x =~= seq![code] + rest);
    lemma_at_split(b, p, seq![code], rest);
    lemma_rd_u8_at(b, p, code);
    if op is Pop || op is Halt {
    } else if op is Const || op is LoadLocal || op is StoreLocal || op is LoadGlobal || op is StoreGlobal
        || op is Jump || op is JumpIfFalse {
        lemma_rd_u32_operand(b, p, op);
    } else {
        lemma_rd_ty_operand(b, p, op);
    }
}

/// An instruction whose operand is a `u32` reads back as itself.
#[verifier::rlimit(40)]
proof fn lemma_rd_u32_operand(b: Seq<u8>, p: nat, op: Op)
    requires
        at(b, p, op_bytes(op)),
        b.len() <= usize::MAX,
        op is Const || op is LoadLocal || op is StoreLocal || op is LoadGlobal || op is StoreGlobal || op is Jump || op is JumpIfFalse,
    ensures
        rd_op(b, p) == Ok::<(Op, nat), DecodeFailure>((op, p + op_bytes(op).len())),
{
    let x = op_bytes(op);
    let rest = x.drop_first();
    assert(x =~= seq![x[0]] + rest);
    lemma_at_split(b, p, seq![x[0]], rest);
    lemma_rd_u8_at(b, p, x[0]);
    match op {
        Op::Const(n) => {
            assert(rest =~= le32(n));
            lemma_rd_u32_at(b, p + 1, n);
        },
        Op::LoadLocal(n) => {
            assert(rest =~= le32(n));
            lemma_rd_u32_at(b, p + 1, n);
        },
        Op::StoreLocal(n) => {
            assert(rest =~= le32(n));
            lemma_rd_u32_at(b, p + 1, n);
        },
        Op::LoadGlobal(n) => {
            assert(rest =~= le32(n));
            lemma_rd_u32_at(b, p + 1, n);
        },
        Op::StoreGlobal(n) => {
            assert(rest =~= le32(n));
            lemma_rd_u32_at(b, p + 1, n);
        },
        Op::Jump(n) => {
            assert(rest =~= le32(n));
            lemma_rd_u32_at(b, p + 1, n);
        },
        Op::JumpIfFalse(n) => {
            assert(rest =~= le32(n));
            lemma_rd_u32_at(b, p + 1, n);
        },
        _ => {},
    }
}

/// An instruction whose operand is a type reads back as itself.
#[verifier::rlimit(40)]
proof fn lemma_rd_ty_operand(b: Seq<u8>, p: nat, op: Op)
    requires
        at(b, p, op_bytes(op)),
        b.len() <= usize::MAX,
        op is Add || op is Sub || op is Mul || op is Div || op is Rem || op is Neg || op is Eq || op is Ne || op is Lt || op is Le || op is Gt || op is Ge || op is Write,
    ensures
        rd_op(b, p) == Ok::<(Op, nat), DecodeFailure>((op, p + op_bytes(op).len())),
{
    let x = op_bytes(op);
    let rest = x.drop_first();
    assert(x =~= seq![x[0]] + rest);
    lemma_at_split(b, p, seq![x[0]], rest);
    lemma_rd_u8_at(b, p, x[0]);
    match op {
        Op::Add(t) => {
            assert(rest =~= seq![type_tag(t)]);
            lemma_rd_ty_at(b, p + 1, t);
        },
        Op::Sub(t) => {
            assert(rest =~= seq![type_tag(t)]);
            lemma_rd_ty_at(b, p + 1, t);
        },
        Op::Mul(t) => {
            assert(rest =~= seq![type_tag(t)]);
            lemma_rd_ty_at(b, p + 1, t);
        },
        Op::Div(t) => {
            assert(rest =~= seq![type_tag(t)]);
            lemma_rd_ty_at(b, p + 1, t);
        },
        Op::Rem(t) => {
            assert(rest =~= seq![type_tag(t)]);
            lemma_rd_ty_at(b, p + 1, t);
        },
        Op::Neg(t) => {
            assert(rest =~= seq![type_tag(t)]);
            lemma_rd_ty_at(b, p + 1, t);
        },
        Op::Eq(t) => {
            assert(rest =~= seq![type_tag(t)]);
            lemma_rd_ty_at(b, p + 1, t);
        },
        Op::Ne(t) => {
            assert(rest =~= seq![type_tag(t)]);
            lemma_rd_ty_at(b, p + 1, t);
        },
        Op::Lt(t) => {
            assert(rest =~= seq![type_tag(t)]);
            lemma_rd_ty_at(b, p + 1, t);
        },
        Op::Le(t) => {
            assert(rest =~= seq![type_tag(t)]);
            lemma_rd_ty_at(b, p + 1, t);
        },
        Op::Gt(t) => {
            assert(rest =~= seq![type_tag(t)]);
            lemma_rd_ty_at(b, p + 1, t);
        },
        Op::Ge(t) => {
            assert(rest =~= seq![type_tag(t)]);
            lemma_rd_ty_at(b, p + 1, t);
        },
        Op::Write(t) => {
            assert(rest =~= seq![type_tag(t)]);
            lemma_rd_ty_at(b, p + 1, t);
        },
        _ => {},
    }
}

/// Items written one after another read back one after another, given
/// that each item, wherever it stands, reads back as itself.
pub proof fn lemma_rd_all_at<A>(
    b: Seq<u8>,
    p: nat,
    xs: Seq<A>,
    f: spec_fn(A) -> Seq<u8>,
    rd: spec_fn(Seq<u8>, nat) -> Result<(A, nat), DecodeFailure>,
)
    requires
        at(b, p, all_bytes(xs, f)),
        forall|q: nat, i: int|
            0 <= i < xs.len() && #[trigger] at(b, q, f(xs[i])) ==> rd(b, q) == Ok::<(A, nat), DecodeFailure>(
                (xs[i], q + f(xs[i]).len()),
            ),
    ensures
        rd_all(b, p, xs.len(), rd) == Ok::<(Seq<A>, nat), DecodeFailure>((xs, p + all_bytes(xs, f).len())),
    decreases xs.len(),
{
    if xs.len() > 0 {
        let ys = xs.drop_first();
        lemma_at_split(b, p, f(xs[0]), all_bytes(ys, f));
        assert(at(b, p, f(xs[0])));
        let q = p + f(xs[0]).len();
        assert forall|r: nat, i: int| 0 <= i < ys.len() && #[trigger] at(b, r, f(ys[i])) implies rd(b, r) == Ok::<
            (A, nat),
            DecodeFailure,
        >((ys[i], r + f(ys[i]).len())) by {
            assert(ys[i] == xs[i + 1]);
            assert(at(b, r, f(xs[i + 1])));
        }
        lemma_rd_all_at(b, q, ys, f, rd);
        assert(seq![xs[0]] + ys =~= xs);
        assert((xs.len() - 1) as nat == ys.len());
    } else {
        assert(xs =~= Seq::<A>::empty());
    }
}

/// Items that each take at least one byte take at least as many bytes as
/// there are items.
pub proof fn lemma_all_bytes_len<A>(xs: Seq<A>, f: spec_fn(A) -> Seq<u8>)
    requires
        forall|i: int| 0 <= i < xs.len() ==> #[trigger] f(xs[i]).len() >= 1,
    ensures
        all_bytes(xs, f).len() >= xs.len(),
    decreases xs.len(),
{
    if xs.len() > 0 {
        let ys = xs.drop_first();
        assert forall|i: int| 0 <= i < ys.len() implies #[trigger] f(ys[i]).len() >= 1 by {
            assert(ys[i] == xs[i + 1]);
        }
        lemma_all_bytes_len(ys, f);
        assert(f(xs[0]).len() >= 1);
    }
}

/// A count followed by at least that many bytes is accepted.
pub proof fn lemma_rd_count_at(b: Seq<u8>, p: nat, n: u32)
    requires
        at(b, p, le32(n)),
        n <= b.len() - (p + 4),
        b.len() <= usize::MAX,
    ensures
        rd_count(b, p) == Ok::<(nat, nat), DecodeFailure>((n as nat, p + 4)),
{
    lemma_rd_u32_at(b, p, n);
}

/// A counted list reads back as itself, given that each item, wherever it
/// stands, does.
pub proof fn lemma_rd_list_at<A>(
    b: Seq<u8>,
    p: nat,
    xs: Seq<A>,
    f: spec_fn(A) -> Seq<u8>,
    rd: spec_fn(Seq<u8>, nat) -> Result<(A, nat), DecodeFailure>,
)
    requires
        at(b, p, list_bytes(xs, f)),
        xs.len() <= u32::MAX,
        b.len() <= usize::MAX,
        forall|i: int| 0 <= i < xs.len() ==> #[trigger] f(xs[i]).len() >= 1,
        forall|q: nat, i: int|
            0 <= i < xs.len() && #[trigger] at(b, q, f(xs[i])) ==> rd(b, q) == Ok::<(A, nat), DecodeFailure>(
                (xs[i], q + f(xs[i]).len()),
            ),
    ensures
        rd_list(b, p, rd) == Ok::<(Seq<A>, nat), DecodeFailure>((xs, p + list_bytes(xs, f).len())),
{
    lemma_at_split(b, p, le32(xs.len() as u32), all_bytes(xs, f));
    lemma_all_bytes_len(xs, f);
    lemma_rd_count_at(b, p, xs.len() as u32);
    lemma_rd_all_at(b, p + 4, xs, f, rd);
}

/// The written local slot names read back as themselves.
proof fn lemma_names_at(b: Seq<u8>, p: nat, xs: Seq<Seq<char>>)
    requires
        at(b, p, list_bytes(xs, |s: Seq<char>| str_bytes(s))),
        xs.len() <= u32::MAX,
        b.len() <= usize::MAX,
        forall|i: int| 0 <= i < xs.len() ==> encode_utf8(#[trigger] xs[i]).len() <= u32::MAX,
    ensures
        rd_list(b, p, |b: Seq<u8>, p: nat| rd_str(b, p)) == Ok::<(Seq<Seq<char>>, nat), DecodeFailure>(
            (xs, p + list_bytes(xs, |s: Seq<char>| str_bytes(s)).len()),
        ),
{
    let f = |s: Seq<char>| str_bytes(s);
    let rd = |b: Seq<u8>, p: nat| rd_str(b, p);
    assert forall|i: int| 0 <= i < xs.len() implies #[trigger] f(xs[i]).len() >= 1 by {
        assert(f(xs[i]).len() >= 1);
    }
    assert forall|q: nat, i: int| 0 <= i < xs.len() && #[trigger] at(b, q, f(xs[i])) implies rd(b, q) == Ok::<
        (Seq<char>, nat),
        DecodeFailure,
    >((xs[i], q + f(xs[i]).len())) by {
        lemma_rd_str_at(b, q, xs[i]);
    }
    lemma_rd_list_at(b, p, xs, f, rd);
}

/// The written globals read back as themselves.
proof fn lemma_globals_at(b: Seq<u8>, p: nat, xs: Seq<(Seq<char>, RtType, bool)>)
    requires
        at(b, p, list_bytes(xs, |g: (Seq<char>, RtType, bool)| global_bytes(g))),
        xs.len() <= u32::MAX,
        b.len() <= usize::MAX,
        forall|i: int| 0 <= i < xs.len() ==> encode_utf8((#[trigger] xs[i]).0).len() <= u32::MAX,
    ensures
        rd_list(b, p, |b: Seq<u8>, p: nat| rd_global(b, p)) == Ok::<(Seq<(Seq<char>, RtType, bool)>, nat), DecodeFailure>(
            (xs, p + list_bytes(xs, |g: (Seq<char>, RtType, bool)| global_bytes(g)).len()),
        ),
{
    let f = |g: (Seq<char>, RtType, bool)| global_bytes(g);
    let rd = |b: Seq<u8>, p: nat| rd_global(b, p);
    assert forall|i: int| 0 <= i < xs.len() implies #[trigger] f(xs[i]).len() >= 1 by {
        assert(f(xs[i]).len() >= 1);
    }
    assert forall|q: nat, i: int| 0 <= i < xs.len() && #[trigger] at(b, q, f(xs[i])) implies rd(b, q) == Ok::<
        ((Seq<char>, RtType, bool), nat),
        DecodeFailure,
    >((xs[i], q + f(xs[i]).len())) by {
        lemma_rd_global_at(b, q, xs[i]);
    }
    lemma_rd_list_at(b, p, xs, f, rd);
}

/// The written constant pool read back as themselves.
proof fn lemma_consts_at(b: Seq<u8>, p: nat, xs: Seq<ConstView>)
    requires
        at(b, p, list_bytes(xs, |k: ConstView| const_bytes(k))),
        xs.len() <= u32::MAX,
        b.len() <= usize::MAX,
        forall|i: int|
            0 <= i < xs.len() ==> (#[trigger] xs[i] matches ConstView::Str(s) ==> encode_utf8(s).len() <= u32::MAX),
    ensures
        rd_list(b, p, |b: Seq<u8>, p: nat| rd_const(b, p)) == Ok::<(Seq<ConstView>, nat), DecodeFailure>(
            (xs, p + list_bytes(xs, |k: ConstView| const_bytes(k)).len()),
        ),
{
    let f = |k: ConstView| const_bytes(k);
    let rd = |b: Seq<u8>, p: nat| rd_const(b, p);
    assert forall|i: int| 0 <= i < xs.len() implies #[trigger] f(xs[i]).len() >= 1 by {
        assert(f(xs[i]).len() >= 1);
    }
    assert forall|q: nat, i: int| 0 <= i < xs.len() && #[trigger] at(b, q, f(xs[i])) implies rd(b, q) == Ok::<
        (ConstView, nat),
        DecodeFailure,
    >((xs[i], q + f(xs[i]).len())) by {
        lemma_rd_const_at(b, q, xs[i]);
    }
    lemma_rd_list_at(b, p, xs, f, rd);
}

/// The written instructions read back as themselves.
proof fn lemma_code_at(b: Seq<u8>, p: nat, xs: Seq<Op>)
    requires
        at(b, p, list_bytes(xs, |op: Op| op_bytes(op))),
        xs.len() <= u32::MAX,
        b.len() <= usize::MAX,
    ensures
        rd_list(b, p, |b: Seq<u8>, p: nat| rd_op(b, p)) == Ok::<(Seq<Op>, nat), DecodeFailure>(
            (xs, p + list_bytes(xs, |op: Op| op_bytes(op)).len()),
        ),
{
    let f = |op: Op| op_bytes(op);
    let rd = |b: Seq<u8>, p: nat| rd_op(b, p);
    assert forall|i: int| 0 <= i < xs.len() implies #[trigger] f(xs[i]).len() >= 1 by {
        assert(f(xs[i]).len() >= 1);
    }
    assert forall|q: nat, i: int| 0 <= i < xs.len() && #[trigger] at(b, q, f(xs[i])) implies rd(b, q) == Ok::<
        (Op, nat),
        DecodeFailure,
    >((xs[i], q + f(xs[i]).len())) by {
        lemma_rd_op_at(b, q, xs[i]);
    }
    lemma_rd_list_at(b, p, xs, f, rd);
}

/// The written line table read back as themselves.
proof fn lemma_lines_at(b: Seq<u8>, p: nat, xs: Seq<u32>)
    requires
        at(b, p, list_bytes(xs, |l: u32| le32(l))),
        xs.len() <= u32::MAX,
        b.len() <= usize::MAX,
    ensures
        rd_list(b, p, |b: Seq<u8>, p: nat| rd_u32(b, p)) == Ok::<(Seq<u32>, nat), DecodeFailure>(
            (xs, p + list_bytes(xs, |l: u32| le32(l)).len()),
        ),
{
    let f = |l: u32| le32(l);
    let rd = |b: Seq<u8>, p: nat| rd_u32(b, p);
    assert forall|i: int| 0 <= i < xs.len() implies #[trigger] f(xs[i]).len() >= 1 by {
        assert(f(xs[i]).len() >= 1);
    }
    assert forall|q: nat, i: int| 0 <= i < xs.len() && #[trigger] at(b, q, f(xs[i])) implies rd(b, q) == Ok::<
        (u32, nat),
        DecodeFailure,
    >((xs[i], q + f(xs[i]).len())) by {
        lemma_rd_u32_at(b, q, xs[i]);
    }
    lemma_rd_list_at(b, p, xs, f, rd);
}

/// A file whose fields read as those of `c`, in order, decodes to `c`.
proof fn lemma_decode_from_fields(b: Seq<u8>, c: ChunkView, q: Seq<nat>)
    requires
        q.len() == 8,
        c.locals <= u32::MAX,
        rd_bytes(b, 0, 4) == Ok::<(Seq<u8>, nat), DecodeFailure>((MAGIC@, 4)),
        rd_u16(b, 4) == Ok::<(u16, nat), DecodeFailure>((VERSION, 6)),
        rd_str(b, 6) == Ok::<(Seq<char>, nat), DecodeFailure>((c.source, q[0])),
        rd_u32(b, q[0]) == Ok::<(u32, nat), DecodeFailure>((c.locals as u32, q[1])),
        rd_list(b, q[1], |b: Seq<u8>, p: nat| rd_str(b, p)) == Ok::<(Seq<Seq<char>>, nat), DecodeFailure>(
            (c.local_names, q[2]),
        ),
        rd_list(b, q[2], |b: Seq<u8>, p: nat| rd_global(b, p)) == Ok::<
            (Seq<(Seq<char>, RtType, bool)>, nat),
            DecodeFailure,
        >((c.globals, q[3])),
        rd_list(b, q[3], |b: Seq<u8>, p: nat| rd_const(b, p)) == Ok::<(Seq<ConstView>, nat), DecodeFailure>(
            (c.consts, q[4]),
        ),
        rd_list(b, q[4], |b: Seq<u8>, p: nat| rd_op(b, p)) == Ok::<(Seq<Op>, nat), DecodeFailure>(
            (c.code, q[5]),
        ),
        rd_list(b, q[5], |b: Seq<u8>, p: nat| rd_u32(b, p)) == Ok::<(Seq<u32>, nat), DecodeFailure>(
            (c.lines, q[6]),
        ),
    ensures
        decode_chunk(b) == Ok::<ChunkView, DecodeFailure>(c),
{
    assert((c.locals as u32) as usize == c.locals);
}

/// Where each field of a written chunk starts.
proof fn lemma_layout(c: ChunkView) -> (q: Seq<nat>)
    ensures
        q.len() == 8,
        at(chunk_bytes(c), 0, MAGIC@),
        at(chunk_bytes(c), 4, le16(VERSION)),
        at(chunk_bytes(c), 6, str_bytes(c.source)),
        at(chunk_bytes(c), q[0], le32(c.locals as u32)),
        at(chunk_bytes(c), q[1], list_bytes(c.local_names, |s: Seq<char>| str_bytes(s))),
        at(chunk_bytes(c), q[2], list_bytes(c.globals, |g: (Seq<char>, RtType, bool)| global_bytes(g))),
        at(chunk_bytes(c), q[3], list_bytes(c.consts, |k: ConstView| const_bytes(k))),
        at(chunk_bytes(c), q[4], list_bytes(c.code, |op: Op| op_bytes(op))),
        at(chunk_bytes(c), q[5], list_bytes(c.lines, |l: u32| le32(l))),
        q[0] == 6 + str_bytes(c.source).len(),
        q[1] == q[0] + 4,
        q[2] == q[1] + list_bytes(c.local_names, |s: Seq<char>| str_bytes(s)).len(),
        q[3] == q[2] + list_bytes(c.globals, |g: (Seq<char>, RtType, bool)| global_bytes(g)).len(),
        q[4] == q[3] + list_bytes(c.consts, |k: ConstView| const_bytes(k)).len(),
        q[5] == q[4] + list_bytes(c.code, |op: Op| op_bytes(op)).len(),
        q[6] == q[5] + list_bytes(c.lines, |l: u32| le32(l)).len(),
{
    let b = chunk_bytes(c);
    let m = MAGIC@;
    let v = le16(VERSION);
    let src = str_bytes(c.source);
    let lo = le32(c.locals as u32);
    let names = list_bytes(c.local_names, |s: Seq<char>| str_bytes(s));
    let globals = list_bytes(c.globals, |g: (Seq<char>, RtType, bool)| global_bytes(g));
    let consts = list_bytes(c.consts, |k: ConstView| const_bytes(k));
    let code = list_bytes(c.code, |op: Op| op_bytes(op));
    let lines = list_bytes(c.lines, |l: u32| le32(l));
    let p1 = m + v;
    let p2 = p1 + src;
    let p3 = p2 + lo;
    let p4 = p3 + names;
    let p5 = p4 + globals;
    let p6 = p5 + consts;
    let p7 = p6 + code;
    assert(b == p7 + lines);
    assert(at(b, 0, b)) by {
        assert(b.subrange(0, b.len() as int) =~= b);
    }
    lemma_at_split(b, 0, p7, lines);
    lemma_at_split(b, 0, p6, code);
    lemma_at_split(b, 0, p5, consts);
    lemma_at_split(b, 0, p4, globals);
    lemma_at_split(b, 0, p3, names);
    lemma_at_split(b, 0, p2, lo);
    lemma_at_split(b, 0, p1, src);
    lemma_at_split(b, 0, m, v);
    assert(m.len() == 4);
    seq![p2.len(), p3.len(), p4.len(), p5.len(), p6.len(), p7.len(), b.len(), 0]
}

/// The fields of a written chunk read back as themselves.
proof fn lemma_fields_of_written(c: ChunkView) -> (q: Seq<nat>)
    requires
        encodable(c),
        chunk_bytes(c).len() <= usize::MAX,
    ensures
        q.len() == 8,
        rd_bytes(chunk_bytes(c), 0, 4) == Ok::<(Seq<u8>, nat), DecodeFailure>((MAGIC@, 4)),
        rd_u16(chunk_bytes(c), 4) == Ok::<(u16, nat), DecodeFailure>((VERSION, 6)),
        rd_str(chunk_bytes(c), 6) == Ok::<(Seq<char>, nat), DecodeFailure>((c.source, q[0])),
        rd_u32(chunk_bytes(c), q[0]) == Ok::<(u32, nat), DecodeFailure>((c.locals as u32, q[1])),
        rd_list(chunk_bytes(c), q[1], |b: Seq<u8>, p: nat| rd_str(b, p)) == Ok::<
            (Seq<Seq<char>>, nat),
            DecodeFailure,
        >((c.local_names, q[2])),
        rd_list(chunk_bytes(c), q[2], |b: Seq<u8>, p: nat| rd_global(b, p)) == Ok::<
            (Seq<(Seq<char>, RtType, bool)>, nat),
            DecodeFailure,
        >((c.globals, q[3])),
        rd_list(chunk_bytes(c), q[3], |b: Seq<u8>, p: nat| rd_const(b, p)) == Ok::<
            (Seq<ConstView>, nat),
            DecodeFailure,
        >((c.consts, q[4])),
        rd_list(chunk_bytes(c), q[4], |b: Seq<u8>, p: nat| rd_op(b, p)) == Ok::<(Seq<Op>, nat), DecodeFailure>(
            (c.code, q[5]),
        ),
        rd_list(chunk_bytes(c), q[5], |b: Seq<u8>, p: nat| rd_u32(b, p)) == Ok::<
            (Seq<u32>, nat),
            DecodeFailure,
        >((c.lines, q[6])),
{
    let b = chunk_bytes(c);
    let q = lemma_layout(c);
    assert(MAGIC@.len() == 4);
    lemma_rd_bytes_at(b, 0, MAGIC@);
    lemma_rd_u16_at(b, 4, VERSION);
    lemma_rd_str_at(b, 6, c.source);
    lemma_rd_u32_at(b, q[0], c.locals as u32);
    lemma_names_at(b, q[1], c.local_names);
    lemma_globals_at(b, q[2], c.globals);
    lemma_consts_at(b, q[3], c.consts);
    lemma_code_at(b, q[4], c.code);
    lemma_lines_at(b, q[5], c.lines);
    q
}

/// Decoding what encoding wrote gives back the chunk that was written:
/// every count, length and slot number of the chunk fits the `u32` the
/// format gives it, and the file fits in memory.
pub proof fn lemma_round_trip(c: ChunkView)
    requires
        encodable(c),
        chunk_bytes(c).len() <= usize::MAX,
    ensures
        decode_chunk(chunk_bytes(c)) == Ok::<ChunkView, DecodeFailure>(c),
{
    let q = lemma_fields_of_written(c);
    lemma_decode_from_fields(chunk_bytes(c), c, q);
}

} // verus!
