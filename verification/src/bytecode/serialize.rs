//! The `.lrb` container format: writing a chunk out, and reading one back.
//!
//! Hand-rolled little-endian encoding, so the compiler and VM carry no
//! third-party dependencies at all.
use vstd::prelude::*;

use vstd::utf8::{decode_utf8, valid_utf8};

use crate::bytecode::chunk::{Chunk, Const, ConstView, GlobalInfo};
use crate::bytecode::format::{
    all_bytes, chunk_bytes, const_bytes, flag_byte, global_bytes, le16, le32, le64, list_bytes, op_bytes,
    decode_chunk, rd_all, rd_bytes, rd_const, rd_count, rd_global, rd_op, rd_str, rd_ty, rd_u16, rd_u32, rd_u64,
    rd_u8, str_bytes, u32_of, DecodeFailure,
    MAGIC, VERSION,
};
use crate::bytecode::op::Op;
use crate::bytecode::value::{type_tag, RtType};
use crate::num::decimal::{decimal_chars, push_decimal};

verus! {

broadcast use vstd::string::group_string_axioms;

/// Writing `xs` and then `x` is writing `xs` with `x` on the end.
pub proof fn lemma_all_bytes_push<A>(xs: Seq<A>, x: A, f: spec_fn(A) -> Seq<u8>)
    ensures
        all_bytes(xs.push(x), f) == all_bytes(xs, f) + f(x),
    decreases xs.len(),
{
    if xs.len() == 0 {
        assert(xs.push(x).drop_first() =~= Seq::<A>::empty());
        assert(all_bytes(Seq::<A>::empty(), f) == Seq::<u8>::empty());
        assert(xs.push(x)[0] == x);
        assert(all_bytes(xs.push(x), f) =~= f(x) + Seq::<u8>::empty());
    } else {
        lemma_all_bytes_push(xs.drop_first(), x, f);
        assert(xs.push(x).drop_first() =~= xs.drop_first().push(x));
        assert(xs.push(x)[0] == xs[0]);
        assert(all_bytes(xs.push(x), f) =~= f(xs[0]) + (all_bytes(xs.drop_first(), f) + f(x)));
    }
}

/// A buffer that encoding appends to.
struct Writer {
    buf: Vec<u8>,
}

impl Writer {
    fn u8(&mut self, v: u8)
        ensures
            final(self).buf@ == old(self).buf@ + seq![v],
    {
        self.buf.push(v);
        proof {
            assert(self.buf@ =~= old(self).buf@ + seq![v]);
        }
    }

    fn u16(&mut self, v: u16)
        ensures
            final(self).buf@ == old(self).buf@ + le16(v),
    {
        self.buf.push((v % 256) as u8);
        self.buf.push((v / 256) as u8);
        proof {
            assert(self.buf@ =~= old(self).buf@ + le16(v));
        }
    }

    fn u32(&mut self, v: u32)
        ensures
            final(self).buf@ == old(self).buf@ + le32(v),
    {
        self.buf.push((v % 256) as u8);
        self.buf.push((v / 256 % 256) as u8);
        self.buf.push((v / 65536 % 256) as u8);
        self.buf.push((v / 16777216) as u8);
        proof {
            assert(self.buf@ =~= old(self).buf@ + le32(v));
        }
    }

    fn u64(&mut self, v: u64)
        ensures
            final(self).buf@ == old(self).buf@ + le64(v),
    {
        self.u32((v % 0x1_0000_0000) as u32);
        self.u32((v / 0x1_0000_0000) as u32);
        proof {
            assert(self.buf@ =~= old(self).buf@ + le64(v));
        }
    }

    fn i64(&mut self, v: i64)
        ensures
            final(self).buf@ == old(self).buf@ + le64(v as u64),
    {
        self.u64(v as u64);
    }

    /// A string: its UTF-8 length, then its bytes.
    fn str(&mut self, s: &str)
        ensures
            final(self).buf@ == old(self).buf@ + str_bytes(s@),
    {
        let bytes = s.as_bytes();
        self.u32(bytes.len() as u32);
        let ghost before = self.buf@;
        self.buf.extend_from_slice(bytes);
        proof {
            assert(self.buf@ =~= before + bytes@);
            assert(self.buf@ =~= old(self).buf@ + str_bytes(s@));
        }
    }

    fn ty(&mut self, t: RtType)
        ensures
            final(self).buf@ == old(self).buf@ + seq![type_tag(t)],
    {
        self.u8(t.tag());
    }

    fn flag(&mut self, b: bool)
        ensures
            final(self).buf@ == old(self).buf@ + seq![flag_byte(b)],
    {
        if b {
            self.u8(1);
        } else {
            self.u8(0);
        }
    }
}

/// Write one instruction.
fn encode_op(w: &mut Writer, op: Op)
    ensures
        final(w).buf@ == old(w).buf@ + op_bytes(op),
{
    let ghost start = w.buf@;
    match op {
        Op::Const(n) => {
            w.u8(0);
            w.u32(n);
        },
        Op::LoadLocal(n) => {
            w.u8(1);
            w.u32(n);
        },
        Op::StoreLocal(n) => {
            w.u8(2);
            w.u32(n);
        },
        Op::LoadGlobal(n) => {
            w.u8(3);
            w.u32(n);
        },
        Op::StoreGlobal(n) => {
            w.u8(4);
            w.u32(n);
        },
        Op::Add(t) => {
            w.u8(5);
            w.ty(t);
        },
        Op::Sub(t) => {
            w.u8(6);
            w.ty(t);
        },
        Op::Mul(t) => {
            w.u8(7);
            w.ty(t);
        },
        Op::Div(t) => {
            w.u8(8);
            w.ty(t);
        },
        Op::Rem(t) => {
            w.u8(9);
            w.ty(t);
        },
        Op::Neg(t) => {
            w.u8(10);
            w.ty(t);
        },
        Op::Eq(t) => {
            w.u8(11);
            w.ty(t);
        },
        Op::Ne(t) => {
            w.u8(12);
            w.ty(t);
        },
        Op::Lt(t) => {
            w.u8(13);
            w.ty(t);
        },
        Op::Le(t) => {
            w.u8(14);
            w.ty(t);
        },
        Op::Gt(t) => {
            w.u8(15);
            w.ty(t);
        },
        Op::Ge(t) => {
            w.u8(16);
            w.ty(t);
        },
        Op::Write(t) => {
            w.u8(17);
            w.ty(t);
        },
        Op::Pop => w.u8(18),
        Op::Halt => w.u8(19),
        Op::Jump(t) => {
            w.u8(20);
            w.u32(t);
        },
        Op::JumpIfFalse(t) => {
            w.u8(21);
            w.u32(t);
        },
    }
    proof {
        assert(w.buf@ =~= start + op_bytes(op));
    }
}

/// Write one constant.
fn encode_const(w: &mut Writer, c: &Const)
    ensures
        final(w).buf@ == old(w).buf@ + const_bytes(c@),
{
    let ghost start = w.buf@;
    match c {
        Const::Int(v) => {
            w.u8(0);
            w.i64(*v);
        },
        Const::Uint(v) => {
            w.u8(1);
            w.u64(*v);
        },
        Const::F16(bits) => {
            w.u8(2);
            w.u16(*bits);
        },
        Const::F32(bits) => {
            w.u8(3);
            w.u32(*bits);
        },
        Const::F64(bits) => {
            w.u8(4);
            w.u64(*bits);
        },
        Const::Bool(v) => {
            w.u8(5);
            w.flag(*v);
        },
        Const::Str(s) => {
            w.u8(6);
            w.str(s.as_str());
        },
        Const::Nil => w.u8(7),
    }
    proof {
        assert(w.buf@ =~= start + const_bytes(c@));
    }
}

/// Write one global.
fn encode_global(w: &mut Writer, g: &GlobalInfo)
    ensures
        final(w).buf@ == old(w).buf@ + global_bytes(g@),
{
    let ghost start = w.buf@;
    w.str(g.name.as_str());
    w.ty(g.ty);
    w.flag(g.exported);
    proof {
        assert(w.buf@ =~= start + global_bytes(g@));
    }
}

/// Write the local slot names as a counted list.
fn encode_names(w: &mut Writer, names: &Vec<String>)
    ensures
        final(w).buf@ == old(w).buf@ + list_bytes(names@.map_values(|n: String| n@), |s: Seq<char>| str_bytes(s)),
{
    let ghost xs = names@.map_values(|n: String| n@);
    let ghost p = w.buf@;
    w.u32(names.len() as u32);
    let mut i: usize = 0;
    while i < names.len()
        invariant
            xs == names@.map_values(|n: String| n@),
            i <= xs.len(),
            w.buf@ == p + le32(xs.len() as u32) + all_bytes(xs.take(i as int), |s: Seq<char>| str_bytes(s)),
        decreases xs.len() - i,
    {
        proof {
            assert(xs.take(i as int + 1) =~= xs.take(i as int).push(xs[i as int]));
            lemma_all_bytes_push(xs.take(i as int), xs[i as int], |s: Seq<char>| str_bytes(s));
        }
        w.str(names[i].as_str());
        i = i + 1;
    }
    proof {
        assert(xs.take(xs.len() as int) =~= xs);
    }
}

/// Write the globals as a counted list.
fn encode_globals(w: &mut Writer, globals: &Vec<GlobalInfo>)
    ensures
        final(w).buf@ == old(w).buf@ + list_bytes(
            globals@.map_values(|g: GlobalInfo| g@),
            |g: (Seq<char>, RtType, bool)| global_bytes(g),
        ),
{
    let ghost xs = globals@.map_values(|g: GlobalInfo| g@);
    let ghost p = w.buf@;
    w.u32(globals.len() as u32);
    let mut i: usize = 0;
    while i < globals.len()
        invariant
            xs == globals@.map_values(|g: GlobalInfo| g@),
            i <= xs.len(),
            w.buf@ == p + le32(xs.len() as u32) + all_bytes(
                xs.take(i as int),
                |g: (Seq<char>, RtType, bool)| global_bytes(g),
            ),
        decreases xs.len() - i,
    {
        proof {
            assert(xs.take(i as int + 1) =~= xs.take(i as int).push(xs[i as int]));
            lemma_all_bytes_push(xs.take(i as int), xs[i as int], |g: (Seq<char>, RtType, bool)| global_bytes(g));
        }
        encode_global(w, &globals[i]);
        i = i + 1;
    }
    proof {
        assert(xs.take(xs.len() as int) =~= xs);
    }
}

/// Write the constant pool as a counted list.
fn encode_consts(w: &mut Writer, consts: &Vec<Const>)
    ensures
        final(w).buf@ == old(w).buf@ + list_bytes(consts@.map_values(|c: Const| c@), |k: ConstView| const_bytes(k)),
{
    let ghost xs = consts@.map_values(|c: Const| c@);
    let ghost p = w.buf@;
    w.u32(consts.len() as u32);
    let mut i: usize = 0;
    while i < consts.len()
        invariant
            xs == consts@.map_values(|c: Const| c@),
            i <= xs.len(),
            w.buf@ == p + le32(xs.len() as u32) + all_bytes(xs.take(i as int), |k: ConstView| const_bytes(k)),
        decreases xs.len() - i,
    {
        proof {
            assert(xs.take(i as int + 1) =~= xs.take(i as int).push(xs[i as int]));
            lemma_all_bytes_push(xs.take(i as int), xs[i as int], |k: ConstView| const_bytes(k));
        }
        encode_const(w, &consts[i]);
        i = i + 1;
    }
    proof {
        assert(xs.take(xs.len() as int) =~= xs);
    }
}

/// Write the instructions as a counted list.
fn encode_code(w: &mut Writer, code: &Vec<Op>)
    ensures
        final(w).buf@ == old(w).buf@ + list_bytes(code@, |op: Op| op_bytes(op)),
{
    let ghost xs = code@;
    let ghost p = w.buf@;
    w.u32(code.len() as u32);
    let mut i: usize = 0;
    while i < code.len()
        invariant
            xs == code@,
            i <= xs.len(),
            w.buf@ == p + le32(xs.len() as u32) + all_bytes(xs.take(i as int), |op: Op| op_bytes(op)),
        decreases xs.len() - i,
    {
        proof {
            assert(xs.take(i as int + 1) =~= xs.take(i as int).push(xs[i as int]));
            lemma_all_bytes_push(xs.take(i as int), xs[i as int], |op: Op| op_bytes(op));
        }
        encode_op(w, code[i]);
        i = i + 1;
    }
    proof {
        assert(xs.take(xs.len() as int) =~= xs);
    }
}

/// Write the line table as a counted list.
fn encode_lines(w: &mut Writer, lines: &Vec<u32>)
    ensures
        final(w).buf@ == old(w).buf@ + list_bytes(lines@, |l: u32| le32(l)),
{
    let ghost xs = lines@;
    let ghost p = w.buf@;
    w.u32(lines.len() as u32);
    let mut i: usize = 0;
    while i < lines.len()
        invariant
            xs == lines@,
            i <= xs.len(),
            w.buf@ == p + le32(xs.len() as u32) + all_bytes(xs.take(i as int), |l: u32| le32(l)),
        decreases xs.len() - i,
    {
        proof {
            assert(xs.take(i as int + 1) =~= xs.take(i as int).push(xs[i as int]));
            lemma_all_bytes_push(xs.take(i as int), xs[i as int], |l: u32| le32(l));
        }
        w.u32(lines[i]);
        i = i + 1;
    }
    proof {
        assert(xs.take(xs.len() as int) =~= xs);
    }
}

/// Write a chunk as a `.lrb` file.
pub fn encode(chunk: &Chunk) -> (r: Vec<u8>)
    ensures
        r@ == chunk_bytes(chunk@),
{
    let mut w = Writer { buf: Vec::new() };
    let magic = MAGIC;
    w.buf.extend_from_slice(&magic);
    w.u16(VERSION);
    w.str(chunk.source.as_str());
    w.u32(chunk.locals as u32);
    proof {
        assert(w.buf@ =~= MAGIC@ + le16(VERSION) + str_bytes(chunk@.source) + le32(chunk@.locals as u32));
    }
    encode_names(&mut w, &chunk.local_names);
    encode_globals(&mut w, &chunk.globals);
    encode_consts(&mut w, &chunk.consts);
    encode_code(&mut w, &chunk.code);
    encode_lines(&mut w, &chunk.lines);
    proof {
        assert(w.buf@ =~= chunk_bytes(chunk@));
    }
    w.buf
}

// ------------------------------------------------------------------ reading

/// A read that gave `r` and left the cursor at `pos`, against what the
/// format says the bytes read as.
spec fn read_as<A>(r: Result<A, DecodeFailure>, pos: usize, want: Result<(A, nat), DecodeFailure>) -> bool {
    match want {
        Ok((v, p)) => r == Ok::<A, DecodeFailure>(v) && pos == p,
        Err(e) => r == Err::<A, DecodeFailure>(e),
    }
}

/// `String::from_utf8`: the bytes as a string when they are UTF-8, and
/// nothing when they are not.
#[verifier::external_body]
fn string_from_utf8(bytes: Vec<u8>) -> (r: Option<String>)
    ensures
        r is Some <==> valid_utf8(bytes@),
        r matches Some(s) ==> s@ == decode_utf8(bytes@),
{
    String::from_utf8(bytes).ok()
}

/// A cursor over the bytes being decoded.
struct Reader<'a> {
    buf: &'a [u8],
    pos: usize,
}

impl<'a> Reader<'a> {
    spec fn wf(&self) -> bool {
        self.pos <= self.buf@.len()
    }

    fn take(&mut self, n: usize) -> (r: Result<&'a [u8], DecodeFailure>)
        requires
            old(self).wf(),
        ensures
            final(self).wf(),
            final(self).buf@ == old(self).buf@,
            match rd_bytes(old(self).buf@, old(self).pos as nat, n as nat) {
                Ok((s, p)) => r matches Ok(x) && x@ == s && final(self).pos == p,
                Err(e) => r == Err::<&'a [u8], DecodeFailure>(e),
            },
    {
        match self.pos.checked_add(n) {
            None => Err(DecodeFailure::LengthOverflow),
            Some(end) => {
                if end > self.buf.len() {
                    Err(DecodeFailure::Truncated(self.pos))
                } else {
                    let s = vstd::slice::slice_subrange(self.buf, self.pos, end);
                    self.pos = end;
                    Ok(s)
                }
            },
        }
    }

    fn u8(&mut self) -> (r: Result<u8, DecodeFailure>)
        requires
            old(self).wf(),
        ensures
            final(self).wf(),
            final(self).buf@ == old(self).buf@,
            read_as(r, final(self).pos, rd_u8(old(self).buf@, old(self).pos as nat)),
    {
        match self.take(1) {
            Ok(s) => Ok(s[0]),
            Err(e) => Err(e),
        }
    }

    fn u16(&mut self) -> (r: Result<u16, DecodeFailure>)
        requires
            old(self).wf(),
        ensures
            final(self).wf(),
            final(self).buf@ == old(self).buf@,
            read_as(r, final(self).pos, rd_u16(old(self).buf@, old(self).pos as nat)),
    {
        match self.take(2) {
            Ok(s) => Ok((s[0] as u16) + 256 * (s[1] as u16)),
            Err(e) => Err(e),
        }
    }

    fn u32(&mut self) -> (r: Result<u32, DecodeFailure>)
        requires
            old(self).wf(),
        ensures
            final(self).wf(),
            final(self).buf@ == old(self).buf@,
            read_as(r, final(self).pos, rd_u32(old(self).buf@, old(self).pos as nat)),
    {
        match self.take(4) {
            Ok(s) => Ok(u32_at(s, 0)),
            Err(e) => Err(e),
        }
    }

    fn u64(&mut self) -> (r: Result<u64, DecodeFailure>)
        requires
            old(self).wf(),
        ensures
            final(self).wf(),
            final(self).buf@ == old(self).buf@,
            read_as(r, final(self).pos, rd_u64(old(self).buf@, old(self).pos as nat)),
    {
        match self.take(8) {
            Ok(s) => {
                let lo = u32_at(s, 0);
                let hi = u32_at(s, 4);
                Ok((lo as u64) + 0x1_0000_0000 * (hi as u64))
            },
            Err(e) => Err(e),
        }
    }

    fn str(&mut self) -> (r: Result<String, DecodeFailure>)
        requires
            old(self).wf(),
        ensures
            final(self).wf(),
            final(self).buf@ == old(self).buf@,
            match rd_str(old(self).buf@, old(self).pos as nat) {
                Ok((s, p)) => r matches Ok(x) && x@ == s && final(self).pos == p,
                Err(e) => r == Err::<String, DecodeFailure>(e),
            },
    {
        let n = match self.u32() {
            Ok(n) => n,
            Err(e) => return Err(e),
        };
        let bytes = match self.take(n as usize) {
            Ok(b) => b,
            Err(e) => return Err(e),
        };
        match string_from_utf8(vstd::slice::slice_to_vec(bytes)) {
            Some(s) => Ok(s),
            None => Err(DecodeFailure::BadUtf8),
        }
    }

    fn ty(&mut self) -> (r: Result<RtType, DecodeFailure>)
        requires
            old(self).wf(),
        ensures
            final(self).wf(),
            final(self).buf@ == old(self).buf@,
            read_as(r, final(self).pos, rd_ty(old(self).buf@, old(self).pos as nat)),
    {
        let tag = match self.u8() {
            Ok(t) => t,
            Err(e) => return Err(e),
        };
        match RtType::from_tag(tag) {
            Some(t) => Ok(t),
            None => Err(DecodeFailure::BadTypeTag(tag)),
        }
    }

    /// A list length; a corrupt one that claims more items than bytes
    /// remain is refused before anything is set aside for it.
    fn count(&mut self) -> (r: Result<usize, DecodeFailure>)
        requires
            old(self).wf(),
        ensures
            final(self).wf(),
            final(self).buf@ == old(self).buf@,
            match rd_count(old(self).buf@, old(self).pos as nat) {
                Ok((n, p)) => r == Ok::<usize, DecodeFailure>(n as usize) && final(self).pos == p,
                Err(e) => r == Err::<usize, DecodeFailure>(e),
            },
    {
        let n = match self.u32() {
            Ok(n) => n,
            Err(e) => return Err(e),
        };
        if n > 0 && (n as usize) - 1 > self.buf.len() - self.pos {
            Err(DecodeFailure::BadCount(n))
        } else {
            Ok(n as usize)
        }
    }
}

/// The `u32` in the four bytes at `i`, least significant first.
fn u32_at(s: &[u8], i: usize) -> (r: u32)
    requires
        i + 4 <= s@.len(),
    ensures
        r == u32_of(s@.subrange(i as int, i + 4)),
{
    let ghost t = s@.subrange(i as int, i + 4);
    assert(t[0] == s@[i as int] && t[1] == s@[i + 1] && t[2] == s@[i + 2] && t[3] == s@[i + 3]);
    (s[i] as u32) + 256 * (s[i + 1] as u32) + 65536 * (s[i + 2] as u32) + 16777216 * (s[i + 3] as u32)
}

/// One global: its name, type and export flag.
fn decode_global(r: &mut Reader) -> (res: Result<GlobalInfo, DecodeFailure>)
    requires
        old(r).wf(),
    ensures
        final(r).wf(),
        final(r).buf@ == old(r).buf@,
        match rd_global(old(r).buf@, old(r).pos as nat) {
            Ok((g, p)) => res matches Ok(x) && x@ == g && final(r).pos == p,
            Err(e) => res == Err::<GlobalInfo, DecodeFailure>(e),
        },
{
    let name = match r.str() {
        Ok(s) => s,
        Err(e) => return Err(e),
    };
    let ty = match r.ty() {
        Ok(t) => t,
        Err(e) => return Err(e),
    };
    let exported = match r.u8() {
        Ok(x) => x != 0,
        Err(e) => return Err(e),
    };
    Ok(GlobalInfo { name, ty, exported })
}

/// One constant: a tag byte, then its payload.
fn decode_const(r: &mut Reader) -> (res: Result<Const, DecodeFailure>)
    requires
        old(r).wf(),
    ensures
        final(r).wf(),
        final(r).buf@ == old(r).buf@,
        match rd_const(old(r).buf@, old(r).pos as nat) {
            Ok((c, p)) => res matches Ok(x) && x@ == c && final(r).pos == p,
            Err(e) => res == Err::<Const, DecodeFailure>(e),
        },
{
    let tag = match r.u8() {
        Ok(t) => t,
        Err(e) => return Err(e),
    };
    if tag == 0 {
        match r.u64() {
            Ok(v) => Ok(Const::Int(v as i64)),
            Err(e) => Err(e),
        }
    } else if tag == 1 {
        match r.u64() {
            Ok(v) => Ok(Const::Uint(v)),
            Err(e) => Err(e),
        }
    } else if tag == 2 {
        match r.u16() {
            Ok(v) => Ok(Const::F16(v)),
            Err(e) => Err(e),
        }
    } else if tag == 3 {
        match r.u32() {
            Ok(v) => Ok(Const::F32(v)),
            Err(e) => Err(e),
        }
    } else if tag == 4 {
        match r.u64() {
            Ok(v) => Ok(Const::F64(v)),
            Err(e) => Err(e),
        }
    } else if tag == 5 {
        match r.u8() {
            Ok(v) => Ok(Const::Bool(v != 0)),
            Err(e) => Err(e),
        }
    } else if tag == 6 {
        match r.str() {
            Ok(s) => Ok(Const::Str(s)),
            Err(e) => Err(e),
        }
    } else if tag == 7 {
        Ok(Const::Nil)
    } else {
        Err(DecodeFailure::BadConstTag(tag))
    }
}

/// One instruction: an opcode byte, then its operand.
fn decode_op(r: &mut Reader) -> (res: Result<Op, DecodeFailure>)
    requires
        old(r).wf(),
    ensures
        final(r).wf(),
        final(r).buf@ == old(r).buf@,
        read_as(res, final(r).pos, rd_op(old(r).buf@, old(r).pos as nat)),
{
    let code = match r.u8() {
        Ok(c) => c,
        Err(e) => return Err(e),
    };
    if code <= 4 || code == 20 || code == 21 {
        let n = match r.u32() {
            Ok(n) => n,
            Err(e) => return Err(e),
        };
        Ok(
            if code == 0 {
                Op::Const(n)
            } else if code == 1 {
                Op::LoadLocal(n)
            } else if code == 2 {
                Op::StoreLocal(n)
            } else if code == 3 {
                Op::LoadGlobal(n)
            } else if code == 4 {
                Op::StoreGlobal(n)
            } else if code == 20 {
                Op::Jump(n)
            } else {
                Op::JumpIfFalse(n)
            },
        )
    } else if code <= 17 {
        let t = match r.ty() {
            Ok(t) => t,
            Err(e) => return Err(e),
        };
        Ok(
            if code == 5 {
                Op::Add(t)
            } else if code == 6 {
                Op::Sub(t)
            } else if code == 7 {
                Op::Mul(t)
            } else if code == 8 {
                Op::Div(t)
            } else if code == 9 {
                Op::Rem(t)
            } else if code == 10 {
                Op::Neg(t)
            } else if code == 11 {
                Op::Eq(t)
            } else if code == 12 {
                Op::Ne(t)
            } else if code == 13 {
                Op::Lt(t)
            } else if code == 14 {
                Op::Le(t)
            } else if code == 15 {
                Op::Gt(t)
            } else if code == 16 {
                Op::Ge(t)
            } else {
                Op::Write(t)
            },
        )
    } else if code == 18 {
        Ok(Op::Pop)
    } else if code == 19 {
        Ok(Op::Halt)
    } else {
        Err(DecodeFailure::BadOpcode(code))
    }
}

/// What reading a list gives once `xs` have been read in front of it.
spec fn prepend<A>(xs: Seq<A>, rest: Result<(Seq<A>, nat), DecodeFailure>) -> Result<(Seq<A>, nat), DecodeFailure> {
    match rest {
        Ok((ys, q)) => Ok((xs + ys, q)),
        Err(e) => Err(e),
    }
}

/// One more item read: it joins those read before it.
proof fn lemma_rd_all_next<A>(
    b: Seq<u8>,
    p: nat,
    m: nat,
    rd: spec_fn(Seq<u8>, nat) -> Result<(A, nat), DecodeFailure>,
    xs: Seq<A>,
)
    requires
        m > 0,
    ensures
        rd(b, p) matches Ok((x, q)) ==> prepend(xs, rd_all(b, p, m, rd)) == prepend(
            xs.push(x),
            rd_all(b, q, (m - 1) as nat, rd),
        ),
        rd(b, p) matches Err(e) ==> prepend(xs, rd_all(b, p, m, rd)) == Err::<(Seq<A>, nat), DecodeFailure>(e),
{
    if let Ok((x, q)) = rd(b, p) {
        if let Ok((ys, t)) = rd_all(b, q, (m - 1) as nat, rd) {
            assert(xs + (seq![x] + ys) =~= xs.push(x) + ys);
        }
    }
}

/// Nothing left to read: the list is what has been read.
proof fn lemma_rd_all_done<A>(
    b: Seq<u8>,
    p: nat,
    rd: spec_fn(Seq<u8>, nat) -> Result<(A, nat), DecodeFailure>,
    xs: Seq<A>,
)
    ensures
        prepend(xs, rd_all(b, p, 0, rd)) == Ok::<(Seq<A>, nat), DecodeFailure>((xs, p)),
{
    assert(xs + Seq::<A>::empty() =~= xs);
}

/// The local slot names, as a counted list.
fn decode_names(r: &mut Reader) -> (res: Result<Vec<String>, DecodeFailure>)
    requires
        old(r).wf(),
    ensures
        final(r).wf(),
        final(r).buf@ == old(r).buf@,
        match rd_count(old(r).buf@, old(r).pos as nat) {
            Ok((n, p)) => match rd_all(old(r).buf@, p, n, |b: Seq<u8>, p: nat| rd_str(b, p)) {
                Ok((xs, q)) => res matches Ok(v) && v@.map_values(|n: String| n@) == xs && final(r).pos == q,
                Err(e) => res == Err::<Vec<String>, DecodeFailure>(e),
            },
            Err(e) => res == Err::<Vec<String>, DecodeFailure>(e),
        },
{
    let n = match r.count() {
        Ok(n) => n,
        Err(e) => return Err(e),
    };
    let ghost b = r.buf@;
    let ghost p0 = r.pos as nat;
    let mut out: Vec<String> = Vec::new();
    let mut i: usize = 0;
    while i < n
        invariant
            r.wf(),
            r.buf@ == b,
            b == old(r).buf@,
            rd_count(b, old(r).pos as nat) == Ok::<(nat, nat), DecodeFailure>((n as nat, p0)),
            i <= n,
            prepend(Seq::<Seq<char>>::empty(), rd_all(b, p0, n as nat, |b: Seq<u8>, p: nat| rd_str(b, p))) == prepend(
                out@.map_values(|n: String| n@),
                rd_all(b, r.pos as nat, (n - i) as nat, |b: Seq<u8>, p: nat| rd_str(b, p)),
            ),
        decreases n - i,
    {
        proof {
            lemma_rd_all_next(b, r.pos as nat, (n - i) as nat, |b: Seq<u8>, p: nat| rd_str(b, p), out@.map_values(|n: String| n@));
        }
        match r.str() {
            Ok(x) => {
                proof {
                    assert(out@.push(x).map_values(|n: String| n@) =~= out@.map_values(|n: String| n@).push(x@));
                }
                out.push(x);
            },
            Err(e) => {
                return Err(e);
            },
        }
        i = i + 1;
    }
    proof {
        lemma_rd_all_done(b, r.pos as nat, |b: Seq<u8>, p: nat| rd_str(b, p), out@.map_values(|n: String| n@));
        if let Ok((xs, q)) = rd_all(b, p0, n as nat, |b: Seq<u8>, p: nat| rd_str(b, p)) {
            assert(Seq::<Seq<char>>::empty() + xs =~= xs);
        }
    }
    Ok(out)
}

/// The globals, as a counted list.
fn decode_globals(r: &mut Reader) -> (res: Result<Vec<GlobalInfo>, DecodeFailure>)
    requires
        old(r).wf(),
    ensures
        final(r).wf(),
        final(r).buf@ == old(r).buf@,
        match rd_count(old(r).buf@, old(r).pos as nat) {
            Ok((n, p)) => match rd_all(old(r).buf@, p, n, |b: Seq<u8>, p: nat| rd_global(b, p)) {
                Ok((xs, q)) => res matches Ok(v) && v@.map_values(|g: GlobalInfo| g@) == xs && final(r).pos == q,
                Err(e) => res == Err::<Vec<GlobalInfo>, DecodeFailure>(e),
            },
            Err(e) => res == Err::<Vec<GlobalInfo>, DecodeFailure>(e),
        },
{
    let n = match r.count() {
        Ok(n) => n,
        Err(e) => return Err(e),
    };
    let ghost b = r.buf@;
    let ghost p0 = r.pos as nat;
    let mut out: Vec<GlobalInfo> = Vec::new();
    let mut i: usize = 0;
    while i < n
        invariant
            r.wf(),
            r.buf@ == b,
            b == old(r).buf@,
            rd_count(b, old(r).pos as nat) == Ok::<(nat, nat), DecodeFailure>((n as nat, p0)),
            i <= n,
            prepend(Seq::<(Seq<char>, RtType, bool)>::empty(), rd_all(b, p0, n as nat, |b: Seq<u8>, p: nat| rd_global(b, p))) == prepend(
                out@.map_values(|g: GlobalInfo| g@),
                rd_all(b, r.pos as nat, (n - i) as nat, |b: Seq<u8>, p: nat| rd_global(b, p)),
            ),
        decreases n - i,
    {
        proof {
            lemma_rd_all_next(b, r.pos as nat, (n - i) as nat, |b: Seq<u8>, p: nat| rd_global(b, p), out@.map_values(|g: GlobalInfo| g@));
        }
        match decode_global(r) {
            Ok(x) => {
                proof {
                    assert(out@.push(x).map_values(|g: GlobalInfo| g@) =~= out@.map_values(|g: GlobalInfo| g@).push(x@));
                }
                out.push(x);
            },
            Err(e) => {
                return Err(e);
            },
        }
        i = i + 1;
    }
    proof {
        lemma_rd_all_done(b, r.pos as nat, |b: Seq<u8>, p: nat| rd_global(b, p), out@.map_values(|g: GlobalInfo| g@));
        if let Ok((xs, q)) = rd_all(b, p0, n as nat, |b: Seq<u8>, p: nat| rd_global(b, p)) {
            assert(Seq::<(Seq<char>, RtType, bool)>::empty() + xs =~= xs);
        }
    }
    Ok(out)
}

/// The constant pool, as a counted list.
fn decode_consts(r: &mut Reader) -> (res: Result<Vec<Const>, DecodeFailure>)
    requires
        old(r).wf(),
    ensures
        final(r).wf(),
        final(r).buf@ == old(r).buf@,
        match rd_count(old(r).buf@, old(r).pos as nat) {
            Ok((n, p)) => match rd_all(old(r).buf@, p, n, |b: Seq<u8>, p: nat| rd_const(b, p)) {
                Ok((xs, q)) => res matches Ok(v) && v@.map_values(|c: Const| c@) == xs && final(r).pos == q,
                Err(e) => res == Err::<Vec<Const>, DecodeFailure>(e),
            },
            Err(e) => res == Err::<Vec<Const>, DecodeFailure>(e),
        },
{
    let n = match r.count() {
        Ok(n) => n,
        Err(e) => return Err(e),
    };
    let ghost b = r.buf@;
    let ghost p0 = r.pos as nat;
    let mut out: Vec<Const> = Vec::new();
    let mut i: usize = 0;
    while i < n
        invariant
            r.wf(),
            r.buf@ == b,
            b == old(r).buf@,
            rd_count(b, old(r).pos as nat) == Ok::<(nat, nat), DecodeFailure>((n as nat, p0)),
            i <= n,
            prepend(Seq::<ConstView>::empty(), rd_all(b, p0, n as nat, |b: Seq<u8>, p: nat| rd_const(b, p))) == prepend(
                out@.map_values(|c: Const| c@),
                rd_all(b, r.pos as nat, (n - i) as nat, |b: Seq<u8>, p: nat| rd_const(b, p)),
            ),
        decreases n - i,
    {
        proof {
            lemma_rd_all_next(b, r.pos as nat, (n - i) as nat, |b: Seq<u8>, p: nat| rd_const(b, p), out@.map_values(|c: Const| c@));
        }
        match decode_const(r) {
            Ok(x) => {
                proof {
                    assert(out@.push(x).map_values(|c: Const| c@) =~= out@.map_values(|c: Const| c@).push(x@));
                }
                out.push(x);
            },
            Err(e) => {
                return Err(e);
            },
        }
        i = i + 1;
    }
    proof {
        lemma_rd_all_done(b, r.pos as nat, |b: Seq<u8>, p: nat| rd_const(b, p), out@.map_values(|c: Const| c@));
        if let Ok((xs, q)) = rd_all(b, p0, n as nat, |b: Seq<u8>, p: nat| rd_const(b, p)) {
            assert(Seq::<ConstView>::empty() + xs =~= xs);
        }
    }
    Ok(out)
}

/// The instructions, as a counted list.
fn decode_code(r: &mut Reader) -> (res: Result<Vec<Op>, DecodeFailure>)
    requires
        old(r).wf(),
    ensures
        final(r).wf(),
        final(r).buf@ == old(r).buf@,
        match rd_count(old(r).buf@, old(r).pos as nat) {
            Ok((n, p)) => match rd_all(old(r).buf@, p, n, |b: Seq<u8>, p: nat| rd_op(b, p)) {
                Ok((xs, q)) => res matches Ok(v) && v@ == xs && final(r).pos == q,
                Err(e) => res == Err::<Vec<Op>, DecodeFailure>(e),
            },
            Err(e) => res == Err::<Vec<Op>, DecodeFailure>(e),
        },
{
    let n = match r.count() {
        Ok(n) => n,
        Err(e) => return Err(e),
    };
    let ghost b = r.buf@;
    let ghost p0 = r.pos as nat;
    let mut out: Vec<Op> = Vec::new();
    let mut i: usize = 0;
    while i < n
        invariant
            r.wf(),
            r.buf@ == b,
            b == old(r).buf@,
            rd_count(b, old(r).pos as nat) == Ok::<(nat, nat), DecodeFailure>((n as nat, p0)),
            i <= n,
            prepend(Seq::<Op>::empty(), rd_all(b, p0, n as nat, |b: Seq<u8>, p: nat| rd_op(b, p))) == prepend(
                out@,
                rd_all(b, r.pos as nat, (n - i) as nat, |b: Seq<u8>, p: nat| rd_op(b, p)),
            ),
        decreases n - i,
    {
        proof {
            lemma_rd_all_next(b, r.pos as nat, (n - i) as nat, |b: Seq<u8>, p: nat| rd_op(b, p), out@);
        }
        match decode_op(r) {
            Ok(x) => {
                out.push(x);
            },
            Err(e) => {
                return Err(e);
            },
        }
        i = i + 1;
    }
    proof {
        lemma_rd_all_done(b, r.pos as nat, |b: Seq<u8>, p: nat| rd_op(b, p), out@);
        if let Ok((xs, q)) = rd_all(b, p0, n as nat, |b: Seq<u8>, p: nat| rd_op(b, p)) {
            assert(Seq::<Op>::empty() + xs =~= xs);
        }
    }
    Ok(out)
}

/// The line table, as a counted list.
fn decode_lines(r: &mut Reader) -> (res: Result<Vec<u32>, DecodeFailure>)
    requires
        old(r).wf(),
    ensures
        final(r).wf(),
        final(r).buf@ == old(r).buf@,
        match rd_count(old(r).buf@, old(r).pos as nat) {
            Ok((n, p)) => match rd_all(old(r).buf@, p, n, |b: Seq<u8>, p: nat| rd_u32(b, p)) {
                Ok((xs, q)) => res matches Ok(v) && v@ == xs && final(r).pos == q,
                Err(e) => res == Err::<Vec<u32>, DecodeFailure>(e),
            },
            Err(e) => res == Err::<Vec<u32>, DecodeFailure>(e),
        },
{
    let n = match r.count() {
        Ok(n) => n,
        Err(e) => return Err(e),
    };
    let ghost b = r.buf@;
    let ghost p0 = r.pos as nat;
    let mut out: Vec<u32> = Vec::new();
    let mut i: usize = 0;
    while i < n
        invariant
            r.wf(),
            r.buf@ == b,
            b == old(r).buf@,
            rd_count(b, old(r).pos as nat) == Ok::<(nat, nat), DecodeFailure>((n as nat, p0)),
            i <= n,
            prepend(Seq::<u32>::empty(), rd_all(b, p0, n as nat, |b: Seq<u8>, p: nat| rd_u32(b, p))) == prepend(
                out@,
                rd_all(b, r.pos as nat, (n - i) as nat, |b: Seq<u8>, p: nat| rd_u32(b, p)),
            ),
        decreases n - i,
    {
        proof {
            lemma_rd_all_next(b, r.pos as nat, (n - i) as nat, |b: Seq<u8>, p: nat| rd_u32(b, p), out@);
        }
        match r.u32() {
            Ok(x) => {
                out.push(x);
            },
            Err(e) => {
                return Err(e);
            },
        }
        i = i + 1;
    }
    proof {
        lemma_rd_all_done(b, r.pos as nat, |b: Seq<u8>, p: nat| rd_u32(b, p), out@);
        if let Ok((xs, q)) = rd_all(b, p0, n as nat, |b: Seq<u8>, p: nat| rd_u32(b, p)) {
            assert(Seq::<u32>::empty() + xs =~= xs);
        }
    }
    Ok(out)
}

/// Whether two byte strings are the same.
fn same_bytes(a: &[u8], b: &[u8]) -> (r: bool)
    ensures
        r == (a@ == b@),
{
    if a.len() != b.len() {
        return false;
    }
    let mut i: usize = 0;
    while i < a.len()
        invariant
            a@.len() == b@.len(),
            i <= a@.len(),
            forall|k: int| 0 <= k < i ==> a@[k] == b@[k],
        decreases a@.len() - i,
    {
        if a[i] != b[i] {
            return false;
        }
        i = i + 1;
    }
    proof {
        assert(a@ =~= b@);
    }
    true
}

/// Read a chunk, or say what is wrong with the bytes.
fn decode_view(buf: &[u8]) -> (res: Result<Chunk, DecodeFailure>)
    ensures
        match decode_chunk(buf@) {
            Ok(v) => res matches Ok(c) && c@ == v,
            Err(e) => res == Err::<Chunk, DecodeFailure>(e),
        },
{
    let mut r = Reader { buf, pos: 0 };
    let magic = match r.take(4) {
        Ok(m) => m,
        Err(e) => return Err(e),
    };
    let expected = MAGIC;
    if !same_bytes(magic, &expected) {
        return Err(DecodeFailure::BadMagic);
    }
    let version = match r.u16() {
        Ok(v) => v,
        Err(e) => return Err(e),
    };
    if version != VERSION {
        return Err(DecodeFailure::BadVersion(version));
    }
    let source = match r.str() {
        Ok(s) => s,
        Err(e) => return Err(e),
    };
    let locals = match r.u32() {
        Ok(n) => n as usize,
        Err(e) => return Err(e),
    };
    let local_names = match decode_names(&mut r) {
        Ok(v) => v,
        Err(e) => return Err(e),
    };
    let globals = match decode_globals(&mut r) {
        Ok(v) => v,
        Err(e) => return Err(e),
    };
    let consts = match decode_consts(&mut r) {
        Ok(v) => v,
        Err(e) => return Err(e),
    };
    let code = match decode_code(&mut r) {
        Ok(v) => v,
        Err(e) => return Err(e),
    };
    let lines = match decode_lines(&mut r) {
        Ok(v) => v,
        Err(e) => return Err(e),
    };
    Ok(Chunk { source, consts, code, lines, locals, globals, local_names })
}

/// A file that could not be read, and why.
#[derive(Debug)]
pub struct DecodeError(pub String);

impl DecodeError {
    /// The error as a sentence: `malformed bytecode: ` and the reason.
    pub fn to_string(&self) -> (r: String)
        ensures
            r@ == "malformed bytecode: "@ + self.0@,
    {
        let mut out = String::new();
        out.append("malformed bytecode: ");
        out.append(self.0.as_str());
        out
    }
}

/// The reason given for each way reading can fail.
pub open spec fn failure_text(f: DecodeFailure) -> Seq<char> {
    match f {
        DecodeFailure::LengthOverflow => "length overflow"@,
        DecodeFailure::Truncated(p) => "unexpected end of file at byte "@ + decimal_chars(p as nat),
        DecodeFailure::BadMagic => "not a Luarus bytecode file (bad magic)"@,
        DecodeFailure::BadVersion(v) => "bytecode version "@ + decimal_chars(v as nat)
            + ", but this VM speaks version "@ + decimal_chars(VERSION as nat),
        DecodeFailure::BadUtf8 => "string is not valid UTF-8"@,
        DecodeFailure::BadTypeTag(t) => "unknown type tag "@ + decimal_chars(t as nat),
        DecodeFailure::BadCount(n) => "declared count "@ + decimal_chars(n as nat) + " exceeds remaining input"@,
        DecodeFailure::BadConstTag(t) => "unknown constant tag "@ + decimal_chars(t as nat),
        DecodeFailure::BadOpcode(c) => "unknown opcode "@ + decimal_chars(c as nat),
    }
}

/// Spell out why reading failed.
fn failure_message(f: DecodeFailure) -> (r: String)
    ensures
        r@ == failure_text(f),
{
    let mut out = String::new();
    match f {
        DecodeFailure::LengthOverflow => out.append("length overflow"),
        DecodeFailure::Truncated(p) => {
            out.append("unexpected end of file at byte ");
            push_decimal(&mut out, p as u128);
        },
        DecodeFailure::BadMagic => out.append("not a Luarus bytecode file (bad magic)"),
        DecodeFailure::BadVersion(v) => {
            out.append("bytecode version ");
            push_decimal(&mut out, v as u128);
            out.append(", but this VM speaks version ");
            push_decimal(&mut out, VERSION as u128);
        },
        DecodeFailure::BadUtf8 => out.append("string is not valid UTF-8"),
        DecodeFailure::BadTypeTag(t) => {
            out.append("unknown type tag ");
            push_decimal(&mut out, t as u128);
        },
        DecodeFailure::BadCount(n) => {
            out.append("declared count ");
            push_decimal(&mut out, n as u128);
            out.append(" exceeds remaining input");
        },
        DecodeFailure::BadConstTag(t) => {
            out.append("unknown constant tag ");
            push_decimal(&mut out, t as u128);
        },
        DecodeFailure::BadOpcode(c) => {
            out.append("unknown opcode ");
            push_decimal(&mut out, c as u128);
        },
    }
    proof {
        assert(out@ =~= failure_text(f));
    }
    out
}

/// Read a `.lrb` file back into a chunk.
pub fn decode(buf: &[u8]) -> (r: Result<Chunk, DecodeError>)
    ensures
        match decode_chunk(buf@) {
            Ok(v) => r matches Ok(c) && c@ == v,
            Err(f) => r matches Err(e) && e.0@ == failure_text(f),
        },
{
    match decode_view(buf) {
        Ok(c) => Ok(c),
        Err(f) => Err(DecodeError(failure_message(f))),
    }
}

} // verus!
