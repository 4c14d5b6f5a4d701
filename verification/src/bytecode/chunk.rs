//! Constants, globals and chunks: one compiled unit.
use vstd::prelude::*;

use crate::bytecode::op::Op;
use crate::bytecode::value::RtType;

verus! {

/// A constant baked into a chunk's constant pool.
///
/// Floating-point constants are kept as their raw bits: the pool compares
/// constants by bits, so `0.0` and `-0.0` stay two constants and a NaN
/// survives a round trip, and nothing here ever does arithmetic on them.
#[derive(Clone, Debug)]
pub enum Const {
    /// Any signed integer type; the width lives in the instruction, not here.
    Int(i64),
    /// Any unsigned integer type.
    Uint(u64),
    /// Half precision, as raw binary16 bits.
    F16(u16),
    /// Single precision, as raw binary32 bits.
    F32(u32),
    /// Double precision, as raw binary64 bits.
    F64(u64),
    Bool(bool),
    Str(String),
    Nil,
}

/// A constant as a mathematical value.
pub enum ConstView {
    Int(i64),
    Uint(u64),
    F16(u16),
    F32(u32),
    F64(u64),
    Bool(bool),
    Str(Seq<char>),
    Nil,
}

impl View for Const {
    type V = ConstView;

    open spec fn view(&self) -> ConstView {
        match self {
            Const::Int(v) => ConstView::Int(*v),
            Const::Uint(v) => ConstView::Uint(*v),
            Const::F16(v) => ConstView::F16(*v),
            Const::F32(v) => ConstView::F32(*v),
            Const::F64(v) => ConstView::F64(*v),
            Const::Bool(v) => ConstView::Bool(*v),
            Const::Str(s) => ConstView::Str(s@),
            Const::Nil => ConstView::Nil,
        }
    }
}

/// Constants compare by their bits, not by floating-point equality, so the
/// pool never merges two genuinely different constants.
impl PartialEq for Const {
    fn eq(&self, other: &Self) -> (r: bool) {
        match (self, other) {
            (Const::Int(a), Const::Int(b)) => *a == *b,
            (Const::Uint(a), Const::Uint(b)) => *a == *b,
            (Const::F16(a), Const::F16(b)) => *a == *b,
            (Const::F32(a), Const::F32(b)) => *a == *b,
            (Const::F64(a), Const::F64(b)) => *a == *b,
            (Const::Bool(a), Const::Bool(b)) => *a == *b,
            (Const::Str(a), Const::Str(b)) => *a == *b,
            (Const::Nil, Const::Nil) => true,
            _ => false,
        }
    }
}

impl vstd::std_specs::cmp::PartialEqSpecImpl for Const {
    open spec fn obeys_eq_spec() -> bool {
        true
    }

    open spec fn eq_spec(&self, other: &Self) -> bool {
        self@ == other@
    }
}

/// A global variable as recorded in a compiled chunk.
#[derive(Clone, Debug)]
pub struct GlobalInfo {
    pub name: String,
    pub ty: RtType,
    /// `pub var` is exported from the module; plain `global var` is not.
    pub exported: bool,
}

impl View for GlobalInfo {
    type V = (Seq<char>, RtType, bool);

    open spec fn view(&self) -> (Seq<char>, RtType, bool) {
        (self.name@, self.ty, self.exported)
    }
}

impl PartialEq for GlobalInfo {
    fn eq(&self, other: &Self) -> (r: bool) {
        self.name == other.name && self.ty == other.ty && self.exported == other.exported
    }
}

impl vstd::std_specs::cmp::PartialEqSpecImpl for GlobalInfo {
    open spec fn obeys_eq_spec() -> bool {
        true
    }

    open spec fn eq_spec(&self, other: &Self) -> bool {
        self@ == other@
    }
}

/// One compiled unit: the Luarus equivalent of a `.class` file.
#[derive(Clone, Debug)]
pub struct Chunk {
    /// Where this chunk came from, kept only for error messages.
    pub source: String,
    pub consts: Vec<Const>,
    pub code: Vec<Op>,
    /// Line number for each instruction, parallel to `code`.
    pub lines: Vec<u32>,
    /// How many local slots the frame needs.
    pub locals: usize,
    pub globals: Vec<GlobalInfo>,
    /// Debug names for local slots, parallel to slot index.
    pub local_names: Vec<String>,
}

/// A chunk as mathematical values.
pub struct ChunkView {
    pub source: Seq<char>,
    pub consts: Seq<ConstView>,
    pub code: Seq<Op>,
    pub lines: Seq<u32>,
    pub locals: usize,
    pub globals: Seq<(Seq<char>, RtType, bool)>,
    pub local_names: Seq<Seq<char>>,
}

impl View for Chunk {
    type V = ChunkView;

    open spec fn view(&self) -> ChunkView {
        ChunkView {
            source: self.source@,
            consts: self.consts@.map_values(|c: Const| c@),
            code: self.code@,
            lines: self.lines@,
            locals: self.locals,
            globals: self.globals@.map_values(|g: GlobalInfo| g@),
            local_names: self.local_names@.map_values(|n: String| n@),
        }
    }
}

/// The index of the first entry of `s` equal to `c`.
pub open spec fn first_equal(s: Seq<ConstView>, c: ConstView) -> Option<int>
    decreases s.len(),
{
    if s.len() == 0 {
        None
    } else {
        match first_equal(s.drop_last(), c) {
            Some(i) => Some(i),
            None => if s.last() == c {
                Some(s.len() - 1)
            } else {
                None
            },
        }
    }
}

/// The same jump, aimed at `target`.
pub open spec fn retarget(op: Op, target: u32) -> Op {
    match op {
        Op::Jump(_) => Op::Jump(target),
        Op::JumpIfFalse(_) => Op::JumpIfFalse(target),
        other => other,
    }
}

impl Chunk {
    pub fn new(source: &str) -> (r: Self)
        ensures
            r@.source == source@,
            r@.consts.len() == 0,
            r@.code.len() == 0,
            r@.lines.len() == 0,
            r@.locals == 0,
            r@.globals.len() == 0,
            r@.local_names.len() == 0,
    {
        Chunk {
            source: source.to_owned(),
            consts: Vec::new(),
            code: Vec::new(),
            lines: Vec::new(),
            locals: 0,
            globals: Vec::new(),
            local_names: Vec::new(),
        }
    }

    /// Add a constant, reusing an identical existing entry.
    pub fn add_const(&mut self, c: Const) -> (r: u32)
        requires
            old(self).consts@.len() < u32::MAX,
        ensures
            match first_equal(old(self)@.consts, c@) {
                Some(i) => r == i && final(self)@.consts == old(self)@.consts,
                None => r == old(self)@.consts.len() && final(self)@.consts == old(self)@.consts.push(c@),
            },
            final(self)@.code == old(self)@.code,
            final(self)@.lines == old(self)@.lines,
            final(self)@.source == old(self)@.source,
            final(self)@.locals == old(self)@.locals,
            final(self)@.globals == old(self)@.globals,
            final(self)@.local_names == old(self)@.local_names,
    {
        let n = self.consts.len();
        let mut i: usize = 0;
        while i < n
            invariant
                n == self.consts@.len(),
                i <= n,
                *self == *old(self),
                n < u32::MAX,
                first_equal(self@.consts.take(i as int), c@) is None,
            decreases n - i,
        {
            proof {
                assert(self@.consts.take(i as int + 1).drop_last() =~= self@.consts.take(i as int));
            }
            if self.consts[i] == c {
                proof {
                    lemma_first_equal_prefix(self@.consts, c@, i as int + 1);
                }
                return i as u32;
            }
            i = i + 1;
        }
        proof {
            assert(self@.consts.take(n as int) =~= self@.consts);
        }
        self.consts.push(c);
        proof {
            assert(self@.consts =~= old(self)@.consts.push(c@));
        }
        (self.consts.len() - 1) as u32
    }

    /// Append an instruction and its line, returning where it went.
    pub fn emit(&mut self, op: Op, line: u32) -> (r: usize)
        requires
            old(self).code@.len() < usize::MAX,
        ensures
            r == old(self)@.code.len(),
            final(self)@.code == old(self)@.code.push(op),
            final(self)@.lines == old(self)@.lines.push(line),
            final(self)@.consts == old(self)@.consts,
            final(self)@.source == old(self)@.source,
            final(self)@.locals == old(self)@.locals,
            final(self)@.globals == old(self)@.globals,
            final(self)@.local_names == old(self)@.local_names,
    {
        self.code.push(op);
        self.lines.push(line);
        proof {
            assert(self@.consts =~= old(self)@.consts);
            assert(self@.globals =~= old(self)@.globals);
            assert(self@.local_names =~= old(self)@.local_names);
        }
        self.code.len() - 1
    }

    /// Point a previously emitted jump at `target`.
    ///
    /// A forward jump cannot know its destination when it is emitted, so it
    /// goes out with a placeholder and is corrected once the destination is
    /// reached.
    pub fn patch_jump(&mut self, at: usize, target: u32)
        requires
            at < old(self)@.code.len(),
            old(self)@.code[at as int] is Jump || old(self)@.code[at as int] is JumpIfFalse,
        ensures
            final(self)@.code == old(self)@.code.update(at as int, retarget(old(self)@.code[at as int], target)),
            final(self)@.lines == old(self)@.lines,
            final(self)@.consts == old(self)@.consts,
            final(self)@.source == old(self)@.source,
            final(self)@.locals == old(self)@.locals,
            final(self)@.globals == old(self)@.globals,
            final(self)@.local_names == old(self)@.local_names,
    {
        let patched = match self.code[at] {
            Op::Jump(_) => Op::Jump(target),
            Op::JumpIfFalse(_) => Op::JumpIfFalse(target),
            other => other,
        };
        self.code.set(at, patched);
        proof {
            assert(self@.consts =~= old(self)@.consts);
            assert(self@.globals =~= old(self)@.globals);
            assert(self@.local_names =~= old(self)@.local_names);
        }
    }
}

/// Once an equal entry is found, it is the first one in any longer prefix.
proof fn lemma_first_equal_prefix(s: Seq<ConstView>, c: ConstView, k: int)
    requires
        0 < k <= s.len(),
        s[k - 1] == c,
        first_equal(s.take(k - 1), c) is None,
    ensures
        first_equal(s, c) == Some(k - 1),
    decreases s.len() - k,
{
    assert(s.take(k).drop_last() =~= s.take(k - 1));
    assert(first_equal(s.take(k), c) == Some(k - 1));
    if k < s.len() {
        lemma_first_equal_extend(s, c, k);
    } else {
        assert(s.take(k) =~= s);
    }
}

/// A first equal entry in a prefix stays the first in the whole sequence.
proof fn lemma_first_equal_extend(s: Seq<ConstView>, c: ConstView, k: int)
    requires
        0 < k <= s.len(),
        first_equal(s.take(k), c) is Some,
    ensures
        first_equal(s, c) == first_equal(s.take(k), c),
    decreases s.len() - k,
{
    if k < s.len() {
        assert(s.take(k + 1).drop_last() =~= s.take(k));
        lemma_first_equal_extend(s, c, k + 1);
    } else {
        assert(s.take(k) =~= s);
    }
}

} // verus!
