//! Spans, diagnostics, rules and the text measurement they depend on.
use vstd::prelude::*;

use vstd::string::StringSliceAdditionalSpecFns;

use crate::diag::grapheme::{cluster_count, count, lemma_cluster_count_bound};
use crate::rule::Rule;
use crate::syntax::lexer::{
    boff, byte_len, char_width, lemma_boff_bound, lemma_boff_mono, lemma_boff_next, lemma_byte_len_utf8, width_of,
};
use crate::text::{chars_of, string_of};

pub mod grapheme;
pub mod render;

verus! {

/// A byte range of the source: `start` inclusive, `end` exclusive.
#[derive(Clone, Copy, Debug, PartialEq, Eq, Structural)]
pub struct Span {
    pub start: usize,
    pub end: usize,
}

impl Span {
    pub fn new(start: usize, end: usize) -> (r: Span)
        ensures
            r == (Span { start, end }),
    {
        Span { start, end }
    }

    /// From the start of this span to the end of `other`.
    pub fn to(self, other: Span) -> (r: Span)
        ensures
            r == (Span { start: self.start, end: other.end }),
    {
        Span { start: self.start, end: other.end }
    }
}

/// A compile error: the rule that was broken, and the source text that broke it.
#[derive(Clone, Debug)]
pub struct Diagnostic {
    pub span: Span,
    pub rule: Rule,
    pub message: String,
    pub help: Option<String>,
}

/// A diagnostic as plain values.
pub struct DiagView {
    pub span: Span,
    pub rule: Rule,
    pub message: Seq<char>,
    pub help: Option<Seq<char>>,
}

pub open spec fn opt_text(s: Option<String>) -> Option<Seq<char>> {
    match s {
        Some(t) => Some(t@),
        None => None,
    }
}

impl View for Diagnostic {
    type V = DiagView;

    open spec fn view(&self) -> DiagView {
        DiagView { span: self.span, rule: self.rule, message: self.message@, help: opt_text(self.help) }
    }
}

/// The diagnostic a rule and a message make, with no help yet.
pub open spec fn diag(span: Span, rule: Rule, message: Seq<char>) -> DiagView {
    DiagView { span, rule, message, help: None }
}

/// The same diagnostic with help attached.
pub open spec fn helped(d: DiagView, help: Seq<char>) -> DiagView {
    DiagView { help: Some(help), ..d }
}

impl Diagnostic {
    pub fn new(span: Span, rule: Rule, message: String) -> (r: Self)
        ensures
            r@ == diag(span, rule, message@),
    {
        Diagnostic { span, rule, message, help: None }
    }

    pub fn with_help(self, help: String) -> (r: Self)
        ensures
            r@ == helped(self@, help@),
    {
        Diagnostic { span: self.span, rule: self.rule, message: self.message, help: Some(help) }
    }
}

/// How many newlines the first `n` bytes hold.
pub open spec fn newlines(b: Seq<u8>, n: int) -> nat
    decreases n,
{
    if n <= 0 {
        0
    } else {
        newlines(b, n - 1) + if b[n - 1] == 10 {
            1nat
        } else {
            0nat
        }
    }
}

/// The 1-based line that byte `offset` of `src` is on.
pub fn line_of(src: &str, offset: usize) -> (r: usize)
    requires
        src.spec_bytes().len() < usize::MAX,
    ensures
        r == 1 + newlines(
            src.spec_bytes(),
            if offset < src.spec_bytes().len() {
                offset as int
            } else {
                src.spec_bytes().len() as int
            },
        ),
{
    let b = src.as_bytes();
    let end = if offset < b.len() {
        offset
    } else {
        b.len()
    };
    let mut line: usize = 1;
    let mut i: usize = 0;
    while i < end
        invariant
            end <= b@.len(),
            b@.len() < usize::MAX,
            i <= end,
            line == 1 + newlines(b@, i as int),
            line <= 1 + i,
        decreases end - i,
    {
        if b[i] == 10 {
            line = line + 1;
        }
        i = i + 1;
    }
    line
}

/// Where a byte offset is cut to: the end of the text at most.
pub open spec fn cut_of(src: &str, offset: usize) -> int {
    if offset < src.spec_bytes().len() {
        offset as int
    } else {
        src.spec_bytes().len() as int
    }
}

/// Character `k` of `s` begins at byte `b`.
pub open spec fn at_char(s: Seq<char>, b: int, k: int) -> bool {
    0 <= k <= s.len() && boff(s, k) == b
}

/// Where the line holding character `k` starts: just after the last
/// newline before it.
pub open spec fn line_start(s: Seq<char>, k: int) -> int
    decreases k,
{
    if k <= 0 {
        0
    } else if s[k - 1] == '\n' {
        k
    } else {
        line_start(s, k - 1)
    }
}

/// How many newlines the first `k` characters hold.
pub open spec fn newline_count(s: Seq<char>, k: int) -> nat
    decreases k,
{
    if k <= 0 {
        0
    } else {
        newline_count(s, k - 1) + if s[k - 1] == '\n' {
            1nat
        } else {
            0nat
        }
    }
}

/// Offsets strictly grow, a character at a time.
proof fn lemma_boff_strict(s: Seq<char>, i: int, j: int)
    requires
        0 <= i < j <= s.len(),
    ensures
        boff(s, i) < boff(s, j),
{
    lemma_boff_next(s, i);
    lemma_boff_mono(s, i + 1, j);
}

/// 1-based line and column of byte `offset` within `src`, the offset cut
/// to the end of the text. The column counts characters as a reader
/// would: a cluster such as `🧑‍🧑‍🧒‍🧒` advances it by one, not by seven.
pub fn line_col(src: &str, offset: usize) -> (r: (usize, usize))
    requires
        src.spec_bytes().len() < usize::MAX,
        exists|k: int| at_char(src@, cut_of(src, offset), k),
    ensures
        forall|k: int|
            at_char(src@, cut_of(src, offset), k) ==> {
                &&& r.0 == 1 + newline_count(src@, k)
                &&& r.1 == 1 + cluster_count(src@.subrange(line_start(src@, k), k), 0)
            },
{
    let ghost s = src@;
    let chars = chars_of(src);
    let n = src.len();
    let target = if offset < n {
        offset
    } else {
        n
    };
    proof {
        lemma_byte_len_utf8(s);
    }
    let ghost kt = choose|k: int| at_char(s, target as int, k);
    let mut k: usize = 0;
    let mut b: usize = 0;
    let mut line: usize = 1;
    let mut start: usize = 0;
    while k < chars.len() && b < target
        invariant
            chars@ == s,
            byte_len(s) == n,
            n < usize::MAX,
            target <= n,
            at_char(s, target as int, kt),
            k <= s.len(),
            b == boff(s, k as int),
            k == 0 || boff(s, k - 1) < target,
            line == 1 + newline_count(s, k as int),
            start == line_start(s, k as int),
            start <= k,
            k <= b,
            line <= 1 + k,
        decreases s.len() - k,
    {
        proof {
            lemma_boff_next(s, k as int);
            lemma_boff_bound(s, k + 1);
        }
        if chars[k] == '\n' {
            line = line + 1;
            start = k + 1;
        }
        b = b + width_of(chars[k]);
        k = k + 1;
    }
    proof {
        if k < kt {
            lemma_boff_strict(s, k as int, kt);
            if k == s.len() {
                assert(false);
            }
        }
        if kt < k {
            if kt < k - 1 {
                lemma_boff_strict(s, kt, k - 1);
            }
        }
        assert(k == kt);
    }
    let mut piece: Vec<char> = Vec::new();
    let mut i = start;
    while i < k
        invariant
            chars@ == s,
            start <= i <= k <= s.len(),
            piece@ == s.subrange(start as int, i as int),
        decreases k - i,
    {
        piece.push(chars[i]);
        proof {
            assert(piece@ =~= s.subrange(start as int, i + 1));
        }
        i = i + 1;
    }
    let text = string_of(&piece);
    let col = count(text.as_str());
    proof {
        lemma_cluster_count_bound(text@, 0);
        assert forall|k2: int| at_char(s, cut_of(src, offset), k2) implies k2 == kt by {
            if k2 < kt {
                lemma_boff_strict(s, k2, kt);
            }
            if kt < k2 {
                lemma_boff_strict(s, kt, k2);
            }
        }
    }
    (line, col + 1)
}

} // verus!
