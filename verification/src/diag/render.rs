//! Showing a diagnostic: the rule broken, the line, and a caret under it.
use vstd::prelude::*;
use vstd::string::StringSliceAdditionalSpecFns;

use crate::diag::grapheme::{cluster_count, count};
use crate::diag::{at_char, cut_of, line_col, line_start, newline_count, DiagView, Diagnostic, Span};
use crate::num::decimal::{decimal_chars, push_decimal};
use crate::rule::{slug_text, statement_text};
use crate::syntax::lexer::{boff, byte_len, lemma_boff_bound, lemma_boff_mono, lemma_boff_next, lemma_byte_len_utf8, width_of};
use crate::text::{chars_of, string_of};

verus! {

/// Where the line holding character `k` ends: at the next newline, or at
/// the end of the text.
pub open spec fn line_end(s: Seq<char>, k: int) -> int
    decreases s.len() - k,
{
    if k < 0 || k >= s.len() || s[k] == '\n' {
        k
    } else {
        line_end(s, k + 1)
    }
}

/// `n` copies of `c`.
pub open spec fn repeated(c: char, n: nat) -> Seq<char> {
    Seq::new(n, |i: int| c)
}

/// How far the caret stands in from the start of the line, in clusters: none
/// when the span starts past the end of the text.
pub open spec fn caret_lead(s: Seq<char>, span: Span, k: int) -> nat {
    if span.start > byte_len(s) {
        0
    } else {
        cluster_count(s.subrange(line_start(s, k), k), 0)
    }
}

/// Whether byte `b` begins a character, or is the end of the text.
pub open spec fn char_starts(s: Seq<char>, b: int) -> bool {
    exists|j: int| at_char(s, b, j)
}

/// The character that byte `b` begins, when there is one.
pub open spec fn char_index(s: Seq<char>, b: int) -> int {
    choose|j: int| at_char(s, b, j)
}

/// Where the caret stops: the span's end, or the end of its line if that
/// comes first.
pub open spec fn caret_stop(s: Seq<char>, span: Span, k: int) -> int {
    let le = boff(s, line_end(s, k)) as int;
    if (span.end as int) < le {
        span.end as int
    } else {
        le
    }
}

/// How many carets mark the span: the clusters from its start to where it
/// stops, and at least one. A span whose stop does not fall on a character,
/// or falls before its start, gets one.
pub open spec fn caret_width(s: Seq<char>, span: Span, k: int) -> nat {
    if span.start as int <= caret_stop(s, span, k) && char_starts(s, caret_stop(s, span, k)) {
        let c = cluster_count(s.subrange(k, char_index(s, caret_stop(s, span, k))), 0);
        if c == 0 {
            1
        } else {
            c
        }
    } else {
        1
    }
}

/// A diagnostic as it is shown, its span starting at character `k`:
///
/// ```text
/// error[slug]: message
///  --> file:line:col
///   |
/// 7 | the source line
///   |     ^^^
///   = rule: the rule's statement
///   = help: the help, when there is some
/// ```
pub open spec fn rendered(s: Seq<char>, file: Seq<char>, d: DiagView, k: int) -> Seq<char> {
    let ls = line_start(s, k);
    let gutter = decimal_chars(1 + newline_count(s, k));
    let pad = repeated(' ', gutter.len());
    let help = match d.help {
        Some(h) => pad + " = help: "@ + h + "\n"@,
        None => Seq::empty(),
    };
    "error["@ + slug_text(d.rule) + "]: "@ + d.message + "\n"@ + pad + "--> "@ + file + ":"@ + gutter + ":"@
        + decimal_chars(1 + cluster_count(s.subrange(ls, k), 0)) + "\n"@ + pad + " |\n"@ + gutter + " | "@
        + s.subrange(ls, line_end(s, k)) + "\n"@ + pad + " | "@ + repeated(' ', caret_lead(s, d.span, k))
        + repeated('^', caret_width(s, d.span, k)) + "\n"@ + pad + " = rule: "@ + statement_text(d.rule) + "\n"@
        + help
}

proof fn lemma_boff_strict(s: Seq<char>, i: int, j: int)
    requires
        0 <= i < j <= s.len(),
    ensures
        boff(s, i) < boff(s, j),
{
    lemma_boff_next(s, i);
    lemma_boff_mono(s, i + 1, j);
}

/// The character that byte `stop` falls on, searching from character `k`
/// at byte `b`; `None` when `stop` is no character's start.
fn char_at_byte(chars: &Vec<char>, k: usize, b: usize, stop: usize) -> (r: Option<usize>)
    requires
        k <= chars@.len(),
        b == boff(chars@, k as int),
        b <= stop,
        byte_len(chars@) < usize::MAX,
    ensures
        match r {
            Some(j) => at_char(chars@, stop as int, j as int) && k <= j,
            None => !exists|j: int| at_char(chars@, stop as int, j),
        },
{
    let ghost s = chars@;
    let mut j = k;
    let mut at = b;
    while j < chars.len() && at < stop
        invariant
            k <= j <= s.len(),
            chars@ == s,
            at == boff(s, j as int),
            b <= stop,
            b == boff(s, k as int),
            byte_len(s) < usize::MAX,
            j == k || boff(s, j - 1) < stop,
        decreases s.len() - j,
    {
        proof {
            lemma_boff_next(s, j as int);
            lemma_boff_bound(s, j + 1);
        }
        at = at + width_of(chars[j]);
        j = j + 1;
    }
    if at == stop {
        return Some(j);
    }
    proof {
        assert forall|i: int| !at_char(s, stop as int, i) by {
            if 0 <= i <= s.len() && boff(s, i) == stop {
                if i < k {
                    lemma_boff_strict(s, i, k as int);
                } else if i < j {
                    if i < j - 1 {
                        lemma_boff_strict(s, i, j - 1);
                    }
                } else if i > j {
                    lemma_boff_strict(s, j as int, i);
                }
            }
        }
    }
    None
}

/// Characters `from` to `to` as text.
fn slice_text(chars: &Vec<char>, from: usize, to: usize) -> (r: String)
    requires
        from <= to <= chars@.len(),
    ensures
        r@ == chars@.subrange(from as int, to as int),
{
    let mut piece: Vec<char> = Vec::new();
    let mut i = from;
    while i < to
        invariant
            from <= i <= to <= chars@.len(),
            piece@ == chars@.subrange(from as int, i as int),
        decreases to - i,
    {
        piece.push(chars[i]);
        proof {
            assert(piece@ =~= chars@.subrange(from as int, i + 1));
        }
        i = i + 1;
    }
    string_of(&piece)
}

/// Append `n` copies of `c`.
fn push_repeated(out: &mut String, c: &str, n: usize)
    requires
        c@.len() == 1,
    ensures
        final(out)@ == old(out)@ + repeated(c@[0], n as nat),
{
    let mut i: usize = 0;
    while i < n
        invariant
            i <= n,
            c@.len() == 1,
            out@ == old(out)@ + repeated(c@[0], i as nat),
        decreases n - i,
    {
        out.append(c);
        proof {
            assert(repeated(c@[0], (i + 1) as nat) =~= repeated(c@[0], i as nat) + c@);
        }
        i = i + 1;
    }
}

/// The number of carets, found by locating the span's cut end.
fn caret_size(chars: &Vec<char>, span: Span, k: usize, start: usize, le_byte: usize) -> (r: usize)
    requires
        k <= chars@.len(),
        start == boff(chars@, k as int),
        le_byte == boff(chars@, line_end(chars@, k as int)),
        start <= le_byte,
        byte_len(chars@) < usize::MAX,
        span.start <= byte_len(chars@) ==> start == span.start,
        span.start > byte_len(chars@) ==> start == byte_len(chars@),
        k <= line_end(chars@, k as int) <= chars@.len(),
    ensures
        r == caret_width(chars@, span, k as int),
{
    let ghost s = chars@;
    proof {
        lemma_boff_bound(s, line_end(s, k as int));
    }
    let stop = if span.end < le_byte {
        span.end
    } else {
        le_byte
    };
    if span.start <= stop {
        match char_at_byte(chars, k, start, stop) {
            Some(j) => {
                let c = count(slice_text(chars, k, j).as_str());
                proof {
                    assert forall|j2: int| at_char(s, stop as int, j2) implies j2 == j by {
                        if j2 < j {
                            lemma_boff_strict(s, j2, j as int);
                        }
                        if j < j2 {
                            lemma_boff_strict(s, j as int, j2);
                        }
                    }
                    assert(caret_stop(s, span, k as int) == stop as int);
                    assert(char_index(s, stop as int) == j as int);
                }
                let w = if c == 0 {
                    1
                } else {
                    c
                };
                w
            },
            None => 1,
        }
    } else {
        1
    }
}

/// The rendered text from its parts.
fn assemble(
    d: &Diagnostic,
    file: &str,
    pad: &str,
    gutter: &str,
    col: usize,
    text: &str,
    lead: usize,
    width: usize,
) -> (r: String)
    ensures
        r@ == "error["@ + slug_text(d.rule) + "]: "@ + d.message@ + "\n"@ + pad@ + "--> "@ + file@ + ":"@
            + gutter@ + ":"@ + decimal_chars(col as nat) + "\n"@ + pad@ + " |\n"@ + gutter@ + " | "@ + text@
            + "\n"@ + pad@ + " | "@ + repeated(' ', lead as nat) + repeated('^', width as nat) + "\n"@ + pad@
            + " = rule: "@ + statement_text(d.rule) + "\n"@ + match d.help {
            Some(h) => pad@ + " = help: "@ + h@ + "\n"@,
            None => Seq::empty(),
        },
{
    proof {
        reveal_strlit(" ");
        reveal_strlit("^");
    }
    let mut out = String::new();
    out.append("error[");
    out.append(d.rule.slug());
    out.append("]: ");
    out.append(d.message.as_str());
    out.append("\n");
    out.append(pad);
    out.append("--> ");
    out.append(file);
    out.append(":");
    out.append(gutter);
    out.append(":");
    push_decimal(&mut out, col as u128);
    out.append("\n");
    out.append(pad);
    out.append(" |\n");
    out.append(gutter);
    out.append(" | ");
    out.append(text);
    out.append("\n");
    out.append(pad);
    out.append(" | ");
    push_repeated(&mut out, " ", lead);
    push_repeated(&mut out, "^", width);
    out.append("\n");
    out.append(pad);
    out.append(" = rule: ");
    out.append(d.rule.statement());
    out.append("\n");
    match &d.help {
        Some(h) => {
            out.append(pad);
            out.append(" = help: ");
            out.append(h.as_str());
            out.append("\n");
        },
        None => {},
    }
    proof {
        assert(out@ =~= "error["@ + slug_text(d.rule) + "]: "@ + d.message@ + "\n"@ + pad@ + "--> "@ + file@ + ":"@
            + gutter@ + ":"@ + decimal_chars(col as nat) + "\n"@ + pad@ + " |\n"@ + gutter@ + " | "@ + text@
            + "\n"@ + pad@ + " | "@ + repeated(' ', lead as nat) + repeated('^', width as nat) + "\n"@ + pad@
            + " = rule: "@ + statement_text(d.rule) + "\n"@ + match d.help {
            Some(h) => pad@ + " = help: "@ + h@ + "\n"@,
            None => Seq::empty(),
        });
    }
    out
}

/// Render a diagnostic as a multi-line, caret-underlined message. The
/// column and the caret count clusters, as a reader counts characters.
pub fn render(src: &str, file: &str, d: &Diagnostic) -> (r: String)
    requires
        src.spec_bytes().len() < usize::MAX,
        exists|k: int| at_char(src@, cut_of(src, d.span.start), k),
    ensures
        forall|k: int| at_char(src@, cut_of(src, d.span.start), k) ==> r@ == rendered(src@, file@, d@, k),
{
    let ghost s = src@;
    let chars = chars_of(src);
    let n = src.len();
    proof {
        lemma_byte_len_utf8(s);
        reveal_strlit(" ");
        reveal_strlit("^");
    }
    let start = if d.span.start < n {
        d.span.start
    } else {
        n
    };
    let k = match char_at_byte(&chars, 0, 0, start) {
        Some(k) => k,
        None => {
            proof {
                assert(false);
            }
            0
        },
    };
    let ghost kt = k as int;
    proof {
        assert forall|k2: int| at_char(s, cut_of(src, d.span.start), k2) implies k2 == kt by {
            if k2 < kt {
                lemma_boff_strict(s, k2, kt);
            }
            if kt < k2 {
                lemma_boff_strict(s, kt, k2);
            }
        }
    }
    let (line, col) = line_col(src, d.span.start);
    // Where the line starts.
    let mut ls: usize = 0;
    let mut i: usize = 0;
    while i < k
        invariant
            chars@ == s,
            i <= k <= s.len(),
            ls == line_start(s, i as int),
            ls <= i,
        decreases k - i,
    {
        if chars[i] == '\n' {
            ls = i + 1;
        }
        i = i + 1;
    }
    // Where it ends, and at which byte.
    let mut le: usize = k;
    let mut le_byte: usize = start;
    while le < chars.len() && chars[le] != '\n'
        invariant
            chars@ == s,
            k <= le <= s.len(),
            le_byte == boff(s, le as int),
            start == boff(s, k as int),
            start <= le_byte,
            line_end(s, le as int) == line_end(s, k as int),
            byte_len(s) == n,
            n < usize::MAX,
        decreases s.len() - le,
    {
        proof {
            lemma_boff_next(s, le as int);
            lemma_boff_bound(s, le + 1);
        }
        le_byte = le_byte + width_of(chars[le]);
        le = le + 1;
    }
    let text = slice_text(&chars, ls, le);
    let lead: usize = if d.span.start > n {
        0
    } else {
        col - 1
    };
    let width = caret_size(&chars, d.span, k, start, le_byte);
    proof {
        assert(at_char(s, cut_of(src, d.span.start), kt));
        assert(line == 1 + newline_count(s, kt));
        assert(ls == line_start(s, kt));
        assert(col == 1 + cluster_count(s.subrange(ls as int, kt), 0));
        assert(lead == caret_lead(s, d.span, kt));
    }
    let mut gutter = String::new();
    push_decimal(&mut gutter, line as u128);
    let mut pad = String::new();
    push_repeated(&mut pad, " ", gutter.unicode_len());
    let out = assemble(d, file, pad.as_str(), gutter.as_str(), col, text.as_str(), lead, width);
    proof {
        let dv = d@;
        assert(gutter@ == decimal_chars(line as nat));
        assert(pad@ =~= repeated(' ', gutter@.len()));
        assert(text@ == s.subrange(ls as int, line_end(s, kt)));
        assert(line_end(s, le as int) == le);
        assert(out@ =~= rendered(s, file@, dv, kt));
    }
    out
}

} // verus!
