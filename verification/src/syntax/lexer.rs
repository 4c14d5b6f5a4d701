//! The lexer: source text to tokens.
//!
//! Positions are byte offsets into the source, as spans are everywhere; the
//! lexer walks the source a character at a time and keeps the byte offset
//! alongside.
use vstd::prelude::*;
use vstd::string::StringSliceAdditionalSpecFns;
use vstd::utf8::{char_is_scalar, encode_scalar, encode_utf8};

use crate::diag::{diag, helped, DiagView, Diagnostic, Span};
use crate::rule::Rule;
use crate::text::{chars_of, string_of};

verus! {

// ------------------------------------------------------------ byte offsets

/// How many bytes UTF-8 gives a character.
pub open spec fn char_width(c: char) -> nat {
    if (c as u32) < 0x80 {
        1
    } else if (c as u32) < 0x800 {
        2
    } else if (c as u32) < 0x10000 {
        3
    } else {
        4
    }
}

/// How many bytes UTF-8 gives a run of characters.
pub open spec fn byte_len(s: Seq<char>) -> nat
    decreases s.len(),
{
    if s.len() == 0 {
        0
    } else {
        char_width(s[0]) + byte_len(s.drop_first())
    }
}

/// The byte offset of character `i`.
pub open spec fn boff(s: Seq<char>, i: int) -> nat {
    byte_len(s.take(i))
}

/// Byte lengths add up.
pub proof fn lemma_byte_len_concat(a: Seq<char>, b: Seq<char>)
    ensures
        byte_len(a + b) == byte_len(a) + byte_len(b),
    decreases a.len(),
{
    if a.len() > 0 {
        assert((a + b).drop_first() =~= a.drop_first() + b);
        lemma_byte_len_concat(a.drop_first(), b);
    } else {
        assert(a + b =~= b);
    }
}

/// One character further is its width further.
pub proof fn lemma_boff_next(s: Seq<char>, i: int)
    requires
        0 <= i < s.len(),
    ensures
        boff(s, i + 1) == boff(s, i) + char_width(s[i]),
{
    assert(s.take(i + 1) =~= s.take(i) + seq![s[i]]);
    lemma_byte_len_concat(s.take(i), seq![s[i]]);
    assert(seq![s[i]].drop_first() =~= Seq::<char>::empty());
    reveal_with_fuel(byte_len, 2);
}

/// The byte length is the length of the UTF-8 encoding.
pub proof fn lemma_byte_len_utf8(s: Seq<char>)
    ensures
        byte_len(s) == encode_utf8(s).len(),
    decreases s.len(),
{
    if s.len() > 0 {
        lemma_byte_len_utf8(s.drop_first());
        char_is_scalar(s[0]);
        assert(encode_scalar(s[0] as u32).len() == char_width(s[0]));
    }
}

/// Offsets never go down.
pub proof fn lemma_boff_mono(s: Seq<char>, i: int, j: int)
    requires
        0 <= i <= j <= s.len(),
    ensures
        boff(s, i) <= boff(s, j),
    decreases j - i,
{
    if i < j {
        lemma_boff_next(s, j - 1);
        lemma_boff_mono(s, i, j - 1);
    }
}

/// No offset passes the end.
pub proof fn lemma_boff_bound(s: Seq<char>, i: int)
    requires
        0 <= i <= s.len(),
    ensures
        boff(s, i) <= byte_len(s),
{
    lemma_boff_mono(s, i, s.len() as int);
    assert(s.take(s.len() as int) =~= s);
}

/// The UTF-8 width of a character.
pub fn width_of(c: char) -> (r: usize)
    ensures
        r == char_width(c),
{
    let v = c as u32;
    if v < 0x80 {
        1
    } else if v < 0x800 {
        2
    } else if v < 0x10000 {
        3
    } else {
        4
    }
}

// ------------------------------------------------------------------ tokens

#[derive(Debug)]
pub enum Tok {
    /// A bare word: a keyword, a modifier, or a type name. The parser decides.
    Word(String),
    /// An identifier, written `(name)`. Holds the unescaped name.
    Ident(String),
    /// A literal, written `'text'`. Holds the unescaped text, still untyped.
    Str(String),
    /// A bare escape such as `\n`, outside any quotes. Always `str`.
    Escape(String),
    Assign,
    Plus,
    Minus,
    Star,
    Slash,
    Percent,
    EqEq,
    BangEq,
    Lt,
    LtEq,
    Gt,
    GtEq,
    LBracket,
    RBracket,
    LBrace,
    RBrace,
    /// `|`, which both opens and closes a group.
    Pipe,
    Comma,
    Eof,
}

/// A token as plain values.
pub enum TokView {
    Word(Seq<char>),
    Ident(Seq<char>),
    Str(Seq<char>),
    Escape(Seq<char>),
    Assign,
    Plus,
    Minus,
    Star,
    Slash,
    Percent,
    EqEq,
    BangEq,
    Lt,
    LtEq,
    Gt,
    GtEq,
    LBracket,
    RBracket,
    LBrace,
    RBrace,
    Pipe,
    Comma,
    Eof,
}

impl View for Tok {
    type V = TokView;

    open spec fn view(&self) -> TokView {
        match self {
            Tok::Word(w) => TokView::Word(w@),
            Tok::Ident(n) => TokView::Ident(n@),
            Tok::Str(t) => TokView::Str(t@),
            Tok::Escape(t) => TokView::Escape(t@),
            Tok::Assign => TokView::Assign,
            Tok::Plus => TokView::Plus,
            Tok::Minus => TokView::Minus,
            Tok::Star => TokView::Star,
            Tok::Slash => TokView::Slash,
            Tok::Percent => TokView::Percent,
            Tok::EqEq => TokView::EqEq,
            Tok::BangEq => TokView::BangEq,
            Tok::Lt => TokView::Lt,
            Tok::LtEq => TokView::LtEq,
            Tok::Gt => TokView::Gt,
            Tok::GtEq => TokView::GtEq,
            Tok::LBracket => TokView::LBracket,
            Tok::RBracket => TokView::RBracket,
            Tok::LBrace => TokView::LBrace,
            Tok::RBrace => TokView::RBrace,
            Tok::Pipe => TokView::Pipe,
            Tok::Comma => TokView::Comma,
            Tok::Eof => TokView::Eof,
        }
    }
}

/// How a token is named in an error message.
pub open spec fn describe(t: TokView) -> Seq<char> {
    match t {
        TokView::Word(w) => "`"@ + w + "`"@,
        TokView::Ident(n) => "identifier `("@ + n + ")`"@,
        TokView::Str(_) => "a literal"@,
        TokView::Escape(_) => "an escape"@,
        TokView::Assign => "`=`"@,
        TokView::Plus => "`+`"@,
        TokView::Minus => "`-`"@,
        TokView::Star => "`*`"@,
        TokView::Slash => "`/`"@,
        TokView::Percent => "`%`"@,
        TokView::EqEq => "`==`"@,
        TokView::BangEq => "`!=`"@,
        TokView::Lt => "`<`"@,
        TokView::LtEq => "`<=`"@,
        TokView::Gt => "`>`"@,
        TokView::GtEq => "`>=`"@,
        TokView::LBracket => "`[`"@,
        TokView::RBracket => "`]`"@,
        TokView::LBrace => "`{`"@,
        TokView::RBrace => "`}`"@,
        TokView::Pipe => "`|`"@,
        TokView::Comma => "`,`"@,
        TokView::Eof => "end of file"@,
    }
}

impl Tok {
    /// How this token is named in an error message.
    pub fn describe(&self) -> (r: String)
        ensures
            r@ == describe(self@),
    {
        match self {
            Tok::Word(w) => String::from_str("`").concat(w.as_str()).concat("`"),
            Tok::Ident(n) => String::from_str("identifier `(").concat(n.as_str()).concat(")`"),
            Tok::Str(_) => String::from_str("a literal"),
            Tok::Escape(_) => String::from_str("an escape"),
            Tok::Assign => String::from_str("`=`"),
            Tok::Plus => String::from_str("`+`"),
            Tok::Minus => String::from_str("`-`"),
            Tok::Star => String::from_str("`*`"),
            Tok::Slash => String::from_str("`/`"),
            Tok::Percent => String::from_str("`%`"),
            Tok::EqEq => String::from_str("`==`"),
            Tok::BangEq => String::from_str("`!=`"),
            Tok::Lt => String::from_str("`<`"),
            Tok::LtEq => String::from_str("`<=`"),
            Tok::Gt => String::from_str("`>`"),
            Tok::GtEq => String::from_str("`>=`"),
            Tok::LBracket => String::from_str("`[`"),
            Tok::RBracket => String::from_str("`]`"),
            Tok::LBrace => String::from_str("`{`"),
            Tok::RBrace => String::from_str("`}`"),
            Tok::Pipe => String::from_str("`|`"),
            Tok::Comma => String::from_str("`,`"),
            Tok::Eof => String::from_str("end of file"),
        }
    }
}

/// A token and where it stands.
#[derive(Debug)]
pub struct Token {
    pub tok: Tok,
    pub span: Span,
}

// ---------------------------------------------------------- the token rules

/// ASCII white space, as `u8::is_ascii_whitespace` has it: space, tab,
/// line feed, form feed and carriage return.
pub open spec fn ascii_space(c: char) -> bool {
    c == ' ' || c == '\t' || c == '\n' || c == '\x0C' || c == '\r'
}

pub open spec fn ascii_alpha(c: char) -> bool {
    ('a' <= c && c <= 'z') || ('A' <= c && c <= 'Z')
}

pub open spec fn ascii_alnum(c: char) -> bool {
    ascii_alpha(c) || ('0' <= c && c <= '9')
}

/// Where the line holding `i` ends: the next line feed, or the end.
pub open spec fn line_end(s: Seq<char>, i: int) -> int
    decreases s.len() - i,
{
    if i < 0 || i >= s.len() || s[i] == '\n' {
        i
    } else {
        line_end(s, i + 1)
    }
}

/// Where the next token starts: past white space and `--` comments.
pub open spec fn skip_trivia(s: Seq<char>, i: int) -> int
    decreases s.len() - i,
{
    if 0 <= i < s.len() && ascii_space(s[i]) {
        skip_trivia(s, i + 1)
    } else if 0 <= i && i + 1 < s.len() && s[i] == '-' && s[i + 1] == '-' {
        let e = line_end(s, i);
        if i < e <= s.len() {
            skip_trivia(s, e)
        } else {
            i
        }
    } else {
        i
    }
}

/// The span between two character positions.
pub open spec fn sp(s: Seq<char>, a: int, b: int) -> Span {
    Span { start: boff(s, a) as usize, end: boff(s, b) as usize }
}

/// The character a byte of a character's UTF-8 encoding names: the first
/// byte, read as a character on its own.
pub open spec fn lead_char(c: char) -> char {
    let v = c as u32;
    if v < 0x80 {
        c
    } else if v < 0x800 {
        (0xC0 + v / 64) as char
    } else if v < 0x10000 {
        (0xE0 + v / 4096) as char
    } else {
        (0xF0 + v / 262144) as char
    }
}

/// What a token rule gives: a token, its span and where the next one may
/// start; or the error that stopped it.
pub type Lexed = Result<(TokView, Span, int), DiagView>;

/// The rest of an identifier, from character `i`, with `name` read so far.
pub open spec fn scan_ident(s: Seq<char>, start: int, i: int, name: Seq<char>) -> Lexed
    decreases s.len() - i,
{
    if i < 0 || i >= s.len() {
        Err(
            helped(
                diag(sp(s, start, i), Rule::NamesAreParenthesised, "unterminated identifier"@),
                "this `(` is never closed by a `)`"@,
            ),
        )
    } else if s[i] == ')' {
        if name.len() == 0 {
            Err(
                helped(
                    diag(sp(s, start, i + 1), Rule::NamesAreParenthesised, "empty identifier"@),
                    "a name must have at least one character, as in `(x)`"@,
                ),
            )
        } else {
            Ok((TokView::Ident(name), sp(s, start, i + 1), i + 1))
        }
    } else if s[i] == '\\' {
        if i + 1 < s.len() && (s[i + 1] == ')' || s[i + 1] == '\\' || s[i + 1] == '(') {
            scan_ident(s, start, i + 2, name.push(s[i + 1]))
        } else {
            Err(
                helped(
                    diag(sp(s, i, i + 1), Rule::NamesAreParenthesised, "invalid escape in identifier"@),
                    "inside `(...)` only `\\(`, `\\)` and `\\\\` are escapes"@,
                ),
            )
        }
    } else if s[i] == '\n' {
        Err(
            helped(
                diag(sp(s, start, i), Rule::NamesAreParenthesised, "unterminated identifier"@),
                "an identifier cannot span multiple lines"@,
            ),
        )
    } else {
        scan_ident(s, start, i + 1, name.push(s[i]))
    }
}

/// The character an escape inside quotes stands for, if it is one.
pub open spec fn quoted_escape(c: char) -> Option<char> {
    if c == 'n' {
        Some('\n')
    } else if c == 't' {
        Some('\t')
    } else if c == 'r' {
        Some('\r')
    } else if c == '0' {
        Some('\0')
    } else if c == '\\' {
        Some('\\')
    } else if c == '\'' {
        Some('\'')
    } else if c == '"' {
        Some('"')
    } else {
        None
    }
}

/// The rest of a literal closed by `quote`, from character `i`, with `text`
/// read so far.
pub open spec fn scan_literal(s: Seq<char>, start: int, quote: char, i: int, text: Seq<char>) -> Lexed
    decreases s.len() - i,
{
    if i < 0 || i >= s.len() {
        Err(
            helped(
                diag(sp(s, start, i), Rule::ValuesAreQuoted, "unterminated literal"@),
                "this quote is never closed"@,
            ),
        )
    } else if s[i] == quote {
        Ok((TokView::Str(text), sp(s, start, i + 1), i + 1))
    } else if s[i] == '\\' {
        if i + 1 >= s.len() {
            Err(diag(sp(s, start, i + 1), Rule::ValuesAreQuoted, "unterminated literal"@))
        } else {
            match quoted_escape(s[i + 1]) {
                Some(c) => scan_literal(s, start, quote, i + 2, text.push(c)),
                None => Err(
                    helped(
                        diag(
                            Span { start: boff(s, i) as usize, end: (boff(s, i + 1) + 1) as usize },
                            Rule::ValuesAreQuoted,
                            "invalid escape `\\"@ + seq![lead_char(s[i + 1])] + "`"@,
                        ),
                        "valid escapes are \\n \\t \\r \\0 \\\\ \\' \\\""@,
                    ),
                ),
            }
        }
    } else {
        scan_literal(s, start, quote, i + 1, text.push(s[i]))
    }
}

/// Inside quotes each escape stands for its character: in a literal written
/// `a`, escape, `b` between two quotes, `\n` gives a line feed, `\t` a tab,
/// `\r` a carriage return, `\0` a NUL, and `\\`, `\'` and `\"` the
/// backslash or quote itself; any other letter after the backslash is an
/// error.
pub proof fn lemma_escape_in_quotes(s: Seq<char>, q: char, a: char, e: char, b: char)
    requires
        q == '\'' || q == '"',
        a != q && a != '\\',
        b != q && b != '\\',
        s == seq![q, a, '\\', e, b, q],
    ensures
        e == 'n' ==> lex_at(s, 0) == Ok::<(TokView, Span, int), DiagView>((TokView::Str(seq![a, '\u{a}', b]), sp(s, 0, 6), 6)),
        e == 't' ==> lex_at(s, 0) == Ok::<(TokView, Span, int), DiagView>((TokView::Str(seq![a, '\u{9}', b]), sp(s, 0, 6), 6)),
        e == 'r' ==> lex_at(s, 0) == Ok::<(TokView, Span, int), DiagView>((TokView::Str(seq![a, '\u{d}', b]), sp(s, 0, 6), 6)),
        e == '0' ==> lex_at(s, 0) == Ok::<(TokView, Span, int), DiagView>((TokView::Str(seq![a, '\u{0}', b]), sp(s, 0, 6), 6)),
        e == '\\' ==> lex_at(s, 0) == Ok::<(TokView, Span, int), DiagView>((TokView::Str(seq![a, '\u{5c}', b]), sp(s, 0, 6), 6)),
        e == '\'' ==> lex_at(s, 0) == Ok::<(TokView, Span, int), DiagView>((TokView::Str(seq![a, '\u{27}', b]), sp(s, 0, 6), 6)),
        e == '"' ==> lex_at(s, 0) == Ok::<(TokView, Span, int), DiagView>((TokView::Str(seq![a, '\u{22}', b]), sp(s, 0, 6), 6)),
        !(e == 'n' || e == 't' || e == 'r' || e == '0' || e == '\\' || e == '\'' || e == '"') ==> lex_at(s, 0) is Err,
{
    assert(single(q) is None);
    let t1 = seq![a];
    assert(scan_literal(s, 0, q, 1, Seq::empty()) == scan_literal(s, 0, q, 2, Seq::<char>::empty().push(a)));
    assert(Seq::<char>::empty().push(a) =~= t1);
    match quoted_escape(e) {
        Some(x) => {
            let t2 = t1.push(x);
            assert(scan_literal(s, 0, q, 2, t1) == scan_literal(s, 0, q, 4, t2));
            let t3 = t2.push(b);
            assert(scan_literal(s, 0, q, 4, t2) == scan_literal(s, 0, q, 5, t3));
            assert(t3 =~= seq![a, x, b]);
        },
        None => {
            assert(scan_literal(s, 0, q, 2, t1) is Err);
        },
    }
}

/// The text a bare escape stands for, if it is one.
pub open spec fn bare_escape(c: char) -> Option<Seq<char>> {
    if c == 'n' {
        Some(seq!['\n'])
    } else if c == 't' {
        Some(seq!['\t'])
    } else if c == 'r' {
        Some(seq!['\r'])
    } else if c == '0' {
        Some(seq!['\0'])
    } else if c == '\\' {
        Some(seq!['\\'])
    } else {
        None
    }
}

/// The help every bare-escape error gives.
pub open spec fn escape_help() -> Seq<char> {
    "a bare escape is written `\\n`, `\\t`, `\\r`, `\\0` or `\\\\`"@
}

/// A bare escape whose backslash is at `i`.
pub open spec fn lex_escape(s: Seq<char>, i: int) -> Lexed {
    let b = boff(s, i);
    if i + 1 >= s.len() {
        Err(
            helped(
                diag(Span { start: b as usize, end: (b + 1) as usize }, Rule::EscapesAreText, "escape is missing its letter"@),
                escape_help(),
            ),
        )
    } else {
        match bare_escape(s[i + 1]) {
            Some(t) => Ok((TokView::Escape(t), sp(s, i, i + 2), i + 2)),
            None => Err(
                helped(
                    diag(
                        Span { start: b as usize, end: (b + 2) as usize },
                        Rule::EscapesAreText,
                        "invalid escape `\\"@ + seq![lead_char(s[i + 1])] + "`"@,
                    ),
                    escape_help(),
                ),
            ),
        }
    }
}

/// Where a bare word that starts at `i` ends. A hyphen joins two words, so
/// `store-in` is one word; it does so only before a letter, which keeps
/// `'5'-'3'` reading as a subtraction.
pub open spec fn word_end(s: Seq<char>, i: int) -> int
    decreases s.len() - i,
{
    if 0 <= i < s.len() && (ascii_alnum(s[i]) || s[i] == '_') {
        word_end(s, i + 1)
    } else if 0 <= i && i + 1 < s.len() && s[i] == '-' && ascii_alpha(s[i + 1]) {
        word_end(s, i + 1)
    } else {
        i
    }
}

/// A bare word starting at `i`, or the error for a character that starts
/// nothing.
pub open spec fn lex_word(s: Seq<char>, i: int) -> Lexed {
    let e = word_end(s, i);
    if e == i {
        Err(
            helped(
                diag(
                    Span { start: boff(s, i) as usize, end: (boff(s, i) + char_width(s[i])) as usize },
                    Rule::LexicalForm,
                    "unexpected character `"@ + seq![s[i]] + "`"@,
                ),
                "names go in parentheses and values go in quotes, as in `var i32 (x) = '1' end`"@,
            ),
        )
    } else {
        Ok((TokView::Word(s.subrange(i, e)), sp(s, i, e), e))
    }
}

/// A one-character operator or punctuation mark.
pub open spec fn single(c: char) -> Option<TokView> {
    if c == '+' {
        Some(TokView::Plus)
    } else if c == '-' {
        Some(TokView::Minus)
    } else if c == '*' {
        Some(TokView::Star)
    } else if c == '/' {
        Some(TokView::Slash)
    } else if c == '%' {
        Some(TokView::Percent)
    } else if c == '[' {
        Some(TokView::LBracket)
    } else if c == ']' {
        Some(TokView::RBracket)
    } else if c == '{' {
        Some(TokView::LBrace)
    } else if c == '}' {
        Some(TokView::RBrace)
    } else if c == '|' {
        Some(TokView::Pipe)
    } else if c == ',' {
        Some(TokView::Comma)
    } else {
        None
    }
}

/// The token that starts at character `i`, which is not white space or a
/// comment. Two-character operators are tried first, so `==` never reads
/// as two `=`.
pub open spec fn lex_at(s: Seq<char>, i: int) -> Lexed {
    let c = s[i];
    let next_is_eq = i + 1 < s.len() && s[i + 1] == '=';
    if c == '=' {
        if next_is_eq {
            Ok((TokView::EqEq, sp(s, i, i + 2), i + 2))
        } else {
            Ok((TokView::Assign, sp(s, i, i + 1), i + 1))
        }
    } else if c == '!' {
        if next_is_eq {
            Ok((TokView::BangEq, sp(s, i, i + 2), i + 2))
        } else {
            Err(
                helped(
                    diag(
                        Span { start: boff(s, i) as usize, end: (boff(s, i) + 1) as usize },
                        Rule::LexicalForm,
                        "unexpected `!`"@,
                    ),
                    "`!` only appears as part of the `!=` operator"@,
                ),
            )
        }
    } else if c == '<' {
        if next_is_eq {
            Ok((TokView::LtEq, sp(s, i, i + 2), i + 2))
        } else {
            Ok((TokView::Lt, sp(s, i, i + 1), i + 1))
        }
    } else if c == '>' {
        if next_is_eq {
            Ok((TokView::GtEq, sp(s, i, i + 2), i + 2))
        } else {
            Ok((TokView::Gt, sp(s, i, i + 1), i + 1))
        }
    } else if single(c) is Some {
        Ok((single(c).unwrap(), sp(s, i, i + 1), i + 1))
    } else if c == '(' {
        scan_ident(s, i, i + 1, Seq::empty())
    } else if c == '\'' || c == '"' {
        scan_literal(s, i, c, i + 1, Seq::empty())
    } else if c == '\\' {
        lex_escape(s, i)
    } else {
        lex_word(s, i)
    }
}

// ------------------------------------------------------------- progress

proof fn lemma_line_end(s: Seq<char>, i: int)
    requires
        0 <= i <= s.len(),
    ensures
        i <= line_end(s, i) <= s.len(),
    decreases s.len() - i,
{
    if i < s.len() && s[i] != '\n' {
        lemma_line_end(s, i + 1);
    }
}

/// Skipping trivia moves forward and stays in the text.
pub proof fn lemma_skip_trivia(s: Seq<char>, i: int)
    requires
        0 <= i <= s.len(),
    ensures
        i <= skip_trivia(s, i) <= s.len(),
    decreases s.len() - i,
{
    if i < s.len() && ascii_space(s[i]) {
        lemma_skip_trivia(s, i + 1);
    } else if i + 1 < s.len() && s[i] == '-' && s[i + 1] == '-' {
        lemma_line_end(s, i);
        let e = line_end(s, i);
        if i < e <= s.len() {
            lemma_skip_trivia(s, e);
        }
    }
}

proof fn lemma_scan_ident(s: Seq<char>, start: int, i: int, name: Seq<char>)
    requires
        0 <= start < i,
    ensures
        scan_ident(s, start, i, name) matches Ok((_, _, k)) ==> start < k <= s.len(),
    decreases s.len() - i,
{
    if 0 <= i < s.len() {
        if s[i] == '\\' && i + 1 < s.len() {
            lemma_scan_ident(s, start, i + 2, name.push(s[i + 1]));
        } else if s[i] != ')' && s[i] != '\\' && s[i] != '\n' {
            lemma_scan_ident(s, start, i + 1, name.push(s[i]));
        }
    }
}

proof fn lemma_scan_literal(s: Seq<char>, start: int, quote: char, i: int, text: Seq<char>)
    requires
        0 <= start < i,
    ensures
        scan_literal(s, start, quote, i, text) matches Ok((_, _, k)) ==> start < k <= s.len(),
    decreases s.len() - i,
{
    if 0 <= i < s.len() && s[i] != quote {
        if s[i] == '\\' {
            if i + 1 < s.len() {
                if let Some(c) = quoted_escape(s[i + 1]) {
                    lemma_scan_literal(s, start, quote, i + 2, text.push(c));
                }
            }
        } else {
            lemma_scan_literal(s, start, quote, i + 1, text.push(s[i]));
        }
    }
}

proof fn lemma_word_end(s: Seq<char>, i: int)
    requires
        0 <= i <= s.len(),
    ensures
        i <= word_end(s, i) <= s.len(),
    decreases s.len() - i,
{
    if i < s.len() && (ascii_alnum(s[i]) || s[i] == '_') {
        lemma_word_end(s, i + 1);
    } else if i + 1 < s.len() && s[i] == '-' && ascii_alpha(s[i + 1]) {
        lemma_word_end(s, i + 1);
    }
}

/// Every token takes at least one character.
pub proof fn lemma_lex_advances(s: Seq<char>, i: int)
    requires
        0 <= i < s.len(),
    ensures
        lex_at(s, i) matches Ok((_, _, k)) ==> i < k <= s.len(),
{
    lemma_scan_ident(s, i, i + 1, Seq::empty());
    lemma_scan_literal(s, i, s[i], i + 1, Seq::empty());
    lemma_word_end(s, i);
}

/// The tokens of the text from character `i` on, ending with `Eof`; or the
/// first error.
pub open spec fn tokens_from(s: Seq<char>, i: int) -> Result<Seq<(TokView, Span)>, DiagView>
    decreases s.len() - i,
{
    if 0 <= i <= s.len() {
        let j = skip_trivia(s, i);
        proof {
            lemma_skip_trivia(s, i);
        }
        if j >= s.len() {
            Ok(seq![(TokView::Eof, sp(s, j, j))])
        } else {
            proof {
                lemma_lex_advances(s, j);
            }
            match lex_at(s, j) {
                Err(d) => Err(d),
                Ok((t, span, k)) => match tokens_from(s, k) {
                    Ok(rest) => Ok(seq![(t, span)] + rest),
                    Err(d) => Err(d),
                },
            }
        }
    } else {
        Ok(Seq::empty())
    }
}

/// The tokens of a text end with `Eof`.
pub proof fn lemma_tokens_end(s: Seq<char>, i: int)
    requires
        0 <= i <= s.len(),
    ensures
        tokens_from(s, i) matches Ok(ts) ==> ts.len() >= 1 && ts[ts.len() - 1].0 is Eof,
    decreases s.len() - i,
{
    let j = skip_trivia(s, i);
    lemma_skip_trivia(s, i);
    if j < s.len() {
        lemma_lex_advances(s, j);
        if let Ok((t, span, k)) = lex_at(s, j) {
            lemma_tokens_end(s, k);
            if let Ok(rest) = tokens_from(s, k) {
                let all = seq![(t, span)] + rest;
                assert(all[all.len() - 1] == rest[rest.len() - 1]);
            }
        }
    }
}

/// What tokenizing a source text gives.
pub open spec fn tokens_of(src: Seq<char>) -> Result<Seq<(TokView, Span)>, DiagView> {
    tokens_from(src, 0)
}

// ------------------------------------------------------------------ lexing

/// A token's view: its kind and its span.
pub open spec fn token_view(t: Token) -> (TokView, Span) {
    (t.tok@, t.span)
}

/// Tokens read so far in front of what is still to be read.
pub open spec fn glue(done: Seq<(TokView, Span)>, rest: Result<Seq<(TokView, Span)>, DiagView>) -> Result<
    Seq<(TokView, Span)>,
    DiagView,
> {
    match rest {
        Ok(ys) => Ok(done + ys),
        Err(d) => Err(d),
    }
}

fn is_space(c: char) -> (r: bool)
    ensures
        r == ascii_space(c),
{
    c == ' ' || c == '\t' || c == '\n' || c == '\x0C' || c == '\r'
}

fn is_alpha(c: char) -> (r: bool)
    ensures
        r == ascii_alpha(c),
{
    ('a' <= c && c <= 'z') || ('A' <= c && c <= 'Z')
}

fn is_alnum(c: char) -> (r: bool)
    ensures
        r == ascii_alnum(c),
{
    is_alpha(c) || ('0' <= c && c <= '9')
}

/// The character of the first byte of `c`'s UTF-8 encoding.
fn lead_of(c: char) -> (r: char)
    ensures
        r == lead_char(c),
{
    let v = c as u32;
    if v < 0x80 {
        c
    } else if v < 0x800 {
        ((0xC0 + v / 64) as u8) as char
    } else if v < 0x10000 {
        ((0xE0 + v / 4096) as u8) as char
    } else {
        ((0xF0 + v / 262144) as u8) as char
    }
}

/// Append one character.
fn push_char(out: &mut String, c: char)
    ensures
        final(out)@ == old(out)@.push(c),
{
    let v: Vec<char> = vec![c];
    out.append(string_of(&v).as_str());
    proof {
        assert(final(out)@ =~= old(out)@.push(c));
    }
}

/// A diagnostic with help, from two literal texts.
fn error(span: Span, rule: Rule, message: &str, help: &str) -> (r: Diagnostic)
    ensures
        r@ == helped(diag(span, rule, message@), help@),
{
    let mut m = String::new();
    m.append(message);
    let mut h = String::new();
    h.append(help);
    proof {
        assert(m@ =~= message@);
        assert(h@ =~= help@);
    }
    Diagnostic::new(span, rule, m).with_help(h)
}

/// Walks the source a character at a time, keeping the byte offset.
pub struct Lexer {
    chars: Vec<char>,
    pos: usize,
    byte: usize,
}

impl Lexer {
    pub closed spec fn text(&self) -> Seq<char> {
        self.chars@
    }

    pub closed spec fn position(&self) -> int {
        self.pos as int
    }

    pub closed spec fn wf(&self) -> bool {
        &&& self.pos <= self.chars@.len()
        &&& self.byte == boff(self.chars@, self.pos as int)
        &&& byte_len(self.chars@) + 2 < usize::MAX
    }

    pub fn new(src: &str) -> (r: Lexer)
        requires
            src.spec_bytes().len() + 2 < usize::MAX,
        ensures
            r.wf(),
            r.text() == src@,
            r.position() == 0,
    {
        let chars = chars_of(src);
        proof {
            lemma_byte_len_utf8(src@);
            assert(chars@.take(0) =~= Seq::<char>::empty());
        }
        Lexer { chars, pos: 0, byte: 0 }
    }

    /// Step over one character.
    fn advance(&mut self)
        requires
            old(self).wf(),
            old(self).pos < old(self).chars@.len(),
        ensures
            final(self).wf(),
            final(self).chars@ == old(self).chars@,
            final(self).pos == old(self).pos + 1,
            final(self).byte == old(self).byte + char_width(old(self).chars@[old(self).pos as int]),
    {
        proof {
            lemma_boff_next(self.chars@, self.pos as int);
            lemma_boff_bound(self.chars@, self.pos + 1);
        }
        let p = self.pos;
        let n = self.chars.len();
        assert(p < n);
        let w = width_of(self.chars[p]);
        self.byte = self.byte + w;
        self.pos = p + 1;
    }

    /// Step over white space and `--` comments.
    fn skip_trivia(&mut self)
        requires
            old(self).wf(),
        ensures
            final(self).wf(),
            final(self).chars@ == old(self).chars@,
            final(self).pos == skip_trivia(old(self).chars@, old(self).pos as int),
    {
        let ghost s = self.chars@;
        let ghost p0 = self.pos as int;
        while self.pos < self.chars.len()
            invariant
                self.wf(),
                self.chars@ == s,
                s == old(self).chars@,
                p0 == old(self).pos,
                skip_trivia(s, p0) == skip_trivia(s, self.pos as int),
            decreases s.len() - self.pos,
        {
            let c = self.chars[self.pos];
            if is_space(c) {
                self.advance();
            } else if c == '-' && self.pos + 1 < self.chars.len() && self.chars[self.pos + 1] == '-' {
                // `--` runs to the end of the line.
                let ghost i = self.pos as int;
                proof {
                    lemma_line_end(s, i);
                }
                while self.pos < self.chars.len() && self.chars[self.pos] != '\n'
                    invariant
                        self.wf(),
                        self.chars@ == s,
                        i <= self.pos,
                        line_end(s, i) == line_end(s, self.pos as int),
                    decreases s.len() - self.pos,
                {
                    self.advance();
                }
                proof {
                    assert(line_end(s, i) == self.pos as int);
                    assert(line_end(s, i) > i) by {
                        assert(line_end(s, i) == line_end(s, i + 1));
                        lemma_line_end(s, i + 1);
                    }
                }
            } else {
                return;
            }
        }
    }

    /// `(name)`: raw text up to the matching `)`. `\(`, `\)` and `\\`
    /// escape.
    fn ident(&mut self) -> (r: Result<Token, Diagnostic>)
        requires
            old(self).wf(),
            old(self).pos < old(self).chars@.len(),
            old(self).chars@[old(self).pos as int] == '(',
        ensures
            final(self).wf(),
            final(self).chars@ == old(self).chars@,
            match scan_ident(old(self).chars@, old(self).pos as int, old(self).pos + 1, Seq::empty()) {
                Ok((t, span, k)) => r matches Ok(x) && token_view(x) == (t, span) && final(self).pos == k,
                Err(d) => r matches Err(x) && x@ == d,
            },
    {
        let ghost s = self.chars@;
        let start = self.pos;
        let start_b = self.byte;
        self.advance();
        let mut name: Vec<char> = Vec::new();
        loop
            invariant
                self.wf(),
                self.chars@ == s,
                s == old(self).chars@,
                start == old(self).pos,
                start < self.pos,
                start_b == boff(s, start as int),
                scan_ident(s, start as int, start + 1, Seq::empty()) == scan_ident(
                    s,
                    start as int,
                    self.pos as int,
                    name@,
                ),
            decreases s.len() - self.pos,
        {
            if self.pos >= self.chars.len() {
                return Err(
                    error(
                        Span::new(start_b, self.byte),
                        Rule::NamesAreParenthesised,
                        "unterminated identifier",
                        "this `(` is never closed by a `)`",
                    ),
                );
            }
            let c = self.chars[self.pos];
            if c == ')' {
                self.advance();
                let span = Span::new(start_b, self.byte);
                if name.len() == 0 {
                    return Err(
                        error(
                            span,
                            Rule::NamesAreParenthesised,
                            "empty identifier",
                            "a name must have at least one character, as in `(x)`",
                        ),
                    );
                }
                return Ok(Token { tok: Tok::Ident(string_of(&name)), span });
            } else if c == '\\' {
                let escaped = self.pos + 1 < self.chars.len() && (self.chars[self.pos + 1] == ')'
                    || self.chars[self.pos + 1] == '\\' || self.chars[self.pos + 1] == '(');
                if escaped {
                    name.push(self.chars[self.pos + 1]);
                    self.advance();
                    self.advance();
                } else {
                    let at = self.byte;
                    proof {
                        lemma_boff_next(s, self.pos as int);
                        lemma_boff_bound(s, self.pos as int);
                    }
                    return Err(
                        error(
                            Span::new(at, at + 1),
                            Rule::NamesAreParenthesised,
                            "invalid escape in identifier",
                            "inside `(...)` only `\\(`, `\\)` and `\\\\` are escapes",
                        ),
                    );
                }
            } else if c == '\n' {
                return Err(
                    error(
                        Span::new(start_b, self.byte),
                        Rule::NamesAreParenthesised,
                        "unterminated identifier",
                        "an identifier cannot span multiple lines",
                    ),
                );
            } else {
                // A whole character is copied, so emoji survive intact.
                name.push(c);
                self.advance();
            }
        }
    }

    /// `'text'` or `"text"`: the text is kept raw; its type is decided
    /// later, by context.
    fn literal(&mut self) -> (r: Result<Token, Diagnostic>)
        requires
            old(self).wf(),
            old(self).pos < old(self).chars@.len(),
            old(self).chars@[old(self).pos as int] == '\'' || old(self).chars@[old(self).pos as int] == '"',
        ensures
            final(self).wf(),
            final(self).chars@ == old(self).chars@,
            match scan_literal(
                old(self).chars@,
                old(self).pos as int,
                old(self).chars@[old(self).pos as int],
                old(self).pos + 1,
                Seq::empty(),
            ) {
                Ok((t, span, k)) => r matches Ok(x) && token_view(x) == (t, span) && final(self).pos == k,
                Err(d) => r matches Err(x) && x@ == d,
            },
    {
        let ghost s = self.chars@;
        let start = self.pos;
        let start_b = self.byte;
        let quote = self.chars[start];
        self.advance();
        let mut text: Vec<char> = Vec::new();
        loop
            invariant
                self.wf(),
                self.chars@ == s,
                s == old(self).chars@,
                start == old(self).pos,
                quote == s[start as int],
                start < self.pos,
                start_b == boff(s, start as int),
                scan_literal(s, start as int, quote, start + 1, Seq::empty()) == scan_literal(
                    s,
                    start as int,
                    quote,
                    self.pos as int,
                    text@,
                ),
            decreases s.len() - self.pos,
        {
            if self.pos >= self.chars.len() {
                return Err(
                    error(
                        Span::new(start_b, self.byte),
                        Rule::ValuesAreQuoted,
                        "unterminated literal",
                        "this quote is never closed",
                    ),
                );
            }
            let c = self.chars[self.pos];
            if c == quote {
                self.advance();
                return Ok(Token { tok: Tok::Str(string_of(&text)), span: Span::new(start_b, self.byte) });
            }
            if c == '\\' {
                self.advance();
                if self.pos >= self.chars.len() {
                    let mut m = String::new();
                    m.append("unterminated literal");
                    proof {
                        assert(m@ =~= "unterminated literal"@);
                    }
                    return Err(Diagnostic::new(Span::new(start_b, self.byte), Rule::ValuesAreQuoted, m));
                }
                let esc = self.chars[self.pos];
                let ch = if esc == 'n' {
                    '\n'
                } else if esc == 't' {
                    '\t'
                } else if esc == 'r' {
                    '\r'
                } else if esc == '0' {
                    '\0'
                } else if esc == '\\' {
                    '\\'
                } else if esc == '\'' {
                    '\''
                } else if esc == '"' {
                    '"'
                } else {
                    let at = self.byte;
                    proof {
                        lemma_boff_next(s, self.pos - 1);
                        lemma_boff_bound(s, self.pos as int);
                    }
                    let mut m = String::new();
                    m.append("invalid escape `\\");
                    push_char(&mut m, lead_of(esc));
                    m.append("`");
                    let mut h = String::new();
                    h.append("valid escapes are \\n \\t \\r \\0 \\\\ \\' \\\"");
                    proof {
                        assert(m@ =~= "invalid escape `\\"@ + seq![lead_char(esc)] + "`"@);
                    }
                    return Err(
                        Diagnostic::new(Span::new(at - 1, at + 1), Rule::ValuesAreQuoted, m).with_help(h),
                    );
                };
                text.push(ch);
                self.advance();
                continue;
            }
            text.push(c);
            self.advance();
        }
    }

    /// A bare escape outside quotes, as in `print["1" \n]`.
    fn escape(&mut self) -> (r: Result<Token, Diagnostic>)
        requires
            old(self).wf(),
            old(self).pos < old(self).chars@.len(),
            old(self).chars@[old(self).pos as int] == '\\',
        ensures
            final(self).wf(),
            final(self).chars@ == old(self).chars@,
            match lex_escape(old(self).chars@, old(self).pos as int) {
                Ok((t, span, k)) => r matches Ok(x) && token_view(x) == (t, span) && final(self).pos == k,
                Err(d) => r matches Err(x) && x@ == d,
            },
    {
        let ghost s = self.chars@;
        let start_b = self.byte;
        proof {
            lemma_boff_bound(s, self.pos as int);
        }
        self.advance();
        if self.pos >= self.chars.len() {
            return Err(
                error(
                    Span::new(start_b, start_b + 1),
                    Rule::EscapesAreText,
                    "escape is missing its letter",
                    "a bare escape is written `\\n`, `\\t`, `\\r`, `\\0` or `\\\\`",
                ),
            );
        }
        let c = self.chars[self.pos];
        let text = if c == 'n' {
            "\n"
        } else if c == 't' {
            "\t"
        } else if c == 'r' {
            "\r"
        } else if c == '0' {
            "\0"
        } else if c == '\\' {
            "\\"
        } else {
            let mut m = String::new();
            m.append("invalid escape `\\");
            push_char(&mut m, lead_of(c));
            m.append("`");
            let mut h = String::new();
            h.append("a bare escape is written `\\n`, `\\t`, `\\r`, `\\0` or `\\\\`");
            proof {
                assert(m@ =~= "invalid escape `\\"@ + seq![lead_char(c)] + "`"@);
            }
            return Err(Diagnostic::new(Span::new(start_b, start_b + 2), Rule::EscapesAreText, m).with_help(h));
        };
        self.advance();
        proof {
            reveal_strlit("\n");
            reveal_strlit("\t");
            reveal_strlit("\r");
            reveal_strlit("\0");
            reveal_strlit("\\");
        }
        let mut t = String::new();
        t.append(text);
        proof {
            assert(t@ =~= bare_escape(c).unwrap());
        }
        Ok(Token { tok: Tok::Escape(t), span: Span::new(start_b, self.byte) })
    }

    /// Whether the word being read goes on past the current character. A
    /// hyphen joins two words, so `store-in` is one word; it does so only
    /// before a letter, which keeps `'5'-'3'` reading as a subtraction.
    fn in_word(&self) -> (r: bool)
        requires
            self.wf(),
        ensures
            r == (self.pos < self.chars@.len() && word_end(self.chars@, self.pos as int) != self.pos),
            r ==> self.pos < self.chars@.len(),
    {
        if self.pos >= self.chars.len() {
            return false;
        }
        let c = self.chars[self.pos];
        let joins = c == '-' && self.pos + 1 < self.chars.len() && is_alpha(self.chars[self.pos + 1]);
        proof {
            if ascii_alnum(c) || c == '_' || joins {
                lemma_word_end(self.chars@, self.pos + 1);
            }
        }
        is_alnum(c) || c == '_' || joins
    }

    /// A bare word: `var`, `end`, `global`, a type name, and so on.
    fn word(&mut self) -> (r: Result<Token, Diagnostic>)
        requires
            old(self).wf(),
            old(self).pos < old(self).chars@.len(),
        ensures
            final(self).wf(),
            final(self).chars@ == old(self).chars@,
            match lex_word(old(self).chars@, old(self).pos as int) {
                Ok((t, span, k)) => r matches Ok(x) && token_view(x) == (t, span) && final(self).pos == k,
                Err(d) => r matches Err(x) && x@ == d,
            },
    {
        let ghost s = self.chars@;
        let start = self.pos;
        let start_b = self.byte;
        let mut text: Vec<char> = Vec::new();
        while self.in_word()
            invariant
                self.wf(),
                self.chars@ == s,
                s == old(self).chars@,
                start == old(self).pos,
                start <= self.pos,
                start_b == boff(s, start as int),
                text@ == s.subrange(start as int, self.pos as int),
                word_end(s, start as int) == word_end(s, self.pos as int),
            decreases s.len() - self.pos,
        {
            text.push(self.chars[self.pos]);
            self.advance();
            proof {
                assert(text@ =~= s.subrange(start as int, self.pos as int));
            }
        }
        proof {
            lemma_word_end(s, self.pos as int);
        }
        if self.pos == start {
            let ch = self.chars[start];
            proof {
                lemma_boff_next(s, start as int);
                lemma_boff_bound(s, start + 1);
            }
            let w = width_of(ch);
            let mut m = String::new();
            m.append("unexpected character `");
            push_char(&mut m, ch);
            m.append("`");
            let mut h = String::new();
            h.append("names go in parentheses and values go in quotes, as in `var i32 (x) = '1' end`");
            proof {
                assert(m@ =~= "unexpected character `"@ + seq![ch] + "`"@);
            }
            return Err(Diagnostic::new(Span::new(start_b, start_b + w), Rule::LexicalForm, m).with_help(h));
        }
        Ok(Token { tok: Tok::Word(string_of(&text)), span: Span::new(start_b, self.byte) })
    }

    /// A token of one or two characters.
    fn operator(&mut self, tok: Tok, two: bool) -> (r: Token)
        requires
            old(self).wf(),
            old(self).pos + (if two {
                2int
            } else {
                1int
            }) <= old(self).chars@.len(),
        ensures
            final(self).wf(),
            final(self).chars@ == old(self).chars@,
            final(self).pos == old(self).pos + (if two {
                2int
            } else {
                1int
            }),
            token_view(r) == (tok@, sp(old(self).chars@, old(self).pos as int, final(self).pos as int)),
    {
        let start_b = self.byte;
        self.advance();
        if two {
            self.advance();
        }
        Token { tok, span: Span::new(start_b, self.byte) }
    }

    /// The next token.
    fn next_token(&mut self) -> (r: Result<Token, Diagnostic>)
        requires
            old(self).wf(),
        ensures
            final(self).wf(),
            final(self).chars@ == old(self).chars@,
            ({
                let s = old(self).chars@;
                let j = skip_trivia(s, old(self).pos as int);
                if j >= s.len() {
                    r matches Ok(x) && token_view(x) == (TokView::Eof, sp(s, j, j)) && final(self).pos == j
                } else {
                    match lex_at(s, j) {
                        Ok((t, span, k)) => r matches Ok(x) && token_view(x) == (t, span) && final(self).pos == k,
                        Err(d) => r matches Err(x) && x@ == d,
                    }
                }
            }),
    {
        self.skip_trivia();
        let ghost s = self.chars@;
        proof {
            lemma_skip_trivia(s, old(self).pos as int);
        }
        if self.pos >= self.chars.len() {
            let b = self.byte;
            return Ok(Token { tok: Tok::Eof, span: Span::new(b, b) });
        }
        let c = self.chars[self.pos];
        let next_is_eq = self.pos + 1 < self.chars.len() && self.chars[self.pos + 1] == '=';
        if c == '=' {
            if next_is_eq {
                return Ok(self.operator(Tok::EqEq, true));
            }
            return Ok(self.operator(Tok::Assign, false));
        }
        if c == '!' {
            if next_is_eq {
                return Ok(self.operator(Tok::BangEq, true));
            }
            let b = self.byte;
            proof {
                lemma_boff_bound(s, self.pos as int);
            }
            return Err(
                error(
                    Span::new(b, b + 1),
                    Rule::LexicalForm,
                    "unexpected `!`",
                    "`!` only appears as part of the `!=` operator",
                ),
            );
        }
        if c == '<' {
            if next_is_eq {
                return Ok(self.operator(Tok::LtEq, true));
            }
            return Ok(self.operator(Tok::Lt, false));
        }
        if c == '>' {
            if next_is_eq {
                return Ok(self.operator(Tok::GtEq, true));
            }
            return Ok(self.operator(Tok::Gt, false));
        }
        if c == '+' {
            return Ok(self.operator(Tok::Plus, false));
        }
        if c == '-' {
            return Ok(self.operator(Tok::Minus, false));
        }
        if c == '*' {
            return Ok(self.operator(Tok::Star, false));
        }
        if c == '/' {
            return Ok(self.operator(Tok::Slash, false));
        }
        if c == '%' {
            return Ok(self.operator(Tok::Percent, false));
        }
        if c == '[' {
            return Ok(self.operator(Tok::LBracket, false));
        }
        if c == ']' {
            return Ok(self.operator(Tok::RBracket, false));
        }
        if c == '{' {
            return Ok(self.operator(Tok::LBrace, false));
        }
        if c == '}' {
            return Ok(self.operator(Tok::RBrace, false));
        }
        if c == '|' {
            return Ok(self.operator(Tok::Pipe, false));
        }
        if c == ',' {
            return Ok(self.operator(Tok::Comma, false));
        }
        if c == '(' {
            return self.ident();
        }
        if c == '\'' || c == '"' {
            return self.literal();
        }
        if c == '\\' {
            return self.escape();
        }
        self.word()
    }

    /// Every token of the source, ending with `Eof`; or the first error.
    pub fn tokenize(self) -> (r: Result<Vec<Token>, Diagnostic>)
        requires
            self.wf(),
            self.position() == 0,
        ensures
            match tokens_of(self.text()) {
                Ok(ts) => r matches Ok(v) && v@.map_values(|t: Token| token_view(t)) == ts,
                Err(d) => r matches Err(x) && x@ == d,
            },
    {
        let ghost text = self.text();
        let mut lx = self;
        let ghost s = lx.chars@;
        let mut out: Vec<Token> = Vec::new();
        proof {
            assert(glue(Seq::empty(), tokens_from(s, 0)) =~= tokens_from(s, 0)) by {
                if let Ok(ys) = tokens_from(s, 0) {
                    assert(Seq::<(TokView, Span)>::empty() + ys =~= ys);
                }
            }
        }
        loop
            invariant
                lx.wf(),
                lx.chars@ == s,
                s == text,
                text == self.text(),
                tokens_of(text) == tokens_from(s, 0),
                tokens_from(s, 0) == glue(out@.map_values(|t: Token| token_view(t)), tokens_from(s, lx.pos as int)),
            decreases s.len() - lx.pos,
        {
            let ghost p = lx.pos as int;
            let ghost before = out@.map_values(|t: Token| token_view(t));
            proof {
                lemma_skip_trivia(s, p);
                let j = skip_trivia(s, p);
                if j < s.len() {
                    lemma_lex_advances(s, j);
                }
            }
            let t = match lx.next_token() {
                Ok(t) => t,
                Err(d) => {
                    proof {
                        let j = skip_trivia(s, p);
                        assert(j < s.len());
                        assert(lex_at(s, j) == Err::<(TokView, Span, int), DiagView>(d@));
                        assert(tokens_from(s, p) == Err::<Seq<(TokView, Span)>, DiagView>(d@));
                    }
                    return Err(d);
                },
            };
            let done = matches!(t.tok, Tok::Eof);
            let ghost tv = token_view(t);
            out.push(t);
            proof {
                assert(out@.map_values(|t: Token| token_view(t)) =~= before.push(tv));
                if let Ok(ys) = tokens_from(s, lx.pos as int) {
                    assert(before + (seq![tv] + ys) =~= before.push(tv) + ys);
                }
            }
            if done {
                proof {
                    let j = skip_trivia(s, p);
                    if j < s.len() {
                        lemma_no_eof(s, j);
                        assert(false);
                    }
                    assert(tokens_from(s, p) == Ok::<Seq<(TokView, Span)>, DiagView>(seq![tv]));
                    assert(before + seq![tv] =~= before.push(tv));
                }
                return Ok(out);
            }
        }
    }
}

/// Only the end of the text makes an `Eof` token.
proof fn lemma_no_eof(s: Seq<char>, i: int)
    requires
        0 <= i < s.len(),
    ensures
        lex_at(s, i) matches Ok((t, _, _)) ==> !(t is Eof),
{
    lemma_no_eof_ident(s, i, i + 1, Seq::empty());
    lemma_no_eof_literal(s, i, s[i], i + 1, Seq::empty());
}

proof fn lemma_no_eof_ident(s: Seq<char>, start: int, i: int, name: Seq<char>)
    ensures
        scan_ident(s, start, i, name) matches Ok((t, _, _)) ==> t is Ident,
    decreases s.len() - i,
{
    if 0 <= i < s.len() {
        if s[i] == '\\' && i + 1 < s.len() {
            lemma_no_eof_ident(s, start, i + 2, name.push(s[i + 1]));
        } else if s[i] != ')' && s[i] != '\\' && s[i] != '\n' {
            lemma_no_eof_ident(s, start, i + 1, name.push(s[i]));
        }
    }
}

proof fn lemma_no_eof_literal(s: Seq<char>, start: int, quote: char, i: int, text: Seq<char>)
    ensures
        scan_literal(s, start, quote, i, text) matches Ok((t, _, _)) ==> t is Str,
    decreases s.len() - i,
{
    if 0 <= i < s.len() && s[i] != quote {
        if s[i] == '\\' {
            if i + 1 < s.len() {
                if let Some(c) = quoted_escape(s[i + 1]) {
                    lemma_no_eof_literal(s, start, quote, i + 2, text.push(c));
                }
            }
        } else {
            lemma_no_eof_literal(s, start, quote, i + 1, text.push(s[i]));
        }
    }
}

} // verus!
