//! Turning a quoted literal into a constant of a known type.
//!
//! A literal carries no type of its own: `'1000'` is an integer, a float, or
//! the text "1000" depending entirely on the type it is checked against. All
//! of the reading therefore lives here, driven by that type.
use vstd::prelude::*;

use crate::bytecode::chunk::{Const, ConstView};
use crate::bytecode::value::{int_bounds, rt_type_name, unsigned_int, RtType};
use crate::num::decimal::{decimal_chars, push_decimal};
use crate::num::literal::{remove_char, trim_end, trim_start, trimmed_range, without_separators};
use crate::rule::Rule;
use crate::bytecode::half::{half_from_single, half_of_single, single_from_half, single_of_half};
use crate::text::{chars_of, spells, str_eq, string_of};

verus! {

/// Why a literal could not be read as the type asked for.
#[derive(Debug)]
pub struct LiteralError {
    pub rule: Rule,
    pub message: String,
    pub help: Option<String>,
}

/// A literal error as plain values: its message and its help, if any.
pub struct LitErrView {
    pub rule: Rule,
    pub message: Seq<char>,
    pub help: Option<Seq<char>>,
}

impl View for LiteralError {
    type V = LitErrView;

    open spec fn view(&self) -> LitErrView {
        LitErrView { rule: self.rule, message: self.message@, help: crate::diag::opt_text(self.help) }
    }
}

/// A literal that does not fit, with no help.
pub open spec fn unfit(message: Seq<char>) -> LitErrView {
    LitErrView { rule: Rule::ValuesMustFit, message, help: None }
}

/// A literal that does not fit, with help.
pub open spec fn unfit_help(message: Seq<char>, help: Seq<char>) -> LitErrView {
    LitErrView { rule: Rule::ValuesMustFit, message, help: Some(help) }
}

/// `` `name` `` for a type.
pub open spec fn ticked_type(ty: RtType) -> Seq<char> {
    "`"@ + rt_type_name(ty) + "`"@
}

/// `` `'text'` ``.
pub open spec fn quoted(text: Seq<char>) -> Seq<char> {
    "`'"@ + text + "'`"@
}

/// `` `'text'` is not a valid `ty` ``.
pub open spec fn not_valid(text: Seq<char>, ty: RtType) -> Seq<char> {
    quoted(text) + " is not a valid "@ + ticked_type(ty)
}

/// An integer, with a minus sign when it is negative.
pub open spec fn int_text(v: int) -> Seq<char> {
    if v < 0 {
        "-"@ + decimal_chars((-v) as nat)
    } else {
        decimal_chars(v as nat)
    }
}

/// The value of a digit character in the given radix, if it is one:
/// `0`-`9`, then `a`-`z` or `A`-`Z` for ten and up.
pub open spec fn digit_in(c: char, radix: nat) -> Option<nat> {
    let v: int = if '0' <= c && c <= '9' {
        c as int - '0' as int
    } else if 'a' <= c && c <= 'z' {
        c as int - 'a' as int + 10
    } else if 'A' <= c && c <= 'Z' {
        c as int - 'A' as int + 10
    } else {
        99
    };
    if v < radix {
        Some(v as nat)
    } else {
        None
    }
}

/// The number a run of digits spells in `radix`, when every one is a digit.
pub open spec fn radix_value(s: Seq<char>, radix: nat) -> Option<nat>
    decreases s.len(),
{
    if s.len() == 0 {
        Some(0)
    } else {
        match (radix_value(s.drop_last(), radix), digit_in(s.last(), radix)) {
            (Some(a), Some(d)) => Some(a * radix + d),
            _ => None,
        }
    }
}

/// What `i128::from_str_radix` reads: an optional sign, then at least one
/// digit, with a value that fits `i128`.
pub open spec fn i128_from_radix(s: Seq<char>, radix: nat) -> Option<int> {
    if s.len() == 0 || ((s[0] == '+' || s[0] == '-') && s.len() == 1) {
        None
    } else {
        let negative = s[0] == '-';
        let ds = if s[0] == '+' || s[0] == '-' {
            s.drop_first()
        } else {
            s
        };
        match radix_value(ds, radix) {
            Some(m) => {
                let v: int = if negative {
                    -m
                } else {
                    m as int
                };
                if i128::MIN <= v && v <= i128::MAX {
                    Some(v)
                } else {
                    None
                }
            },
            None => None,
        }
    }
}

/// A radix prefix taken off: `0x`, `0b` or `0o`, in either case.
pub open spec fn radix_split(s: Seq<char>) -> (nat, Seq<char>) {
    if s.len() >= 2 && s[0] == '0' && (s[1] == 'x' || s[1] == 'X') {
        (16, s.skip(2))
    } else if s.len() >= 2 && s[0] == '0' && (s[1] == 'b' || s[1] == 'B') {
        (2, s.skip(2))
    } else if s.len() >= 2 && s[0] == '0' && (s[1] == 'o' || s[1] == 'O') {
        (8, s.skip(2))
    } else {
        (10, s)
    }
}

/// Reading `text` as an integer of type `ty`.
pub open spec fn int_literal(text: Seq<char>, ty: RtType) -> Result<ConstView, LitErrView> {
    let body = trim_end(trim_start(remove_char(text, '_')));
    if body.len() == 0 {
        Err(unfit("empty literal is not a valid "@ + ticked_type(ty)))
    } else {
        let negative = body[0] == '-';
        let unsigned_part = if body[0] == '-' || body[0] == '+' {
            body.drop_first()
        } else {
            body
        };
        let (radix, digits) = radix_split(unsigned_part);
        // A literal carries at most one sign.
        if digits.len() == 0 || digits[0] == '+' || digits[0] == '-' {
            Err(unfit(not_valid(text, ty)))
        } else {
            match i128_from_radix(digits, radix) {
                None => if text.contains('.') {
                    Err(
                        unfit_help(
                            not_valid(text, ty),
                            ticked_type(ty) + " is an integer type; use `f64` for a fractional value"@,
                        ),
                    )
                } else {
                    Err(unfit(not_valid(text, ty)))
                },
                Some(m) => {
                    let v = if negative {
                        -m
                    } else {
                        m
                    };
                    let (lo, hi) = int_bounds(ty).unwrap();
                    if v < lo || v > hi {
                        Err(
                            unfit_help(
                                "`"@ + int_text(v) + "` is out of range for "@ + ticked_type(ty),
                                if negative && unsigned_int(ty) {
                                    ticked_type(ty) + " is unsigned and cannot hold a negative value"@
                                } else {
                                    ticked_type(ty) + " holds values from "@ + int_text(lo) + " to "@
                                        + int_text(hi)
                                },
                            ),
                        )
                    } else if unsigned_int(ty) {
                        Ok(ConstView::Uint(v as u64))
                    } else {
                        Ok(ConstView::Int(v as i64))
                    }
                },
            }
        }
    }
}

/// Once a prefix of the digits spells at least `b`, the whole run spells at
/// least `b` too, or is no number at all.
proof fn lemma_radix_grows(s: Seq<char>, radix: nat, j: int, b: nat)
    requires
        0 <= j <= s.len(),
        radix >= 1,
        radix_value(s.take(j), radix) matches Some(x) && x >= b,
    ensures
        radix_value(s, radix) matches Some(y) ==> y >= b,
    decreases s.len() - j,
{
    if j < s.len() {
        let t = s.take(j + 1);
        assert(t.drop_last() =~= s.take(j));
        if let Some(y) = radix_value(t, radix) {
            let x = radix_value(s.take(j), radix)->0;
            assert(y >= x) by (nonlinear_arith)
                requires
                    y == x * radix + digit_in(t.last(), radix)->0,
                    radix >= 1,
            ;
        }
        if radix_value(t, radix) is None {
            lemma_radix_none(s, radix, j + 1);
        } else {
            lemma_radix_grows(s, radix, j + 1, b);
        }
    } else {
        assert(s.take(j) =~= s);
    }
}

/// A prefix that is not a run of digits stays that way.
proof fn lemma_radix_none(s: Seq<char>, radix: nat, j: int)
    requires
        0 <= j <= s.len(),
        radix_value(s.take(j), radix) is None,
    ensures
        radix_value(s, radix) is None,
    decreases s.len() - j,
{
    if j < s.len() {
        assert(s.take(j + 1).drop_last() =~= s.take(j));
        lemma_radix_none(s, radix, j + 1);
    } else {
        assert(s.take(j) =~= s);
    }
}

/// The value of a digit character in `radix`.
fn digit_in_radix(c: char, radix: u32) -> (r: Option<u32>)
    requires
        2 <= radix <= 16,
    ensures
        match r {
            Some(d) => digit_in(c, radix as nat) == Some(d as nat),
            None => digit_in(c, radix as nat) is None,
        },
{
    let v: u32 = if '0' <= c && c <= '9' {
        (c as u32) - 48
    } else if 'a' <= c && c <= 'z' {
        (c as u32) - 97 + 10
    } else if 'A' <= c && c <= 'Z' {
        (c as u32) - 65 + 10
    } else {
        99
    };
    if v < radix {
        Some(v)
    } else {
        None
    }
}

/// `i128::from_str_radix` over `s[lo..hi]`.
fn i128_radix(s: &Vec<char>, lo: usize, hi: usize, radix: u32) -> (r: Option<i128>)
    requires
        lo <= hi <= s@.len(),
        2 <= radix <= 16,
    ensures
        match r {
            Some(v) => i128_from_radix(s@.subrange(lo as int, hi as int), radix as nat) == Some(v as int),
            None => i128_from_radix(s@.subrange(lo as int, hi as int), radix as nat) is None,
        },
{
    let ghost t = s@.subrange(lo as int, hi as int);
    if lo == hi {
        return None;
    }
    let first = s[lo];
    let signed = first == '+' || first == '-';
    if signed && hi - lo == 1 {
        return None;
    }
    let negative = first == '-';
    let start = if signed {
        lo + 1
    } else {
        lo
    };
    let ghost ds = s@.subrange(start as int, hi as int);
    proof {
        if signed {
            assert(ds =~= t.drop_first());
        } else {
            assert(ds =~= t);
        }
    }
    let mut m: u128 = 0;
    let mut i: usize = start;
    proof {
        assert(ds.take(0) =~= Seq::<char>::empty());
    }
    while i < hi
        invariant
            start <= i <= hi <= s@.len(),
            2 <= radix <= 16,
            ds == s@.subrange(start as int, hi as int),
            t == s@.subrange(lo as int, hi as int),
            t.len() > 0,
            signed == (t[0] == '+' || t[0] == '-'),
            negative == (t[0] == '-'),
            signed ==> t.len() > 1,
            ds == (if signed {
                t.drop_first()
            } else {
                t
            }),
            radix_value(ds.take(i - start), radix as nat) == Some(m as nat),
        decreases hi - i,
    {
        let k = i - start;
        proof {
            assert(ds.take(k + 1).drop_last() =~= ds.take(k as int));
            assert(ds.take(k + 1).last() == s@[i as int]);
        }
        let d = match digit_in_radix(s[i], radix) {
            Some(d) => d,
            None => {
                proof {
                    lemma_radix_none(ds, radix as nat, k + 1);
                }
                return None;
            },
        };
        let next = match m.checked_mul(radix as u128) {
            Some(x) => x.checked_add(d as u128),
            None => None,
        };
        match next {
            Some(x) => {
                m = x;
            },
            None => {
                proof {
                    assert(m * radix + d >= 0x1_0000_0000_0000_0000_0000_0000_0000_0000nat);
                    lemma_radix_grows(ds, radix as nat, k + 1, 0x1_0000_0000_0000_0000_0000_0000_0000_0000nat);
                }
                return None;
            },
        }
        i = i + 1;
    }
    proof {
        assert(ds.take(ds.len() as int) =~= ds);
    }
    if negative {
        if m == 0x8000_0000_0000_0000_0000_0000_0000_0000 {
            Some(i128::MIN)
        } else if m < 0x8000_0000_0000_0000_0000_0000_0000_0000 {
            Some(-(m as i128))
        } else {
            None
        }
    } else {
        if m <= 0x7fff_ffff_ffff_ffff_ffff_ffff_ffff_ffff {
            Some(m as i128)
        } else {
            None
        }
    }
}

/// The text of a literal error, built up piece by piece.
fn ticked(out: &mut String, ty: RtType)
    ensures
        final(out)@ == old(out)@ + ticked_type(ty),
{
    out.append("`");
    out.append(ty.name());
    out.append("`");
}

/// Append an integer, with its sign.
fn push_int(out: &mut String, v: i128)
    ensures
        final(out)@ == old(out)@ + int_text(v as int),
{
    if v < 0 {
        out.append("-");
        let m: u128 = if v == i128::MIN {
            0x8000_0000_0000_0000_0000_0000_0000_0000
        } else {
            (-v) as u128
        };
        push_decimal(out, m);
        proof {
            assert(old(out)@ + "-"@ + decimal_chars(m as nat) =~= old(out)@ + int_text(v as int));
        }
    } else {
        push_decimal(out, v as u128);
    }
}

/// `` `'text'` is not a valid `ty` ``.
fn not_valid_message(text: &str, ty: RtType) -> (r: String)
    ensures
        r@ == not_valid(text@, ty),
{
    let mut out = String::new();
    out.append("`'");
    out.append(text);
    out.append("'`");
    out.append(" is not a valid ");
    ticked(&mut out, ty);
    proof {
        assert(out@ =~= not_valid(text@, ty));
    }
    out
}

/// Whether `c` occurs in `s`.
fn has_char(s: &Vec<char>, c: char) -> (r: bool)
    ensures
        r == s@.contains(c),
{
    let mut i: usize = 0;
    while i < s.len()
        invariant
            i <= s@.len(),
            forall|j: int| 0 <= j < i ==> s@[j] != c,
        decreases s@.len() - i,
    {
        if s[i] == c {
            return true;
        }
        i = i + 1;
    }
    false
}

/// Read `text` as an integer of type `ty`.
fn parse_int(text: &str, ty: RtType) -> (r: Result<Const, LiteralError>)
    requires
        int_bounds(ty) is Some,
    ensures
        match int_literal(text@, ty) {
            Ok(c) => r matches Ok(x) && x@ == c,
            Err(e) => r matches Err(x) && x@ == e,
        },
{
    let chars = chars_of(text);
    let cleaned = without_separators(&chars);
    let (lo, hi) = trimmed_range(&cleaned);
    let ghost body = cleaned@.subrange(lo as int, hi as int);
    if lo == hi {
        let mut m = String::new();
        m.append("empty literal is not a valid ");
        ticked(&mut m, ty);
        proof {
            assert(m@ =~= "empty literal is not a valid "@ + ticked_type(ty));
        }
        return Err(LiteralError { rule: Rule::ValuesMustFit, message: m, help: None });
    }
    let negative = cleaned[lo] == '-';
    let start = if cleaned[lo] == '-' || cleaned[lo] == '+' {
        lo + 1
    } else {
        lo
    };
    let ghost up = cleaned@.subrange(start as int, hi as int);
    proof {
        if start == lo + 1 {
            assert(up =~= body.drop_first());
        } else {
            assert(up =~= body);
        }
    }
    let n = hi - start;
    let (radix, ds): (u32, usize) = if n >= 2 && cleaned[start] == '0' && (cleaned[start + 1] == 'x'
        || cleaned[start + 1] == 'X') {
        (16, start + 2)
    } else if n >= 2 && cleaned[start] == '0' && (cleaned[start + 1] == 'b' || cleaned[start + 1] == 'B') {
        (2, start + 2)
    } else if n >= 2 && cleaned[start] == '0' && (cleaned[start + 1] == 'o' || cleaned[start + 1] == 'O') {
        (8, start + 2)
    } else {
        (10, start)
    };
    proof {
        assert(radix_split(up).0 == radix as nat);
        assert(radix_split(up).1 =~= cleaned@.subrange(ds as int, hi as int));
    }
    if ds == hi || cleaned[ds] == '+' || cleaned[ds] == '-' {
        return Err(LiteralError { rule: Rule::ValuesMustFit, message: not_valid_message(text, ty), help: None });
    }
    let magnitude = match i128_radix(&cleaned, ds, hi, radix) {
        Some(v) => v,
        None => {
            if has_char(&chars, '.') {
                let mut h = String::new();
                ticked(&mut h, ty);
                h.append(" is an integer type; use `f64` for a fractional value");
                proof {
                    assert(h@ =~= ticked_type(ty) + " is an integer type; use `f64` for a fractional value"@);
                }
                return Err(
                    LiteralError { rule: Rule::ValuesMustFit, message: not_valid_message(text, ty), help: Some(h) },
                );
            } else {
                return Err(
                    LiteralError { rule: Rule::ValuesMustFit, message: not_valid_message(text, ty), help: None },
                );
            }
        },
    };
    let (lo_v, hi_v) = match ty.int_range() {
        Some(b) => b,
        None => (0, 0),
    };
    // A magnitude of `i128::MIN` negated leaves `i128`; it is out of every
    // range, and is reported as out of range for the type.
    if negative && magnitude == i128::MIN {
        let mut m = String::new();
        m.append("`");
        push_decimal(&mut m, 0x8000_0000_0000_0000_0000_0000_0000_0000);
        m.append("` is out of range for ");
        ticked(&mut m, ty);
        let mut h = String::new();
        if ty.is_unsigned_int() {
            ticked(&mut h, ty);
            h.append(" is unsigned and cannot hold a negative value");
        } else {
            ticked(&mut h, ty);
            h.append(" holds values from ");
            push_int(&mut h, lo_v);
            h.append(" to ");
            push_int(&mut h, hi_v);
        }
        proof {
            assert(m@ =~= "`"@ + int_text(0x8000_0000_0000_0000_0000_0000_0000_0000int) + "` is out of range for "@
                + ticked_type(ty));
            if unsigned_int(ty) {
                assert(h@ =~= ticked_type(ty) + " is unsigned and cannot hold a negative value"@);
            } else {
                assert(h@ =~= ticked_type(ty) + " holds values from "@ + int_text(lo_v as int) + " to "@ + int_text(
                    hi_v as int,
                ));
            }
        }
        return Err(LiteralError { rule: Rule::ValuesMustFit, message: m, help: Some(h) });
    }
    let value: i128 = if negative {
        -magnitude
    } else {
        magnitude
    };
    if value < lo_v || value > hi_v {
        let mut m = String::new();
        m.append("`");
        push_int(&mut m, value);
        m.append("` is out of range for ");
        ticked(&mut m, ty);
        let mut h = String::new();
        if negative && ty.is_unsigned_int() {
            ticked(&mut h, ty);
            h.append(" is unsigned and cannot hold a negative value");
        } else {
            ticked(&mut h, ty);
            h.append(" holds values from ");
            push_int(&mut h, lo_v);
            h.append(" to ");
            push_int(&mut h, hi_v);
        }
        proof {
            assert(m@ =~= "`"@ + int_text(value as int) + "` is out of range for "@ + ticked_type(ty));
            if negative && unsigned_int(ty) {
                assert(h@ =~= ticked_type(ty) + " is unsigned and cannot hold a negative value"@);
            } else {
                assert(h@ =~= ticked_type(ty) + " holds values from "@ + int_text(lo_v as int) + " to "@ + int_text(
                    hi_v as int,
                ));
            }
        }
        return Err(LiteralError { rule: Rule::ValuesMustFit, message: m, help: Some(h) });
    }
    if ty.is_unsigned_int() {
        Ok(Const::Uint(value as u64))
    } else {
        Ok(Const::Int(value as i64))
    }
}

/// A binary64 value as the float reader gives it: its bits, the bits of the
/// nearest binary32, and how the binary64 value prints.
#[derive(Clone, Debug)]
pub struct FloatValue {
    pub bits64: u64,
    pub bits32: u32,
    pub shown: String,
}

/// A literal body, separators dropped and white space trimmed, and what the
/// float reader made of it: nothing when it is not a float.
#[derive(Clone, Debug)]
pub struct FloatReading {
    pub body: String,
    pub value: Option<FloatValue>,
}

/// What the table says of `body`: the first entry for it, if any.
pub open spec fn float_entry(table: Seq<FloatReading>, body: Seq<char>) -> Option<Option<FloatValue>>
    decreases table.len(),
{
    if table.len() == 0 {
        None
    } else if table[0].body@ == body {
        Some(table[0].value)
    } else {
        float_entry(table.drop_first(), body)
    }
}

/// Binary32 bits of an infinity.
pub open spec fn single_infinite(b: u32) -> bool {
    b & 0x7fff_ffffu32 == 0x7f80_0000u32
}

/// Binary64 bits of a finite value.
pub open spec fn double_finite(b: u64) -> bool {
    b & 0x7ff0_0000_0000_0000u64 != 0x7ff0_0000_0000_0000u64
}

/// The body of a literal: separators dropped, white space trimmed.
pub open spec fn literal_body(text: Seq<char>) -> Seq<char> {
    trim_end(trim_start(remove_char(text, '_')))
}

/// Reading `text` as a float of type `ty`, with the float reader's answers
/// in `table`. A body the table does not hold reads as no float at all.
pub open spec fn float_literal(text: Seq<char>, ty: RtType, table: Seq<FloatReading>) -> Result<
    ConstView,
    LitErrView,
> {
    match float_entry(table, literal_body(text)) {
        Some(Some(v)) => if ty == RtType::F64 {
            Ok(ConstView::F64(v.bits64))
        } else if ty == RtType::F32 {
            if single_infinite(v.bits32) && double_finite(v.bits64) {
                Err(
                    unfit_help(
                        "`"@ + v.shown@ + "` is out of range for `f32`"@,
                        "`f32` holds magnitudes up to about 3.4e38; use `f64` instead"@,
                    ),
                )
            } else {
                Ok(ConstView::F32(v.bits32))
            }
        } else {
            let h = half_of_single(v.bits32);
            if single_infinite(single_of_half(h)) && double_finite(v.bits64) {
                Err(
                    unfit_help(
                        "`"@ + v.shown@ + "` is out of range for `f16`"@,
                        "`f16` holds magnitudes up to 65504; use `f32` or `f64` instead"@,
                    ),
                )
            } else {
                Ok(ConstView::F16(h))
            }
        },
        _ => Err(unfit(not_valid(text, ty))),
    }
}

/// Reading `text` as a value of type `ty`.
pub open spec fn literal_reading(text: Seq<char>, ty: RtType, table: Seq<FloatReading>) -> Result<
    ConstView,
    LitErrView,
> {
    match ty {
        RtType::Str => Ok(ConstView::Str(text)),
        RtType::Bool => if text == "true"@ {
            Ok(ConstView::Bool(true))
        } else if text == "false"@ {
            Ok(ConstView::Bool(false))
        } else {
            Err(unfit_help(quoted(text) + " is not a bool"@, "a bool literal is written `'true'` or `'false'`"@))
        },
        RtType::Nil => if text == "nil"@ {
            Ok(ConstView::Nil)
        } else {
            Err(unfit_help(quoted(text) + " is not nil"@, "the only value of type `nil` is written `'nil'`"@))
        },
        RtType::F16 | RtType::F32 | RtType::F64 => float_literal(text, ty, table),
        _ => int_literal(text, ty),
    }
}

/// The body of a literal, as the float reader is asked about it.
pub fn body_of(text: &str) -> (r: String)
    ensures
        r@ == literal_body(text@),
{
    let chars = chars_of(text);
    let cleaned = without_separators(&chars);
    let (lo, hi) = trimmed_range(&cleaned);
    let mut out: Vec<char> = Vec::new();
    let mut i = lo;
    while i < hi
        invariant
            lo <= i <= hi <= cleaned@.len(),
            out@ == cleaned@.subrange(lo as int, i as int),
        decreases hi - i,
    {
        out.push(cleaned[i]);
        proof {
            assert(out@ =~= cleaned@.subrange(lo as int, i + 1));
        }
        i = i + 1;
    }
    string_of(&out)
}

/// Where the table's entry for a body stands.
fn find_reading(table: &[FloatReading], body: &str) -> (r: Option<usize>)
    ensures
        match r {
            Some(i) => i < table@.len() && float_entry(table@, body@) == Some(table@[i as int].value),
            None => float_entry(table@, body@) is None,
        },
{
    let mut i: usize = 0;
    proof {
        assert(table@.skip(0) =~= table@);
    }
    while i < table.len()
        invariant
            i <= table@.len(),
            float_entry(table@, body@) == float_entry(table@.skip(i as int), body@),
        decreases table@.len() - i,
    {
        proof {
            assert(table@.skip(i as int).drop_first() =~= table@.skip(i + 1));
        }
        if str_eq(table[i].body.as_str(), body) {
            return Some(i);
        }
        i = i + 1;
    }
    None
}

/// Read `text` as a float of type `ty`.
fn parse_float(text: &str, ty: RtType, table: &[FloatReading]) -> (r: Result<Const, LiteralError>)
    requires
        ty == RtType::F16 || ty == RtType::F32 || ty == RtType::F64,
    ensures
        match float_literal(text@, ty, table@) {
            Ok(c) => r matches Ok(x) && x@ == c,
            Err(e) => r matches Err(x) && x@ == e,
        },
{
    let body = body_of(text);
    let v = match find_reading(table, body.as_str()) {
        Some(i) => match &table[i].value {
            Some(v) => v,
            None => {
                return Err(
                    LiteralError { rule: Rule::ValuesMustFit, message: not_valid_message(text, ty), help: None },
                );
            },
        },
        None => {
            return Err(LiteralError { rule: Rule::ValuesMustFit, message: not_valid_message(text, ty), help: None });
        },
    };
    let finite = v.bits64 & 0x7ff0_0000_0000_0000 != 0x7ff0_0000_0000_0000;
    match ty {
        RtType::F64 => Ok(Const::F64(v.bits64)),
        RtType::F32 => {
            if v.bits32 & 0x7fff_ffff == 0x7f80_0000 && finite {
                let mut m = String::new();
                m.append("`");
                m.append(v.shown.as_str());
                m.append("` is out of range for `f32`");
                let mut h = String::new();
                h.append("`f32` holds magnitudes up to about 3.4e38; use `f64` instead");
                proof {
                    assert(m@ =~= "`"@ + v.shown@ + "` is out of range for `f32`"@);
                }
                Err(LiteralError { rule: Rule::ValuesMustFit, message: m, help: Some(h) })
            } else {
                Ok(Const::F32(v.bits32))
            }
        },
        _ => {
            let h = half_from_single(v.bits32);
            if single_from_half(h) & 0x7fff_ffff == 0x7f80_0000 && finite {
                let mut m = String::new();
                m.append("`");
                m.append(v.shown.as_str());
                m.append("` is out of range for `f16`");
                let mut hp = String::new();
                hp.append("`f16` holds magnitudes up to 65504; use `f32` or `f64` instead");
                proof {
                    assert(m@ =~= "`"@ + v.shown@ + "` is out of range for `f16`"@);
                }
                Err(LiteralError { rule: Rule::ValuesMustFit, message: m, help: Some(hp) })
            } else {
                Ok(Const::F16(h))
            }
        },
    }
}

/// Interpret `text` as a value of type `ty`. Float literals are read with
/// the float reader's answers in `floats`.
pub fn parse(text: &str, ty: RtType, floats: &[FloatReading]) -> (r: Result<Const, LiteralError>)
    ensures
        match literal_reading(text@, ty, floats@) {
            Ok(c) => r matches Ok(x) && x@ == c,
            Err(e) => r matches Err(x) && x@ == e,
        },
{
    match ty {
        RtType::Str => Ok(Const::Str(string_of(&chars_of(text)))),
        RtType::Bool => {
            if str_eq(text, "true") {
                Ok(Const::Bool(true))
            } else if str_eq(text, "false") {
                Ok(Const::Bool(false))
            } else {
                let mut m = String::new();
                m.append("`'");
                m.append(text);
                m.append("'`");
                m.append(" is not a bool");
                let mut h = String::new();
                h.append("a bool literal is written `'true'` or `'false'`");
                proof {
                    assert(m@ =~= quoted(text@) + " is not a bool"@);
                }
                Err(LiteralError { rule: Rule::ValuesMustFit, message: m, help: Some(h) })
            }
        },
        RtType::Nil => {
            if str_eq(text, "nil") {
                Ok(Const::Nil)
            } else {
                let mut m = String::new();
                m.append("`'");
                m.append(text);
                m.append("'`");
                m.append(" is not nil");
                let mut h = String::new();
                h.append("the only value of type `nil` is written `'nil'`");
                proof {
                    assert(m@ =~= quoted(text@) + " is not nil"@);
                }
                Err(LiteralError { rule: Rule::ValuesMustFit, message: m, help: Some(h) })
            }
        },
        RtType::F16 | RtType::F32 | RtType::F64 => parse_float(text, ty, floats),
        _ => parse_int(text, ty),
    }
}

} // verus!
