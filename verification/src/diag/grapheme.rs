//! Grapheme cluster segmentation: what Luarus means by "one character".
//!
//! A character is what a reader would point at, not a Unicode scalar value.
//! `c` is one character and so is a family emoji of seven scalars welded
//! together with zero-width joiners. Column numbers in diagnostics are counted
//! this way, so a caret lands where the eye expects it.
//!
//! This follows the UAX #29 extended grapheme cluster boundary rules (GB1 to
//! GB13, GB999). The rules are complete; the character property tables cover
//! the ranges that occur in practice: emoji and their modifiers, combining
//! marks for Latin, Greek, Cyrillic, Hebrew, Arabic, Thai, Lao and the Indic
//! scripts, regional indicators, Hangul, and the variation selectors. A
//! combining mark outside those ranges stands on its own rather than joining,
//! which misplaces a caret but never loses text.
use vstd::prelude::*;

use crate::text::chars_of;

verus! {

/// Grapheme cluster break property.
#[derive(Clone, Copy, PartialEq, Eq, Debug, Structural)]
pub enum Gcb {
    Other,
    Cr,
    Lf,
    Control,
    Extend,
    Zwj,
    RegionalIndicator,
    Prepend,
    SpacingMark,
    L,
    V,
    T,
    Lv,
    Lvt,
}

/// Combining marks, variation selectors, skin tones, tag characters.
pub const EXTEND: [(u32, u32); 150] = [
    (0x0300, 0x036F),
    (0x0483, 0x0489),
    (0x0591, 0x05BD),
    (0x05BF, 0x05BF),
    (0x05C1, 0x05C2),
    (0x05C4, 0x05C5),
    (0x05C7, 0x05C7),
    (0x0610, 0x061A),
    (0x064B, 0x065F),
    (0x0670, 0x0670),
    (0x06D6, 0x06DC),
    (0x06DF, 0x06E4),
    (0x06E7, 0x06E8),
    (0x06EA, 0x06ED),
    (0x0711, 0x0711),
    (0x0730, 0x074A),
    (0x07A6, 0x07B0),
    (0x07EB, 0x07F3),
    (0x0816, 0x0819),
    (0x081B, 0x0823),
    (0x0825, 0x0827),
    (0x0829, 0x082D),
    (0x0859, 0x085B),
    (0x08D3, 0x0902),
    (0x093A, 0x093A),
    (0x093C, 0x093C),
    (0x0941, 0x0948),
    (0x094D, 0x094D),
    (0x0951, 0x0957),
    (0x0962, 0x0963),
    (0x0981, 0x0981),
    (0x09BC, 0x09BC),
    (0x09C1, 0x09C4),
    (0x09CD, 0x09CD),
    (0x09E2, 0x09E3),
    (0x0A01, 0x0A02),
    (0x0A3C, 0x0A3C),
    (0x0A41, 0x0A42),
    (0x0A47, 0x0A48),
    (0x0A4B, 0x0A4D),
    (0x0A81, 0x0A82),
    (0x0ABC, 0x0ABC),
    (0x0AC1, 0x0AC5),
    (0x0AC7, 0x0AC8),
    (0x0ACD, 0x0ACD),
    (0x0B01, 0x0B01),
    (0x0B3C, 0x0B3C),
    (0x0B3F, 0x0B3F),
    (0x0B41, 0x0B44),
    (0x0B4D, 0x0B4D),
    (0x0B82, 0x0B82),
    (0x0BC0, 0x0BC0),
    (0x0BCD, 0x0BCD),
    (0x0C00, 0x0C00),
    (0x0C3E, 0x0C40),
    (0x0C46, 0x0C48),
    (0x0C4A, 0x0C4D),
    (0x0C81, 0x0C81),
    (0x0CBC, 0x0CBC),
    (0x0CBF, 0x0CBF),
    (0x0CC6, 0x0CC6),
    (0x0CCC, 0x0CCD),
    (0x0D01, 0x0D01),
    (0x0D41, 0x0D44),
    (0x0D4D, 0x0D4D),
    (0x0DCA, 0x0DCA),
    (0x0DD2, 0x0DD4),
    (0x0DD6, 0x0DD6),
    // Thai and Lao: above- and below-line vowels and tone marks.
    (0x0E31, 0x0E31),
    (0x0E34, 0x0E3A),
    (0x0E47, 0x0E4E),
    (0x0EB1, 0x0EB1),
    (0x0EB4, 0x0EBC),
    (0x0EC8, 0x0ECD),
    (0x0F18, 0x0F19),
    (0x0F35, 0x0F35),
    (0x0F37, 0x0F37),
    (0x0F39, 0x0F39),
    (0x0F71, 0x0F7E),
    (0x0F80, 0x0F84),
    (0x0F86, 0x0F87),
    (0x102D, 0x1030),
    (0x1032, 0x1037),
    (0x1039, 0x103A),
    (0x1058, 0x1059),
    (0x135D, 0x135F),
    (0x1712, 0x1714),
    (0x1732, 0x1734),
    (0x17B4, 0x17B5),
    (0x17B7, 0x17BD),
    (0x17C6, 0x17C6),
    (0x17C9, 0x17D3),
    (0x180B, 0x180D),
    (0x18A9, 0x18A9),
    (0x1A17, 0x1A18),
    (0x1AB0, 0x1AFF),
    (0x1B00, 0x1B03),
    (0x1B34, 0x1B34),
    (0x1B36, 0x1B3A),
    (0x1B6B, 0x1B73),
    (0x1BE6, 0x1BE6),
    (0x1C2C, 0x1C33),
    (0x1CD0, 0x1CD2),
    (0x1CD4, 0x1CE0),
    (0x1DC0, 0x1DFF),
    (0x200C, 0x200C),
    (0x20D0, 0x20F0),
    (0x2CEF, 0x2CF1),
    (0x2D7F, 0x2D7F),
    (0x2DE0, 0x2DFF),
    (0x302A, 0x302F),
    (0x3099, 0x309A),
    (0xA66F, 0xA672),
    (0xA674, 0xA67D),
    (0xA69E, 0xA69F),
    (0xA806, 0xA806),
    (0xA8E0, 0xA8F1),
    (0xA9B3, 0xA9B3),
    (0xAAB0, 0xAAB0),
    (0xAAB2, 0xAAB4),
    (0xABED, 0xABED),
    (0xFB1E, 0xFB1E),
    (0xFE00, 0xFE0F),
    (0xFE20, 0xFE2F),
    (0x101FD, 0x101FD),
    (0x10A01, 0x10A03),
    (0x11046, 0x11046),
    (0x110B9, 0x110BA),
    (0x11133, 0x11134),
    (0x111C0, 0x111C0),
    (0x11235, 0x11236),
    (0x112E9, 0x112EA),
    (0x1133C, 0x1133C),
    (0x114C2, 0x114C3),
    (0x116B6, 0x116B7),
    (0x1172B, 0x1172B),
    (0x11A34, 0x11A34),
    (0x16AF0, 0x16AF4),
    (0x16B30, 0x16B36),
    (0x1BC9D, 0x1BC9E),
    (0x1D165, 0x1D169),
    (0x1D16D, 0x1D172),
    (0x1D17B, 0x1D182),
    (0x1D185, 0x1D18B),
    (0x1D1AA, 0x1D1AD),
    (0x1D242, 0x1D244),
    (0x1E8D0, 0x1E8D6),
    // Emoji skin-tone modifiers.
    (0x1F3FB, 0x1F3FF),
    // Tag characters, used by flag sequences.
    (0xE0020, 0xE007F),
    (0xE0100, 0xE01EF),
];

/// Spacing combining marks, which attach to the preceding cluster (GB9a).
pub const SPACING_MARK: [(u32, u32); 108] = [
    (0x0903, 0x0903),
    (0x093B, 0x093B),
    (0x093E, 0x0940),
    (0x0949, 0x094C),
    (0x094E, 0x094F),
    (0x0982, 0x0983),
    (0x09BE, 0x09C0),
    (0x09C7, 0x09C8),
    (0x09CB, 0x09CC),
    (0x0A03, 0x0A03),
    (0x0A3E, 0x0A40),
    (0x0A83, 0x0A83),
    (0x0ABE, 0x0AC0),
    (0x0AC9, 0x0AC9),
    (0x0ACB, 0x0ACC),
    (0x0B02, 0x0B03),
    (0x0B3E, 0x0B3E),
    (0x0B40, 0x0B40),
    (0x0B47, 0x0B48),
    (0x0B4B, 0x0B4C),
    (0x0BBE, 0x0BBF),
    (0x0BC1, 0x0BC2),
    (0x0BC6, 0x0BC8),
    (0x0BCA, 0x0BCC),
    (0x0C01, 0x0C03),
    (0x0C41, 0x0C44),
    (0x0C82, 0x0C83),
    (0x0CBE, 0x0CBE),
    (0x0CC0, 0x0CC4),
    (0x0CC7, 0x0CC8),
    (0x0CCA, 0x0CCB),
    (0x0D02, 0x0D03),
    (0x0D3E, 0x0D40),
    (0x0D46, 0x0D48),
    (0x0D4A, 0x0D4C),
    (0x0D82, 0x0D83),
    (0x0DCF, 0x0DD1),
    (0x0DD8, 0x0DDF),
    (0x0DF2, 0x0DF3),
    // Thai SARA AM and its Lao counterpart.
    (0x0E33, 0x0E33),
    (0x0EB3, 0x0EB3),
    (0x0F3E, 0x0F3F),
    (0x0F7F, 0x0F7F),
    (0x1031, 0x1031),
    (0x103B, 0x103C),
    (0x1056, 0x1057),
    (0x17B6, 0x17B6),
    (0x17BE, 0x17C5),
    (0x17C7, 0x17C8),
    (0x1923, 0x1926),
    (0x1929, 0x192B),
    (0x1930, 0x1931),
    (0x1933, 0x1938),
    (0x1A19, 0x1A1A),
    (0x1B04, 0x1B04),
    (0x1B35, 0x1B35),
    (0x1B3B, 0x1B3B),
    (0x1B3D, 0x1B41),
    (0x1B43, 0x1B44),
    (0x1B82, 0x1B82),
    (0xA823, 0xA824),
    (0xA827, 0xA827),
    (0xA880, 0xA881),
    (0xA8B4, 0xA8C3),
    (0xA952, 0xA953),
    (0xA983, 0xA983),
    (0xAA2F, 0xAA30),
    (0xAA33, 0xAA34),
    (0xAA4D, 0xAA4D),
    (0xAAEB, 0xAAEB),
    (0xAAEE, 0xAAEF),
    (0xAAF5, 0xAAF5),
    (0xABE3, 0xABE4),
    (0xABE6, 0xABE7),
    (0xABE9, 0xABEA),
    (0xABEC, 0xABEC),
    (0x11000, 0x11000),
    (0x11002, 0x11002),
    (0x11082, 0x11082),
    (0x110B0, 0x110B2),
    (0x110B7, 0x110B8),
    (0x1112C, 0x1112C),
    (0x11182, 0x11182),
    (0x111B3, 0x111B5),
    (0x111BF, 0x111C0),
    (0x1122C, 0x1122E),
    (0x11232, 0x11233),
    (0x11235, 0x11235),
    (0x112E0, 0x112E2),
    (0x11302, 0x11303),
    (0x1133E, 0x1133F),
    (0x11341, 0x11344),
    (0x11347, 0x11348),
    (0x1134B, 0x1134D),
    (0x114B0, 0x114B2),
    (0x114B9, 0x114B9),
    (0x114BB, 0x114BE),
    (0x115AF, 0x115B1),
    (0x115B8, 0x115BB),
    (0x11630, 0x11632),
    (0x1163B, 0x1163C),
    (0x116AC, 0x116AC),
    (0x116AE, 0x116AF),
    (0x11720, 0x11721),
    (0x11726, 0x11726),
    (0x16F51, 0x16F7E),
    (0x1D165, 0x1D166),
    (0x1D16D, 0x1D172),
];

/// Format characters that begin a cluster rather than joining one (GB9b).
pub const PREPEND: [(u32, u32); 14] = [
    (0x0600, 0x0605),
    (0x06DD, 0x06DD),
    (0x070F, 0x070F),
    (0x0890, 0x0891),
    (0x08E2, 0x08E2),
    (0x0D4E, 0x0D4E),
    (0x110BD, 0x110BD),
    (0x110CD, 0x110CD),
    (0x111C2, 0x111C3),
    (0x1193F, 0x1193F),
    (0x11941, 0x11941),
    (0x11A3A, 0x11A3A),
    (0x11A84, 0x11A89),
    (0x11D46, 0x11D46),
];

/// Extended_Pictographic, needed by GB11 so emoji joiner sequences hold together.
pub const EXT_PICT: [(u32, u32); 24] = [
    (0x00A9, 0x00A9),
    (0x00AE, 0x00AE),
    (0x203C, 0x203C),
    (0x2049, 0x2049),
    (0x2122, 0x2122),
    (0x2139, 0x2139),
    (0x2194, 0x21AA),
    (0x231A, 0x231B),
    (0x2328, 0x2328),
    (0x2388, 0x2388),
    (0x23CF, 0x23CF),
    (0x23E9, 0x23F3),
    (0x23F8, 0x23FA),
    (0x24C2, 0x24C2),
    (0x25AA, 0x25FE),
    (0x2600, 0x27BF),
    (0x2934, 0x2935),
    (0x2B00, 0x2BFF),
    (0x3030, 0x3030),
    (0x303D, 0x303D),
    (0x3297, 0x3297),
    (0x3299, 0x3299),
    (0x1F000, 0x1FAFF),
    (0x1FC00, 0x1FFFD),
];

/// `c` falls in one of the inclusive ranges of `t`.
pub open spec fn in_table(c: u32, t: Seq<(u32, u32)>) -> bool {
    exists|i: int| 0 <= i < t.len() && (#[trigger] t[i]).0 <= c && c <= t[i].1
}

/// Whether `c` falls in one of `ranges`.
fn in_ranges(c: u32, ranges: &[(u32, u32)]) -> (r: bool)
    ensures
        r == in_table(c, ranges@),
{
    let mut i: usize = 0;
    while i < ranges.len()
        invariant
            i <= ranges@.len(),
            forall|j: int| 0 <= j < i ==> !((#[trigger] ranges@[j]).0 <= c && c <= ranges@[j].1),
        decreases ranges@.len() - i,
    {
        let (lo, hi) = ranges[i];
        if lo <= c && c <= hi {
            proof {
                assert(ranges@[i as int].0 <= c && c <= ranges@[i as int].1);
            }
            return true;
        }
        i = i + 1;
    }
    false
}

/// Format characters that are controls for segmentation.
pub open spec fn format_control(u: u32) -> bool {
    u == 0x00AD || u == 0x200B || u == 0x200E || u == 0x200F || u == 0x2028 || u == 0x2029 || u
        == 0xFEFF || (0x2060 <= u && u <= 0x2064) || (0xFFF9 <= u && u <= 0xFFFB)
}

/// The break property of a character.
pub open spec fn class_of(c: char) -> Gcb {
    let u = c as u32;
    if u == 0x000D {
        Gcb::Cr
    } else if u == 0x000A {
        Gcb::Lf
    } else if u == 0x200D {
        Gcb::Zwj
    } else if 0x1F1E6 <= u && u <= 0x1F1FF {
        Gcb::RegionalIndicator
    } else if 0xAC00 <= u && u <= 0xD7A3 {
        // Hangul syllable blocks: LV when the trailing jamo slot is empty.
        if (u - 0xAC00) % 28 == 0 {
            Gcb::Lv
        } else {
            Gcb::Lvt
        }
    } else if (0x1100 <= u && u <= 0x115F) || (0xA960 <= u && u <= 0xA97C) {
        Gcb::L
    } else if (0x1160 <= u && u <= 0x11A7) || (0xD7B0 <= u && u <= 0xD7C6) {
        Gcb::V
    } else if (0x11A8 <= u && u <= 0x11FF) || (0xD7CB <= u && u <= 0xD7FB) {
        Gcb::T
    } else if in_table(u, EXTEND@) {
        Gcb::Extend
    } else if in_table(u, SPACING_MARK@) {
        Gcb::SpacingMark
    } else if in_table(u, PREPEND@) {
        Gcb::Prepend
    } else if u < 0x20 || (0x7F <= u && u <= 0x9F) || format_control(u) {
        // Control: Cc, Cf, Zl, Zp, minus the joiners handled above.
        Gcb::Control
    } else {
        Gcb::Other
    }
}

/// Extended_Pictographic.
pub open spec fn ext_pict(c: char) -> bool {
    in_table(c as u32, EXT_PICT@)
}

fn class(c: char) -> (r: Gcb)
    ensures
        r == class_of(c),
{
    let u = c as u32;
    if u == 0x000D {
        return Gcb::Cr;
    }
    if u == 0x000A {
        return Gcb::Lf;
    }
    if u == 0x200D {
        return Gcb::Zwj;
    }
    if 0x1F1E6 <= u && u <= 0x1F1FF {
        return Gcb::RegionalIndicator;
    }
    if 0xAC00 <= u && u <= 0xD7A3 {
        return if (u - 0xAC00) % 28 == 0 {
            Gcb::Lv
        } else {
            Gcb::Lvt
        };
    }
    if (0x1100 <= u && u <= 0x115F) || (0xA960 <= u && u <= 0xA97C) {
        return Gcb::L;
    }
    if (0x1160 <= u && u <= 0x11A7) || (0xD7B0 <= u && u <= 0xD7C6) {
        return Gcb::V;
    }
    if (0x11A8 <= u && u <= 0x11FF) || (0xD7CB <= u && u <= 0xD7FB) {
        return Gcb::T;
    }
    if in_ranges(u, &EXTEND) {
        return Gcb::Extend;
    }
    if in_ranges(u, &SPACING_MARK) {
        return Gcb::SpacingMark;
    }
    if in_ranges(u, &PREPEND) {
        return Gcb::Prepend;
    }
    if u < 0x20 || (0x7F <= u && u <= 0x9F) {
        return Gcb::Control;
    }
    if u == 0x00AD || u == 0x200B || u == 0x200E || u == 0x200F || u == 0x2028 || u == 0x2029 || u
        == 0xFEFF || (0x2060 <= u && u <= 0x2064) || (0xFFF9 <= u && u <= 0xFFFB) {
        return Gcb::Control;
    }
    Gcb::Other
}

fn is_ext_pict(c: char) -> (r: bool)
    ensures
        r == ext_pict(c),
{
    in_ranges(c as u32, &EXT_PICT)
}

/// The UAX #29 rules, in order: whether a boundary falls between a character
/// of class `prev` and one of class `next`. `pict_run` says the run before a
/// joiner was a pictograph followed only by extenders; `ri_run` counts the
/// regional indicators just before.
pub open spec fn boundary(prev: Gcb, next: Gcb, pict_run: bool, ri_run: nat, next_char: char) -> bool {
    if prev == Gcb::Cr && next == Gcb::Lf {
        // GB3: CR x LF
        false
    } else if prev == Gcb::Control || prev == Gcb::Cr || prev == Gcb::Lf {
        // GB4
        true
    } else if next == Gcb::Control || next == Gcb::Cr || next == Gcb::Lf {
        // GB5
        true
    } else if prev == Gcb::L && (next == Gcb::L || next == Gcb::V || next == Gcb::Lv || next == Gcb::Lvt) {
        // GB6
        false
    } else if (prev == Gcb::Lv || prev == Gcb::V) && (next == Gcb::V || next == Gcb::T) {
        // GB7
        false
    } else if (prev == Gcb::Lvt || prev == Gcb::T) && next == Gcb::T {
        // GB8
        false
    } else if next == Gcb::Extend || next == Gcb::Zwj {
        // GB9
        false
    } else if next == Gcb::SpacingMark {
        // GB9a
        false
    } else if prev == Gcb::Prepend {
        // GB9b
        false
    } else if prev == Gcb::Zwj && pict_run && ext_pict(next_char) {
        // GB11
        false
    } else if prev == Gcb::RegionalIndicator && next == Gcb::RegionalIndicator && ri_run % 2 == 1 {
        // GB12, GB13
        false
    } else {
        // GB999
        true
    }
}

fn breaks(prev: Gcb, next: Gcb, pict_run: bool, ri_run: usize, next_char: char) -> (r: bool)
    ensures
        r == boundary(prev, next, pict_run, ri_run as nat, next_char),
{
    if prev == Gcb::Cr && next == Gcb::Lf {
        return false;
    }
    if prev == Gcb::Control || prev == Gcb::Cr || prev == Gcb::Lf {
        return true;
    }
    if next == Gcb::Control || next == Gcb::Cr || next == Gcb::Lf {
        return true;
    }
    if prev == Gcb::L && (next == Gcb::L || next == Gcb::V || next == Gcb::Lv || next == Gcb::Lvt) {
        return false;
    }
    if (prev == Gcb::Lv || prev == Gcb::V) && (next == Gcb::V || next == Gcb::T) {
        return false;
    }
    if (prev == Gcb::Lvt || prev == Gcb::T) && next == Gcb::T {
        return false;
    }
    if next == Gcb::Extend || next == Gcb::Zwj {
        return false;
    }
    if next == Gcb::SpacingMark {
        return false;
    }
    if prev == Gcb::Prepend {
        return false;
    }
    if prev == Gcb::Zwj && pict_run && is_ext_pict(next_char) {
        return false;
    }
    if prev == Gcb::RegionalIndicator && next == Gcb::RegionalIndicator && ri_run % 2 == 1 {
        return false;
    }
    true
}

/// Whether a pictograph run survives `next`, which joined the cluster.
pub open spec fn next_pict_run(next: Gcb, next_char: char, pict_run: bool) -> bool {
    if next == Gcb::Extend || next == Gcb::Zwj || next == Gcb::RegionalIndicator {
        // A pictograph run survives extenders and the joiner itself.
        pict_run
    } else {
        ext_pict(next_char)
    }
}

/// How many regional indicators end the run once `next` has joined.
pub open spec fn next_ri_run(next: Gcb, ri_run: nat) -> nat {
    if next == Gcb::RegionalIndicator {
        ri_run + 1
    } else if next == Gcb::Extend || next == Gcb::Zwj {
        ri_run
    } else {
        0
    }
}

/// Where the cluster being scanned ends: at the first boundary at or after
/// `i`, given what came before.
pub open spec fn scan_end(s: Seq<char>, i: int, prev: Gcb, pict_run: bool, ri_run: nat) -> int
    decreases s.len() - i,
{
    if i >= s.len() || i < 0 {
        s.len() as int
    } else {
        let c = s[i];
        let next = class_of(c);
        if boundary(prev, next, pict_run, ri_run, c) {
            i
        } else {
            scan_end(s, i + 1, next, next_pict_run(next, c, pict_run), next_ri_run(next, ri_run))
        }
    }
}

/// Where the cluster starting at `start` ends.
pub open spec fn cluster_end(s: Seq<char>, start: int) -> int {
    let first = s[start];
    let c = class_of(first);
    scan_end(s, start + 1, c, ext_pict(first), if c == Gcb::RegionalIndicator {
        1nat
    } else {
        0nat
    })
}

proof fn lemma_scan_end_bounds(s: Seq<char>, i: int, prev: Gcb, pict_run: bool, ri_run: nat)
    requires
        0 <= i <= s.len(),
    ensures
        i <= scan_end(s, i, prev, pict_run, ri_run) <= s.len(),
    decreases s.len() - i,
{
    if i < s.len() {
        let c = s[i];
        let next = class_of(c);
        if !boundary(prev, next, pict_run, ri_run, c) {
            lemma_scan_end_bounds(s, i + 1, next, next_pict_run(next, c, pict_run), next_ri_run(next, ri_run));
        }
    }
}

/// A cluster holds at least one character and stays within the text.
pub proof fn lemma_cluster_end_bounds(s: Seq<char>, start: int)
    requires
        0 <= start < s.len(),
    ensures
        start < cluster_end(s, start) <= s.len(),
{
    let first = s[start];
    let c = class_of(first);
    lemma_scan_end_bounds(s, start + 1, c, ext_pict(first), if c == Gcb::RegionalIndicator {
        1nat
    } else {
        0nat
    });
}

/// How many clusters the text from `start` holds.
pub open spec fn cluster_count(s: Seq<char>, start: int) -> nat
    decreases s.len() - start,
{
    if start < 0 || start >= s.len() {
        0
    } else {
        proof {
            lemma_cluster_end_bounds(s, start);
        }
        1 + cluster_count(s, cluster_end(s, start))
    }
}

/// There are no more clusters than characters.
pub proof fn lemma_cluster_count_bound(s: Seq<char>, start: int)
    requires
        0 <= start <= s.len(),
    ensures
        cluster_count(s, start) <= s.len() - start,
    decreases s.len() - start,
{
    if start < s.len() {
        lemma_cluster_end_bounds(s, start);
        lemma_cluster_count_bound(s, cluster_end(s, start));
    }
}

/// A character that cannot stand before a spacing mark without a break:
/// a control, a carriage return or a line feed.
pub open spec fn breaks_before_anything(c: char) -> bool {
    class_of(c) == Gcb::Control || class_of(c) == Gcb::Cr || class_of(c) == Gcb::Lf
}

/// Scanning `s` with a spacing mark `m` appended stops where scanning `s`
/// stops inside `s`, and runs through `m` where scanning `s` reached its end.
proof fn lemma_scan_end_spacing_mark(s: Seq<char>, m: char, i: int, prev: Gcb, pict_run: bool, ri_run: nat)
    requires
        1 <= i <= s.len(),
        prev == class_of(s[i - 1]),
        class_of(m) == Gcb::SpacingMark,
        !breaks_before_anything(s[s.len() - 1]),
    ensures
        scan_end(s.push(m), i, prev, pict_run, ri_run) == if scan_end(s, i, prev, pict_run, ri_run) < s.len() {
            scan_end(s, i, prev, pict_run, ri_run)
        } else {
            s.len() + 1int
        },
    decreases s.len() - i,
{
    let t = s.push(m);
    lemma_scan_end_bounds(s, i, prev, pict_run, ri_run);
    if i < s.len() {
        let c = s[i];
        assert(t[i] == c);
        let next = class_of(c);
        if !boundary(prev, next, pict_run, ri_run, c) {
            lemma_scan_end_spacing_mark(s, m, i + 1, next, next_pict_run(next, c, pict_run), next_ri_run(next, ri_run));
        }
    } else {
        assert(t[i] == m);
        assert(!boundary(prev, Gcb::SpacingMark, pict_run, ri_run, m));
        let pr = next_pict_run(Gcb::SpacingMark, m, pict_run);
        let rr = next_ri_run(Gcb::SpacingMark, ri_run);
        assert(scan_end(t, i + 1, Gcb::SpacingMark, pr, rr) == t.len());
    }
}

/// Appending a spacing mark leaves the count of clusters from any start
/// within the text unchanged.
proof fn lemma_count_spacing_mark(s: Seq<char>, m: char, start: int)
    requires
        0 <= start < s.len(),
        class_of(m) == Gcb::SpacingMark,
        !breaks_before_anything(s[s.len() - 1]),
    ensures
        cluster_count(s.push(m), start) == cluster_count(s, start),
    decreases s.len() - start,
{
    let t = s.push(m);
    let first = s[start];
    assert(t[start] == first);
    let c = class_of(first);
    let rr: nat = if c == Gcb::RegionalIndicator {
        1nat
    } else {
        0nat
    };
    lemma_scan_end_spacing_mark(s, m, start + 1, c, ext_pict(first), rr);
    lemma_cluster_end_bounds(s, start);
    lemma_cluster_end_bounds(t, start);
    let e = cluster_end(s, start);
    if e < s.len() {
        lemma_count_spacing_mark(s, m, e);
    } else {
        assert(cluster_end(t, start) == t.len());
        assert(cluster_count(t, t.len() as int) == 0);
        assert(cluster_count(s, s.len() as int) == 0);
    }
}

/// No cluster boundary falls before a spacing mark (GB9a): a text that does
/// not end in a control, carriage return or line feed holds as many clusters
/// with a spacing mark appended as without it. A consonant followed by a
/// spacing vowel sign, as in Devanagari, is one character to a reader.
pub proof fn lemma_no_break_before_spacing_mark(s: Seq<char>, m: char)
    requires
        s.len() > 0,
        class_of(m) == Gcb::SpacingMark,
        !breaks_before_anything(s[s.len() - 1]),
    ensures
        cluster_count(s.push(m), 0) == cluster_count(s, 0),
        s.len() == 1 ==> cluster_count(s.push(m), 0) == 1,
{
    lemma_count_spacing_mark(s, m, 0);
    if s.len() == 1 {
        lemma_cluster_end_bounds(s, 0);
        assert(cluster_count(s, 1) == 0);
    }
}

/// The clusters of the text from `start`, one after another.
pub open spec fn clusters_from(s: Seq<char>, start: int) -> Seq<Seq<char>>
    decreases s.len() - start,
{
    if start < 0 || start >= s.len() {
        Seq::empty()
    } else {
        proof {
            lemma_cluster_end_bounds(s, start);
        }
        seq![s.subrange(start, cluster_end(s, start))] + clusters_from(s, cluster_end(s, start))
    }
}

/// The end of the cluster starting at `start`.
fn cluster_end_at(chars: &Vec<char>, start: usize) -> (r: usize)
    requires
        start < chars@.len(),
    ensures
        r == cluster_end(chars@, start as int),
{
    let ghost s = chars@;
    let n = chars.len();
    let first = chars[start];
    let mut prev_class = class(first);
    let mut pict_run = is_ext_pict(first);
    let mut ri_run: usize = if prev_class == Gcb::RegionalIndicator {
        1
    } else {
        0
    };
    let mut i = start + 1;
    while i < chars.len()
        invariant
            s == chars@,
            start < i <= s.len(),
            ri_run <= i,
            scan_end(s, i as int, prev_class, pict_run, ri_run as nat) == cluster_end(s, start as int),
        decreases s.len() - i,
    {
        let next = chars[i];
        let next_class = class(next);
        if breaks(prev_class, next_class, pict_run, ri_run, next) {
            return i;
        }
        match next_class {
            Gcb::Extend => {},
            Gcb::Zwj => {},
            Gcb::RegionalIndicator => {
                ri_run = ri_run + 1;
            },
            _ => {
                pict_run = is_ext_pict(next);
                ri_run = 0;
            },
        }
        if next_class == Gcb::Other && is_ext_pict(next) {
            pict_run = true;
        }
        prev_class = next_class;
        i = i + 1;
    }
    i
}

/// The grapheme clusters of a string, one at a time.
pub struct Graphemes<'a> {
    src: &'a str,
    chars: Vec<char>,
    /// The character at which the next cluster starts.
    pos: usize,
}

impl<'a> Graphemes<'a> {
    /// The text being split.
    pub closed spec fn text(&self) -> Seq<char> {
        self.chars@
    }

    /// Where the next cluster starts, in characters.
    pub closed spec fn position(&self) -> int {
        self.pos as int
    }

    pub closed spec fn wf(&self) -> bool {
        &&& self.chars@ == self.src@
        &&& self.pos <= self.chars@.len()
    }

    /// The next cluster, or `None` once the text is used up.
    pub fn next(&mut self) -> (r: Option<&'a str>)
        requires
            old(self).wf(),
        ensures
            final(self).wf(),
            final(self).text() == old(self).text(),
            old(self).position() >= old(self).text().len() ==> r is None && final(self).position()
                == old(self).position(),
            old(self).position() < old(self).text().len() ==> {
                &&& final(self).position() == cluster_end(old(self).text(), old(self).position())
                &&& r matches Some(c) && c@ == old(self).text().subrange(
                    old(self).position(),
                    final(self).position(),
                )
                &&& final(self).position() > old(self).position()
                &&& r matches Some(c) && c@ == clusters_from(old(self).text(), old(self).position())[0]
                &&& clusters_from(final(self).text(), final(self).position()) == clusters_from(
                    old(self).text(),
                    old(self).position(),
                ).drop_first()
            },
    {
        if self.pos >= self.chars.len() {
            return None;
        }
        let start = self.pos;
        let end = cluster_end_at(&self.chars, start);
        proof {
            lemma_cluster_end_bounds(self.chars@, start as int);
            let cs = clusters_from(self.chars@, start as int);
            assert(cs.drop_first() =~= clusters_from(self.chars@, end as int));
        }
        self.pos = end;
        Some(self.src.substring_char(start, end))
    }
}

/// The clusters of `src`, from the start.
pub fn graphemes(src: &str) -> (r: Graphemes<'_>)
    ensures
        r.wf(),
        r.text() == src@,
        r.position() == 0,
{
    Graphemes { src, chars: chars_of(src), pos: 0 }
}

/// How many characters `src` contains, as a reader would count them.
pub fn count(src: &str) -> (r: usize)
    ensures
        r == cluster_count(src@, 0),
        r == clusters_from(src@, 0).len(),
        r <= src@.len(),
{
    proof {
        lemma_clusters_cover(src@, 0);
        lemma_cluster_count_bound(src@, 0);
    }
    let chars = chars_of(src);
    let ghost s = chars@;
    let mut pos: usize = 0;
    let mut n: usize = 0;
    while pos < chars.len()
        invariant
            s == chars@,
            s == src@,
            pos <= s.len(),
            n <= pos,
            n + cluster_count(s, pos as int) == cluster_count(s, 0),
        decreases s.len() - pos,
    {
        let end = cluster_end_at(&chars, pos);
        proof {
            lemma_cluster_end_bounds(s, pos as int);
        }
        pos = end;
        n = n + 1;
    }
    n
}

/// Pieces of text read one after another.
pub open spec fn flatten(cs: Seq<Seq<char>>) -> Seq<char>
    decreases cs.len(),
{
    if cs.len() == 0 {
        Seq::empty()
    } else {
        cs[0] + flatten(cs.drop_first())
    }
}

/// The clusters, read one after another, give back the text, and there are
/// as many of them as `count` says.
pub proof fn lemma_clusters_cover(s: Seq<char>, start: int)
    requires
        0 <= start <= s.len(),
    ensures
        flatten(clusters_from(s, start)) == s.subrange(start, s.len() as int),
        clusters_from(s, start).len() == cluster_count(s, start),
    decreases s.len() - start,
{
    if start < s.len() {
        lemma_cluster_end_bounds(s, start);
        let e = cluster_end(s, start);
        lemma_clusters_cover(s, e);
        let cs = clusters_from(s, start);
        assert(cs.drop_first() =~= clusters_from(s, e));
        assert(s.subrange(start, e) + s.subrange(e, s.len() as int) =~= s.subrange(start, s.len() as int));
    } else {
        assert(s.subrange(start, s.len() as int) =~= Seq::<char>::empty());
    }
}

} // verus!
