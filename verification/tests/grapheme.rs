use luarus::diag::grapheme::{count, graphemes};

#[test]
fn counts_ascii() {
    assert_eq!(count("c"), 1);
    assert_eq!(count("hello"), 5);
}

#[test]
fn a_zwj_family_is_one_character() {
    // U+1F9D1 ZWJ U+1F9D1 ZWJ U+1F9D2 ZWJ U+1F9D2: seven scalars, one glyph.
    let family = "🧑‍🧑‍🧒‍🧒";
    assert_eq!(family.chars().count(), 7);
    assert_eq!(count(family), 1);
}

#[test]
fn skin_tones_and_variation_selectors_attach() {
    assert_eq!(count("👍🏽"), 1);
    assert_eq!(count("❤️"), 1);
}

#[test]
fn flags_pair_their_regional_indicators() {
    assert_eq!(count("🇹🇭"), 1);
    assert_eq!(count("🇹🇭🇯🇵"), 2);
}

#[test]
fn combining_marks_join_their_base() {
    assert_eq!(count("é"), 1); // e + U+0301
    assert_eq!(count("a\u{0300}\u{0301}"), 1);
}

#[test]
fn thai_vowels_and_tone_marks_join() {
    assert_eq!(count("\u{0E01}\u{0E31}"), 1);
    assert_eq!(count("ไทย"), 3);
}

#[test]
fn crlf_is_one_cluster() {
    assert_eq!(count("\r\n"), 1);
    assert_eq!(count("a\r\nb"), 3);
}

#[test]
fn hangul_syllables_hold_together() {
    assert_eq!(count("\u{1100}\u{1161}\u{11A8}"), 1);
}

#[test]
fn slices_cover_the_whole_input() {
    for s in ["", "c", "🧑‍🧑‍🧒‍🧒", "a\u{0300}b🇹🇭", "ไทย\r\n"] {
        let mut g = graphemes(s);
        let mut joined = String::new();
        while let Some(cluster) = g.next() {
            joined.push_str(cluster);
        }
        assert_eq!(joined, s);
    }
}

#[test]
fn mixed_text_counts_as_read() {
    assert_eq!(count("c🧑‍🧑‍🧒‍🧒c"), 3);
}

#[test]
fn clusters_come_out_one_at_a_time() {
    let mut g = graphemes("a\u{0300}b🇹🇭\r\n");
    assert_eq!(g.next(), Some("a\u{0300}"));
    assert_eq!(g.next(), Some("b"));
    assert_eq!(g.next(), Some("🇹🇭"));
    assert_eq!(g.next(), Some("\r\n"));
    assert_eq!(g.next(), None);
    assert_eq!(g.next(), None);
}

#[test]
fn hangul_syllable_blocks_take_trailing_jamo() {
    // LV syllable, then a trailing jamo: one cluster.
    assert_eq!(count("\u{AC00}\u{11A8}"), 1);
    // An LVT syllable followed by a leading jamo: two.
    assert_eq!(count("\u{AC01}\u{1100}"), 2);
}
