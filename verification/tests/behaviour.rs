//! Behaviour of the library in detail: scanner cases,
//! the column tables, the styling state and the laws on concrete values.

use slice_ansi::scan::{is_control, scan, Scanned};
use slice_ansi::sgr::{osc8_kind, sgr_params, update_link, update_sgr};
use slice_ansi::text::{chars_of, string_of};
use slice_ansi::token::{tokenize, Tok};
use slice_ansi::unicode::{char_width, column_widths};
use slice_ansi::{
    checked_slice, checked_slice_from, checked_width, slice, slice_from, slice_with, width,
    width_with,
};

fn chars(s: &str) -> Vec<char> {
    s.chars().collect()
}

#[test]
fn is_control_agrees_with_std() {
    for u in 0u32..=0x10FFFF {
        if let Some(c) = char::from_u32(u) {
            assert_eq!(is_control(c), c.is_control(), "{u:#x}");
        }
    }
}

#[test]
fn char_width_follows_unicode_width() {
    assert_eq!(char_width('a'), 1);
    assert_eq!(char_width('古'), 2);
    assert_eq!(char_width('\u{301}'), 0);
    assert_eq!(char_width('\u{1}'), 0);
    assert_eq!(char_width('\u{9b}'), 0);
    assert_eq!(char_width('\u{17D8}'), 3);
    assert_eq!(column_widths(&chars("a古\u{301}")), vec![1, 2, 0]);
}

#[test]
fn text_round_trips_through_chars() {
    let s = "a古\u{1b}[1mé";
    assert_eq!(chars_of(s), chars(s));
    assert_eq!(string_of(&chars(s)), s);
}

#[test]
fn scanner_classifies_tokens() {
    let c = chars("\u{9b}31mx");
    match scan(&c, 0) {
        (Scanned::Escape(v), 4) => assert_eq!(v, chars("\u{9b}31m")),
        _ => panic!("8-bit CSI"),
    }
    let c = chars("\u{1b}]8;;u\u{7}x");
    match scan(&c, 0) {
        (Scanned::Escape(v), 7) => assert_eq!(v, chars("\u{1b}]8;;u\u{7}")),
        _ => panic!("OSC with BEL"),
    }
    let c = chars("\u{1b}(Bx");
    assert!(matches!(scan(&c, 0), (Scanned::Escape(_), 3)));
    let c = chars("\u{1b}\u{1}");
    assert!(matches!(scan(&c, 0), (Scanned::Escape(_), 1)));
    let c = chars("\u{1b}7x");
    assert!(matches!(scan(&c, 0), (Scanned::Escape(_), 2)));
    let c = chars("\u{1}x");
    assert!(matches!(scan(&c, 0), (Scanned::Control, 1)));
    let c = chars("x");
    assert!(matches!(scan(&c, 0), (Scanned::Visible('x'), 1)));
    // An unterminated string sequence runs to the end of the input.
    let c = chars("\u{9d}8;;abc");
    assert!(matches!(scan(&c, 0), (Scanned::Escape(_), 7)));
}

#[test]
fn tokenize_folds_zero_width_chars_and_drops_controls() {
    let c = chars("e\u{301}\u{1}\u{1b}[1m古");
    let cols = column_widths(&c);
    let toks = tokenize(&c, &cols);
    assert_eq!(toks.len(), 3);
    assert!(matches!(&toks[0], Tok::Ch(g, 1) if *g == chars("e\u{301}")));
    assert!(matches!(&toks[1], Tok::Esc(s) if *s == chars("\u{1b}[1m")));
    assert!(matches!(&toks[2], Tok::Ch(g, 2) if *g == chars("古")));
}

#[test]
fn sgr_state_updates() {
    assert_eq!(sgr_params(&chars("\u{1b}[1;31m")), Some(chars("1;31")));
    assert_eq!(sgr_params(&chars("\u{9b}m")), Some(vec![]));
    assert_eq!(sgr_params(&chars("\u{1b}[1K")), None);
    let mut active: Vec<Vec<char>> = Vec::new();
    update_sgr(&mut active, &chars("\u{1b}[31m"));
    update_sgr(&mut active, &chars("\u{1b}[1m"));
    assert_eq!(active.len(), 2);
    update_sgr(&mut active, &chars("\u{1b}[2K"));
    assert_eq!(active.len(), 2);
    update_sgr(&mut active, &chars("\u{1b}[0;32m"));
    assert_eq!(active, vec![chars("\u{1b}[0;32m")]);
    update_sgr(&mut active, &chars("\u{1b}[4;00m"));
    assert!(active.is_empty());
    update_sgr(&mut active, &chars("\u{1b}[4m"));
    update_sgr(&mut active, &chars("\u{1b}[m"));
    assert!(active.is_empty());
    // The values of an extended colour are no resets.
    update_sgr(&mut active, &chars("\u{1b}[38;2;255;0;0m"));
    update_sgr(&mut active, &chars("\u{1b}[48;5;0m"));
    assert_eq!(active.len(), 2);
    update_sgr(&mut active, &chars("\u{1b}[38;5;0;0m"));
    assert!(active.is_empty());
    update_sgr(&mut active, &chars("\u{1b}[0;38;2;0;0;0m"));
    assert_eq!(active, vec![chars("\u{1b}[0;38;2;0;0;0m")]);
    update_sgr(&mut active, &chars("\u{1b}[38;2;0;0;0;0m"));
    assert!(active.is_empty());
    update_sgr(&mut active, &chars("\u{1b}[38m"));
    assert_eq!(active.len(), 1);
    update_sgr(&mut active, &chars("\u{1b}[38;0m"));
    assert!(active.is_empty());
}

#[test]
fn hyperlink_state_updates() {
    assert_eq!(osc8_kind(&chars("\u{1b}]8;;http://x\u{7}")), Some(true));
    assert_eq!(osc8_kind(&chars("\u{1b}]8;id=1;http://x\u{1b}\\")), Some(true));
    assert_eq!(osc8_kind(&chars("\u{9d}8;;\u{9c}")), Some(false));
    assert_eq!(osc8_kind(&chars("\u{1b}]8;;\u{1b}\\")), Some(false));
    assert_eq!(osc8_kind(&chars("\u{1b}]8;x\u{7}")), None);
    assert_eq!(osc8_kind(&chars("\u{1b}]0;title\u{7}")), None);
    assert_eq!(osc8_kind(&chars("\u{1b}[31m")), None);
    let mut link: Option<Vec<char>> = None;
    update_link(&mut link, &chars("\u{1b}]8;;u\u{7}"));
    assert_eq!(link, Some(chars("\u{1b}]8;;u\u{7}")));
    update_link(&mut link, &chars("\u{1b}[1m"));
    assert_eq!(link, Some(chars("\u{1b}]8;;u\u{7}")));
    update_link(&mut link, &chars("\u{1b}]8;;\u{7}"));
    assert_eq!(link, None);
}

#[test]
fn width_skips_every_kind_of_escape() {
    assert_eq!(width("\u{9b}31mhi"), 2);
    assert_eq!(width("\u{1b}]8;;u\u{7}x"), 1);
    assert_eq!(width("\u{1b}(Bx"), 1);
    assert_eq!(width("\u{1b}Px\u{1b}\\y"), 1);
    assert_eq!(width("a\u{1}b\u{7f}"), 2);
    assert_eq!(width("e\u{301}"), 1);
}

#[test]
fn width_with_uses_the_given_columns() {
    assert_eq!(width_with("abc", &[1, 2, 3]), 6);
    assert_eq!(width_with("a\u{1b}[1mb", &[1, 5, 5, 5, 5, 2]), 3);
    assert_eq!(width_with("", &[]), 0);
}

#[test]
fn slice_with_uses_the_given_columns() {
    assert_eq!(slice_with("abc", &[2, 2, 2], 2, 4), "b");
    assert_eq!(slice_with("abc", &[2, 2, 2], 1, 4), "b");
    assert_eq!(slice_with("abc", &[1, 0, 1], 0, 1), "ab");
    assert_eq!(slice_with("abc", &[1, 1, 1], 2, 2), "");
}

#[test]
fn slice_drops_control_chars() {
    assert_eq!(slice("a\u{1}b", 0, 2), "ab");
}

#[test]
fn slice_carries_eight_bit_sgr() {
    assert_eq!(slice("\u{9b}31mab", 1, 2), "\u{9b}31mb\u{1b}[0m");
}

#[test]
fn slice_reopens_link_with_bel_terminator() {
    let s = "\u{1b}]8;;u\u{7}abc\u{1b}]8;;\u{7}";
    assert_eq!(slice(s, 1, 2), "\u{1b}]8;;u\u{7}b\u{1b}]8;;\u{1b}\\");
    assert_eq!(slice(s, 1, 3), "\u{1b}]8;;u\u{7}bc\u{1b}]8;;\u{1b}\\");
    assert_eq!(slice("a\u{1b}]8;;u\u{7}b\u{1b}]8;;\u{7}c", 1, 3), "\u{1b}]8;;u\u{7}b\u{1b}]8;;\u{7}c");
}

#[test]
fn zero_width_glyph_after_escape_is_a_glyph_of_its_own() {
    // A zero-width glyph that no base char precedes is a glyph of its own: kept
    // inside the span, and left out at the very end, past the clamped `end`.
    assert_eq!(slice("ab\u{1b}[0m\u{301}c", 0, 5), "ab\u{1b}[0m\u{301}c");
    assert_eq!(slice("ab\u{1b}[0m\u{301}", 0, 5), "ab");
    assert_eq!(slice("ab\u{1b}[0m\u{301}", 0, 2), "ab");
    assert_eq!(slice("\u{301}", 0, 1), "");
    assert_eq!(slice_from("\u{301}", 0), "");
}

#[test]
fn extended_colour_is_carried_and_reset() {
    let red = "\u{1b}[38;2;255;0;0m";
    assert_eq!(slice(&format!("{red}hello"), 1, 3), format!("{red}el\u{1b}[0m"));
    assert_eq!(slice(&format!("a{red}bc"), 0, 2), format!("a{red}b\u{1b}[0m"));
    assert_eq!(slice("\u{1b}[38;5;0mhi", 1, 2), "\u{1b}[38;5;0mi\u{1b}[0m");
    assert_eq!(slice("\u{1b}[48;5;0;1mhi", 1, 2), "\u{1b}[48;5;0;1mi\u{1b}[0m");
    assert_eq!(slice("\u{1b}[0;58;2;0;0;0mX", 0, 1), "\u{1b}[0;58;2;0;0;0mX\u{1b}[0m");
    assert_eq!(slice("\u{1b}[31;0mab", 1, 2), "b");
}

#[test]
fn slice_from_is_slice_to_width() {
    let s = "\u{1b}[1m古池\u{1b}[0mや";
    for start in 0..=8 {
        assert_eq!(slice_from(s, start), slice(s, start, width(s)));
    }
}

#[test]
fn end_is_clamped_to_width() {
    let s = "\u{1b}[32ma古b\u{1b}[0m";
    let w = width(s);
    for start in 0..=w + 1 {
        for end in w..w + 4 {
            assert_eq!(slice(s, start, end), slice(s, start, w));
        }
    }
}

#[test]
fn slice_of_styled_text_stays_within_span() {
    let texts = [
        "\u{1b}[31ma古\u{1b}[0mb\u{1b}]8;;u\u{1b}\\池c\u{1b}]8;;\u{1b}\\蛙d",
        "X\u{1b}\u{1}[31mY古",
        "\u{1b}\u{1}]ab\u{7}cd",
        "e\u{301}\u{9b}1;4m古\u{1b}(0x\u{1}y",
    ];
    for s in texts {
        let w = width(s);
        for start in 0..=w + 1 {
            for end in start..=w + 2 {
                let out = slice(s, start, end);
                assert!(width(&out) <= end - start, "{s:?} [{start},{end}) = {out:?}");
            }
        }
    }
}

#[test]
fn glyphs_inside_the_span_are_kept_whole() {
    let s = "a古b";
    assert_eq!(slice(s, 1, 3), "古");
    assert_eq!(slice(s, 2, 4), "b");
    assert_eq!(slice(s, 1, 2), "");
}

#[test]
fn escape_alone_before_a_dropped_control_char() {
    // The control char is dropped, so the escape meets the text after it.
    assert_eq!(slice("X\u{1b}\u{1}[31mY", 0, 7), "X\u{1b}[31mY");
}

/// The SGR sequences and the hyperlink that `text` leaves open, read token by token.
fn left_open(text: &str) -> (usize, bool) {
    let c = chars_of(text);
    let cols = column_widths(&c);
    let mut sgr: Vec<Vec<char>> = Vec::new();
    let mut link: Option<Vec<char>> = None;
    for t in tokenize(&c, &cols) {
        if let Tok::Esc(s) = t {
            update_sgr(&mut sgr, &s);
            update_link(&mut link, &s);
        }
    }
    (sgr.len(), link.is_some())
}

#[test]
fn slices_leave_no_style_or_link_open() {
    let texts = [
        "\u{1b}[31ma古\u{1b}[1mb\u{1b}]8;;u\u{1b}\\池c\u{1b}]8;;\u{1b}\\蛙d",
        "\u{9b}4mx\u{9d}8;;v\u{9c}yz\u{1b}[0;33mw",
        "\u{1b}[31mab\u{1b}[1;0mcd\u{1b}[m",
        "\u{1b}[2K\u{1b}(Bplain\u{1b}[",
        "\u{1b}[31ma\tb\u{1b}]8;;u\u{7}c\u{1}d\u{1b}[0m",
        "\u{1b}[38;2;255;0;0mre\u{1b}[48;5;0md\u{1b}[0mx",
    ];
    for s in texts {
        let w = width(s);
        for start in 0..=w {
            for end in start..=w + 1 {
                let out = slice(s, start, end);
                assert_eq!(left_open(&out), (0, false), "{s:?} [{start},{end}) = {out:?}");
            }
        }
    }
}

#[test]
fn a_dropped_control_char_can_open_a_style() {
    // The stray control char is dropped; the lone ESC then meets `[31m`.
    let out = slice("X\u{1b}\u{1}[31mY", 0, 7);
    assert_eq!(left_open(&out), (1, false));
}

#[test]
fn adjacent_slices_of_plain_narrow_text_join_up() {
    for s in ["hello world", "e\u{301}llo", "\u{301}ab", "tab\u{2}s", ""] {
        let w = width(s);
        for a in 0..=w + 1 {
            for m in a..=w + 2 {
                for e in m..=w + 3 {
                    let joined = slice(s, a, m) + &slice(s, m, e);
                    assert_eq!(joined, slice(s, a, e), "{s:?} {a} {m} {e}");
                }
            }
        }
    }
    assert_eq!(slice("hello", 0, 2) + &slice("hello", 2, 5), "hello");
}

#[test]
fn width_adds_up_after_a_part_without_escapes() {
    let parts = ["ab古", "a\u{1}", "e\u{301}", "", "x\u{7f}"];
    let rest = ["\u{1b}[31mc", "古\u{1b}]8;;u\u{7}d", "", "\u{301}z"];
    for a in parts {
        for b in rest {
            assert_eq!(width(&format!("{a}{b}")), width(a) + width(b), "{a:?} {b:?}");
        }
    }
    assert_eq!(width("ab古\u{1b}[31mc"), 5);
}

#[test]
fn plain_text_sliced_whole_comes_back() {
    for s in ["hello", "古池や蛙", "\u{301}a", "e\u{301}x", "a\u{200b}"] {
        assert_eq!(slice_from(s, 0), s);
    }
    assert_eq!(slice_from("\u{301}", 0), "");
}

#[test]
fn checked_forms_agree_when_the_width_fits() {
    let s = "\u{1b}[31m古池\u{1b}[0mや";
    assert_eq!(checked_width(s), Some(6));
    assert_eq!(checked_width(""), Some(0));
    assert_eq!(checked_slice(s, 2, 4), Some("\u{1b}[31m池\u{1b}[0m".to_string()));
    assert_eq!(checked_slice(s, 3, 3), Some(String::new()));
    assert_eq!(checked_slice_from(s, 4), Some("や".to_string()));
    assert_eq!(checked_slice_from("hello", 2), Some("llo".to_string()));
}

#[test]
fn slice_of_text_with_a_dropped_control_char_closes_its_styling() {
    // The pieces of this slice close everything they open, even where the
    // dropped control char makes the result read back differently.
    assert_eq!(slice("\u{1b}[31ma\u{1}b\u{1b}]8;;u\u{7}c", 1, 3), "\u{1b}[31mb\u{1b}]8;;u\u{7}c\u{1b}[0m\u{1b}]8;;\u{1b}\\");
    assert_eq!(slice("\u{1b}\u{1}(x", 0, 2), "(x");
}
