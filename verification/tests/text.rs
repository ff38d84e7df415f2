use flashpdf_core::font::font_name;
use flashpdf_core::text::{encode, footer_text, ideograph, number_text, resolve_footer, standard_text, valid};
use flashpdf_core::{FontId, RenderError};

#[test]
fn given_cjk_and_latin_code_points_when_asked_for_break_opportunities_then_only_cjk_break_anywhere(
) {
    for character in ['中', 'あ', 'カ', '한', '\u{3000}', '。', '\u{20000}'] {
        assert!(ideograph(character), "{character:?}");
    }
    for character in ['a', 'Æ', 'α', 'Д', '\u{a0}', '-', '\u{2013}'] {
        assert!(!ideograph(character), "{character:?}");
    }
}

#[test]
fn win_ansi_maps_ascii_latin1_and_the_typographic_block() {
    assert_eq!(encode('A'), Ok(0x41));
    assert_eq!(encode('é'), Ok(0xe9));
    assert_eq!(encode('\u{20ac}'), Ok(128));
    assert_eq!(encode('\u{2014}'), Ok(151));
    assert_eq!(encode('\u{178}'), Ok(159));
    assert_eq!(encode('\u{1f642}'), Err(RenderError::UnsupportedCharacter('\u{1f642}')));
    assert_eq!(encode('\u{7f}'), Err(RenderError::UnsupportedCharacter('\u{7f}')));
}

#[test]
fn text_refuses_controls_but_body_whitespace_and_footer_tokens() {
    assert!(valid("a b\tc\n", false));
    assert!(!valid("a\u{0b}b", false));
    assert!(!valid("Page \u{1e}", false));
    assert!(valid("Page \u{1e} of \u{1f}", true));
    assert!(!valid("a\tb", true));
    assert!(valid("中文 \u{1f642}", false));
}

#[test]
fn font_resource_names_count_from_one() {
    assert_eq!(font_name(FontId::new(0)), b"F1".to_vec());
    assert_eq!(font_name(FontId::new(9)), b"F10".to_vec());
    assert_eq!(font_name(FontId::new(255)), b"F256".to_vec());
}

#[test]
fn numbers_are_written_in_decimal() {
    assert_eq!(number_text(0), "0");
    assert_eq!(number_text(65535), "65535");
    assert_eq!(number_text(u64::MAX), "18446744073709551615");
}

#[test]
fn footer_tokens_become_the_page_number_and_the_page_count() {
    assert_eq!(footer_text("Page \u{1e} of \u{1f}", 1, 2), "Page 1 of 2");
    assert_eq!(footer_text("\u{1e}/\u{1f}\u{1e}", 12, 340), "12/34012");
    assert_eq!(footer_text("Seite – \u{1e} 🙂", 9, 9), "Seite – 9 🙂");
    assert_eq!(footer_text("no tokens", 3, 4), "no tokens");
    assert_eq!(resolve_footer("\u{1f}:\u{1e}", "8888", "é"), "é:8888");
}

#[test]
fn helvetica_sets_winansi_and_the_whitespace_words_split_at() {
    assert!(standard_text("Café – 5 € \t\n"));
    assert!(!standard_text("smile 🙂"));
    assert!(!standard_text("中"));
    assert!(standard_text(""));
}
