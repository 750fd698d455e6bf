use manga_parser_core::key::{key, Chunk};

fn text(s: &str) -> Chunk {
    Chunk::Text(s.chars().collect())
}

#[test]
fn a_name_splits_into_runs_of_digits_and_text() {
    assert_eq!(key("ch_10.zip"), [text("ch_"), Chunk::Number(10), text(".zip")]);
    assert_eq!(key("007"), [Chunk::Number(7)]);
    assert_eq!(key(""), []);
    assert_eq!(key("Vol2Ch3"), [text("vol"), Chunk::Number(2), text("ch"), Chunk::Number(3)]);
}

#[test]
fn oversized_digit_runs_are_text() {
    let huge = "1".repeat(40);
    assert_eq!(key(&huge), [text(&huge)]);
    assert_eq!(key("340282366920938463463374607431768211455"), [Chunk::Number(u128::MAX)]);
}

#[test]
fn unicode_text_is_lowercased() {
    assert_eq!(key("ÉTÉ"), [text("été")]);
    assert_eq!(key("\u{39f}\u{394}\u{39f}\u{3a3}"), [text("\u{3bf}\u{3b4}\u{3bf}\u{3c2}")]);
}
