use toml_rs::error::{translate_position, TomlError};
use toml_rs::normalize::normalize_line_ending;
use toml_rs::text::split_path;

fn normalized(s: &str) -> String {
    normalize_line_ending(s).unwrap_or_else(|| s.to_string())
}

#[test]
fn normalize_collapses_crlf_only() {
    assert_eq!(normalize_line_ending("a\r\nb\rc"), Some("a\nb\rc".to_string()));
    assert_eq!(normalized("\r\n\r\n"), "\n\n");
    assert_eq!(normalize_line_ending("x\r"), Some("x\r".to_string()));
    assert_eq!(normalized("\r\r\n"), "\r\n");
}

#[test]
fn normalize_without_cr_is_identity() {
    assert_eq!(normalize_line_ending("a\nb = 1\n"), None);
    assert_eq!(normalize_line_ending(""), None);
    assert_eq!(normalize_line_ending("héllo\nwörld"), None);
}

#[test]
fn normalize_keeps_multibyte_text() {
    assert_eq!(normalized("ü\r\né\r"), "ü\né\r");
}

#[test]
fn position_of_parse_error() {
    let src = "x = 1\ny = @\n";
    let at = src.find('@').unwrap();
    assert_eq!(translate_position(src.as_bytes(), at), (1, 4));
}

#[test]
fn position_counts_characters() {
    let src = "k = \"é\"\nv = ü!";
    let at = src.find('!').unwrap();
    assert_eq!(translate_position(src.as_bytes(), at), (1, 5));
}

#[test]
fn position_past_end_is_clamped() {
    assert_eq!(translate_position(b"ab\ncd", 9), (1, 6));
    assert_eq!(translate_position(b"", 4), (0, 4));
}

#[test]
fn rendered_caret_sits_under_the_error() {
    let src = "x = 1\ny = @\n";
    let at = src.find('@').unwrap();
    let mut e = TomlError::custom("Unexpected `@`".to_string(), Some(at..at + 1));
    e.set_input(Some(src));
    let text = e.render();
    assert_eq!(
        text,
        "TOML parse error at line 2, column 5\n  |\n2 | y = @\n  |     ^\nUnexpected `@`\n"
    );
    let lines: Vec<&str> = text.lines().collect();
    assert_eq!(lines[2].find('@'), lines[3].find('^'));
}

#[test]
fn rendered_empty_span_gets_one_caret_and_long_span_is_cut() {
    let src = "a = [";
    let mut e = TomlError::custom("unclosed".to_string(), Some(5..5));
    e.set_input(Some(src));
    assert_eq!(e.render(), "TOML parse error at line 1, column 6\n  |\n1 | a = [\n  |      ^\nunclosed\n");
    let mut wide = TomlError::custom("bad".to_string(), Some(2..40));
    wide.set_input(Some(src));
    assert_eq!(wide.render(), "TOML parse error at line 1, column 3\n  |\n1 | a = [\n  |   ^^^\nbad\n");
}

#[test]
fn rendered_gutter_grows_with_line_number() {
    let src = "\n\n\n\n\n\n\n\n\n\nz = ?";
    let at = src.find('?').unwrap();
    let mut e = TomlError::custom("oops".to_string(), Some(at..at + 1));
    e.set_input(Some(src));
    assert_eq!(e.render(), "TOML parse error at line 11, column 5\n   |\n11 | z = ?\n   |     ^\noops\n");
}

#[test]
fn rendered_without_source_shows_keys() {
    let mut e = TomlError::custom("duplicate key".to_string(), None);
    assert_eq!(e.render(), "duplicate key\n");
    e.keys = vec!["a".to_string(), "b".to_string(), "c".to_string()];
    assert_eq!(e.render(), "duplicate key\nin `a.b.c`\n");
}

#[test]
fn error_accessors() {
    let mut e = TomlError::custom("m".to_string(), Some(3..7));
    assert_eq!(e.span(), Some(3..7));
    assert!(e.input.is_none());
    e.set_input(Some("abc"));
    assert_eq!(e.input.as_deref(), Some("abc"));
    e.set_input(None);
    assert!(e.input.is_none());
    assert_eq!(TomlError::custom("n".to_string(), None).span(), None);
}

#[test]
fn split_path_pieces() {
    assert_eq!(split_path("a.b.c"), vec!["a", "b", "c"]);
    assert_eq!(split_path("solo"), vec!["solo"]);
    assert_eq!(split_path(""), vec![""]);
    assert_eq!(split_path("a..b"), vec!["a", "", "b"]);
}

#[test]
fn position_at_multibyte_character_counts_characters() {
    assert_eq!(translate_position("éé".as_bytes(), 2), (0, 1));
    assert_eq!(translate_position("a\nüé = 1".as_bytes(), 4), (1, 1));
}
