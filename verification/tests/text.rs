use chat_commands::strip_command;
use chat_commands::text::{chars_of, is_space_char};

#[test]
fn strips_the_name_and_trims_the_rest() {
    assert_eq!(strip_command("?ping  a=1 now  ", "?ping"), Some("a=1 now"));
}

#[test]
fn a_message_that_is_the_name_leaves_nothing() {
    assert_eq!(strip_command("?ping", "?ping"), Some(""));
    assert_eq!(strip_command("?ping   ", "?ping"), Some(""));
}

#[test]
fn no_match_where_the_text_does_not_begin_with_the_name() {
    assert_eq!(strip_command("ping", "?ping"), None);
    assert_eq!(strip_command(" ?ping", "?ping"), None);
    assert_eq!(strip_command("?pin", "?ping"), None);
    assert_eq!(strip_command("", "?ping"), None);
}

#[test]
fn the_match_is_case_sensitive() {
    assert_eq!(strip_command("?Ping x", "?ping"), None);
    assert_eq!(strip_command("?PING x", "?ping"), None);
}

#[test]
fn the_name_need_not_end_at_a_word_boundary() {
    assert_eq!(strip_command("?pingpong x", "?ping"), Some("pong x"));
}

#[test]
fn the_empty_name_matches_everything() {
    assert_eq!(strip_command("  hello ", ""), Some("hello"));
    assert_eq!(strip_command("", ""), Some(""));
}

#[test]
fn names_and_text_beyond_ascii() {
    assert_eq!(strip_command("¿qué\u{2003}más\u{3000}", "¿qué"), Some("más"));
    assert_eq!(strip_command("¿que más", "¿qué"), None);
}

#[test]
fn strip_command_agrees_with_std() {
    let names = ["", "?", "?a", "?ab", "é"];
    let texts = ["", "?", "?a", "?a b", "?ab  c=d  e ", "x?a", "é\tz\n", " ?a"];
    for name in names {
        for text in texts {
            assert_eq!(strip_command(text, name), text.strip_prefix(name).map(|s| s.trim()));
        }
    }
}

#[test]
fn whitespace_is_what_std_calls_whitespace() {
    for code in 0u32..=0x10ffff {
        if let Some(c) = char::from_u32(code) {
            assert_eq!(is_space_char(c), c.is_whitespace(), "U+{:04X}", code);
        }
    }
}

#[test]
fn chars_of_lists_the_characters() {
    assert_eq!(chars_of("aé→"), vec!['a', 'é', '→']);
    assert_eq!(chars_of(""), Vec::<char>::new());
}
