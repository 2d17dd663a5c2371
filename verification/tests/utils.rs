use ymir::utils::{commit_summary, is_white_space};

fn std_summary(message: Option<&str>) -> String {
    message
        .map_or("No message", |v| v.lines().next().unwrap_or("No message"))
        .trim()
        .to_string()
}

#[test]
fn white_space_is_what_std_calls_white_space() {
    for code in 0..=0x10ffffu32 {
        if let Some(c) = char::from_u32(code) {
            assert_eq!(is_white_space(c), c.is_whitespace(), "U+{code:04X}");
        }
    }
}

#[test]
fn summary_is_the_trimmed_first_line() {
    assert_eq!(commit_summary(Some("Fix the parser\n\nLong text")), "Fix the parser");
    assert_eq!(commit_summary(Some("  spaced out \t\nrest")), "spaced out");
    assert_eq!(commit_summary(Some("windows line\r\nrest")), "windows line");
    assert_eq!(commit_summary(Some("one line")), "one line");
    assert_eq!(commit_summary(Some("\u{3000}wide\u{a0}")), "wide");
    assert_eq!(commit_summary(Some("äö ü\n")), "äö ü");
}

#[test]
fn summary_without_a_message() {
    assert_eq!(commit_summary(None), "No message");
    assert_eq!(commit_summary(Some("")), "No message");
}

#[test]
fn summary_of_a_message_with_an_empty_first_line_is_empty() {
    assert_eq!(commit_summary(Some("\nsecond")), "");
    assert_eq!(commit_summary(Some("   \n")), "");
    assert_eq!(commit_summary(Some("\r\n")), "");
    assert_eq!(commit_summary(Some(" ")), "");
}

#[test]
fn summary_agrees_with_lines_and_trim_of_std() {
    let pieces = ["", " ", "a", "\r", "\n", "\r\n", "\t", "b c", "\u{85}", "é", "\u{2028}"];
    for a in pieces {
        for b in pieces {
            for c in pieces {
                for d in pieces {
                    let text = format!("{a}{b}{c}{d}");
                    assert_eq!(
                        commit_summary(Some(&text)),
                        std_summary(Some(&text)),
                        "{text:?}"
                    );
                }
            }
        }
    }
    assert_eq!(commit_summary(None), std_summary(None));
}
