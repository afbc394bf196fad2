use file_picker::shell_escape::{escape, safe_char};

/// Reads one word as a POSIX shell does, for single quotes, backslashes and
/// plain characters; `None` when the text is not exactly one word.
fn shell_word(w: &str) -> Option<String> {
    if w.is_empty() {
        return None;
    }
    let mut out = String::new();
    let mut quoted = false;
    let mut chars = w.chars();
    while let Some(c) = chars.next() {
        if quoted {
            if c == '\'' {
                quoted = false;
            } else {
                out.push(c);
            }
        } else if c == '\'' {
            quoted = true;
        } else if c == '\\' {
            out.push(chars.next()?);
        } else if c.is_whitespace() || ";&|<>()$`\"*?[]#~=%!{}".contains(c) {
            return None;
        } else {
            out.push(c);
        }
    }
    if quoted {
        None
    } else {
        Some(out)
    }
}

#[test]
fn escape_quotes_and_reads_back() {
    let p = "it's a \"test\".txt";
    let e = escape(p.to_string());
    assert_eq!(e, "'it'\\''s a \"test\".txt'");
    assert_eq!(shell_word(&e), Some(p.to_string()));
}

#[test]
fn escape_passes_safe_path_through() {
    assert_eq!(escape("plain_file-1.2.3".to_string()), "plain_file-1.2.3");
    assert_eq!(escape("/usr/lib/a:b@c".to_string()), "/usr/lib/a:b@c");
}

#[test]
fn escape_metacharacters() {
    for p in ["a;rm -rf x", "$(id)", "a b", "`x`", "a|b&c", "x\ny", "tab\there", "'"] {
        let e = escape(p.to_string());
        assert_eq!(shell_word(&e), Some(p.to_string()), "{}", p);
    }
    assert_eq!(escape("a;b".to_string()), "'a;b'");
    assert_eq!(escape(String::new()), "");
}

#[test]
fn safe_chars() {
    for c in ['a', 'Z', '0', '-', '_', '.', '/', ':', '@'] {
        assert!(safe_char(c));
    }
    for c in [' ', '\'', '"', ';', '$', 'é', '*'] {
        assert!(!safe_char(c));
    }
}
