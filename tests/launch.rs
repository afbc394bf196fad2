use file_picker::launch::{contains_blank, editor_plan, Launch};

fn shape(l: &Launch) -> (String, Vec<String>) {
    (l.program.clone(), l.args.clone())
}

#[test]
fn plan_without_editor_uses_pager() {
    let plan = editor_plan(None, "/tmp/a b".to_string());
    assert_eq!(plan.len(), 3);
    assert_eq!(shape(&plan[0]), ("less".to_string(), vec!["/tmp/a b".to_string()]));
    assert_eq!(shape(&plan[1]), ("less".to_string(), vec!["/tmp/a b".to_string()]));
    assert_eq!(shape(&plan[2]), ("vi".to_string(), vec!["/tmp/a b".to_string()]));
}

#[test]
fn plan_with_plain_editor_runs_it_directly() {
    let plan = editor_plan(Some("nano".to_string()), "/tmp/it's".to_string());
    assert_eq!(shape(&plan[0]), ("nano".to_string(), vec!["/tmp/it's".to_string()]));
    assert_eq!(shape(&plan[2]), ("vi".to_string(), vec!["/tmp/it's".to_string()]));
}

#[test]
fn plan_with_editor_flags_goes_through_shell() {
    let plan = editor_plan(Some("code -w".to_string()), "/tmp/it's a.txt".to_string());
    assert_eq!(
        shape(&plan[0]),
        (
            "sh".to_string(),
            vec!["-c".to_string(), "code -w '/tmp/it'\\''s a.txt'".to_string()]
        )
    );
    assert_eq!(shape(&plan[1]), ("less".to_string(), vec!["/tmp/it's a.txt".to_string()]));
}

#[test]
fn blanks() {
    assert!(contains_blank("a b"));
    assert!(contains_blank("a\tb"));
    assert!(!contains_blank("vim"));
    assert!(!contains_blank(""));
}

#[test]
fn blanks_are_unicode_whitespace() {
    for c in ['\r', '\u{b}', '\u{c}', '\u{85}', '\u{a0}', '\u{2003}', '\u{3000}'] {
        assert!(contains_blank(&format!("ed{}-x", c)), "{:?}", c);
        assert!(c.is_whitespace());
    }
    assert!(!contains_blank("ed\u{200b}x"));
    let plan = editor_plan(Some("a\rb".to_string()), "f".to_string());
    assert_eq!(plan[0].program, "sh");
    assert_eq!(plan[0].args, vec!["-c".to_string(), "a\rb f".to_string()]);
}
