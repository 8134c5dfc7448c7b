use gitstream::editor::{editor_command, split_words};

fn cmd(visual: Option<&str>, editor: Option<&str>) -> (String, Vec<String>) {
    editor_command(visual, editor)
}

#[test]
fn visual_wins_over_editor() {
    assert_eq!(cmd(Some("nvim"), Some("nano")), ("nvim".to_string(), vec![]));
}

#[test]
fn blank_visual_falls_back_to_editor() {
    assert_eq!(cmd(Some("  \t"), Some("nano -w")), ("nano".to_string(), vec!["-w".to_string()]));
    assert_eq!(cmd(None, Some("emacs")), ("emacs".to_string(), vec![]));
}

#[test]
fn nothing_set_means_vi() {
    assert_eq!(cmd(None, None), ("vi".to_string(), vec![]));
    assert_eq!(cmd(Some(""), Some(" ")), ("vi".to_string(), vec![]));
}

#[test]
fn arguments_are_split_on_whitespace() {
    assert_eq!(
        cmd(Some("  code   --wait\t-n "), None),
        ("code".to_string(), vec!["--wait".to_string(), "-n".to_string()])
    );
    assert_eq!(split_words(" a  bc\nd "), vec!["a".to_string(), "bc".to_string(), "d".to_string()]);
    assert!(split_words("   ").is_empty());
}

#[test]
fn unicode_whitespace_separates_words() {
    assert_eq!(cmd(Some("\u{3000}"), Some("nano")), ("nano".to_string(), vec![]));
    assert_eq!(cmd(Some("code\u{a0}--wait"), None), ("code".to_string(), vec!["--wait".to_string()]));
}

#[test]
fn words_split_as_std_splits_whitespace() {
    let mut s = String::new();
    for cp in 0u32..0x3100 {
        if let Some(c) = char::from_u32(cp) {
            if cp % 7 == 0 || c.is_whitespace() {
                s.push(c);
            }
        }
    }
    let ours = split_words(&s);
    let std_words: Vec<String> = s.split_whitespace().map(|w| w.to_string()).collect();
    assert_eq!(ours, std_words);
}
