use steadyflow::clean::clean;

fn c(s: &str) -> Vec<u8> {
    clean(&s.as_bytes().to_vec())
}

#[test]
fn strips_comments() {
    assert_eq!(c("a # comment\nb\n"), b"a\nb\n".to_vec());
}

#[test]
fn strips_whole_comment_lines() {
    assert_eq!(c("# only a comment\nkeep\n"), b"keep\n".to_vec());
}

#[test]
fn strips_trailing_whitespace() {
    assert_eq!(c("a   \n  b\t\t\n"), b"a\n  b\n".to_vec());
}

#[test]
fn drops_blank_lines() {
    assert_eq!(c("a\n\n   \n\t\nb\n"), b"a\nb\n".to_vec());
}

#[test]
fn keeps_leading_indentation() {
    assert_eq!(c("    deep   # note\nshallow\n"), b"    deep\nshallow\n".to_vec());
}

#[test]
fn keeps_order_of_surviving_lines() {
    assert_eq!(c("one\n# gone\ntwo\n\nthree\n"), b"one\ntwo\nthree\n".to_vec());
}

#[test]
fn unterminated_final_line_stays_unterminated() {
    assert_eq!(c("a\nb"), b"a\nb".to_vec());
}

#[test]
fn cleaning_is_idempotent() {
    let samples = [
        "a # x\n\n  b  \n# c\nd",
        "",
        "   \n\t\n",
        "x\n",
        "  mixed \t # tail\nend  ",
    ];
    for s in samples.iter() {
        let once = c(s);
        let twice = clean(&once);
        assert_eq!(once, twice);
    }
}

#[test]
fn empty_input_stays_empty() {
    assert_eq!(c(""), Vec::<u8>::new());
}

#[test]
fn whitespace_before_comment_is_dropped() {
    assert_eq!(c("a \t# c\n"), b"a\n".to_vec());
}
