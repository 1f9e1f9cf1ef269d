use semsearch::chunk_text;

#[test]
fn splits_on_blank_lines() {
    let text = "First para.\nStill first.\n\nSecond para.\n\n\nThird para.";
    let chunks = chunk_text(text);
    assert_eq!(
        chunks,
        vec!["First para.\nStill first.", "Second para.", "Third para.",]
    );
}

#[test]
fn ignores_leading_and_trailing_blank_lines() {
    let text = "\n\nOnly para.\n\n";
    assert_eq!(chunk_text(text), vec!["Only para."]);
}

#[test]
fn empty_input_yields_no_chunks() {
    assert!(chunk_text("").is_empty());
}

#[test]
fn handles_crlf_line_endings() {
    let text = "First.\r\n\r\nSecond.";
    assert_eq!(chunk_text(text), vec!["First.", "Second."]);
}

#[test]
fn whitespace_only_lines_separate_paragraphs() {
    let text = "one\n  \t \ntwo\n\u{3000}\nthree";
    assert_eq!(chunk_text(text), vec!["one", "two", "three"]);
}

#[test]
fn chunks_are_trimmed_but_inner_indentation_kept() {
    let text = "   first line\n   second line   \n";
    assert_eq!(chunk_text(text), vec!["first line\n   second line"]);
}

#[test]
fn whitespace_only_input_yields_no_chunks() {
    assert!(chunk_text(" \n\t\n\r\n   ").is_empty());
}

#[test]
fn crlf_inside_a_paragraph_becomes_lf() {
    assert_eq!(chunk_text("a\r\nb\r\n"), vec!["a\nb"]);
}

#[test]
fn lone_carriage_return_stays_inside_a_line() {
    assert_eq!(chunk_text("a\rb"), vec!["a\rb"]);
    assert_eq!(chunk_text("a\r\r\nb"), vec!["a\r\nb"]);
}

#[test]
fn trailing_carriage_return_is_trimmed() {
    assert_eq!(chunk_text("last\r"), vec!["last"]);
}

#[test]
fn unicode_text_is_kept() {
    assert_eq!(chunk_text("héllo wörld\n\n日本語"), vec!["héllo wörld", "日本語"]);
}

#[test]
fn law_blank_line_separates_on_examples() {
    let pairs = [("a\nb", "c"), ("", "x"), ("x", ""), ("p\r", "\n q"), ("one\n\n", "two\n")];
    for (a, b) in pairs {
        let joined = format!("{a}\n\n{b}");
        let mut expected = chunk_text(a);
        expected.extend(chunk_text(b));
        assert_eq!(chunk_text(&joined), expected, "{a:?} / {b:?}");
    }
}

#[test]
fn law_final_newline_is_optional_on_examples() {
    for t in ["", "a", "a\n", "a\r", "a\n\nb", "x\r\n\r", " \n"] {
        assert_eq!(chunk_text(&format!("{t}\n")), chunk_text(t), "{t:?}");
    }
}

#[test]
fn law_crlf_same_as_lf_on_examples() {
    for t in ["a\nb\n\nc", "\n\nx\n", "one line", "p\n \nq\n"] {
        let crlf = t.replace('\n', "\r\n");
        assert_eq!(chunk_text(&crlf), chunk_text(t), "{t:?}");
    }
}

#[test]
fn law_chunks_are_trimmed_on_examples() {
    for t in ["  a  \n b \n\n\t c\t", "\u{a0}x\u{2003}", "x\n \ny"] {
        for c in chunk_text(t) {
            assert!(!c.is_empty());
            assert_eq!(c.trim(), c);
        }
    }
}

#[test]
fn law_rechunking_joined_chunks_on_examples() {
    for t in ["  a \n b\n\n\n c  ", "x", "", "one\n\ttwo \n \nthree\nfour\n\n"] {
        let r = chunk_text(t);
        assert_eq!(chunk_text(&r.join("\n\n")), r, "{t:?}");
    }
}
