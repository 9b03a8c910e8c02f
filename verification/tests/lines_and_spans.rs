use lyneate::classify::{classify, classify_all, Classified, LinearAnnotation, MultilineAnnotation};
use lyneate::lines::{index_lines, locate};
use lyneate::util::byte_span_to_char_span;
use lyneate::CharSpan;

fn chars(text: &str) -> Vec<char> {
    text.chars().collect()
}

#[test]
fn index_lines_keeps_the_newline_with_its_line() {
    let code = chars("let x = 1;\nlet y = 2;\n");
    let lines = index_lines(&code);
    assert_eq!(lines.len(), 3);
    assert_eq!((lines[0].char_start, lines[0].char_end), (0, 11));
    assert_eq!(lines[0].text, chars("let x = 1;\n"));
    assert_eq!((lines[1].char_start, lines[1].char_end), (11, 22));
    assert_eq!(lines[1].text, chars("let y = 2;\n"));
    assert_eq!((lines[2].char_start, lines[2].char_end), (22, 22));
    assert!(lines[2].text.is_empty());
}

#[test]
fn index_lines_of_empty_source_is_one_empty_line() {
    let lines = index_lines(&Vec::new());
    assert_eq!(lines.len(), 1);
    assert_eq!((lines[0].char_start, lines[0].char_end), (0, 0));
}

#[test]
fn index_lines_without_final_newline() {
    let code = chars("a\n\nbc");
    let lines = index_lines(&code);
    assert_eq!(lines.len(), 3);
    assert_eq!((lines[0].char_start, lines[0].char_end), (0, 2));
    assert_eq!((lines[1].char_start, lines[1].char_end), (2, 3));
    assert_eq!((lines[2].char_start, lines[2].char_end), (3, 5));
    assert_eq!(lines[2].text, chars("bc"));
}

#[test]
fn index_lines_counts_characters_not_bytes() {
    let code = chars("é\nü");
    let lines = index_lines(&code);
    assert_eq!(lines.len(), 2);
    assert_eq!((lines[0].char_start, lines[0].char_end), (0, 2));
    assert_eq!((lines[1].char_start, lines[1].char_end), (2, 3));
}

#[test]
fn locate_finds_the_line_that_holds_the_offset() {
    let code = chars("ab\ncd\nef");
    let lines = index_lines(&code);
    assert_eq!(locate(&lines, 0), 0);
    assert_eq!(locate(&lines, 2), 0);
    assert_eq!(locate(&lines, 3), 1);
    assert_eq!(locate(&lines, 5), 1);
    assert_eq!(locate(&lines, 6), 2);
    assert_eq!(locate(&lines, 7), 2);
}

#[test]
fn locate_falls_back_to_the_last_line_at_the_end() {
    let code = chars("ab\ncd\nef");
    let lines = index_lines(&code);
    assert_eq!(locate(&lines, 8), 2);
    let code = chars("ab\n");
    let lines = index_lines(&code);
    assert_eq!(locate(&lines, 3), 1);
}

#[test]
fn classify_linear_when_start_and_end_share_a_line() {
    let code = chars("let x = 1;\nlet y = 2;\n");
    let lines = index_lines(&code);
    let c = classify(&lines, 7, CharSpan { start: 15, end: 16 });
    assert_eq!(
        c,
        Classified::Linear(LinearAnnotation {
            id: 7,
            line: 1,
            span: CharSpan { start: 4, end: 5 },
        })
    );
}

#[test]
fn classify_multiline_when_start_and_end_are_on_different_lines() {
    let code = chars("let x = 1;\nlet y = 2;\n");
    let lines = index_lines(&code);
    let c = classify(&lines, 2, CharSpan { start: 4, end: 14 });
    assert_eq!(
        c,
        Classified::Multiline(MultilineAnnotation {
            id: 2,
            start_line: 0,
            end_line: 1,
            pre_len: 4,
            end_len: 3,
        })
    );
}

#[test]
fn classify_span_up_to_and_with_the_newline_is_linear() {
    let code = chars("ab\ncd\n");
    let lines = index_lines(&code);
    assert_eq!(
        classify(&lines, 0, CharSpan { start: 0, end: 2 }),
        Classified::Linear(LinearAnnotation {
            id: 0,
            line: 0,
            span: CharSpan { start: 0, end: 2 },
        })
    );
    // the end offset 3 is the first character of the next line
    assert_eq!(
        classify(&lines, 0, CharSpan { start: 0, end: 3 }),
        Classified::Multiline(MultilineAnnotation {
            id: 0,
            start_line: 0,
            end_line: 1,
            pre_len: 0,
            end_len: 0,
        })
    );
}

#[test]
fn classify_all_keeps_each_kind_in_order() {
    let code = chars("ab\ncd\nef\n");
    let lines = index_lines(&code);
    let spans = vec![
        CharSpan { start: 0, end: 1 },
        CharSpan { start: 1, end: 7 },
        CharSpan { start: 6, end: 8 },
        CharSpan { start: 4, end: 6 },
    ];
    let set = classify_all(&lines, &spans);
    assert_eq!(
        set.linear,
        vec![
            LinearAnnotation { id: 0, line: 0, span: CharSpan { start: 0, end: 1 } },
            LinearAnnotation { id: 2, line: 2, span: CharSpan { start: 0, end: 2 } },
        ]
    );
    assert_eq!(
        set.multiline,
        vec![
            MultilineAnnotation { id: 1, start_line: 0, end_line: 2, pre_len: 1, end_len: 1 },
            MultilineAnnotation { id: 3, start_line: 1, end_line: 2, pre_len: 1, end_len: 0 },
        ]
    );
}

#[test]
fn byte_span_to_char_span_counts_characters() {
    // é is 2 bytes, 漢 is 3 bytes, 🦀 is 4 bytes
    let text = "aé漢🦀z";
    assert_eq!(byte_span_to_char_span(text, 0usize..1), 0..1);
    assert_eq!(byte_span_to_char_span(text, 1usize..3), 1..2);
    assert_eq!(byte_span_to_char_span(text, 3usize..6), 2..3);
    assert_eq!(byte_span_to_char_span(text, 6usize..10), 3..4);
    assert_eq!(byte_span_to_char_span(text, 1usize..11), 1..5);
    assert_eq!(byte_span_to_char_span(text, 11usize..11), 5..5);
    assert_eq!(
        byte_span_to_char_span(text, CharSpan { start: 3, end: 10 }),
        CharSpan { start: 2, end: 4 }
    );
}

#[test]
fn byte_span_to_char_span_is_the_identity_on_ascii() {
    let text = "let x = 1;\nlet y = 2;\n";
    for start in 0..=text.len() {
        for end in start..=text.len() {
            assert_eq!(byte_span_to_char_span(text, start..end), start..end);
        }
    }
}
