use oliword::{decode, render, Align, Renderer, Token};

fn p(c: char) -> Token {
    Token::Printable(c)
}

fn text(groups: &[Vec<char>]) -> Vec<String> {
    groups.iter().map(|g| g.iter().collect()).collect()
}

#[test]
fn end_to_end_scenario() {
    let input = vec![0x1B, 0x1B, 0x48, 0x69, 0x0A, 0xFF, 0x58, 0x59, 0xFF, 0x4F, 0x4B, 0x0A, 0xFF];
    let groups = text(&decode(&input));
    assert_eq!(groups, vec!["{\\pard \\qj Hi \\par}", "{\\pard \\qj OK \\par}"]);
}

#[test]
fn emphasis_closes_after_first_character() {
    let tokens = vec![Token::Underline, p('A'), p('B'), Token::NewLine];
    let groups = text(&render(&tokens));
    assert_eq!(groups, vec!["{\\pard \\qj {{\\ul A}}B \\par}"]);
}

#[test]
fn emphasis_stays_open_before_another_toggle() {
    let tokens = vec![Token::Underline, p('A'), Token::Underline, p('B'), p('C'), Token::NewLine];
    let groups = text(&render(&tokens));
    assert_eq!(groups, vec!["{\\pard \\qj {{\\ul AB}}C \\par}"]);
}

#[test]
fn emphasis_left_open_on_last_token() {
    let mut r = Renderer::new();
    assert!(r.step(Token::Underline, Some(p('A'))).is_none());
    assert!(r.step(p('A'), None).is_none());
    assert!(r.emphasis);
    assert_eq!(r.paragraph.iter().collect::<String>(), "{{\\ul A");
}

#[test]
fn section_gating() {
    let tokens = vec![Token::EndSection, p('X'), Token::NewLine, Token::NewPage, Token::AlignLeft];
    assert!(render(&tokens).is_empty());
    let tokens = vec![
        Token::EndSection,
        Token::EndSection,
        p('Y'),
        Token::NewLine,
        Token::EndSection,
        p('Z'),
        Token::NewLine,
    ];
    assert_eq!(text(&render(&tokens)), vec!["{\\pard \\qj Y \\par}"]);
}

#[test]
fn section_index_counts_runs() {
    let mut r = Renderer::new();
    for tok in lex_tokens(&[0xFF, 0xFF, 0xFF, 0x41, 0xFF]) {
        r.step(tok, None);
    }
    assert_eq!(r.section_index, 2);
}

fn lex_tokens(bytes: &[u8]) -> Vec<Token> {
    oliword::lex(&bytes.to_vec())
}

#[test]
fn end_section_flushes_non_empty_paragraph() {
    let tokens = vec![Token::AlignCenter, p('A'), Token::EndSection, p('B'), Token::EndSection];
    assert_eq!(text(&render(&tokens)), vec!["{\\pard \\qc A \\par}"]);
}

#[test]
fn empty_lines_and_pages() {
    let tokens = vec![Token::NewLine, Token::NewPage, p('A'), Token::NewPage];
    assert_eq!(
        text(&render(&tokens)),
        vec!["{\\pard \\par}", "{\\pard \\pagebb \\par}", "{\\pard \\pagebb \\qj A \\par}"]
    );
}

#[test]
fn alignment_applies_to_next_flush_then_resets() {
    let tokens = vec![Token::AlignLeft, p('A'), Token::NewLine, p('B'), Token::NewLine];
    assert_eq!(
        text(&render(&tokens)),
        vec!["{\\pard \\ql A \\par}", "{\\pard \\qj B \\par}"]
    );
    let mut r = Renderer::new();
    r.step(Token::AlignCenter, None);
    assert_eq!(r.align, Align::Center);
}

#[test]
fn accent_escapes() {
    let tokens = vec![
        Token::AGrave,
        Token::EGrave,
        Token::EAcute,
        Token::IGrave,
        Token::OGrave,
        Token::UGrave,
        Token::NewLine,
    ];
    assert_eq!(
        text(&render(&tokens)),
        vec!["{\\pard \\qj \\u224  \\u232  \\u233  \\u236  \\u242  \\u249   \\par}"]
    );
}

#[test]
fn indent_text() {
    let tokens = vec![Token::Indent, p('A'), Token::NewLine];
    assert_eq!(text(&render(&tokens)), vec!["{\\pard \\qj   \tA \\par}"]);
}

#[test]
fn header_and_null_have_no_effect() {
    let tokens = vec![Token::FileHeader, Token::Null, p('A'), Token::NewLine];
    assert_eq!(text(&render(&tokens)), vec!["{\\pard \\qj A \\par}"]);
}

#[test]
fn unflushed_text_makes_no_group() {
    let tokens = vec![p('A'), p('B')];
    assert!(render(&tokens).is_empty());
    let mut r = Renderer::new();
    r.step(p('A'), Some(p('B')));
    r.step(p('B'), None);
    assert_eq!(r.paragraph, vec!['A', 'B']);
    assert_eq!(r.section_index, 0);
}

#[test]
fn printable_fidelity_rendered() {
    let bytes = b"XYZ 123, QRS!";
    let mut r = Renderer::new();
    let tokens = lex_tokens(bytes);
    for (i, tok) in tokens.iter().enumerate() {
        let next = tokens.get(i + 1).copied();
        assert!(r.step(*tok, next).is_none());
    }
    let expected: Vec<char> = bytes.iter().map(|b| *b as char).collect();
    assert_eq!(r.paragraph, expected);
}

#[test]
fn decoded_accents_in_a_paragraph() {
    let groups = text(&decode(&b"caffe` perche`\r".to_vec()));
    assert_eq!(groups, vec!["{\\pard \\qj caff\\u232   perch\\u233   \\par}"]);
}

#[test]
fn header_bytes_shown() {
    assert_eq!(oliword::header_char(0x41), 'A');
    assert_eq!(oliword::header_char(0x7E), '~');
    assert_eq!(oliword::header_char(0x1B), ' ');
    assert_eq!(oliword::header_char(0x7F), ' ');
    assert_eq!(oliword::header_char(0xE0), ' ');
}

#[test]
fn hidden_sections_render_like_their_removal() {
    let tokens = vec![
        Token::Underline,
        p('A'),
        Token::EndSection,
        Token::AlignCenter,
        p('X'),
        Token::Underline,
        Token::NewLine,
        Token::EndSection,
        p('B'),
        Token::NewPage,
        Token::EndSection,
        p('Y'),
        Token::NewLine,
    ];
    let kept = vec![
        Token::Underline,
        p('A'),
        Token::EndSection,
        Token::EndSection,
        p('B'),
        Token::NewPage,
        Token::EndSection,
    ];
    assert_eq!(render(&tokens), render(&kept));
    assert_eq!(
        text(&render(&tokens)),
        vec!["{\\pard \\qj {{\\ul A}} \\par}", "{\\pard \\pagebb \\qj B \\par}"]
    );
}
