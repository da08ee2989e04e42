use oliword::{eat_identical, lex, lex_0400_tag, lex_zero_tag, match_expected, Token};

fn p(c: char) -> Token {
    Token::Printable(c)
}

#[test]
fn compound_accent() {
    assert_eq!(lex(&vec![0x68, 0x65, 0x60]), vec![p('h'), Token::EAcute]);
}

#[test]
fn simple_accent() {
    assert_eq!(lex(&vec![0x61, 0x60]), vec![Token::AGrave]);
}

#[test]
fn every_grave_vowel() {
    let input = vec![0x61, 0x60, 0x0A, 0x65, 0x60, 0x0A, 0x69, 0x60, 0x0A, 0x6F, 0x60, 0x0A, 0x75, 0x60];
    assert_eq!(
        lex(&input),
        vec![
            Token::AGrave,
            Token::NewLine,
            Token::EGrave,
            Token::NewLine,
            Token::IGrave,
            Token::NewLine,
            Token::OGrave,
            Token::NewLine,
            Token::UGrave,
        ]
    );
}

#[test]
fn vowel_without_backtick_is_printable() {
    assert_eq!(lex(&b"ax".to_vec()), vec![p('a'), p('x')]);
    assert_eq!(lex(&b"u".to_vec()), vec![p('u')]);
}

#[test]
fn accent_followed_by_letter_gets_a_space() {
    assert_eq!(lex(&b"a`b".to_vec()), vec![Token::AGrave, p(' '), p('b')]);
    assert_eq!(lex(&b"he`x".to_vec()), vec![p('h'), Token::EAcute, p(' '), p('x')]);
}

#[test]
fn accent_followed_by_space_gets_no_extra_space() {
    assert_eq!(lex(&b"o` z".to_vec()), vec![Token::OGrave, p(' '), p('z')]);
}

#[test]
fn h_lookahead_cases() {
    assert_eq!(lex(&b"hx".to_vec()), vec![p('h'), p('x')]);
    assert_eq!(lex(&b"h".to_vec()), vec![p('h')]);
    assert_eq!(lex(&b"he".to_vec()), vec![p('h'), p('e')]);
    assert_eq!(lex(&b"hex".to_vec()), vec![p('h'), p('e'), p('x')]);
    assert_eq!(lex(&b"he y".to_vec()), vec![p('h'), p('e'), p(' '), p('y')]);
    assert_eq!(lex(&vec![0x68, 0x65, 0x0A]), vec![p('h'), p('e')]);
    assert_eq!(lex(&vec![0x68, 0x65, 0x85]), vec![p('h'), p('e'), p(' ')]);
    assert_eq!(lex(&vec![0x68, 0x0A]), vec![p('h'), p('\n')]);
}

#[test]
fn printable_fidelity() {
    let input = b"XYZ 123, QRS!".to_vec();
    let expected: Vec<Token> = input.iter().map(|b| p(*b as char)).collect();
    assert_eq!(lex(&input), expected);
}

#[test]
fn section_run_collapse() {
    assert_eq!(lex(&vec![0xFF]), vec![Token::EndSection]);
    assert_eq!(lex(&vec![0xFF; 7]), vec![Token::EndSection]);
    assert_eq!(
        lex(&vec![0xFF, 0xFF, 0x41, 0xFF]),
        vec![Token::EndSection, p('A'), Token::EndSection]
    );
}

#[test]
fn file_header() {
    assert_eq!(lex(&vec![0x1B, 0x1B, 0x41]), vec![Token::FileHeader, p('A')]);
    assert_eq!(lex(&vec![0x1B, 0x41, 0x42]), vec![p('B')]);
    assert_eq!(lex(&vec![0x1B]), vec![]);
}

#[test]
fn underline_marker() {
    assert_eq!(lex(&vec![0x1E, 0x02, 0x1F, 0x41]), vec![Token::Underline, p('A')]);
    assert_eq!(lex(&vec![0x1E, 0x02, 0x41, 0x42]), vec![p('B')]);
    assert_eq!(lex(&vec![0x1E, 0x02]), vec![]);
}

#[test]
fn zero_tags() {
    assert_eq!(lex(&vec![0x00, 0x23, 0x7F, 0x41]), vec![Token::Indent, p('A')]);
    assert_eq!(lex(&vec![0x00, 0x28, 0x7F]), vec![Token::AlignLeft]);
    assert_eq!(lex(&vec![0x00, 0x23, 0x28, 0x7F]), vec![Token::AlignLeft]);
    assert_eq!(lex(&vec![0x00, 0x7F, 0x41]), vec![p('A')]);
    assert_eq!(lex(&vec![0x00, 0x41, 0x42]), vec![p('B')]);
    assert_eq!(lex(&vec![0x00, 0x23]), vec![]);
}

#[test]
fn tags_0400() {
    assert_eq!(lex(&vec![0x04, 0x00, 0x7F]), vec![Token::AlignCenter, Token::NewLine]);
    assert_eq!(
        lex(&vec![0x04, 0x00, 0x28, 0x7F, 0x41]),
        vec![Token::AlignLeft, Token::NewLine, p('A')]
    );
    assert_eq!(
        lex(&vec![0x04, 0x00, 0x23, 0x7F, 0x0D]),
        vec![Token::Indent, Token::NewLine]
    );
    assert_eq!(lex(&vec![0x04, 0x41]), vec![p('A')]);
    assert_eq!(lex(&vec![0x04, 0x00, 0x23]), vec![]);
}

#[test]
fn tab_after_newline_is_indent() {
    assert_eq!(lex(&vec![0x0A, 0x09]), vec![Token::NewLine, Token::Indent]);
    assert_eq!(lex(&vec![0x09]), vec![p('\t')]);
    assert_eq!(lex(&vec![0x41, 0x09]), vec![p('A'), p('\t')]);
}

#[test]
fn control_bytes() {
    assert_eq!(
        lex(&vec![0x0A, 0x0D, 0x0B, 0x0C]),
        vec![Token::NewLine, Token::NewLine, p('\u{0B}'), Token::NewPage]
    );
    assert_eq!(lex(&vec![0x80, 0x8D]), vec![p(' '), p(' ')]);
    assert_eq!(lex(&vec![0x8E, 0x01, 0x7F, 0x1F, 0xFE]), vec![]);
}

#[test]
fn totality_on_irregular_bytes() {
    let input: Vec<u8> = (0..=255u8).chain((0..=255u8).rev()).collect();
    let tokens = lex(&input);
    assert!(tokens.len() <= input.len());
    assert!(!tokens.contains(&Token::Null));
}

#[test]
fn empty_input() {
    assert_eq!(lex(&vec![]), vec![]);
}

#[test]
fn cursor_helpers() {
    let input = [0x02u8, 0x1F, 0x41];
    let mut pos: usize = 0;
    assert!(match_expected(&[0x02, 0x1F], &input, &mut pos));
    assert_eq!(pos, 2);
    let mut pos: usize = 1;
    assert!(!match_expected(&[0x02, 0x1F], &input, &mut pos));
    assert_eq!(pos, 3);
    let mut pos: usize = 2;
    assert!(!match_expected(&[0x41, 0x42], &input, &mut pos));
    assert_eq!(pos, 3);

    let run = [0xFFu8, 0xFF, 0xFF, 0x01];
    let mut pos: usize = 0;
    eat_identical(0xFF, &run, &mut pos);
    assert_eq!(pos, 3);

    let tag = [0x23u8, 0x7F, 0x41];
    let mut pos: usize = 0;
    assert_eq!(lex_zero_tag(&tag, &mut pos), Token::Indent);
    assert_eq!(pos, 2);

    let tag = [0x00u8, 0x55, 0x7F, 0x41];
    let mut pos: usize = 0;
    assert_eq!(lex_0400_tag(&tag, &mut pos), Token::AlignCenter);
    assert_eq!(pos, 3);
    let mut pos: usize = 1;
    assert_eq!(lex_0400_tag(&tag, &mut pos), Token::Null);
    assert_eq!(pos, 1);
}
