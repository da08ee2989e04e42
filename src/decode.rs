//! The two stages together: document bytes to RTF paragraph groups.
use crate::lexer::{is_plain, lemma_plain_bytes, lex, lex_spec, printable};
use crate::render::{
    all_printable, end_sections_from, lemma_printables_render, lemma_section_count, render,
    render_spec, render_state, printable_chars,
};
use crate::token::Token;
use vstd::prelude::*;

verus! {

/// The paragraph groups of a document, in order: its bytes tokenized, then the
/// tokens rendered.
pub fn decode(input: &Vec<u8>) -> (r: Vec<Vec<char>>)
    ensures
        r.deep_view() == render_spec(lex_spec(input@)),
{
    let tokens = lex(input);
    render(tokens.as_slice())
}

/// How a byte of the file-header block is shown: printable bytes as
/// themselves, anything else as a space.
pub open spec fn header_char_spec(code: u8) -> char {
    if 0x20 <= code && code <= 0x7E {
        code as char
    } else {
        ' '
    }
}

/// The character that shows a byte of the file-header block.
pub fn header_char(code: u8) -> (r: char)
    ensures
        r == header_char_spec(code),
{
    if 0x20 <= code && code <= 0x7E {
        code as char
    } else {
        ' '
    }
}

/// Bytes that no lookahead applies to decode one printable token each, in
/// order; rendered, they flush nothing and leave the bytes, as characters, as
/// the text of the paragraph being built.
pub proof fn lemma_printable_fidelity(s: Seq<u8>)
    requires
        forall|k: int| 0 <= k < s.len() ==> is_plain(#[trigger] s[k]),
    ensures
        lex_spec(s) == s.map_values(|b: u8| printable(b)),
        render_spec(lex_spec(s)) == Seq::<Seq<char>>::empty(),
        render_state(lex_spec(s)).paragraph == s.map_values(|b: u8| b as char),
        render_state(lex_spec(s)).section_index == 0,
{
    lemma_plain_bytes(s);
    let toks = lex_spec(s);
    assert(all_printable(toks));
    lemma_printables_render(toks);
    assert(printable_chars(toks) =~= s.map_values(|b: u8| b as char));
}

/// A document of one or more `0xFF` bytes decodes to exactly one
/// end-of-section token, which advances the section index by exactly one.
pub proof fn lemma_section_run_collapse(s: Seq<u8>)
    requires
        s.len() >= 1,
        forall|k: int| 0 <= k < s.len() ==> s[k] == 0xFF,
    ensures
        lex_spec(s) == seq![Token::EndSection],
        render_state(lex_spec(s)).section_index == 1,
{
    crate::lexer::lemma_section_run(s, 0, s.len() as int, false);
    let t = seq![Token::EndSection];
    assert(lex_spec(s) == crate::lexer::lex_from(s, s.len() as int, seq![] + t));
    assert(seq![] + t =~= t);
    lemma_section_count(t);
    assert(end_sections_from(t, 1) == 0);
}

} // verus!
