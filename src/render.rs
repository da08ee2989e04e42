//! The renderer: a state machine that reads the tokens in order and makes one
//! RTF paragraph group on each flush.
use crate::token::Token;
use vstd::prelude::*;

verus! {

/// Alignment of the paragraph being built.
#[derive(Clone, Copy, Debug, PartialEq, Eq, Structural)]
pub enum Align {
    Justify,
    Center,
    Left,
}

/// The renderer's state, over mathematical values.
pub struct RenderModel {
    pub section_index: nat,
    pub paragraph: Seq<char>,
    pub align: Align,
    pub emphasis: bool,
}

/// The renderer's running state: the section counter, the text of the
/// paragraph being built, its alignment, and whether an underline span is
/// open in that text.
pub struct Renderer {
    pub section_index: usize,
    pub paragraph: Vec<char>,
    pub align: Align,
    pub emphasis: bool,
}

impl View for Renderer {
    type V = RenderModel;

    open spec fn view(&self) -> RenderModel {
        RenderModel {
            section_index: self.section_index as nat,
            paragraph: self.paragraph@,
            align: self.align,
            emphasis: self.emphasis,
        }
    }
}

/// The state before the first token.
pub open spec fn initial_model() -> RenderModel {
    RenderModel { section_index: 0, paragraph: seq![], align: Align::Justify, emphasis: false }
}

/// The RTF letter of an alignment.
pub open spec fn align_letter(a: Align) -> char {
    match a {
        Align::Justify => 'j',
        Align::Center => 'c',
        Align::Left => 'l',
    }
}

/// Start of a paragraph group, with a page break where `page` holds.
pub open spec fn group_open(page: bool) -> Seq<char> {
    if page {
        seq!['{', '\\', 'p', 'a', 'r', 'd', ' ', '\\', 'p', 'a', 'g', 'e', 'b', 'b', ' ']
    } else {
        seq!['{', '\\', 'p', 'a', 'r', 'd', ' ']
    }
}

/// End of a paragraph group.
pub open spec fn group_close() -> Seq<char> {
    seq!['\\', 'p', 'a', 'r', '}']
}

/// The RTF group of one paragraph: `{\pard \q<a> <text> \par}`, with
/// `\pagebb ` after `{\pard ` for a page break, and `{\pard \par}` (or
/// `{\pard \pagebb \par}`) when the text is empty.
pub open spec fn paragraph_group(page: bool, align: Align, text: Seq<char>) -> Seq<char> {
    group_open(page) + (if text.len() == 0 {
        seq![]
    } else {
        seq!['\\', 'q', align_letter(align), ' '] + text + seq![' ']
    }) + group_close()
}

/// The markup that opens an underline span.
pub open spec fn emphasis_open() -> Seq<char> {
    seq!['{', '{', '\\', 'u', 'l', ' ']
}

/// The markup that closes an underline span.
pub open spec fn emphasis_close() -> Seq<char> {
    seq!['}', '}']
}

/// The text of an indent.
pub open spec fn indent_text() -> Seq<char> {
    seq![' ', ' ', '\t']
}

/// The decimal code point of an accented letter, as three digits.
pub open spec fn accent_digits(t: Token) -> Seq<char> {
    match t {
        Token::AGrave => seq!['2', '2', '4'],
        Token::EGrave => seq!['2', '3', '2'],
        Token::EAcute => seq!['2', '3', '3'],
        Token::IGrave => seq!['2', '3', '6'],
        Token::OGrave => seq!['2', '4', '2'],
        _ => seq!['2', '4', '9'],
    }
}

/// The token is one of the accented letters.
pub open spec fn is_accent(t: Token) -> bool {
    t is AGrave || t is EGrave || t is EAcute || t is IGrave || t is OGrave || t is UGrave
}

/// The RTF unicode escape of an accented letter, followed by two spaces.
pub open spec fn accent_escape(t: Token) -> Seq<char> {
    seq!['\\', 'u'] + accent_digits(t) + seq![' ', ' ']
}

/// The sections whose content is rendered.
pub open spec fn section_shown(n: nat) -> bool {
    n == 0 || n == 2
}

/// The paragraph flushed: its group (with a page break where `page` holds),
/// and a state with empty text and justified alignment.
pub open spec fn flush(m: RenderModel, page: bool) -> (RenderModel, Option<Seq<char>>) {
    (
        RenderModel { paragraph: seq![], align: Align::Justify, ..m },
        Some(paragraph_group(page, m.align, m.paragraph)),
    )
}

/// One transition: the state after `tok`, whose successor in the stream is
/// `next`, and the paragraph group it makes, if any.
pub open spec fn step_spec(m: RenderModel, tok: Token, next: Option<Token>) -> (
    RenderModel,
    Option<Seq<char>>,
) {
    if tok is EndSection {
        let n = RenderModel { section_index: m.section_index + 1, ..m };
        if m.paragraph.len() > 0 {
            flush(n, false)
        } else {
            (n, None)
        }
    } else if !section_shown(m.section_index) {
        (m, None)
    } else {
        match tok {
            Token::Printable(c) => {
                let p = m.paragraph.push(c);
                if m.emphasis && next is Some && !(next->0 is Underline) {
                    (RenderModel { paragraph: p + emphasis_close(), emphasis: false, ..m }, None)
                } else {
                    (RenderModel { paragraph: p, ..m }, None)
                }
            },
            Token::NewLine => flush(m, false),
            Token::NewPage => flush(m, true),
            Token::AlignCenter => (RenderModel { align: Align::Center, ..m }, None),
            Token::AlignLeft => (RenderModel { align: Align::Left, ..m }, None),
            Token::Indent => (RenderModel { paragraph: m.paragraph + indent_text(), ..m }, None),
            Token::Underline => {
                if m.emphasis {
                    (m, None)
                } else {
                    (
                        RenderModel {
                            paragraph: m.paragraph + emphasis_open(),
                            emphasis: true,
                            ..m
                        },
                        None,
                    )
                }
            },
            _ => {
                if is_accent(tok) {
                    (RenderModel { paragraph: m.paragraph + accent_escape(tok), ..m }, None)
                } else {
                    (m, None)
                }
            },
        }
    }
}

/// The token after position `i`, if any.
pub open spec fn next_token(toks: Seq<Token>, i: int) -> Option<Token> {
    if 0 <= i + 1 < toks.len() {
        Some(toks[i + 1])
    } else {
        None
    }
}

/// `acc` with the group `g` added, if there is one.
pub open spec fn add_group(acc: Seq<Seq<char>>, g: Option<Seq<char>>) -> Seq<Seq<char>> {
    match g {
        Some(x) => acc.push(x),
        None => acc,
    }
}

/// The state and the groups after reading `toks` from position `i` on, from
/// state `m` with groups `acc` already made.
pub open spec fn render_from(toks: Seq<Token>, i: int, m: RenderModel, acc: Seq<Seq<char>>) -> (
    RenderModel,
    Seq<Seq<char>>,
)
    decreases toks.len() - i,
{
    if i < 0 || i >= toks.len() {
        (m, acc)
    } else {
        let st = step_spec(m, toks[i], next_token(toks, i));
        render_from(toks, i + 1, st.0, add_group(acc, st.1))
    }
}

/// The paragraph groups of a whole token sequence.
pub open spec fn render_spec(toks: Seq<Token>) -> Seq<Seq<char>> {
    render_from(toks, 0, initial_model(), seq![]).1
}

/// The state after a whole token sequence.
pub open spec fn render_state(toks: Seq<Token>) -> RenderModel {
    render_from(toks, 0, initial_model(), seq![]).0
}

/// The view of an optional group.
pub open spec fn group_view(g: Option<Vec<char>>) -> Option<Seq<char>> {
    match g {
        Some(v) => Some(v@),
        None => None,
    }
}

fn append_chars(dst: &mut Vec<char>, src: &[char])
    ensures
        final(dst)@ == old(dst)@ + src@,
{
    let ghost start = dst@;
    let mut k: usize = 0;
    while k < src.len()
        invariant
            k <= src@.len(),
            dst@ == start + src@.subrange(0, k as int),
        decreases src@.len() - k,
    {
        dst.push(src[k]);
        k = k + 1;
        proof {
            assert(dst@ =~= start + src@.subrange(0, k as int));
        }
    }
    proof {
        assert(src@.subrange(0, k as int) =~= src@);
    }
}

fn make_group(page: bool, align: Align, text: &Vec<char>) -> (r: Vec<char>)
    ensures
        r@ == paragraph_group(page, align, text@),
{
    let mut r: Vec<char> = Vec::new();
    let open: [char; 7] = ['{', '\\', 'p', 'a', 'r', 'd', ' '];
    append_chars(&mut r, &open);
    let ghost after_open = r@;
    if page {
        let brk: [char; 8] = ['\\', 'p', 'a', 'g', 'e', 'b', 'b', ' '];
        append_chars(&mut r, &brk);
        proof {
            assert(brk@ =~= seq!['\\', 'p', 'a', 'g', 'e', 'b', 'b', ' ']);
        }
    }
    proof {
        assert(open@ =~= seq!['{', '\\', 'p', 'a', 'r', 'd', ' ']);
        assert(r@ =~= group_open(page));
    }
    let ghost after_start = r@;
    if text.len() > 0 {
        let letter = match align {
            Align::Justify => 'j',
            Align::Center => 'c',
            Align::Left => 'l',
        };
        let dir: [char; 4] = ['\\', 'q', letter, ' '];
        append_chars(&mut r, &dir);
        append_chars(&mut r, text.as_slice());
        r.push(' ');
        proof {
            assert(dir@ =~= seq!['\\', 'q', align_letter(align), ' ']);
            assert(r@ =~= after_start + (seq!['\\', 'q', align_letter(align), ' '] + text@
                + seq![' ']));
        }
    }
    let close: [char; 5] = ['\\', 'p', 'a', 'r', '}'];
    append_chars(&mut r, &close);
    proof {
        assert(close@ =~= group_close());
        assert(r@ =~= paragraph_group(page, align, text@));
    }
    r
}

impl Renderer {
    /// The state before the first token: section 0, empty text, justified,
    /// no underline span open.
    pub fn new() -> (r: Renderer)
        ensures
            r@ == initial_model(),
    {
        let r = Renderer {
            section_index: 0,
            paragraph: Vec::new(),
            align: Align::Justify,
            emphasis: false,
        };
        proof {
            assert(r@.paragraph =~= seq![]);
        }
        r
    }

    fn flush_paragraph(&mut self, page: bool) -> (g: Option<Vec<char>>)
        ensures
            (final(self)@, group_view(g)) == flush(old(self)@, page),
    {
        let g = make_group(page, self.align, &self.paragraph);
        self.paragraph = Vec::new();
        self.align = Align::Justify;
        proof {
            assert(self.paragraph@ =~= seq![]);
        }
        Some(g)
    }

    /// Reads one token, whose successor in the stream is `next`, and gives the
    /// paragraph group that it flushes, if any (see [`step_spec`]).
    pub fn step(&mut self, tok: Token, next: Option<Token>) -> (g: Option<Vec<char>>)
        requires
            tok is EndSection ==> old(self).section_index < usize::MAX,
        ensures
            (final(self)@, group_view(g)) == step_spec(old(self)@, tok, next),
    {
        let ghost m = self@;
        if let Token::EndSection = tok {
            self.section_index = self.section_index + 1;
            if self.paragraph.len() > 0 {
                return self.flush_paragraph(false);
            }
            return None;
        }
        if self.section_index != 0 && self.section_index != 2 {
            return None;
        }
        match tok {
            Token::Printable(c) => {
                self.paragraph.push(c);
                let close = match next {
                    Some(Token::Underline) => false,
                    Some(_) => self.emphasis,
                    None => false,
                };
                if close {
                    self.paragraph.push('}');
                    self.paragraph.push('}');
                    self.emphasis = false;
                }
                proof {
                    if close {
                        assert(self.paragraph@ =~= m.paragraph.push(c) + emphasis_close());
                    }
                }
                None
            },
            Token::NewLine => self.flush_paragraph(false),
            Token::NewPage => self.flush_paragraph(true),
            Token::AlignCenter => {
                self.align = Align::Center;
                None
            },
            Token::AlignLeft => {
                self.align = Align::Left;
                None
            },
            Token::Indent => {
                let text: [char; 3] = [' ', ' ', '\t'];
                append_chars(&mut self.paragraph, &text);
                proof {
                    assert(text@ =~= indent_text());
                }
                None
            },
            Token::Underline => {
                if !self.emphasis {
                    let text: [char; 6] = ['{', '{', '\\', 'u', 'l', ' '];
                    append_chars(&mut self.paragraph, &text);
                    self.emphasis = true;
                    proof {
                        assert(text@ =~= emphasis_open());
                    }
                }
                None
            },
            Token::AGrave | Token::EGrave | Token::EAcute | Token::IGrave | Token::OGrave
            | Token::UGrave => {
                let digits: [char; 3] = match tok {
                    Token::AGrave => ['2', '2', '4'],
                    Token::EGrave => ['2', '3', '2'],
                    Token::EAcute => ['2', '3', '3'],
                    Token::IGrave => ['2', '3', '6'],
                    Token::OGrave => ['2', '4', '2'],
                    _ => ['2', '4', '9'],
                };
                let esc: [char; 7] = [
                    '\\',
                    'u',
                    digits[0],
                    digits[1],
                    digits[2],
                    ' ',
                    ' ',
                ];
                append_chars(&mut self.paragraph, &esc);
                proof {
                    assert(digits@ =~= accent_digits(tok));
                    assert(esc@ =~= accent_escape(tok));
                }
                None
            },
            _ => None,
        }
    }
}

/// Renders a whole token sequence into its paragraph groups, in order. Text
/// still unflushed after the last token makes no group.
pub fn render(tokens: &[Token]) -> (r: Vec<Vec<char>>)
    ensures
        r.deep_view() == render_spec(tokens@),
{
    let mut state = Renderer::new();
    let mut groups: Vec<Vec<char>> = Vec::new();
    let mut i: usize = 0;
    proof {
        assert(groups.deep_view() =~= Seq::<Seq<char>>::empty());
    }
    while i < tokens.len()
        invariant
            i <= tokens@.len(),
            state.section_index <= i,
            render_from(tokens@, i as int, state@, groups.deep_view()) == render_from(
                tokens@,
                0,
                initial_model(),
                seq![],
            ),
        decreases tokens@.len() - i,
    {
        let next = if i + 1 < tokens.len() {
            Some(tokens[i + 1])
        } else {
            None
        };
        let ghost before = groups.deep_view();
        let g = state.step(tokens[i], next);
        match g {
            Some(v) => {
                let ghost vv = v@;
                groups.push(v);
                proof {
                    let k = groups@.len() - 1;
                    assert(groups@[k].deep_view() =~= vv);
                    assert(groups.deep_view() =~= before.push(vv));
                }
            },
            None => {},
        }
        i = i + 1;
    }
    groups
}

/// The number of end-of-section tokens from position `i` on.
pub open spec fn end_sections_from(toks: Seq<Token>, i: int) -> nat
    decreases toks.len() - i,
{
    if i < 0 || i >= toks.len() {
        0
    } else {
        (if toks[i] is EndSection { 1nat } else { 0nat }) + end_sections_from(toks, i + 1)
    }
}

/// An end-of-section token advances the section index by exactly one, whatever
/// the state and the token that follows.
pub proof fn lemma_end_section_advances(m: RenderModel, next: Option<Token>)
    ensures
        step_spec(m, Token::EndSection, next).0.section_index == m.section_index + 1,
{
}

/// While the section index is neither 0 nor 2, every token but an
/// end-of-section is consumed with no effect: the state stays as it is and no
/// group is made.
pub proof fn lemma_section_gating(m: RenderModel, tok: Token, next: Option<Token>)
    requires
        !section_shown(m.section_index),
        !(tok is EndSection),
    ensures
        step_spec(m, tok, next) == (m, None::<Seq<char>>),
{
}

proof fn lemma_section_count_from(toks: Seq<Token>, i: int, m: RenderModel, acc: Seq<Seq<char>>)
    requires
        0 <= i <= toks.len(),
    ensures
        render_from(toks, i, m, acc).0.section_index == m.section_index + end_sections_from(
            toks,
            i,
        ),
    decreases toks.len() - i,
{
    if i < toks.len() {
        let st = step_spec(m, toks[i], next_token(toks, i));
        lemma_section_count_from(toks, i + 1, st.0, add_group(acc, st.1));
    }
}

/// After a whole token sequence, the section index is the number of its
/// end-of-section tokens.
pub proof fn lemma_section_count(toks: Seq<Token>)
    ensures
        render_state(toks).section_index == end_sections_from(toks, 0),
{
    lemma_section_count_from(toks, 0, initial_model(), seq![]);
}

/// Every token is a printable character.
pub open spec fn all_printable(toks: Seq<Token>) -> bool {
    forall|k: int| 0 <= k < toks.len() ==> (#[trigger] toks[k] is Printable)
}

/// The characters of a run of printable tokens.
pub open spec fn printable_chars(toks: Seq<Token>) -> Seq<char> {
    toks.map_values(|t: Token| t->Printable_0)
}

proof fn lemma_printables_from(toks: Seq<Token>, i: int, m: RenderModel, acc: Seq<Seq<char>>)
    requires
        0 <= i <= toks.len(),
        all_printable(toks),
        m.section_index == 0,
        !m.emphasis,
    ensures
        render_from(toks, i, m, acc) == (
            RenderModel {
                paragraph: m.paragraph + printable_chars(toks.subrange(i, toks.len() as int)),
                ..m
            },
            acc,
        ),
    decreases toks.len() - i,
{
    if i < toks.len() {
        let c = toks[i]->Printable_0;
        let m2 = RenderModel { paragraph: m.paragraph.push(c), ..m };
        assert(step_spec(m, toks[i], next_token(toks, i)) == (m2, None::<Seq<char>>));
        lemma_printables_from(toks, i + 1, m2, acc);
        assert(m.paragraph + printable_chars(toks.subrange(i, toks.len() as int)) =~= m2.paragraph
            + printable_chars(toks.subrange(i + 1, toks.len() as int)));
    } else {
        assert(m.paragraph + printable_chars(toks.subrange(i, toks.len() as int)) =~= m.paragraph);
    }
}

/// A sequence of printable tokens alone flushes nothing, and leaves its
/// characters, in order, as the text of the paragraph being built.
pub proof fn lemma_printables_render(toks: Seq<Token>)
    requires
        all_printable(toks),
    ensures
        render_spec(toks) == Seq::<Seq<char>>::empty(),
        render_state(toks) == (RenderModel { paragraph: printable_chars(toks), ..initial_model() }),
{
    lemma_printables_from(toks, 0, initial_model(), seq![]);
    assert(toks.subrange(0, toks.len() as int) =~= toks);
    assert(seq![] + printable_chars(toks) =~= printable_chars(toks));
}

/// The tokens from position `i` on that can reach the output, `n` sections
/// having ended before `i`: every end-of-section token, and the other tokens
/// of sections 0 and 2.
pub open spec fn kept_from(toks: Seq<Token>, i: int, n: nat) -> Seq<Token>
    decreases toks.len() - i,
{
    if i < 0 || i >= toks.len() {
        seq![]
    } else if toks[i] is EndSection {
        seq![toks[i]] + kept_from(toks, i + 1, n + 1)
    } else if section_shown(n) {
        seq![toks[i]] + kept_from(toks, i + 1, n)
    } else {
        kept_from(toks, i + 1, n)
    }
}

/// The tokens of a whole sequence that can reach the output.
pub open spec fn kept_tokens(toks: Seq<Token>) -> Seq<Token> {
    kept_from(toks, 0, 0)
}

proof fn lemma_render_shift(t: Token, r: Seq<Token>, j: int, m: RenderModel, acc: Seq<Seq<char>>)
    requires
        0 <= j <= r.len(),
    ensures
        render_from(seq![t] + r, j + 1, m, acc) == render_from(r, j, m, acc),
    decreases r.len() - j,
{
    let x = seq![t] + r;
    if j < r.len() {
        assert(x[j + 1] == r[j]);
        assert(next_token(x, j + 1) == next_token(r, j));
        let st = step_spec(m, r[j], next_token(r, j));
        lemma_render_shift(t, r, j + 1, st.0, add_group(acc, st.1));
    }
}

proof fn lemma_kept_from(toks: Seq<Token>, i: int, m: RenderModel, acc: Seq<Seq<char>>)
    requires
        0 <= i <= toks.len(),
    ensures
        render_from(toks, i, m, acc) == render_from(
            kept_from(toks, i, m.section_index),
            0,
            m,
            acc,
        ),
    decreases toks.len() - i,
{
    let n = m.section_index;
    if i < toks.len() {
        let t = toks[i];
        let rest_end = kept_from(toks, i + 1, n + 1);
        let rest = kept_from(toks, i + 1, n);
        if t is EndSection {
            let st = step_spec(m, t, next_token(toks, i));
            let fs = seq![t] + rest_end;
            assert(fs[0] == t);
            let st2 = step_spec(m, t, next_token(fs, 0));
            assert(st == st2);
            lemma_kept_from(toks, i + 1, st.0, add_group(acc, st.1));
            lemma_render_shift(t, rest_end, 0, st.0, add_group(acc, st.1));
        } else if section_shown(n) {
            let fs = seq![t] + rest;
            assert(fs[0] == t);
            if i + 1 < toks.len() {
                assert(rest.len() > 0 && rest[0] == toks[i + 1]) by {
                    if toks[i + 1] is EndSection {
                        assert(rest == seq![toks[i + 1]] + kept_from(toks, i + 2, n + 1));
                    } else {
                        assert(rest == seq![toks[i + 1]] + kept_from(toks, i + 2, n));
                    }
                }
            } else {
                assert(rest == Seq::<Token>::empty());
            }
            assert(next_token(fs, 0) == next_token(toks, i));
            let st = step_spec(m, t, next_token(toks, i));
            assert(st.0.section_index == n);
            lemma_kept_from(toks, i + 1, st.0, add_group(acc, st.1));
            lemma_render_shift(t, rest, 0, st.0, add_group(acc, st.1));
        } else {
            lemma_section_gating(m, t, next_token(toks, i));
            lemma_kept_from(toks, i + 1, m, acc);
        }
    } else {
        assert(kept_from(toks, i, n) == Seq::<Token>::empty());
    }
}

/// Tokens other than end-of-section tokens met while the section index is
/// neither 0 nor 2 are consumed with no effect: rendering a sequence gives the
/// same groups and the same final state as rendering its kept tokens alone.
pub proof fn lemma_section_gating_stream(toks: Seq<Token>)
    ensures
        render_spec(toks) == render_spec(kept_tokens(toks)),
        render_state(toks) == render_state(kept_tokens(toks)),
{
    lemma_kept_from(toks, 0, initial_model(), seq![]);
}

} // verus!
