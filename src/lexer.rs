//! The tokenizer: one left-to-right pass over the document bytes with a
//! one-byte lookahead cursor (a slice and a position in it).
use crate::token::Token;
use vstd::prelude::*;

verus! {

/// The byte at `i`, if there is one.
pub open spec fn byte_at(s: Seq<u8>, i: int) -> Option<u8> {
    if 0 <= i < s.len() {
        Some(s[i])
    } else {
        None
    }
}

/// `e` stands in full in `s` from position `i` on.
pub open spec fn expected_at(s: Seq<u8>, i: int, e: Seq<u8>) -> bool {
    0 <= i && i + e.len() <= s.len() && s.subrange(i, i + e.len()) == e
}

/// Where a probe for `n` bytes from `i` leaves the cursor: it takes what is
/// there, up to `n` bytes.
pub open spec fn probe_end(s: Seq<u8>, i: int, n: int) -> int {
    if i + n <= s.len() {
        i + n
    } else {
        s.len() as int
    }
}

/// The first position at or after `i` that does not hold `b`.
pub open spec fn run_end(s: Seq<u8>, i: int, b: u8) -> int
    decreases s.len() - i,
{
    if 0 <= i < s.len() && s[i] == b {
        run_end(s, i + 1, b)
    } else {
        i
    }
}

/// The tag scan that follows a `0x00` byte: from `i` up to a `0x7F`
/// terminator, `0x23` sets the pending token to `Indent` and `0x28` to
/// `AlignLeft`; any other byte, or the end of input, aborts with `Null`.
/// Gives the token and the position after the bytes read.
pub open spec fn zero_tag_scan(s: Seq<u8>, i: int, pending: Token) -> (Token, int)
    decreases s.len() - i,
{
    if i < 0 || i >= s.len() {
        (Token::Null, s.len() as int)
    } else if s[i] == 0x23 {
        zero_tag_scan(s, i + 1, Token::Indent)
    } else if s[i] == 0x28 {
        zero_tag_scan(s, i + 1, Token::AlignLeft)
    } else if s[i] == 0x7F {
        (pending, i + 1)
    } else {
        (Token::Null, i + 1)
    }
}

/// The tag scan that follows a `0x04` byte, from its `0x00` on: as
/// [`zero_tag_scan`], but a byte it does not know sets the pending token to
/// `AlignCenter` instead of aborting.
pub open spec fn tag_0400_scan(s: Seq<u8>, i: int, pending: Token) -> (Token, int)
    decreases s.len() - i,
{
    if i < 0 || i >= s.len() {
        (Token::Null, s.len() as int)
    } else if s[i] == 0x23 {
        tag_0400_scan(s, i + 1, Token::Indent)
    } else if s[i] == 0x28 {
        tag_0400_scan(s, i + 1, Token::AlignLeft)
    } else if s[i] == 0x7F {
        (pending, i + 1)
    } else {
        tag_0400_scan(s, i + 1, Token::AlignCenter)
    }
}

/// A `0x04` tag read from `i`, just after the `0x04`: nothing is read unless
/// the byte at `i` is `0x00`.
pub open spec fn tag_0400(s: Seq<u8>, i: int) -> (Token, int) {
    if byte_at(s, i) == Some(0x00u8) {
        tag_0400_scan(s, i, Token::Null)
    } else {
        (Token::Null, i)
    }
}

/// The grave-accent token of a vowel byte, `Null` for any other byte.
pub open spec fn grave_of(c: u8) -> Token {
    if c == 0x61 {
        Token::AGrave
    } else if c == 0x65 {
        Token::EGrave
    } else if c == 0x69 {
        Token::IGrave
    } else if c == 0x6F {
        Token::OGrave
    } else if c == 0x75 {
        Token::UGrave
    } else {
        Token::Null
    }
}

/// A printable token for a byte, taken as the character of the same code.
pub open spec fn printable(b: u8) -> Token {
    Token::Printable(b as char)
}

/// What the `h e` lookahead makes of the byte `f` that follows when it is no
/// backtick: the byte itself when printable (`0x20..=0x7E`), a space for
/// `0x80..=0x8D`, else nothing.
pub open spec fn after_he(f: u8) -> Seq<Token> {
    if 0x20 <= f && f <= 0x7E {
        seq![printable(f)]
    } else if 0x80 <= f && f <= 0x8D {
        seq![Token::Printable(' ')]
    } else {
        seq![]
    }
}

/// The tokens of the printable byte at `i` with its accent lookahead, the
/// position after the bytes read, and whether an accent was found.
pub open spec fn accent_lookahead(s: Seq<u8>, i: int) -> (Seq<Token>, int, bool) {
    let c = s[i];
    if c == 0x68 {
        if i + 1 >= s.len() {
            (seq![printable(c)], i + 1, false)
        } else if s[i + 1] != 0x65 {
            (seq![printable(c), printable(s[i + 1])], i + 2, false)
        } else if i + 2 >= s.len() {
            (seq![printable(c), Token::Printable('e')], i + 2, false)
        } else if s[i + 2] == 0x60 {
            (seq![printable(c), Token::EAcute], i + 3, true)
        } else {
            (seq![printable(c), Token::Printable('e')] + after_he(s[i + 2]), i + 3, false)
        }
    } else if grave_of(c) != Token::Null && byte_at(s, i + 1) == Some(0x60u8) {
        (seq![grave_of(c)], i + 2, true)
    } else {
        (seq![printable(c)], i + 1, false)
    }
}

/// A byte that is printable and no space.
pub open spec fn is_graphic(b: u8) -> bool {
    0x20 < b && b <= 0x7E
}

/// The tokens of the printable byte at `i`: its accent lookahead, then a
/// separating space where an accent is directly followed by a graphic byte.
pub open spec fn printable_step(s: Seq<u8>, i: int) -> (Seq<Token>, int) {
    let a = accent_lookahead(s, i);
    let sep = a.2 && 0 <= a.1 < s.len() && is_graphic(s[a.1]);
    (if sep { a.0.push(Token::Printable(' ')) } else { a.0 }, a.1)
}

/// The tokens made from the bytes at `i` on by the rule that the byte at `i`
/// selects, and the position after the bytes read; `after_newline` tells
/// whether the last token made so far is a newline.
pub open spec fn lex_step(s: Seq<u8>, i: int, after_newline: bool) -> (Seq<Token>, int)
    recommends
        0 <= i < s.len(),
{
    let c = s[i];
    if c == 0x00 {
        let t = zero_tag_scan(s, i + 1, Token::Null);
        (if t.0 == Token::Null { seq![] } else { seq![t.0] }, t.1)
    } else if c == 0x04 {
        let t = tag_0400(s, i + 1);
        if t.0 == Token::Null {
            (seq![], t.1)
        } else if byte_at(s, t.1) == Some(0x0Du8) {
            (seq![t.0], t.1)
        } else {
            (seq![t.0, Token::NewLine], t.1)
        }
    } else if c == 0x1B {
        (
            if expected_at(s, i + 1, seq![0x1Bu8]) { seq![Token::FileHeader] } else { seq![] },
            probe_end(s, i + 1, 1),
        )
    } else if c == 0xFF {
        (seq![Token::EndSection], run_end(s, i + 1, 0xFF))
    } else if c == 0x1E {
        (
            if expected_at(s, i + 1, seq![0x02u8, 0x1Fu8]) { seq![Token::Underline] } else { seq![] },
            probe_end(s, i + 1, 2),
        )
    } else if 0x20 <= c && c <= 0x7E {
        printable_step(s, i)
    } else if c == 0x09 {
        (if after_newline { seq![Token::Indent] } else { seq![printable(c)] }, i + 1)
    } else if c == 0x0A || c == 0x0D {
        (seq![Token::NewLine], i + 1)
    } else if c == 0x0B {
        (seq![printable(c)], i + 1)
    } else if c == 0x0C {
        (seq![Token::NewPage], i + 1)
    } else if 0x80 <= c && c <= 0x8D {
        (seq![Token::Printable(' ')], i + 1)
    } else {
        (seq![], i + 1)
    }
}

/// The last token of `acc` is a newline.
pub open spec fn ends_with_newline(acc: Seq<Token>) -> bool {
    acc.len() > 0 && acc.last() == Token::NewLine
}

/// The tokens of `s` from position `i` on, after those already in `acc`.
pub open spec fn lex_from(s: Seq<u8>, i: int, acc: Seq<Token>) -> Seq<Token>
    decreases s.len() - i,
{
    if i < 0 || i >= s.len() {
        acc
    } else {
        let st = lex_step(s, i, ends_with_newline(acc));
        if i < st.1 <= s.len() {
            lex_from(s, st.1, acc + st.0)
        } else {
            acc
        }
    }
}

/// The token sequence of a whole document.
pub open spec fn lex_spec(s: Seq<u8>) -> Seq<Token> {
    lex_from(s, 0, seq![])
}

proof fn lemma_run_end(s: Seq<u8>, i: int, b: u8)
    requires
        0 <= i <= s.len(),
    ensures
        i <= run_end(s, i, b) <= s.len(),
    decreases s.len() - i,
{
    if i < s.len() && s[i] == b {
        lemma_run_end(s, i + 1, b);
    }
}

proof fn lemma_zero_tag_scan(s: Seq<u8>, i: int, p: Token)
    requires
        0 <= i <= s.len(),
    ensures
        i <= zero_tag_scan(s, i, p).1 <= s.len(),
        i < s.len() ==> i < zero_tag_scan(s, i, p).1,
    decreases s.len() - i,
{
    if i < s.len() && (s[i] == 0x23 || s[i] == 0x28) {
        lemma_zero_tag_scan(s, i + 1, Token::Indent);
        lemma_zero_tag_scan(s, i + 1, Token::AlignLeft);
    }
}

proof fn lemma_tag_0400_scan(s: Seq<u8>, i: int, p: Token)
    requires
        0 <= i <= s.len(),
    ensures
        i <= tag_0400_scan(s, i, p).1 <= s.len(),
        i < s.len() ==> i < tag_0400_scan(s, i, p).1,
        i < s.len() && s[i] != 0x7F && tag_0400_scan(s, i, p).0 != Token::Null ==> i + 2
            <= tag_0400_scan(s, i, p).1,
    decreases s.len() - i,
{
    if i < s.len() && s[i] != 0x7F {
        lemma_tag_0400_scan(s, i + 1, Token::Indent);
        lemma_tag_0400_scan(s, i + 1, Token::AlignLeft);
        lemma_tag_0400_scan(s, i + 1, Token::AlignCenter);
    }
}

/// Each step reads at least one byte, stays in the input, and makes no more
/// tokens than it reads bytes.
pub proof fn lemma_lex_step(s: Seq<u8>, i: int, after_newline: bool)
    requires
        0 <= i < s.len(),
    ensures
        i < lex_step(s, i, after_newline).1 <= s.len(),
        lex_step(s, i, after_newline).0.len() <= lex_step(s, i, after_newline).1 - i,
        !lex_step(s, i, after_newline).0.contains(Token::Null),
{
    let c = s[i];
    lemma_zero_tag_scan(s, i + 1, Token::Null);
    lemma_run_end(s, i + 1, 0xFF);
    if c == 0x04 && byte_at(s, i + 1) == Some(0x00u8) {
        lemma_tag_0400_scan(s, i + 1, Token::Null);
    }
    let st = lex_step(s, i, after_newline);
    if c == 0x00 {
        let t = zero_tag_scan(s, i + 1, Token::Null);
        if t.0 != Token::Null {
            assert(st.0 =~= seq![t.0]);
        }
    }
    if c == 0x04 {
        let t = tag_0400(s, i + 1);
        if t.0 != Token::Null {
            assert(st.0 =~= seq![t.0] || st.0 =~= seq![t.0, Token::NewLine]);
        }
    }
    assert(!st.0.contains(Token::Null)) by {
        if st.0.contains(Token::Null) {
            let k = choose|k: int| 0 <= k < st.0.len() && st.0[k] == Token::Null;
            if 0x20 <= c && c <= 0x7E && c != 0x68 {
                assert(grave_of(c) != Token::Null ==> st.0[0] == grave_of(c) || st.0[0] == printable(c));
            }
        }
    }
}

/// Compares the bytes at the cursor with `expected`, one by one, and moves past
/// as many of them as the input still holds. True only when all of `expected`
/// is there.
pub fn match_expected(expected: &[u8], input: &[u8], pos: &mut usize) -> (r: bool)
    requires
        *old(pos) <= input@.len(),
    ensures
        *final(pos) == probe_end(input@, *old(pos) as int, expected@.len() as int),
        r == expected_at(input@, *old(pos) as int, expected@),
{
    let start: usize = *pos;
    let mut valid = true;
    let mut k: usize = 0;
    while k < expected.len()
        invariant
            start <= input@.len(),
            k <= expected@.len(),
            *pos == probe_end(input@, start as int, k as int),
            valid == (start + k <= input@.len() && forall|m: int|
                0 <= m < k ==> input@[start + m] == expected@[m]),
        decreases expected@.len() - k,
    {
        if *pos < input.len() {
            if input[*pos] != expected[k] {
                valid = false;
            }
            *pos = *pos + 1;
        } else {
            valid = false;
        }
        k = k + 1;
    }
    proof {
        if valid {
            assert(input@.subrange(start as int, start + expected@.len()) =~= expected@);
        }
        if input@.subrange(start as int, start + expected@.len()) == expected@ && start
            + expected@.len() <= input@.len() {
            assert forall|m: int| 0 <= m < expected@.len() implies input@[start + m]
                == expected@[m] by {
                assert(input@.subrange(start as int, start + expected@.len())[m] == input@[start
                    + m]);
            }
        }
    }
    valid
}

/// Moves the cursor past every byte equal to `first`.
pub fn eat_identical(first: u8, input: &[u8], pos: &mut usize)
    requires
        *old(pos) <= input@.len(),
    ensures
        *final(pos) == run_end(input@, *old(pos) as int, first),
        *final(pos) <= input@.len(),
{
    while *pos < input.len() && input[*pos] == first
        invariant
            *pos <= input@.len(),
            run_end(input@, *pos as int, first) == run_end(input@, *old(pos) as int, first),
        decreases input@.len() - *pos,
    {
        *pos = *pos + 1;
    }
}

/// Reads a tag that follows a `0x00` byte (see [`zero_tag_scan`]).
pub fn lex_zero_tag(input: &[u8], pos: &mut usize) -> (r: Token)
    requires
        *old(pos) <= input@.len(),
    ensures
        (r, *final(pos) as int) == zero_tag_scan(input@, *old(pos) as int, Token::Null),
{
    let mut token = Token::Null;
    while *pos < input.len()
        invariant
            *pos <= input@.len(),
            zero_tag_scan(input@, *pos as int, token) == zero_tag_scan(
                input@,
                *old(pos) as int,
                Token::Null,
            ),
        decreases input@.len() - *pos,
    {
        let c = input[*pos];
        *pos = *pos + 1;
        if c == 0x23 {
            token = Token::Indent;
        } else if c == 0x28 {
            token = Token::AlignLeft;
        } else if c == 0x7F {
            return token;
        } else {
            return Token::Null;
        }
    }
    Token::Null
}

/// Reads a tag that follows a `0x04` byte (see [`tag_0400`]).
pub fn lex_0400_tag(input: &[u8], pos: &mut usize) -> (r: Token)
    requires
        *old(pos) <= input@.len(),
    ensures
        (r, *final(pos) as int) == tag_0400(input@, *old(pos) as int),
{
    if *pos >= input.len() || input[*pos] != 0x00 {
        return Token::Null;
    }
    let mut token = Token::Null;
    while *pos < input.len()
        invariant
            *pos <= input@.len(),
            tag_0400_scan(input@, *pos as int, token) == tag_0400(input@, *old(pos) as int),
        decreases input@.len() - *pos,
    {
        let c = input[*pos];
        *pos = *pos + 1;
        if c == 0x23 {
            token = Token::Indent;
        } else if c == 0x28 {
            token = Token::AlignLeft;
        } else if c == 0x7F {
            return token;
        } else {
            token = Token::AlignCenter;
        }
    }
    Token::Null
}

/// Reads the printable byte at `pos` with its accent lookahead and pushes its
/// tokens (see [`printable_step`]); gives the position after the bytes read.
fn lex_printable(input: &[u8], pos: usize, out: &mut Vec<Token>) -> (next: usize)
    requires
        pos < input@.len(),
        0x20 <= input@[pos as int] <= 0x7E,
    ensures
        final(out)@ == old(out)@ + printable_step(input@, pos as int).0,
        next == printable_step(input@, pos as int).1,
{
    let ghost s = input@;
    let ghost start = out@;
    let code = input[pos];
    let mut p: usize = pos + 1;
    let mut found = false;
    if code == 0x68 {
        out.push(Token::Printable(code as char));
        if p < input.len() {
            let c = input[p];
            p = p + 1;
            if c == 0x65 {
                if p < input.len() {
                    let f = input[p];
                    p = p + 1;
                    if f == 0x60 {
                        found = true;
                        out.push(Token::EAcute);
                    } else {
                        out.push(Token::Printable('e'));
                        if 0x20 <= f && f <= 0x7E {
                            out.push(Token::Printable(f as char));
                        } else if 0x80 <= f && f <= 0x8D {
                            out.push(Token::Printable(' '));
                        }
                    }
                } else {
                    out.push(Token::Printable('e'));
                }
            } else {
                out.push(Token::Printable(c as char));
            }
        }
    } else {
        let grave = if code == 0x61 {
            Token::AGrave
        } else if code == 0x65 {
            Token::EGrave
        } else if code == 0x69 {
            Token::IGrave
        } else if code == 0x6F {
            Token::OGrave
        } else if code == 0x75 {
            Token::UGrave
        } else {
            Token::Null
        };
        if grave != Token::Null && p < input.len() && input[p] == 0x60 {
            found = true;
            p = p + 1;
            out.push(grave);
        } else {
            out.push(Token::Printable(code as char));
        }
    }
    proof {
        let a = accent_lookahead(s, pos as int);
        assert(out@ =~= start + a.0);
        assert(p == a.1 && found == a.2);
    }
    if found && p < input.len() && 0x20 < input[p] && input[p] <= 0x7E {
        out.push(Token::Printable(' '));
    }
    proof {
        assert(out@ =~= start + printable_step(s, pos as int).0);
    }
    p
}

/// Reads the bytes at `pos` by the rule that the byte there selects and pushes
/// their tokens (see [`lex_step`]); gives the position after the bytes read.
fn lex_one(input: &[u8], pos: usize, out: &mut Vec<Token>) -> (next: usize)
    requires
        pos < input@.len(),
    ensures
        final(out)@ == old(out)@ + lex_step(input@, pos as int, ends_with_newline(old(out)@)).0,
        next == lex_step(input@, pos as int, ends_with_newline(old(out)@)).1,
{
    let ghost s = input@;
    let ghost start = out@;
    let ghost st = lex_step(s, pos as int, ends_with_newline(start));
    let code = input[pos];
    let mut p: usize = pos + 1;
    if code == 0x00 {
        let tok = lex_zero_tag(input, &mut p);
        if tok != Token::Null {
            out.push(tok);
        }
    } else if code == 0x04 {
        let tok = lex_0400_tag(input, &mut p);
        if tok != Token::Null {
            out.push(tok);
            if !(p < input.len() && input[p] == 0x0D) {
                out.push(Token::NewLine);
            }
        }
    } else if code == 0x1B {
        let expected: [u8; 1] = [0x1B];
        if match_expected(&expected, input, &mut p) {
            out.push(Token::FileHeader);
        }
        proof {
            assert(expected@ =~= seq![0x1Bu8]);
        }
    } else if code == 0xFF {
        eat_identical(code, input, &mut p);
        out.push(Token::EndSection);
    } else if code == 0x1E {
        let expected: [u8; 2] = [0x02, 0x1F];
        if match_expected(&expected, input, &mut p) {
            out.push(Token::Underline);
        }
        proof {
            assert(expected@ =~= seq![0x02u8, 0x1Fu8]);
        }
    } else if 0x20 <= code && code <= 0x7E {
        p = lex_printable(input, pos, out);
    } else if code == 0x09 {
        let after_newline = out.len() > 0 && out[out.len() - 1] == Token::NewLine;
        if after_newline {
            out.push(Token::Indent);
        } else {
            out.push(Token::Printable(code as char));
        }
    } else if code == 0x0A || code == 0x0D {
        out.push(Token::NewLine);
    } else if code == 0x0B {
        out.push(Token::Printable(code as char));
    } else if code == 0x0C {
        out.push(Token::NewPage);
    } else if 0x80 <= code && code <= 0x8D {
        out.push(Token::Printable(' '));
    }
    proof {
        assert(out@ =~= start + st.0);
    }
    p
}

/// Decodes a whole document into its tokens, reading every byte once and
/// dropping the bytes that no rule knows. Never fails, and makes at most one
/// token per byte.
pub fn lex(input: &Vec<u8>) -> (r: Vec<Token>)
    ensures
        r@ == lex_spec(input@),
        r@.len() <= input@.len(),
        !r@.contains(Token::Null),
{
    let mut result: Vec<Token> = Vec::new();
    let mut pos: usize = 0;
    while pos < input.len()
        invariant
            pos <= input@.len(),
            lex_from(input@, pos as int, result@) == lex_spec(input@),
            result@.len() <= pos,
            !result@.contains(Token::Null),
        decreases input@.len() - pos,
    {
        let ghost before = result@;
        let ghost st = lex_step(input@, pos as int, ends_with_newline(before));
        proof {
            lemma_lex_step(input@, pos as int, ends_with_newline(before));
        }
        pos = lex_one(input.as_slice(), pos, &mut result);
        proof {
            assert forall|k: int| 0 <= k < result@.len() implies result@[k] != Token::Null by {
                if k >= before.len() {
                    assert(result@[k] == st.0[k - before.len()]);
                }
            }
        }
    }
    result
}

proof fn lemma_run_end_at(s: Seq<u8>, i: int, n: int, b: u8)
    requires
        0 <= i,
        0 <= n,
        i + n <= s.len(),
        forall|k: int| i <= k < i + n ==> s[k] == b,
        i + n == s.len() || s[i + n] != b,
    ensures
        run_end(s, i, b) == i + n,
    decreases n,
{
    if n > 0 {
        lemma_run_end_at(s, i + 1, n - 1, b);
    }
}

/// A run of one or more `0xFF` bytes, up to the end of input or to a byte that
/// is no `0xFF`, is read in one step as exactly one end-of-section token.
pub proof fn lemma_section_run(s: Seq<u8>, i: int, n: int, after_newline: bool)
    requires
        0 <= i,
        1 <= n,
        i + n <= s.len(),
        forall|k: int| i <= k < i + n ==> s[k] == 0xFF,
        i + n == s.len() || s[i + n] != 0xFF,
    ensures
        lex_step(s, i, after_newline) == (seq![Token::EndSection], i + n),
{
    lemma_run_end_at(s, i + 1, n - 1, 0xFF);
}

/// A byte that is printable and neither a vowel `a e i o u`, nor `h`, nor a
/// backtick: one that no accent lookahead applies to.
pub open spec fn is_plain(b: u8) -> bool {
    0x20 <= b && b <= 0x7E && b != 0x61 && b != 0x65 && b != 0x69 && b != 0x6F && b != 0x75 && b
        != 0x68 && b != 0x60
}

proof fn lemma_plain_from(s: Seq<u8>, i: int, acc: Seq<Token>)
    requires
        0 <= i <= s.len(),
        forall|k: int| 0 <= k < s.len() ==> is_plain(#[trigger] s[k]),
    ensures
        lex_from(s, i, acc) == acc + s.subrange(i, s.len() as int).map_values(
            |b: u8| printable(b),
        ),
    decreases s.len() - i,
{
    if i < s.len() {
        assert(is_plain(s[i]));
        assert(lex_step(s, i, ends_with_newline(acc)) == (seq![printable(s[i])], i + 1));
        lemma_plain_from(s, i + 1, acc + seq![printable(s[i])]);
        assert(acc + s.subrange(i, s.len() as int).map_values(|b: u8| printable(b)) =~= acc
            + seq![printable(s[i])] + s.subrange(i + 1, s.len() as int).map_values(
            |b: u8| printable(b),
        ));
    } else {
        assert(acc + s.subrange(i, s.len() as int).map_values(|b: u8| printable(b)) =~= acc);
    }
}

/// Bytes that no lookahead applies to decode one printable token each, in
/// order.
pub proof fn lemma_plain_bytes(s: Seq<u8>)
    requires
        forall|k: int| 0 <= k < s.len() ==> is_plain(#[trigger] s[k]),
    ensures
        lex_spec(s) == s.map_values(|b: u8| printable(b)),
{
    lemma_plain_from(s, 0, seq![]);
    assert(s.subrange(0, s.len() as int) =~= s);
    assert(seq![] + s.map_values(|b: u8| printable(b)) =~= s.map_values(|b: u8| printable(b)));
}

} // verus!
