use crate::error::{parsing_error, Error, ErrorKind, ErrorView};
use crate::strings::{chars_of, string_of_range};
use crate::syntax::{keyword_of, Keyword};
use crate::token::{tokens_view, Loc, LocView, Token, TokenKind, TokenView};
use vstd::prelude::*;

verus! {

// ---------------------------------------------------------------------------
// Character classes
// ---------------------------------------------------------------------------

/// Blanks between tokens.
pub open spec fn is_space(c: char) -> bool {
    c == ' ' || c == '\t' || c == '\n' || c == '\r'
}

/// Characters that end a word.
pub open spec fn is_delimiter(c: char) -> bool {
    is_space(c) || c == '(' || c == ')' || c == '"' || c == '\'' || c == '#'
}

pub open spec fn is_sign(c: char) -> bool {
    c == '+' || c == '-'
}

pub open spec fn is_upper(c: char) -> bool {
    'A' <= c && c <= 'Z'
}

/// The digit sets of number literals.
#[derive(Clone, Copy)]
pub enum Digits {
    Bin,
    Oct,
    Dec,
    Hex,
}

pub open spec fn is_digit_of(d: Digits, c: char) -> bool {
    match d {
        Digits::Bin => c == '0' || c == '1',
        Digits::Oct => '0' <= c && c <= '7',
        Digits::Dec => '0' <= c && c <= '9',
        Digits::Hex => ('0' <= c && c <= '9') || ('a' <= c && c <= 'f') || ('A' <= c && c <= 'F'),
    }
}

fn space(c: char) -> (b: bool)
    ensures
        b == is_space(c),
{
    c == ' ' || c == '\t' || c == '\n' || c == '\r'
}

fn delimiter(c: char) -> (b: bool)
    ensures
        b == is_delimiter(c),
{
    space(c) || c == '(' || c == ')' || c == '"' || c == '\'' || c == '#'
}

fn sign(c: char) -> (b: bool)
    ensures
        b == is_sign(c),
{
    c == '+' || c == '-'
}

fn digit_of(d: Digits, c: char) -> (b: bool)
    ensures
        b == is_digit_of(d, c),
{
    match d {
        Digits::Bin => c == '0' || c == '1',
        Digits::Oct => '0' <= c && c <= '7',
        Digits::Dec => '0' <= c && c <= '9',
        Digits::Hex => ('0' <= c && c <= '9') || ('a' <= c && c <= 'f') || ('A' <= c && c <= 'F'),
    }
}

// ---------------------------------------------------------------------------
// Extents
// ---------------------------------------------------------------------------

/// The end of the run of `d` digits that starts at `i`, within `b`.
pub open spec fn run_end(cs: Seq<char>, i: int, b: int, d: Digits) -> int
    decreases b - i,
{
    if 0 <= i < b && b <= cs.len() && is_digit_of(d, cs[i]) {
        run_end(cs, i + 1, b, d)
    } else {
        i
    }
}

/// The end of the word that starts at `i`: the first delimiter after it, or
/// the end of the text.
pub open spec fn word_end(cs: Seq<char>, i: int) -> int
    decreases cs.len() - i,
{
    if 0 <= i < cs.len() && !is_delimiter(cs[i]) {
        word_end(cs, i + 1)
    } else {
        i
    }
}

/// The end of the line that holds `i`: the next newline, or the end of the text.
pub open spec fn line_end(cs: Seq<char>, i: int) -> int
    decreases cs.len() - i,
{
    if 0 <= i < cs.len() && cs[i] != '\n' {
        line_end(cs, i + 1)
    } else {
        i
    }
}

/// The index of the `"` that closes a string literal whose text starts at
/// `i`; a backslash escapes the character after it.
pub open spec fn string_close(cs: Seq<char>, i: int) -> Option<int>
    decreases cs.len() - i,
{
    if i < 0 || i >= cs.len() {
        None
    } else if cs[i] == '"' {
        Some(i)
    } else if cs[i] == '\\' {
        if i + 1 < cs.len() {
            string_close(cs, i + 2)
        } else {
            None
        }
    } else {
        string_close(cs, i + 1)
    }
}

/// The end of the character literal whose `'` is at `i`: one character
/// other than a backslash, or a backslash and one character, then `'`.
pub open spec fn char_end(cs: Seq<char>, i: int) -> Option<int> {
    if i + 2 < cs.len() && cs[i + 1] != '\\' && cs[i + 2] == '\'' {
        Some(i + 3)
    } else if i + 3 < cs.len() && cs[i + 1] == '\\' && cs[i + 3] == '\'' {
        Some(i + 4)
    } else {
        None
    }
}

// ---------------------------------------------------------------------------
// Words
// ---------------------------------------------------------------------------

/// `cs[a..b]` is an unsigned literal: decimal digits, or `b`, `o` or `x`
/// followed by binary, octal or hexadecimal digits.
pub open spec fn is_uint(cs: Seq<char>, a: int, b: int) -> bool {
    &&& a < b
    &&& {
        ||| run_end(cs, a, b, Digits::Dec) == b
        ||| (a + 1 < b && cs[a] == 'b' && run_end(cs, a + 1, b, Digits::Bin) == b)
        ||| (a + 1 < b && cs[a] == 'o' && run_end(cs, a + 1, b, Digits::Oct) == b)
        ||| (a + 1 < b && cs[a] == 'x' && run_end(cs, a + 1, b, Digits::Hex) == b)
    }
}

/// `cs[a..b]` is a signed literal: `+` or `-` and decimal digits.
pub open spec fn is_int(cs: Seq<char>, a: int, b: int) -> bool {
    a + 1 < b && is_sign(cs[a]) && run_end(cs, a + 1, b, Digits::Dec) == b
}

/// `cs[a..b]` is a float literal: an optional sign, digits, then a fraction
/// (`.` and digits), an exponent (`e` or `E`, an optional sign, digits) or both.
pub open spec fn is_float(cs: Seq<char>, a: int, b: int) -> bool {
    let s = if a < b && is_sign(cs[a]) {
        a + 1
    } else {
        a
    };
    let d = run_end(cs, s, b, Digits::Dec);
    if d == s {
        false
    } else {
        let has_dot = d < b && cs[d] == '.';
        let f = if has_dot {
            run_end(cs, d + 1, b, Digits::Dec)
        } else {
            d
        };
        if has_dot && f == d + 1 {
            false
        } else if f == b {
            has_dot
        } else if cs[f] == 'e' || cs[f] == 'E' {
            let g = if f + 1 < b && is_sign(cs[f + 1]) {
                f + 2
            } else {
                f + 1
            };
            let h = run_end(cs, g, b, Digits::Dec);
            h > g && h == b
        } else {
            false
        }
    }
}

/// The class of the word `cs[a..b]`.
pub open spec fn word_kind(cs: Seq<char>, a: int, b: int) -> Result<TokenKind, ErrorKind> {
    if keyword_of(cs.subrange(a, b)) is Some {
        Ok(TokenKind::Keyword)
    } else if is_uint(cs, a, b) {
        Ok(TokenKind::UIntLiteral)
    } else if is_int(cs, a, b) {
        Ok(TokenKind::IntLiteral)
    } else if is_float(cs, a, b) {
        Ok(TokenKind::FloatLiteral)
    } else if is_digit_of(Digits::Dec, cs[a]) {
        Err(ErrorKind::InvalidNumber)
    } else if is_upper(cs[a]) {
        Ok(TokenKind::TypeSymbol)
    } else {
        Ok(TokenKind::ValueSymbol)
    }
}

// ---------------------------------------------------------------------------
// Tokens
// ---------------------------------------------------------------------------

/// The class and the end of the token that starts at `i`, a character that
/// is no blank.
pub open spec fn scan(cs: Seq<char>, i: int) -> Result<(TokenKind, int), ErrorKind> {
    let c = cs[i];
    if c == '#' {
        if i + 1 < cs.len() && cs[i + 1] == '!' {
            Ok((TokenKind::DocComment, line_end(cs, i)))
        } else {
            Ok((TokenKind::Comment, line_end(cs, i)))
        }
    } else if c == '(' {
        if i + 1 < cs.len() && cs[i + 1] == ')' {
            Ok((TokenKind::EmptyLiteral, i + 2))
        } else {
            Ok((TokenKind::FormStart, i + 1))
        }
    } else if c == ')' {
        Ok((TokenKind::FormEnd, i + 1))
    } else if c == '"' {
        match string_close(cs, i + 1) {
            Some(j) => Ok((TokenKind::StringLiteral, j + 1)),
            None => Err(ErrorKind::UnterminatedString),
        }
    } else if c == '\'' {
        match char_end(cs, i) {
            Some(j) => Ok((TokenKind::CharLiteral, j)),
            None => Err(ErrorKind::InvalidChar),
        }
    } else {
        let j = word_end(cs, i);
        match word_kind(cs, i, j) {
            Ok(k) => Ok((k, j)),
            Err(e) => Err(e),
        }
    }
}

/// The token of class `kind` made of `cs[i..j]`.
pub open spec fn token_at(cs: Seq<char>, kind: TokenKind, i: int, j: int) -> TokenView {
    TokenView {
        kind,
        content: cs.subrange(i, j),
        loc: LocView { file: None, pos: i as usize },
    }
}

/// The tokens of `cs` from index `i` on, or the first lexical error.
pub open spec fn lex_from(cs: Seq<char>, i: int) -> Result<Seq<TokenView>, ErrorView>
    decreases cs.len() - i,
{
    if i < 0 || i >= cs.len() {
        Ok(Seq::empty())
    } else if is_space(cs[i]) {
        lex_from(cs, i + 1)
    } else {
        match scan(cs, i) {
            Err(k) => Err(ErrorView::Parsing(k, Some(LocView { file: None, pos: i as usize }))),
            Ok((kind, j)) => if i < j <= cs.len() {
                match lex_from(cs, j) {
                    Ok(rest) => Ok(seq![token_at(cs, kind, i, j)] + rest),
                    Err(e) => Err(e),
                }
            } else {
                Err(ErrorView::Parsing(ErrorKind::UnexpectedEnd, None))
            },
        }
    }
}

/// The tokens of the text `cs`, or the first lexical error.
pub open spec fn lex(cs: Seq<char>) -> Result<Seq<TokenView>, ErrorView> {
    lex_from(cs, 0)
}

/// `p` followed by what `r` holds.
pub open spec fn prepend(p: Seq<TokenView>, r: Result<Seq<TokenView>, ErrorView>) -> Result<
    Seq<TokenView>,
    ErrorView,
> {
    match r {
        Ok(t) => Ok(p + t),
        Err(e) => Err(e),
    }
}

// ---------------------------------------------------------------------------
// Lemmas on extents
// ---------------------------------------------------------------------------

pub proof fn lemma_run_end(cs: Seq<char>, i: int, b: int, d: Digits)
    requires
        0 <= i <= b <= cs.len(),
    ensures
        i <= run_end(cs, i, b, d) <= b,
        forall|k: int| i <= k < run_end(cs, i, b, d) ==> is_digit_of(d, #[trigger] cs[k]),
        run_end(cs, i, b, d) < b ==> !is_digit_of(d, cs[run_end(cs, i, b, d)]),
    decreases b - i,
{
    if i < b && is_digit_of(d, cs[i]) {
        lemma_run_end(cs, i + 1, b, d);
    }
}

proof fn lemma_word_end(cs: Seq<char>, i: int)
    requires
        0 <= i <= cs.len(),
    ensures
        i <= word_end(cs, i) <= cs.len(),
    decreases cs.len() - i,
{
    if i < cs.len() && !is_delimiter(cs[i]) {
        lemma_word_end(cs, i + 1);
    }
}

proof fn lemma_line_end(cs: Seq<char>, i: int)
    requires
        0 <= i <= cs.len(),
    ensures
        i <= line_end(cs, i) <= cs.len(),
    decreases cs.len() - i,
{
    if i < cs.len() && cs[i] != '\n' {
        lemma_line_end(cs, i + 1);
    }
}

proof fn lemma_string_close(cs: Seq<char>, i: int)
    requires
        0 <= i,
    ensures
        string_close(cs, i) matches Some(j) ==> i <= j < cs.len(),
    decreases cs.len() - i,
{
    if i < cs.len() && cs[i] != '"' {
        if cs[i] == '\\' {
            if i + 1 < cs.len() {
                lemma_string_close(cs, i + 2);
            }
        } else {
            lemma_string_close(cs, i + 1);
        }
    }
}

/// A token always holds at least its first character and never runs past
/// the end of the text.
pub proof fn lemma_scan_advances(cs: Seq<char>, i: int)
    requires
        0 <= i < cs.len(),
        !is_space(cs[i]),
    ensures
        scan(cs, i) matches Ok((k, j)) ==> i < j <= cs.len(),
{
    lemma_line_end(cs, i + 1);
    lemma_word_end(cs, i + 1);
    lemma_string_close(cs, i + 1);
    if cs[i] == '#' {
        assert(line_end(cs, i) == line_end(cs, i + 1));
    }
    if !is_delimiter(cs[i]) {
        assert(word_end(cs, i) == word_end(cs, i + 1));
    }
}

// ---------------------------------------------------------------------------
// What lexing keeps of the text
// ---------------------------------------------------------------------------

/// The token `t` is the non-empty text of `cs` at its position, in no file.
pub open spec fn is_slice_of(cs: Seq<char>, t: TokenView) -> bool {
    &&& t.content.len() > 0
    &&& t.loc.pos + t.content.len() <= cs.len()
    &&& t.content == cs.subrange(t.loc.pos as int, t.loc.pos + t.content.len())
    &&& t.loc.file is None
}

/// Token `a` ends before token `b` starts.
pub open spec fn ends_before(a: TokenView, b: TokenView) -> bool {
    a.loc.pos + a.content.len() <= b.loc.pos
}

/// Position `p` lies within some token of `toks`.
pub open spec fn covered(toks: Seq<TokenView>, p: int) -> bool {
    exists|k: int|
        0 <= k < toks.len() && toks[k].loc.pos <= p < toks[k].loc.pos + (#[trigger] toks[k]).content.len()
}

/// What lexing from `i` gives: slices of the text at or after `i`, in
/// order and apart, and every character after `i` that no token holds is
/// a blank.
pub open spec fn lexed_from(cs: Seq<char>, i: int, toks: Seq<TokenView>) -> bool {
    &&& forall|k: int| 0 <= k < toks.len() ==> is_slice_of(cs, #[trigger] toks[k]) && i <= toks[k].loc.pos
    &&& forall|k: int, l: int| 0 <= k < l < toks.len() ==> ends_before(#[trigger] toks[k], #[trigger] toks[l])
    &&& forall|p: int| i <= p < cs.len() ==> is_space(#[trigger] cs[p]) || covered(toks, p)
}

proof fn lemma_lex_from_slices(cs: Seq<char>, i: int)
    requires
        0 <= i,
        cs.len() <= usize::MAX,
    ensures
        lex_from(cs, i) matches Ok(toks) ==> lexed_from(cs, i, toks),
    decreases cs.len() - i,
{
    if i >= cs.len() {
    } else if is_space(cs[i]) {
        lemma_lex_from_slices(cs, i + 1);
        if let Ok(toks) = lex_from(cs, i) {
            assert forall|p: int| i <= p < cs.len() implies is_space(#[trigger] cs[p]) || covered(toks, p) by {
                if p > i {
                    assert(is_space(cs[p]) || covered(toks, p));
                }
            }
        }
    } else {
        if let Ok((kind, j)) = scan(cs, i) {
            if i < j <= cs.len() {
                lemma_lex_from_slices(cs, j);
                if let Ok(rest) = lex_from(cs, j) {
                    let t = token_at(cs, kind, i, j);
                    let toks = seq![t] + rest;
                    assert(t.content.len() == j - i);
                    assert(is_slice_of(cs, t));
                    assert forall|k: int| 0 <= k < toks.len() implies is_slice_of(cs, #[trigger] toks[k]) && i <= toks[k].loc.pos by {
                        if k > 0 {
                            assert(toks[k] == rest[k - 1]);
                        }
                    }
                    assert forall|k: int, l: int| 0 <= k < l < toks.len() implies ends_before(#[trigger] toks[k], #[trigger] toks[l]) by {
                        assert(toks[l] == rest[l - 1]);
                        if k > 0 {
                            assert(toks[k] == rest[k - 1]);
                            assert(ends_before(rest[k - 1], rest[l - 1]));
                        }
                    }
                    assert forall|p: int| i <= p < cs.len() implies is_space(#[trigger] cs[p]) || covered(toks, p) by {
                        if p < j {
                            assert(toks[0] == t);
                            assert(covered(toks, p));
                        } else if !is_space(cs[p]) {
                            assert(covered(rest, p));
                            let k = choose|k: int| 0 <= k < rest.len() && rest[k].loc.pos <= p < rest[k].loc.pos + (#[trigger] rest[k]).content.len();
                            assert(toks[k + 1] == rest[k]);
                        }
                    }
                    assert(lex_from(cs, i) == Ok::<Seq<TokenView>, ErrorView>(toks));
                }
            }
        }
    }
}

/// Lexing loses nothing but blanks: each token is the text of the source
/// at its position, the tokens come in the order of the text without
/// overlapping, and every character that no token holds is a blank.
pub proof fn lemma_lex_keeps_text(cs: Seq<char>)
    requires
        cs.len() <= usize::MAX,
    ensures
        lex(cs) matches Ok(toks) ==> lexed_from(cs, 0, toks),
{
    lemma_lex_from_slices(cs, 0);
}

// ---------------------------------------------------------------------------
// Lexing a text that holds another
// ---------------------------------------------------------------------------

/// `t` as it would be found `off` characters further into a text.
pub open spec fn shift_token(t: TokenView, off: int) -> TokenView {
    TokenView { kind: t.kind, content: t.content, loc: LocView { file: t.loc.file, pos: (t.loc.pos + off) as usize } }
}

pub open spec fn shift_tokens(ts: Seq<TokenView>, off: int) -> Seq<TokenView> {
    ts.map_values(|t: TokenView| shift_token(t, off))
}

/// `c` holds `w` from index `off` on, and after it `c` ends or has a newline.
pub open spec fn holds_at(c: Seq<char>, w: Seq<char>, off: int) -> bool {
    &&& 0 <= off
    &&& off + w.len() <= c.len()
    &&& c.len() <= usize::MAX
    &&& c.subrange(off, off + w.len()) == w
    &&& (off + w.len() == c.len() || c[off + w.len()] == '\n')
}

proof fn lemma_holds_char(c: Seq<char>, w: Seq<char>, off: int, k: int)
    requires
        holds_at(c, w, off),
        0 <= k < w.len(),
    ensures
        c[off + k] == w[k],
{
    assert(c.subrange(off, off + w.len())[k] == c[off + k]);
}

proof fn lemma_run_end_window(c: Seq<char>, w: Seq<char>, off: int, x: int, b: int, d: Digits)
    requires
        holds_at(c, w, off),
        0 <= x <= b <= w.len(),
    ensures
        run_end(c, off + x, off + b, d) == off + run_end(w, x, b, d),
    decreases b - x,
{
    if x < b {
        lemma_holds_char(c, w, off, x);
        if is_digit_of(d, w[x]) {
            lemma_run_end_window(c, w, off, x + 1, b, d);
        }
    }
}

proof fn lemma_word_end_window(c: Seq<char>, w: Seq<char>, off: int, i: int)
    requires
        holds_at(c, w, off),
        0 <= i <= w.len(),
    ensures
        word_end(c, off + i) == off + word_end(w, i),
    decreases w.len() - i,
{
    if i < w.len() {
        lemma_holds_char(c, w, off, i);
        if !is_delimiter(w[i]) {
            lemma_word_end_window(c, w, off, i + 1);
        }
    }
}

proof fn lemma_line_end_window(c: Seq<char>, w: Seq<char>, off: int, i: int)
    requires
        holds_at(c, w, off),
        0 <= i <= w.len(),
    ensures
        line_end(c, off + i) == off + line_end(w, i),
    decreases w.len() - i,
{
    if i < w.len() {
        lemma_holds_char(c, w, off, i);
        if w[i] != '\n' {
            lemma_line_end_window(c, w, off, i + 1);
        }
    }
}

proof fn lemma_string_close_window(c: Seq<char>, w: Seq<char>, off: int, i: int)
    requires
        holds_at(c, w, off),
        0 <= i,
    ensures
        string_close(w, i) matches Some(j) ==> string_close(c, off + i) == Some(off + j),
    decreases w.len() - i,
{
    if i < w.len() {
        lemma_holds_char(c, w, off, i);
        if w[i] != '"' {
            if w[i] == '\\' {
                if i + 1 < w.len() {
                    lemma_string_close_window(c, w, off, i + 2);
                }
            } else {
                lemma_string_close_window(c, w, off, i + 1);
            }
        }
    }
}

proof fn lemma_char_end_window(c: Seq<char>, w: Seq<char>, off: int, i: int)
    requires
        holds_at(c, w, off),
        0 <= i < w.len(),
    ensures
        char_end(w, i) matches Some(j) ==> char_end(c, off + i) == Some(off + j),
{
    if i + 2 < w.len() {
        lemma_holds_char(c, w, off, i + 1);
        lemma_holds_char(c, w, off, i + 2);
    }
    if i + 3 < w.len() {
        lemma_holds_char(c, w, off, i + 3);
    }
}

proof fn lemma_word_kind_window(c: Seq<char>, w: Seq<char>, off: int, a: int, b: int)
    requires
        holds_at(c, w, off),
        0 <= a < b <= w.len(),
    ensures
        word_kind(c, off + a, off + b) == word_kind(w, a, b),
{
    assert(c.subrange(off + a, off + b) =~= w.subrange(a, b)) by {
        assert forall|k: int| 0 <= k < b - a implies c.subrange(off + a, off + b)[k] == w.subrange(a, b)[k] by {
            lemma_holds_char(c, w, off, a + k);
        }
    }
    lemma_holds_char(c, w, off, a);
    if a + 1 < b {
        lemma_holds_char(c, w, off, a + 1);
    }
    lemma_run_end_window(c, w, off, a, b, Digits::Dec);
    lemma_run_end_window(c, w, off, a, b, Digits::Dec);
    if a + 1 <= b {
        lemma_run_end_window(c, w, off, a + 1, b, Digits::Bin);
        lemma_run_end_window(c, w, off, a + 1, b, Digits::Oct);
        lemma_run_end_window(c, w, off, a + 1, b, Digits::Hex);
        lemma_run_end_window(c, w, off, a + 1, b, Digits::Dec);
    }
    // the float shape
    let s = if a < b && is_sign(w[a]) {
        a + 1
    } else {
        a
    };
    lemma_run_end_window(c, w, off, s, b, Digits::Dec);
    lemma_run_end(w, s, b, Digits::Dec);
    let d = run_end(w, s, b, Digits::Dec);
    if d < b {
        lemma_holds_char(c, w, off, d);
        lemma_run_end_window(c, w, off, d + 1, b, Digits::Dec);
        lemma_run_end(w, d + 1, b, Digits::Dec);
    }
    let has_dot = d < b && w[d] == '.';
    let f = if has_dot {
        run_end(w, d + 1, b, Digits::Dec)
    } else {
        d
    };
    if f < b {
        lemma_holds_char(c, w, off, f);
        if f + 1 < b {
            lemma_holds_char(c, w, off, f + 1);
        }
        let g = if f + 1 < b && is_sign(w[f + 1]) {
            f + 2
        } else {
            f + 1
        };
        lemma_run_end_window(c, w, off, g, b, Digits::Dec);
    }
    assert(is_float(c, off + a, off + b) == is_float(w, a, b));
}

proof fn lemma_scan_window(c: Seq<char>, w: Seq<char>, off: int, i: int)
    requires
        holds_at(c, w, off),
        0 <= i < w.len(),
        !is_space(w[i]),
    ensures
        scan(w, i) matches Ok((k, j)) ==> scan(c, off + i) == Ok::<(TokenKind, int), ErrorKind>((k, off + j)),
{
    lemma_holds_char(c, w, off, i);
    if i + 1 < w.len() {
        lemma_holds_char(c, w, off, i + 1);
    }
    let ch = w[i];
    if ch == '#' {
        lemma_line_end_window(c, w, off, i);
    } else if ch == '"' {
        lemma_string_close_window(c, w, off, i + 1);
    } else if ch == '\'' {
        lemma_char_end_window(c, w, off, i);
    } else if ch != '(' && ch != ')' {
        lemma_word_end_window(c, w, off, i);
        lemma_word_end(w, i);
        if !is_delimiter(ch) {
            lemma_word_end(w, i + 1);
            assert(word_end(w, i) == word_end(w, i + 1));
            lemma_word_kind_window(c, w, off, i, word_end(w, i));
        }
    }
}

/// Lexing `c` from where it holds `w` gives the tokens of `w`, moved by
/// `off`, and then what follows `w` in `c`.
proof fn lemma_lex_window(c: Seq<char>, w: Seq<char>, off: int, i: int)
    requires
        holds_at(c, w, off),
        0 <= i <= w.len(),
    ensures
        lex_from(w, i) matches Ok(t) ==> lex_from(c, off + i) == prepend(
            shift_tokens(t, off),
            lex_from(c, off + w.len()),
        ),
    decreases w.len() - i,
{
    if i == w.len() {
        match lex_from(c, off + i) {
            Ok(r) => assert(shift_tokens(Seq::<TokenView>::empty(), off) + r =~= r),
            Err(e) => {},
        }
    } else if is_space(w[i]) {
        lemma_holds_char(c, w, off, i);
        lemma_lex_window(c, w, off, i + 1);
    } else {
        lemma_holds_char(c, w, off, i);
        lemma_scan_advances(w, i);
        lemma_scan_window(c, w, off, i);
        if let Ok((k, j)) = scan(w, i) {
            lemma_lex_window(c, w, off, j);
            if let Ok(rest) = lex_from(w, j) {
                let t = token_at(w, k, i, j);
                let tc = token_at(c, k, off + i, off + j);
                assert(tc.content =~= t.content) by {
                    assert forall|q: int| 0 <= q < j - i implies tc.content[q] == t.content[q] by {
                        lemma_holds_char(c, w, off, i + q);
                    }
                }
                assert(tc == shift_token(t, off));
                assert(shift_tokens(seq![t] + rest, off) =~= seq![tc] + shift_tokens(rest, off));
                match lex_from(c, off + w.len()) {
                    Ok(r) => assert(seq![tc] + (shift_tokens(rest, off) + r) =~= (seq![tc]
                        + shift_tokens(rest, off)) + r),
                    Err(e) => {},
                }
            }
        }
    }
}

/// The comment line that joins two texts in `lemma_lex_joined_by_comment`.
pub open spec fn note_line() -> Seq<char> {
    seq!['\n', '#', ' ', 'n', 'o', 't', 'e', '\n']
}

/// The comment token of `note_line()` when it follows `m` characters.
pub open spec fn note_token(m: int) -> TokenView {
    TokenView {
        kind: TokenKind::Comment,
        content: seq!['#', ' ', 'n', 'o', 't', 'e'],
        loc: LocView { file: None, pos: (m + 1) as usize },
    }
}

/// Joining two texts by a comment line joins their tokens, with the comment
/// between them and the tokens of the second text moved by where it now starts.
pub proof fn lemma_lex_joined_by_comment(s1: Seq<char>, s2: Seq<char>)
    requires
        s1.len() + s2.len() + 8 <= usize::MAX,
    ensures
        lex(s1) matches Ok(t1) ==> lex(s2) matches Ok(t2) ==> lex(s1 + note_line() + s2) == Ok::<
            Seq<TokenView>,
            ErrorView,
        >(t1 + seq![note_token(s1.len() as int)] + shift_tokens(t2, s1.len() + 8int)),
{
    let c = s1 + note_line() + s2;
    let m = s1.len() as int;
    let off = m + 8;
    if let Ok(t1) = lex(s1) {
        if let Ok(t2) = lex(s2) {
            assert(c.subrange(0, m) =~= s1);
            assert(c[m] == '\n');
            assert(holds_at(c, s1, 0));
            lemma_lex_window(c, s1, 0, 0);
            assert(shift_tokens(t1, 0) =~= t1);
            assert(c.subrange(off, off + s2.len()) =~= s2);
            assert(holds_at(c, s2, off));
            lemma_lex_window(c, s2, off, 0);
            assert(lex_from(c, off + s2.len()) == Ok::<Seq<TokenView>, ErrorView>(Seq::empty()));
            let t2s = shift_tokens(t2, off);
            assert(lex_from(c, off) == Ok::<Seq<TokenView>, ErrorView>(t2s)) by {
                assert(t2s + Seq::<TokenView>::empty() =~= t2s);
            }
            // the comment line
            assert(c[m + 1] == '#');
            assert(c[m + 2] == ' ');
            assert(c[m + 3] == 'n');
            assert(c[m + 4] == 'o');
            assert(c[m + 5] == 't');
            assert(c[m + 6] == 'e');
            assert(c[m + 7] == '\n');
            assert(line_end(c, m + 7) == m + 7);
            assert(line_end(c, m + 6) == m + 7);
            assert(line_end(c, m + 5) == m + 7);
            assert(line_end(c, m + 4) == m + 7);
            assert(line_end(c, m + 3) == m + 7);
            assert(line_end(c, m + 2) == m + 7);
            assert(line_end(c, m + 1) == m + 7);
            assert(scan(c, m + 1) == Ok::<(TokenKind, int), ErrorKind>((TokenKind::Comment, m + 7)));
            let nt = token_at(c, TokenKind::Comment, m + 1, m + 7);
            assert(nt.content =~= seq!['#', ' ', 'n', 'o', 't', 'e']);
            assert(nt == note_token(m));
            assert(lex_from(c, m + 7) == lex_from(c, off));
            assert(lex_from(c, m + 1) == Ok::<Seq<TokenView>, ErrorView>(seq![nt] + t2s));
            assert(lex_from(c, m) == lex_from(c, m + 1));
            assert(t1 + (seq![nt] + t2s) =~= t1 + seq![note_token(m)] + t2s);
        }
    }
}

// ---------------------------------------------------------------------------
// Words on their own
// ---------------------------------------------------------------------------

/// `cs[i..k]` are `d` digits and the run ends at `k`.
pub proof fn lemma_run_end_digits(cs: Seq<char>, i: int, k: int, b: int, d: Digits)
    requires
        0 <= i <= k <= b <= cs.len(),
        forall|q: int| i <= q < k ==> is_digit_of(d, #[trigger] cs[q]),
        k == b || !is_digit_of(d, cs[k]),
    ensures
        run_end(cs, i, b, d) == k,
    decreases k - i,
{
    if i < k {
        lemma_run_end_digits(cs, i + 1, k, b, d);
    }
}

proof fn lemma_word_end_all(w: Seq<char>, i: int)
    requires
        0 <= i <= w.len(),
        forall|q: int| 0 <= q < w.len() ==> !is_delimiter(#[trigger] w[q]),
    ensures
        word_end(w, i) == w.len(),
    decreases w.len() - i,
{
    if i < w.len() {
        lemma_word_end_all(w, i + 1);
    }
}

/// A text that is one word lexes to that one token.
pub proof fn lemma_lex_one_word(w: Seq<char>, kind: TokenKind)
    requires
        w.len() > 0,
        forall|q: int| 0 <= q < w.len() ==> !is_delimiter(#[trigger] w[q]),
        word_kind(w, 0, w.len() as int) == Ok::<TokenKind, ErrorKind>(kind),
    ensures
        lex(w) == Ok::<Seq<TokenView>, ErrorView>(
            seq![TokenView { kind, content: w, loc: LocView { file: None, pos: 0 } }],
        ),
{
    assert(!is_delimiter(w[0]));
    lemma_word_end_all(w, 0);
    assert(scan(w, 0) == Ok::<(TokenKind, int), ErrorKind>((kind, w.len() as int)));
    assert(w.subrange(0, w.len() as int) =~= w);
    assert(lex_from(w, w.len() as int) == Ok::<Seq<TokenView>, ErrorView>(Seq::empty()));
    assert(seq![token_at(w, kind, 0, w.len() as int)] + Seq::<TokenView>::empty() =~= seq![
        TokenView { kind, content: w, loc: LocView { file: None, pos: 0 } },
    ]);
}

// ---------------------------------------------------------------------------
// Executable scanner
// ---------------------------------------------------------------------------

fn run_end_exec(cs: &Vec<char>, i: usize, b: usize, d: Digits) -> (r: usize)
    requires
        i <= b <= cs@.len(),
    ensures
        r == run_end(cs@, i as int, b as int, d),
        i <= r <= b,
{
    let mut j = i;
    while j < b && digit_of(d, cs[j])
        invariant
            i <= j <= b <= cs@.len(),
            run_end(cs@, i as int, b as int, d) == run_end(cs@, j as int, b as int, d),
        decreases b - j,
    {
        j = j + 1;
    }
    j
}

fn word_end_exec(cs: &Vec<char>, i: usize) -> (r: usize)
    requires
        i <= cs@.len(),
    ensures
        r == word_end(cs@, i as int),
        i <= r <= cs@.len(),
{
    let mut j = i;
    while j < cs.len() && !delimiter(cs[j])
        invariant
            i <= j <= cs@.len(),
            word_end(cs@, i as int) == word_end(cs@, j as int),
        decreases cs.len() - j,
    {
        j = j + 1;
    }
    j
}

fn line_end_exec(cs: &Vec<char>, i: usize) -> (r: usize)
    requires
        i <= cs@.len(),
    ensures
        r == line_end(cs@, i as int),
        i <= r <= cs@.len(),
{
    let mut j = i;
    while j < cs.len() && cs[j] != '\n'
        invariant
            i <= j <= cs@.len(),
            line_end(cs@, i as int) == line_end(cs@, j as int),
        decreases cs.len() - j,
    {
        j = j + 1;
    }
    j
}

fn string_close_exec(cs: &Vec<char>, i: usize) -> (r: Option<usize>)
    requires
        i <= cs@.len(),
    ensures
        match r {
            Some(j) => string_close(cs@, i as int) == Some(j as int),
            None => string_close(cs@, i as int) is None,
        },
{
    let mut j = i;
    while j < cs.len()
        invariant
            i <= j,
            string_close(cs@, i as int) == string_close(cs@, j as int),
        decreases cs.len() - j,
    {
        if cs[j] == '"' {
            return Some(j);
        } else if cs[j] == '\\' {
            if j + 1 >= cs.len() {
                return None;
            }
            j = j + 2;
        } else {
            j = j + 1;
        }
    }
    None
}

fn char_end_exec(cs: &Vec<char>, i: usize) -> (r: Option<usize>)
    requires
        i < cs@.len(),
    ensures
        match r {
            Some(j) => char_end(cs@, i as int) == Some(j as int),
            None => char_end(cs@, i as int) is None,
        },
{
    let n = cs.len();
    if n - i > 2 && cs[i + 1] != '\\' && cs[i + 2] == '\'' {
        Some(i + 3)
    } else if n - i > 3 && cs[i + 1] == '\\' && cs[i + 3] == '\'' {
        Some(i + 4)
    } else {
        None
    }
}

fn uint_exec(cs: &Vec<char>, a: usize, b: usize) -> (r: bool)
    requires
        a <= b <= cs@.len(),
    ensures
        r == is_uint(cs@, a as int, b as int),
{
    if a >= b {
        return false;
    }
    if run_end_exec(cs, a, b, Digits::Dec) == b {
        return true;
    }
    if a + 1 < b {
        let c = cs[a];
        if c == 'b' {
            return run_end_exec(cs, a + 1, b, Digits::Bin) == b;
        } else if c == 'o' {
            return run_end_exec(cs, a + 1, b, Digits::Oct) == b;
        } else if c == 'x' {
            return run_end_exec(cs, a + 1, b, Digits::Hex) == b;
        }
    }
    false
}

fn int_exec(cs: &Vec<char>, a: usize, b: usize) -> (r: bool)
    requires
        a <= b <= cs@.len(),
    ensures
        r == is_int(cs@, a as int, b as int),
{
    b - a > 1 && sign(cs[a]) && run_end_exec(cs, a + 1, b, Digits::Dec) == b
}

fn float_exec(cs: &Vec<char>, a: usize, b: usize) -> (r: bool)
    requires
        a <= b <= cs@.len(),
    ensures
        r == is_float(cs@, a as int, b as int),
{
    let s = if a < b && sign(cs[a]) {
        a + 1
    } else {
        a
    };
    let d = run_end_exec(cs, s, b, Digits::Dec);
    if d == s {
        return false;
    }
    let has_dot = d < b && cs[d] == '.';
    let f = if has_dot {
        run_end_exec(cs, d + 1, b, Digits::Dec)
    } else {
        d
    };
    if has_dot && f == d + 1 {
        false
    } else if f == b {
        has_dot
    } else if cs[f] == 'e' || cs[f] == 'E' {
        let g = if f + 1 < b && sign(cs[f + 1]) {
            f + 2
        } else {
            f + 1
        };
        let h = run_end_exec(cs, g, b, Digits::Dec);
        h > g && h == b
    } else {
        false
    }
}

fn word_kind_exec(cs: &Vec<char>, a: usize, b: usize) -> (r: Result<TokenKind, ErrorKind>)
    requires
        a < b <= cs@.len(),
    ensures
        r == word_kind(cs@, a as int, b as int),
{
    if Keyword::from_chars(cs, a, b).is_some() {
        Ok(TokenKind::Keyword)
    } else if uint_exec(cs, a, b) {
        Ok(TokenKind::UIntLiteral)
    } else if int_exec(cs, a, b) {
        Ok(TokenKind::IntLiteral)
    } else if float_exec(cs, a, b) {
        Ok(TokenKind::FloatLiteral)
    } else if digit_of(Digits::Dec, cs[a]) {
        Err(ErrorKind::InvalidNumber)
    } else if 'A' <= cs[a] && cs[a] <= 'Z' {
        Ok(TokenKind::TypeSymbol)
    } else {
        Ok(TokenKind::ValueSymbol)
    }
}

fn scan_exec(cs: &Vec<char>, i: usize) -> (r: Result<(TokenKind, usize), ErrorKind>)
    requires
        i < cs@.len(),
        !is_space(cs@[i as int]),
    ensures
        match r {
            Ok((k, j)) => scan(cs@, i as int) == Ok::<(TokenKind, int), ErrorKind>((k, j as int)),
            Err(e) => scan(cs@, i as int) == Err::<(TokenKind, int), ErrorKind>(e),
        },
{
    let n = cs.len();
    let c = cs[i];
    if c == '#' {
        let j = line_end_exec(cs, i);
        if i + 1 < n && cs[i + 1] == '!' {
            Ok((TokenKind::DocComment, j))
        } else {
            Ok((TokenKind::Comment, j))
        }
    } else if c == '(' {
        if i + 1 < n && cs[i + 1] == ')' {
            Ok((TokenKind::EmptyLiteral, i + 2))
        } else {
            Ok((TokenKind::FormStart, i + 1))
        }
    } else if c == ')' {
        Ok((TokenKind::FormEnd, i + 1))
    } else if c == '"' {
        match string_close_exec(cs, i + 1) {
            Some(j) => {
                proof {
                    lemma_string_close(cs@, i + 1);
                }
                Ok((TokenKind::StringLiteral, j + 1))
            },
            None => Err(ErrorKind::UnterminatedString),
        }
    } else if c == '\'' {
        match char_end_exec(cs, i) {
            Some(j) => Ok((TokenKind::CharLiteral, j)),
            None => Err(ErrorKind::InvalidChar),
        }
    } else {
        let j = word_end_exec(cs, i);
        proof {
            lemma_word_end(cs@, i + 1);
            assert(word_end(cs@, i as int) == word_end(cs@, i + 1));
        }
        match word_kind_exec(cs, i, j) {
            Ok(k) => Ok((k, j)),
            Err(e) => Err(e),
        }
    }
}

/// The tokens of a source text, in order.
#[derive(Debug, PartialEq, Eq)]
pub struct Tokens(pub Vec<Token>);

impl View for Tokens {
    type V = Seq<TokenView>;

    open spec fn view(&self) -> Seq<TokenView> {
        tokens_view(self.0@)
    }
}

impl Tokens {
    /// Splits `s` into tokens: blanks separate tokens and are dropped;
    /// the result is `lex(s@)`, which holds the first lexical error, if any,
    /// with the index at which the failing token starts.
    pub fn from_str(s: &str) -> (r: Result<Tokens, Error>)
        ensures
            match r {
                Ok(t) => lex(s@) == Ok::<Seq<TokenView>, ErrorView>(t@),
                Err(e) => lex(s@) == Err::<Seq<TokenView>, ErrorView>(e@),
            },
    {
        let cs = chars_of(s);
        let n = cs.len();
        let mut toks: Vec<Token> = Vec::new();
        let mut i: usize = 0;
        assert(tokens_view(toks@) =~= Seq::<TokenView>::empty());
        assert(prepend(Seq::empty(), lex_from(cs@, 0)) == lex_from(cs@, 0)) by {
            match lex_from(cs@, 0) {
                Ok(t) => assert(Seq::<TokenView>::empty() + t =~= t),
                Err(e) => {},
            }
        }
        while i < n
            invariant
                i <= n,
                n == cs@.len(),
                cs@ == s@,
                lex(cs@) == prepend(tokens_view(toks@), lex_from(cs@, i as int)),
            decreases n - i,
        {
            if space(cs[i]) {
                i = i + 1;
            } else {
                proof {
                    lemma_scan_advances(cs@, i as int);
                }
                match scan_exec(&cs, i) {
                    Err(k) => {
                        return Err(parsing_error(k, Some(Loc { file: None, pos: i })));
                    },
                    Ok((kind, j)) => {
                        let content = string_of_range(&cs, i, j);
                        let t = Token { kind, content, loc: Loc { file: None, pos: i } };
                        let ghost old_toks = toks@;
                        toks.push(t);
                        proof {
                            assert(t@ == token_at(cs@, kind, i as int, j as int));
                            assert(tokens_view(toks@) =~= tokens_view(old_toks).push(t@));
                            match lex_from(cs@, j as int) {
                                Ok(rest) => {
                                    assert(tokens_view(old_toks) + (seq![t@] + rest)
                                        =~= tokens_view(toks@) + rest);
                                },
                                Err(e) => {},
                            }
                        }
                        i = j;
                    },
                }
            }
        }
        proof {
            assert(tokens_view(toks@) + Seq::<TokenView>::empty() =~= tokens_view(toks@));
        }
        Ok(Tokens(toks))
    }
}

} // verus!
