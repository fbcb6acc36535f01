use crate::error::{parsing_error, Error, ErrorKind, ErrorView};
use crate::token::{tokens_view, LocView, Token, TokenKind, TokenView};
use crate::syntax::{keyword_of, spelling, Keyword};
use crate::typing::TypeView;
use crate::tokens::{is_delimiter, is_digit_of, is_sign, is_float, is_int, is_uint, lemma_lex_one_word, lemma_run_end, lemma_run_end_digits, run_end, word_kind, Digits, lemma_lex_joined_by_comment, lex, note_line, note_token, shift_token, shift_tokens, Tokens};
use crate::value::{
    atom_view, PrimView, lemma_atom_view_shift, lemma_new_app_shift, lemma_new_app_well_formed, shift_value,
    shift_values, lemma_values_view, lemma_values_view_push, spec_new_app,
    values_view, well_formed, Value, ValueView,
};
use vstd::prelude::*;

verus! {

/// Whether a token is a comment of either kind.
pub open spec fn is_comment(t: TokenView) -> bool {
    t.kind == TokenKind::Comment || t.kind == TokenKind::DocComment
}

/// `toks` without its comments, in order.
pub open spec fn strip_comments(toks: Seq<TokenView>) -> Seq<TokenView>
    decreases toks.len(),
{
    if toks.len() == 0 {
        Seq::empty()
    } else if is_comment(toks.last()) {
        strip_comments(toks.drop_last())
    } else {
        strip_comments(toks.drop_last()).push(toks.last())
    }
}

/// What the reader holds between two tokens: the values read so far, the
/// tokens of the form being gathered, and how many of its forms are open.
pub struct ReadState {
    pub values: Seq<ValueView>,
    pub form: Seq<TokenView>,
    pub depth: int,
}

/// The reader's move on one token. A token outside any form is a value of
/// its own; tokens inside a form are gathered until the `)` that closes it,
/// and the gathered tokens then make one value.
pub open spec fn read_step(st: ReadState, t: TokenView) -> Result<ReadState, ErrorView> {
    match t.kind {
        TokenKind::Comment => Err(ErrorView::Parsing(ErrorKind::UnexpectedComment, Some(t.loc))),
        TokenKind::DocComment => Err(
            ErrorView::Parsing(ErrorKind::UnexpectedDocComment, Some(t.loc)),
        ),
        TokenKind::FormStart => Ok(
            ReadState { values: st.values, form: st.form.push(t), depth: st.depth + 1 },
        ),
        TokenKind::FormEnd => {
            let form = st.form.push(t);
            if st.depth - 1 == 0 {
                match spec_new_app(form) {
                    Ok(v) => Ok(
                        ReadState { values: st.values.push(v), form: Seq::empty(), depth: 0 },
                    ),
                    Err(e) => Err(e),
                }
            } else {
                Ok(ReadState { values: st.values, form, depth: st.depth - 1 })
            }
        },
        _ => if st.depth != 0 {
            Ok(ReadState { values: st.values, form: st.form.push(t), depth: st.depth })
        } else {
            Ok(ReadState { values: st.values.push(atom_view(t)), form: st.form, depth: st.depth })
        },
    }
}

/// The reader's state after the first `n` tokens.
pub open spec fn read_upto(toks: Seq<TokenView>, n: int) -> Result<ReadState, ErrorView>
    decreases n,
{
    if n <= 0 {
        Ok(ReadState { values: Seq::empty(), form: Seq::empty(), depth: 0 })
    } else {
        match read_upto(toks, n - 1) {
            Ok(st) => read_step(st, toks[n - 1]),
            Err(e) => Err(e),
        }
    }
}

/// Once reading fails, later tokens do not change the error.
proof fn lemma_read_error_stays(toks: Seq<TokenView>, k: int, n: int)
    requires
        0 <= k <= n,
        read_upto(toks, k) is Err,
    ensures
        read_upto(toks, n) == read_upto(toks, k),
    decreases n - k,
{
    if k < n {
        lemma_read_error_stays(toks, k, n - 1);
    }
}

/// The values read from a sequence of tokens. A form that is still open
/// after the last token makes no value.
pub open spec fn read_tokens(toks: Seq<TokenView>) -> Result<Seq<ValueView>, ErrorView> {
    match read_upto(toks, toks.len() as int) {
        Ok(st) => Ok(st.values),
        Err(e) => Err(e),
    }
}

/// The values of a source text: its tokens, comments left out, read in order.
pub open spec fn read_text(cs: Seq<char>) -> Result<Seq<ValueView>, ErrorView> {
    match lex(cs) {
        Ok(toks) => read_tokens(strip_comments(toks)),
        Err(e) => Err(e),
    }
}

/// A sequence of values, as read from a source text.
#[derive(Debug, PartialEq, Eq)]
pub struct Values(pub Vec<Value>);

impl View for Values {
    type V = Seq<ValueView>;

    open spec fn view(&self) -> Seq<ValueView> {
        values_view(self.0@)
    }
}

impl Clone for Values {
    fn clone(&self) -> (r: Self)
        ensures
            r@ == self@,
    {
        let mut out: Vec<Value> = Vec::new();
        let n = self.0.len();
        for i in 0..n
            invariant
                n == self.0@.len(),
                values_view(out@) == values_view(self.0@.take(i as int)),
        {
            let c = self.0[i].clone();
            proof {
                lemma_values_view_push(out@, c);
                assert(self.0@.take(i + 1).drop_last() =~= self.0@.take(i as int));
            }
            out.push(c);
        }
        proof {
            assert(self.0@.take(n as int) =~= self.0@);
        }
        Values(out)
    }
}

impl Default for Values {
    fn default() -> (v: Self)
        ensures
            v@ == Seq::<ValueView>::empty(),
    {
        let v = Values(Vec::new());
        assert(v@ =~= Seq::<ValueView>::empty());
        v
    }
}

fn strip_comment_tokens(toks: Vec<Token>) -> (r: Vec<Token>)
    ensures
        tokens_view(r@) == strip_comments(tokens_view(toks@)),
{
    let ghost tv = tokens_view(toks@);
    let mut kept: Vec<Token> = Vec::new();
    let n = toks.len();
    for i in 0..n
        invariant
            n == toks@.len(),
            tv == tokens_view(toks@),
            tokens_view(kept@) == strip_comments(tv.take(i as int)),
    {
        let t = &toks[i];
        proof {
            assert(tv.take(i + 1).drop_last() =~= tv.take(i as int));
            assert(tv.take(i + 1).last() == t@);
        }
        if t.kind != TokenKind::Comment && t.kind != TokenKind::DocComment {
            let ghost before = kept@;
            kept.push(t.clone());
            proof {
                assert(tokens_view(kept@) =~= tokens_view(before).push(t@));
            }
        }
    }
    proof {
        assert(tv.take(n as int) =~= tv);
    }
    kept
}

impl Values {
    pub fn new() -> (v: Self)
        ensures
            v@ == Seq::<ValueView>::empty(),
    {
        Values::default()
    }

    pub fn len(&self) -> (n: usize)
        ensures
            n == self@.len(),
    {
        proof {
            lemma_values_view(self.0@);
        }
        self.0.len()
    }

    pub fn is_empty(&self) -> (b: bool)
        ensures
            b == (self@.len() == 0),
    {
        self.len() == 0
    }

    pub fn push(&mut self, value: Value)
        ensures
            final(self)@ == old(self)@.push(value@),
    {
        proof {
            lemma_values_view_push(self.0@, value);
        }
        self.0.push(value)
    }

    /// Reads the values written in `s`: the result is `read_text(s@)`.
    /// Comments are dropped; each token outside a form, and each complete
    /// form, gives one value, in order. The first lexical or reading error
    /// is returned instead.
    pub fn from_str(s: &str) -> (r: Result<Self, Error>)
        ensures
            match r {
                Ok(vs) => read_text(s@) == Ok::<Seq<ValueView>, ErrorView>(vs@),
                Err(e) => read_text(s@) == Err::<Seq<ValueView>, ErrorView>(e@),
            },
    {
        let tokens = match Tokens::from_str(s) {
            Ok(t) => t,
            Err(e) => {
                return Err(e);
            },
        };
        let toks = strip_comment_tokens(tokens.0);
        let ghost tv = tokens_view(toks@);
        let mut values = Values::new();
        let mut form: Vec<Token> = Vec::new();
        let mut depth: i128 = 0;
        let n = toks.len();
        proof {
            assert(tokens_view(form@) =~= Seq::<TokenView>::empty());
        }
        for i in 0..n
            invariant
                n == toks@.len(),
                tv == tokens_view(toks@),
                read_text(s@) == read_tokens(tv),
                -(i as int) <= depth <= i,
                i <= usize::MAX,
                read_upto(tv, i as int) == Ok::<ReadState, ErrorView>(
                    ReadState { values: values@, form: tokens_view(form@), depth: depth as int },
                ),
        {
            let token = toks[i].clone();
            proof {
                assert(tv[i as int] == token@);
            }
            let ghost fv = tokens_view(form@);
            match token.kind {
                TokenKind::Comment => {
                    proof {
                        lemma_read_error_stays(tv, i + 1, n as int);
                    }
                    return Err(parsing_error(ErrorKind::UnexpectedComment, Some(token.loc)));
                },
                TokenKind::DocComment => {
                    proof {
                        lemma_read_error_stays(tv, i + 1, n as int);
                    }
                    return Err(parsing_error(ErrorKind::UnexpectedDocComment, Some(token.loc)));
                },
                TokenKind::FormStart => {
                    depth = depth + 1;
                    form.push(token);
                    proof {
                        assert(tokens_view(form@) =~= fv.push(tv[i as int]));
                    }
                },
                TokenKind::FormEnd => {
                    depth = depth - 1;
                    form.push(token);
                    proof {
                        assert(tokens_view(form@) =~= fv.push(tv[i as int]));
                    }
                    if depth == 0 {
                        let done = form;
                        form = Vec::new();
                        match Value::new_app(done) {
                            Ok(v) => {
                                values.push(v);
                                proof {
                                    assert(tokens_view(form@) =~= Seq::<TokenView>::empty());
                                }
                            },
                            Err(e) => {
                                proof {
                                    lemma_read_error_stays(tv, i + 1, n as int);
                                }
                                return Err(e);
                            },
                        }
                    }
                },
                _ => {
                    if depth != 0 {
                        form.push(token);
                        proof {
                            assert(tokens_view(form@) =~= fv.push(tv[i as int]));
                        }
                    } else {
                        let v = match token.kind {
                            TokenKind::EmptyLiteral => Value::new_empty(token),
                            TokenKind::Keyword => Value::new_keyword(token),
                            TokenKind::UIntLiteral => Value::new_uint(token),
                            TokenKind::IntLiteral => Value::new_int(token),
                            TokenKind::FloatLiteral => Value::new_float(token),
                            TokenKind::CharLiteral => Value::new_char(token),
                            TokenKind::StringLiteral => Value::new_string(token),
                            _ => Value::new_symbol(token),
                        };
                        match v {
                            Ok(v) => values.push(v),
                            Err(e) => {
                                return Err(e);
                            },
                        }
                    }
                },
            }
        }
        proof {
            assert(tv.len() == n);
        }
        Ok(values)
    }

    /// Reads the values written in `s`, as `from_str` does.
    pub fn from_string(s: String) -> (r: Result<Self, Error>)
        ensures
            match r {
                Ok(vs) => read_text(s@) == Ok::<Seq<ValueView>, ErrorView>(vs@),
                Err(e) => read_text(s@) == Err::<Seq<ValueView>, ErrorView>(e@),
            },
    {
        Self::from_str(s.as_str())
    }
}

impl core::ops::Index<usize> for Values {
    type Output = Value;

    fn index(&self, idx: usize) -> (v: &Value)
        ensures
            v@ == self@[idx as int],
    {
        proof {
            lemma_values_view(self.0@);
        }
        &self.0[idx]
    }
}

impl vstd::std_specs::core::IndexSpecImpl<usize> for Values {
    open spec fn index_req(&self, index: &usize) -> bool {
        *index < self.0@.len()
    }
}

impl core::convert::From<Vec<Value>> for Values {
    fn from(values: Vec<Value>) -> (v: Self) {
        Values(values)
    }
}

impl vstd::std_specs::convert::FromSpecImpl<Vec<Value>> for Values {
    open spec fn obeys_from_spec() -> bool {
        true
    }

    open spec fn from_spec(v: Vec<Value>) -> Self {
        Values(v)
    }
}

impl core::str::FromStr for Values {
    type Err = Error;

    /// Reads the values written in `s`, as the inherent `Values::from_str` does.
    fn from_str(s: &str) -> (r: Result<Self, Error>)
        ensures
            match r {
                Ok(vs) => read_text(s@) == Ok::<Seq<ValueView>, ErrorView>(vs@),
                Err(e) => read_text(s@) == Err::<Seq<ValueView>, ErrorView>(e@),
            },
    {
        Values::from_str(s)
    }
}

/// The model of `r` is what reading the text `cs` gives.
pub open spec fn reads_as(cs: Seq<char>, r: Result<Values, Error>) -> bool {
    match r {
        Ok(vs) => read_text(cs) == Ok::<Seq<ValueView>, ErrorView>(vs@),
        Err(e) => read_text(cs) == Err::<Seq<ValueView>, ErrorView>(e@),
    }
}

/// What `try_from` may return for `s`: a result whose model is `read_text(s@)`.
pub open spec fn read_result(s: String) -> Result<Values, Error> {
    choose|r: Result<Values, Error>| #[trigger] reads_as(s@, r)
}

impl core::convert::TryFrom<String> for Values {
    type Error = Error;

    /// Reads the values written in `s`, as `from_string` does.
    fn try_from(s: String) -> (r: Result<Self, Error>)
        ensures
            match r {
                Ok(vs) => read_text(s@) == Ok::<Seq<ValueView>, ErrorView>(vs@),
                Err(e) => read_text(s@) == Err::<Seq<ValueView>, ErrorView>(e@),
            },
    {
        Values::from_string(s)
    }
}

/// Many results have the model `read_text(s@)`, so `try_from` promises its
/// model (in its own `ensures`), not one fixed value.
impl vstd::std_specs::convert::TryFromSpecImpl<String> for Values {
    open spec fn obeys_try_from_spec() -> bool {
        false
    }

    open spec fn try_from_spec(v: String) -> Result<Values, Error> {
        read_result(v)
    }
}

/// Reading keeps only well-formed values.
proof fn lemma_read_upto_well_formed(toks: Seq<TokenView>, n: int)
    ensures
        read_upto(toks, n) matches Ok(st) ==> forall|i: int|
            0 <= i < st.values.len() ==> well_formed(#[trigger] st.values[i]),
    decreases n,
{
    if n > 0 {
        lemma_read_upto_well_formed(toks, n - 1);
        if let Ok(st) = read_upto(toks, n - 1) {
            let t = toks[n - 1];
            lemma_new_app_well_formed(st.form.push(t));
            if let Ok(st2) = read_step(st, t) {
                assert forall|i: int| 0 <= i < st2.values.len() implies well_formed(#[trigger] st2.values[i]) by {
                    if i < st.values.len() {
                        assert(st2.values[i] == st.values[i]);
                    }
                }
            }
        }
    }
}

/// Every value read from a text is well formed: a form is named by its
/// head and typed by the types of its elements, and every other value is
/// the value of its token.
pub proof fn lemma_read_text_well_formed(cs: Seq<char>)
    ensures
        read_text(cs) matches Ok(vs) ==> forall|i: int| 0 <= i < vs.len() ==> well_formed(#[trigger] vs[i]),
{
    if let Ok(toks) = lex(cs) {
        let st = strip_comments(toks);
        lemma_read_upto_well_formed(st, st.len() as int);
    }
}

/// The values, in order.
impl core::iter::IntoIterator for Values {
    type Item = Value;
    type IntoIter = std::vec::IntoIter<Value>;

    fn into_iter(self) -> (it: std::vec::IntoIter<Value>)
        ensures
            values_view(vstd::std_specs::iter::IteratorSpec::remaining(&it)) == self@,
    {
        broadcast use vstd::std_specs::vec::axiom_spec_into_iter;

        self.0.into_iter()
    }
}

// ---------------------------------------------------------------------------
// Reading two texts joined by a comment line
// ---------------------------------------------------------------------------

proof fn lemma_strip_concat(x: Seq<TokenView>, y: Seq<TokenView>)
    ensures
        strip_comments(x + y) == strip_comments(x) + strip_comments(y),
    decreases y.len(),
{
    if y.len() == 0 {
        assert(x + y =~= x);
        assert(strip_comments(x) + Seq::<TokenView>::empty() =~= strip_comments(x));
    } else {
        lemma_strip_concat(x, y.drop_last());
        assert((x + y).drop_last() =~= x + y.drop_last());
        assert((x + y).last() == y.last());
        if !is_comment(y.last()) {
            assert((strip_comments(x) + strip_comments(y.drop_last())).push(y.last())
                =~= strip_comments(x) + strip_comments(y.drop_last()).push(y.last()));
        }
    }
}

proof fn lemma_strip_shift(t: Seq<TokenView>, off: int)
    ensures
        strip_comments(shift_tokens(t, off)) == shift_tokens(strip_comments(t), off),
    decreases t.len(),
{
    if t.len() == 0 {
        assert(shift_tokens(t, off) =~= Seq::<TokenView>::empty());
        assert(shift_tokens(Seq::<TokenView>::empty(), off) =~= Seq::<TokenView>::empty());
    } else {
        lemma_strip_shift(t.drop_last(), off);
        assert(shift_tokens(t, off).drop_last() =~= shift_tokens(t.drop_last(), off));
        assert(shift_tokens(t, off).last() == shift_token(t.last(), off));
        if !is_comment(t.last()) {
            assert(shift_tokens(strip_comments(t.drop_last()).push(t.last()), off) =~= shift_tokens(
                strip_comments(t.drop_last()),
                off,
            ).push(shift_token(t.last(), off)));
        }
    }
}

/// The reader's state after the first `n` tokens, starting from `st`.
pub open spec fn read_run(st: ReadState, toks: Seq<TokenView>, n: int) -> Result<ReadState, ErrorView>
    decreases n,
{
    if n <= 0 {
        Ok(st)
    } else {
        match read_run(st, toks, n - 1) {
            Ok(s) => read_step(s, toks[n - 1]),
            Err(e) => Err(e),
        }
    }
}

pub open spec fn with_values_before(v1: Seq<ValueView>, r: Result<ReadState, ErrorView>) -> Result<
    ReadState,
    ErrorView,
> {
    match r {
        Ok(st) => Ok(ReadState { values: v1 + st.values, form: st.form, depth: st.depth }),
        Err(e) => Err(e),
    }
}

proof fn lemma_run_values_before(v1: Seq<ValueView>, vs: Seq<ValueView>, f: Seq<TokenView>, d: int, toks: Seq<TokenView>, n: int)
    ensures
        read_run(ReadState { values: v1 + vs, form: f, depth: d }, toks, n) == with_values_before(
            v1,
            read_run(ReadState { values: vs, form: f, depth: d }, toks, n),
        ),
    decreases n,
{
    if n > 0 {
        lemma_run_values_before(v1, vs, f, d, toks, n - 1);
        if let Ok(st) = read_run(ReadState { values: vs, form: f, depth: d }, toks, n - 1) {
            let t = toks[n - 1];
            assert forall|v: ValueView| (v1 + st.values).push(v) == v1 + st.values.push(v) by {
                assert((v1 + st.values).push(v) =~= v1 + st.values.push(v));
            }
        }
    } else {
        assert(v1 + vs == v1 + vs);
    }
}

proof fn lemma_upto_is_run(toks: Seq<TokenView>, n: int)
    ensures
        read_upto(toks, n) == read_run(ReadState { values: Seq::empty(), form: Seq::empty(), depth: 0 }, toks, n),
    decreases n,
{
    if n > 0 {
        lemma_upto_is_run(toks, n - 1);
    }
}

proof fn lemma_read_prefix(x: Seq<TokenView>, y: Seq<TokenView>, n: int)
    requires
        n <= x.len(),
    ensures
        read_upto(x + y, n) == read_upto(x, n),
    decreases n,
{
    if n > 0 {
        lemma_read_prefix(x, y, n - 1);
        assert((x + y)[n - 1] == x[n - 1]);
    }
}

proof fn lemma_read_continue(x: Seq<TokenView>, y: Seq<TokenView>, sx: ReadState, k: int)
    requires
        0 <= k <= y.len(),
        read_upto(x, x.len() as int) == Ok::<ReadState, ErrorView>(sx),
    ensures
        read_upto(x + y, x.len() + k) == read_run(sx, y, k),
    decreases k,
{
    if k == 0 {
        lemma_read_prefix(x, y, x.len() as int);
    } else {
        lemma_read_continue(x, y, sx, k - 1);
        assert((x + y)[x.len() + k - 1] == y[k - 1]);
    }
}

/// The reader's state, with every token in it moved by `off`.
pub open spec fn shift_state(st: ReadState, off: int) -> ReadState {
    ReadState { values: shift_values(st.values, off), form: shift_tokens(st.form, off), depth: st.depth }
}

proof fn lemma_read_upto_shift(toks: Seq<TokenView>, n: int, off: int)
    requires
        0 <= n <= toks.len(),
    ensures
        read_upto(toks, n) matches Ok(st) ==> read_upto(shift_tokens(toks, off), n) == Ok::<ReadState, ErrorView>(
            shift_state(st, off),
        ),
    decreases n,
{
    let sh = shift_tokens(toks, off);
    if n == 0 {
        assert(shift_values(Seq::<ValueView>::empty(), off) =~= Seq::<ValueView>::empty());
        assert(shift_tokens(Seq::<TokenView>::empty(), off) =~= Seq::<TokenView>::empty());
    } else {
        lemma_read_upto_shift(toks, n - 1, off);
        if let Ok(st) = read_upto(toks, n - 1) {
            let t = toks[n - 1];
            assert(sh[n - 1] == shift_token(t, off));
            let f = st.form.push(t);
            assert(shift_tokens(st.form, off).push(shift_token(t, off)) =~= shift_tokens(f, off));
            lemma_new_app_shift(f, off);
            lemma_atom_view_shift(t, off);
            assert forall|v: ValueView| shift_values(st.values.push(v), off) == shift_values(st.values, off).push(shift_value(v, off)) by {
                assert(st.values.push(v).drop_last() =~= st.values);
            }
            assert(shift_values(Seq::<ValueView>::empty(), off) =~= Seq::<ValueView>::empty());
            assert(shift_tokens(Seq::<TokenView>::empty(), off) =~= Seq::<TokenView>::empty());
        }
    }
}

/// Reading `cs` ends with no form left open.
pub open spec fn closes_all(cs: Seq<char>) -> bool {
    lex(cs) matches Ok(t) && read_upto(strip_comments(t), strip_comments(t).len() as int) matches Ok(st)
        && st.form.len() == 0 && st.depth == 0
}

/// Reading two texts joined by a comment line, the first of which leaves no
/// form open, gives the values of the first followed by those of the
/// second, whose tokens are moved by where the second text now starts.
pub proof fn lemma_read_joined_by_comment(s1: Seq<char>, s2: Seq<char>)
    requires
        s1.len() + s2.len() + 8 <= usize::MAX,
        closes_all(s1),
    ensures
        read_text(s1) matches Ok(v1) ==> read_text(s2) matches Ok(v2) ==> read_text(
            s1 + note_line() + s2,
        ) == Ok::<Seq<ValueView>, ErrorView>(v1 + shift_values(v2, s1.len() + 8int)),
{
    let off = s1.len() + 8int;
    if let Ok(v1) = read_text(s1) {
        if let Ok(v2) = read_text(s2) {
            let t1 = lex(s1)->Ok_0;
            let t2 = lex(s2)->Ok_0;
            lemma_lex_joined_by_comment(s1, s2);
            let m = s1.len() as int;
            let x = strip_comments(t1);
            let y2 = strip_comments(t2);
            let y = shift_tokens(y2, off);
            lemma_strip_concat(t1 + seq![note_token(m)], shift_tokens(t2, off));
            lemma_strip_concat(t1, seq![note_token(m)]);
            assert(strip_comments(seq![note_token(m)]) =~= Seq::<TokenView>::empty()) by {
                let one = seq![note_token(m)];
                assert(one.drop_last() =~= Seq::<TokenView>::empty());
                assert(one.last() == note_token(m));
                assert(is_comment(note_token(m)));
                assert(strip_comments(Seq::<TokenView>::empty()) == Seq::<TokenView>::empty());
                assert(strip_comments(one) == strip_comments(one.drop_last()));
            }
            assert(x + Seq::<TokenView>::empty() =~= x);
            lemma_strip_shift(t2, off);
            let all = strip_comments(t1 + seq![note_token(m)] + shift_tokens(t2, off));
            assert(all == x + y);
            let sx = read_upto(x, x.len() as int)->Ok_0;
            assert(sx.form =~= Seq::<TokenView>::empty());
            assert(sx == ReadState { values: v1, form: Seq::<TokenView>::empty(), depth: 0 });
            assert(y.len() == y2.len());
            lemma_read_continue(x, y, sx, y.len() as int);
            assert(v1 =~= v1 + Seq::<ValueView>::empty());
            lemma_run_values_before(v1, Seq::empty(), Seq::empty(), 0, y, y.len() as int);
            lemma_upto_is_run(y, y.len() as int);
            lemma_read_upto_shift(y2, y2.len() as int, off);
            assert((x + y).len() == x.len() + y.len());
        }
    }
}

// ---------------------------------------------------------------------------
// Number words
// ---------------------------------------------------------------------------

proof fn lemma_read_one_token(w: Seq<char>, t: TokenView)
    requires
        lex(w) == Ok::<Seq<TokenView>, ErrorView>(seq![t]),
        t.kind != TokenKind::Comment,
        t.kind != TokenKind::DocComment,
        t.kind != TokenKind::FormStart,
        t.kind != TokenKind::FormEnd,
    ensures
        read_text(w) == Ok::<Seq<ValueView>, ErrorView>(seq![atom_view(t)]),
{
    let one = seq![t];
    assert(one.drop_last() =~= Seq::<TokenView>::empty());
    assert(strip_comments(Seq::<TokenView>::empty()) == Seq::<TokenView>::empty());
    assert(strip_comments(one) =~= Seq::<TokenView>::empty().push(t));
    assert(strip_comments(one) =~= one);
    assert(read_upto(one, 0) == Ok::<ReadState, ErrorView>(
        ReadState { values: Seq::empty(), form: Seq::empty(), depth: 0 },
    ));
    assert(Seq::<ValueView>::empty().push(atom_view(t)) =~= seq![atom_view(t)]);
}

proof fn lemma_not_keyword(w: Seq<char>)
    requires
        w.len() > 0,
        w[0] != 'i' && w[0] != 'e' && w[0] != 'd',
    ensures
        keyword_of(w) is None,
{
    assert(spelling(Keyword::Import)[0] == 'i');
    assert(spelling(Keyword::Export)[0] == 'e');
    assert(spelling(Keyword::Deftype)[0] == 'd');
    assert(spelling(Keyword::Defsig)[0] == 'd');
    assert(spelling(Keyword::Defprim)[0] == 'd');
    assert(spelling(Keyword::Defsum)[0] == 'd');
    assert(spelling(Keyword::Defprod)[0] == 'd');
    assert(spelling(Keyword::Defun)[0] == 'd');
    assert(spelling(Keyword::Defattrs)[0] == 'd');
}

/// Every character of `d` is a decimal digit.
pub open spec fn all_decimal(d: Seq<char>) -> bool {
    forall|q: int| 0 <= q < d.len() ==> '0' <= #[trigger] d[q] && d[q] <= '9'
}

/// The value read from the text `w` when it is one unsigned literal.
pub open spec fn unsigned_literal(w: Seq<char>) -> ValueView {
    ValueView {
        name: None,
        typing: Some(TypeView::UInt),
        value: Some(PrimView::UInt(w)),
        children: Seq::empty(),
        token: TokenView { kind: TokenKind::UIntLiteral, content: w, loc: LocView { file: None, pos: 0 } },
    }
}

/// The value read from the text `w` when it is one float literal.
pub open spec fn float_literal(w: Seq<char>) -> ValueView {
    ValueView {
        name: None,
        typing: Some(TypeView::Float),
        value: Some(PrimView::Float(w)),
        children: Seq::empty(),
        token: TokenView { kind: TokenKind::FloatLiteral, content: w, loc: LocView { file: None, pos: 0 } },
    }
}

/// A text made of decimal digits, or of `b` and binary digits, `o` and
/// octal digits, or `x` and hexadecimal digits (`0`-`9`, `a`-`f`, `A`-`F`),
/// reads as one unsigned literal holding that text.
pub proof fn lemma_unsigned_words(p: Seq<char>, d: Seq<char>)
    requires
        d.len() > 0,
        p.len() == 0 && all_decimal(d)
            || p == seq!['b'] && (forall|q: int| 0 <= q < d.len() ==> #[trigger] d[q] == '0' || d[q] == '1')
            || p == seq!['o'] && (forall|q: int| 0 <= q < d.len() ==> '0' <= #[trigger] d[q] && d[q] <= '7')
            || p == seq!['x'] && (forall|q: int|
                0 <= q < d.len() ==> ('0' <= #[trigger] d[q] && d[q] <= '9') || ('a' <= d[q] && d[q] <= 'f')
                    || ('A' <= d[q] && d[q] <= 'F')),
    ensures
        read_text(p + d) == Ok::<Seq<ValueView>, ErrorView>(seq![unsigned_literal(p + d)]),
{
    let w = p + d;
    let n = w.len() as int;
    assert forall|q: int| 0 <= q < w.len() implies !is_delimiter(#[trigger] w[q]) by {
        if q >= p.len() {
            assert(w[q] == d[q - p.len()]);
        }
    }
    if p.len() == 0 {
        assert(w =~= d);
        lemma_run_end_digits(w, 0, n, n, Digits::Dec);
        assert(w[0] == d[0]);
    } else {
        assert(w[0] == p[0]);
        assert forall|q: int| 1 <= q < n implies w[q] == d[q - 1] by {}
        if p[0] == 'b' {
            assert forall|q: int| 1 <= q < n implies is_digit_of(Digits::Bin, #[trigger] w[q]) by {
                assert(w[q] == d[q - 1]);
            }
            lemma_run_end_digits(w, 1, n, n, Digits::Bin);
        } else if p[0] == 'o' {
            assert forall|q: int| 1 <= q < n implies is_digit_of(Digits::Oct, #[trigger] w[q]) by {
                assert(w[q] == d[q - 1]);
            }
            lemma_run_end_digits(w, 1, n, n, Digits::Oct);
        } else {
            assert forall|q: int| 1 <= q < n implies is_digit_of(Digits::Hex, #[trigger] w[q]) by {
                assert(w[q] == d[q - 1]);
            }
            lemma_run_end_digits(w, 1, n, n, Digits::Hex);
        }
    }
    lemma_not_keyword(w);
    assert(w.subrange(0, n) =~= w);
    assert(word_kind(w, 0, n) == Ok::<TokenKind, ErrorKind>(TokenKind::UIntLiteral));
    lemma_lex_one_word(w, TokenKind::UIntLiteral);
    lemma_read_one_token(w, TokenView { kind: TokenKind::UIntLiteral, content: w, loc: LocView { file: None, pos: 0 } });
}

/// A text made of an optional sign, decimal digits, then a fraction (`.`
/// and digits), an exponent (`e` or `E`, an optional sign of either kind,
/// and digits) or both, reads as one float literal holding that text.
pub proof fn lemma_float_words(
    sg: Seq<char>,
    m: Seq<char>,
    f: Seq<char>,
    has_exp: bool,
    x: char,
    es: Seq<char>,
    e: Seq<char>,
)
    requires
        sg.len() <= 1,
        sg.len() == 1 ==> sg[0] == '+' || sg[0] == '-',
        m.len() > 0,
        all_decimal(m),
        all_decimal(f),
        f.len() > 0 || has_exp,
        has_exp ==> (x == 'e' || x == 'E') && es.len() <= 1 && (es.len() == 1 ==> es[0] == '+'
            || es[0] == '-') && e.len() > 0 && all_decimal(e),
    ensures
        ({
            let fr = if f.len() > 0 {
                seq!['.'] + f
            } else {
                Seq::<char>::empty()
            };
            let ex = if has_exp {
                seq![x] + es + e
            } else {
                Seq::<char>::empty()
            };
            let w = sg + m + fr + ex;
            read_text(w) == Ok::<Seq<ValueView>, ErrorView>(seq![float_literal(w)])
        }),
{
    let fr = if f.len() > 0 {
        seq!['.'] + f
    } else {
        Seq::<char>::empty()
    };
    let ex = if has_exp {
        seq![x] + es + e
    } else {
        Seq::<char>::empty()
    };
    let w = sg + m + fr + ex;
    let n = w.len() as int;
    let s = sg.len() as int;
    let dd = s + m.len();
    let ff = dd + fr.len();
    let g = if has_exp { ff + 1 + es.len() } else { n };
    assert(ff + ex.len() == n);
    lemma_float_parts(sg, m, fr, ex);
    if f.len() > 0 {
        assert forall|q: int| dd + 1 <= q < ff implies is_digit_of(Digits::Dec, #[trigger] w[q]) by {
            assert(fr[q - dd] == f[q - dd - 1]);
        }
        assert(w[dd] == fr[0]);
    }
    if has_exp {
        assert(w[ff] == ex[0]);
        assert forall|q: int| g <= q < n implies is_digit_of(Digits::Dec, #[trigger] w[q]) by {
            assert(ex[q - ff] == e[q - g]);
        }
        if es.len() == 1 {
            assert(w[ff + 1] == ex[1]);
        } else {
            assert(w[ff + 1] == ex[1]);
            assert(ex[1] == e[0]);
        }
    }
    assert forall|q: int| ff < q < g implies #[trigger] is_sign(w[q]) by {
        assert(ex[q - ff] == es[q - ff - 1]);
    }
    lemma_float_shape(w, s, dd, ff, has_exp, g);
    lemma_not_keyword(w);
    lemma_lex_one_word(w, TokenKind::FloatLiteral);
    lemma_read_one_token(w, TokenView { kind: TokenKind::FloatLiteral, content: w, loc: LocView { file: None, pos: 0 } });
}

/// Index facts of a float text built from its parts.
proof fn lemma_float_parts(sg: Seq<char>, m: Seq<char>, fr: Seq<char>, ex: Seq<char>)
    requires
        sg.len() <= 1,
        sg.len() == 1 ==> sg[0] == '+' || sg[0] == '-',
        m.len() > 0,
        all_decimal(m),
    ensures
        ({
            let w = sg + m + fr + ex;
            let s = sg.len() as int;
            let dd = s + m.len();
            let ff = dd + fr.len();
            &&& w.len() == ff + ex.len()
            &&& s == 1 ==> is_sign(w[0])
            &&& forall|q: int| s <= q < dd ==> is_digit_of(Digits::Dec, #[trigger] w[q])
            &&& forall|q: int| dd <= q < ff ==> #[trigger] w[q] == fr[q - dd]
            &&& forall|q: int| ff <= q < w.len() ==> #[trigger] w[q] == ex[q - ff]
        }),
{
    let w = sg + m + fr + ex;
    let s = sg.len() as int;
    let dd = s + m.len();
    let ff = dd + fr.len();
    assert forall|q: int| s <= q < dd implies is_digit_of(Digits::Dec, #[trigger] w[q]) by {
        assert(w[q] == m[q - s]);
    }
}

/// The class of a word shaped as a float: `w[..s]` a sign, `w[s..dd]`
/// digits, `w[dd..ff]` a fraction, `w[ff..]` an exponent.
proof fn lemma_float_shape(w: Seq<char>, s: int, dd: int, ff: int, has_exp: bool, g: int)
    requires
        0 <= s <= 1,
        s < dd <= ff <= w.len(),
        s == 1 ==> is_sign(w[0]),
        forall|q: int| s <= q < dd ==> is_digit_of(Digits::Dec, #[trigger] w[q]),
        ff == dd || (w[dd] == '.' && ff > dd + 1 && forall|q: int|
            dd + 1 <= q < ff ==> is_digit_of(Digits::Dec, #[trigger] w[q])),
        has_exp ==> (w[ff] == 'e' || w[ff] == 'E') && ff + 1 <= g <= ff + 2 && g < w.len()
            && forall|q: int| g <= q < w.len() ==> is_digit_of(Digits::Dec, #[trigger] w[q]),
        forall|q: int| ff < q < g ==> #[trigger] is_sign(w[q]),
        !has_exp ==> ff == w.len() && ff > dd,
    ensures
        forall|q: int| 0 <= q < w.len() ==> !is_delimiter(#[trigger] w[q]),
        word_kind(w, 0, w.len() as int) == Ok::<TokenKind, ErrorKind>(TokenKind::FloatLiteral),
{
    let n = w.len() as int;
    assert forall|q: int| 0 <= q < n implies !is_delimiter(#[trigger] w[q]) by {
        if q < s {
        } else if q < dd {
            assert(is_digit_of(Digits::Dec, w[q]));
        } else if q < ff {
            if q > dd {
                assert(is_digit_of(Digits::Dec, w[q]));
            }
        } else if q == ff {
        } else if q < g {
            assert(is_sign(w[q]));
        } else {
            assert(is_digit_of(Digits::Dec, w[q]));
        }
    }
    lemma_run_end_digits(w, s, dd, n, Digits::Dec);
    if ff > dd {
        lemma_run_end_digits(w, dd + 1, ff, n, Digits::Dec);
    }
    if has_exp {
        lemma_run_end_digits(w, g, n, n, Digits::Dec);
        if g == ff + 1 {
            assert(is_digit_of(Digits::Dec, w[ff + 1]));
        } else {
            assert(is_sign(w[ff + 1]));
        }
    }
    assert(is_float(w, 0, n));
    if s == 0 {
        assert(!is_digit_of(Digits::Dec, w[dd]) || dd == n);
    } else {
        assert(!is_digit_of(Digits::Dec, w[0]));
        lemma_run_end_digits(w, 0, 0, n, Digits::Dec);
        lemma_run_end_digits(w, 1, dd, n, Digits::Dec);
    }
    assert(!is_uint(w, 0, n));
    assert(!is_int(w, 0, n));
    assert(w[0] != 'i' && w[0] != 'e' && w[0] != 'd');
    lemma_not_keyword(w.subrange(0, n));
}

// ---------------------------------------------------------------------------
// Keyword and symbol words
// ---------------------------------------------------------------------------

/// Each keyword written alone reads as one keyword value, named by the
/// keyword and typed as a builtin.
pub proof fn lemma_keyword_words(k: Keyword)
    ensures
        read_text(spelling(k)) == Ok::<Seq<ValueView>, ErrorView>(
            seq![
                ValueView {
                    name: Some(spelling(k)),
                    typing: Some(TypeView::Builtin),
                    value: None,
                    children: Seq::empty(),
                    token: TokenView {
                        kind: TokenKind::Keyword,
                        content: spelling(k),
                        loc: LocView { file: None, pos: 0 },
                    },
                },
            ],
        ),
{
    let w = spelling(k);
    let n = w.len() as int;
    crate::syntax::lemma_keyword_of_spelling(k);
    assert forall|q: int| 0 <= q < n implies 'a' <= #[trigger] w[q] && w[q] <= 'z' by {}
    assert forall|q: int| 0 <= q < n implies !is_delimiter(#[trigger] w[q]) by {
        assert('a' <= w[q] && w[q] <= 'z');
    }
    assert(w.subrange(0, n) =~= w);
    lemma_lex_one_word(w, TokenKind::Keyword);
    lemma_read_one_token(w, TokenView { kind: TokenKind::Keyword, content: w, loc: LocView { file: None, pos: 0 } });
}

/// A word of letters, digits and `_` that starts with a capital letter
/// reads as a type symbol named by it; one that starts with a small letter
/// other than `b`, `o` and `x`, and is no keyword, reads as a value symbol
/// named by it.
pub proof fn lemma_symbol_words(w: Seq<char>)
    requires
        w.len() > 0,
        forall|q: int|
            0 <= q < w.len() ==> ('a' <= #[trigger] w[q] && w[q] <= 'z') || ('A' <= w[q] && w[q] <= 'Z')
                || ('0' <= w[q] && w[q] <= '9') || w[q] == '_',
        ('A' <= w[0] && w[0] <= 'Z') || ('a' <= w[0] && w[0] <= 'z' && w[0] != 'b' && w[0] != 'o'
            && w[0] != 'x' && keyword_of(w) is None),
    ensures
        read_text(w) == Ok::<Seq<ValueView>, ErrorView>(
            seq![
                ValueView {
                    name: Some(w),
                    typing: Some(
                        if 'A' <= w[0] && w[0] <= 'Z' {
                            TypeView::Type
                        } else {
                            TypeView::Unknown
                        },
                    ),
                    value: None,
                    children: Seq::empty(),
                    token: TokenView {
                        kind: if 'A' <= w[0] && w[0] <= 'Z' {
                            TokenKind::TypeSymbol
                        } else {
                            TokenKind::ValueSymbol
                        },
                        content: w,
                        loc: LocView { file: None, pos: 0 },
                    },
                },
            ],
        ),
{
    let n = w.len() as int;
    let kind = if 'A' <= w[0] && w[0] <= 'Z' {
        TokenKind::TypeSymbol
    } else {
        TokenKind::ValueSymbol
    };
    assert forall|q: int| 0 <= q < n implies !is_delimiter(#[trigger] w[q]) by {}
    assert(w.subrange(0, n) =~= w);
    if 'A' <= w[0] && w[0] <= 'Z' {
        lemma_not_keyword(w);
    }
    lemma_run_end_digits(w, 0, 0, n, Digits::Dec);
    assert(!is_uint(w, 0, n));
    assert(!is_int(w, 0, n));
    assert(!is_float(w, 0, n));
    assert(word_kind(w, 0, n) == Ok::<TokenKind, ErrorKind>(kind));
    lemma_lex_one_word(w, kind);
    lemma_read_one_token(w, TokenView { kind, content: w, loc: LocView { file: None, pos: 0 } });
}

// ---------------------------------------------------------------------------
// Forms
// ---------------------------------------------------------------------------

/// Every form read from a text is named by its first element, carries no
/// payload, and is typed as the application of its elements' types (an
/// untyped element counting as unknown); every other value read has no
/// elements, and a literal has no name.
pub proof fn lemma_read_forms(cs: Seq<char>)
    ensures
        read_text(cs) matches Ok(vs) ==> forall|i: int| 0 <= i < vs.len() ==> {
            let v = #[trigger] vs[i];
            if v.token.kind == TokenKind::FormStart {
                &&& v.value is None
                &&& v.name == (if v.children.len() > 0 {
                    v.children[0].name
                } else {
                    None
                })
                &&& v.typing matches Some(TypeView::App(ts))
                &&& ts.len() == v.children.len()
                &&& forall|j: int| 0 <= j < ts.len() ==> #[trigger] ts[j] == match v.children[j].typing {
                    Some(t) => t,
                    None => TypeView::Unknown,
                }
            } else {
                &&& v.children.len() == 0
                &&& v.typing is Some
                &&& (v.token.kind == TokenKind::Keyword || v.token.kind == TokenKind::ValueSymbol
                    || v.token.kind == TokenKind::TypeSymbol) <==> v.name == Some(v.token.content)
                &&& v.name is None <==> v.value is Some
            }
        },
{
    lemma_read_text_well_formed(cs);
}

} // verus!
