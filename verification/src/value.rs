use crate::error::{parsing_error, Error, ErrorKind, ErrorView};
use crate::strings::{chars_of, clone_opt_string, opt_str_view, string_of_range};
use crate::token::{tokens_view, LocView, Token, TokenKind, TokenView};
use crate::tokens::{shift_token, shift_tokens};
use crate::typing::{lemma_types_view, type_view, types_view, Type, TypeView};
use vstd::prelude::*;

verus! {

// ---------------------------------------------------------------------------
// Primitive values
// ---------------------------------------------------------------------------

/// The payload of a literal. Numbers keep the text they were written as;
/// characters and strings keep their text with escapes resolved.
#[derive(Debug, PartialEq, Eq)]
pub enum PrimValue {
    Empty,
    UInt(String),
    Int(String),
    Float(String),
    Char(String),
    String(String),
}

/// Model of a `PrimValue`.
pub enum PrimView {
    Empty,
    UInt(Seq<char>),
    Int(Seq<char>),
    Float(Seq<char>),
    Char(Seq<char>),
    Str(Seq<char>),
}

impl View for PrimValue {
    type V = PrimView;

    open spec fn view(&self) -> PrimView {
        match self {
            PrimValue::Empty => PrimView::Empty,
            PrimValue::UInt(s) => PrimView::UInt(s@),
            PrimValue::Int(s) => PrimView::Int(s@),
            PrimValue::Float(s) => PrimView::Float(s@),
            PrimValue::Char(s) => PrimView::Char(s@),
            PrimValue::String(s) => PrimView::Str(s@),
        }
    }
}

impl Clone for PrimValue {
    fn clone(&self) -> (r: Self)
        ensures
            r@ == self@,
    {
        match self {
            PrimValue::Empty => PrimValue::Empty,
            PrimValue::UInt(s) => PrimValue::UInt(s.clone()),
            PrimValue::Int(s) => PrimValue::Int(s.clone()),
            PrimValue::Float(s) => PrimValue::Float(s.clone()),
            PrimValue::Char(s) => PrimValue::Char(s.clone()),
            PrimValue::String(s) => PrimValue::String(s.clone()),
        }
    }
}

/// The character that the escape `\c` stands for.
pub open spec fn escaped(c: char) -> char {
    if c == 'n' {
        '\n'
    } else if c == 't' {
        '\t'
    } else if c == 'r' {
        '\r'
    } else if c == '0' {
        '\0'
    } else {
        c
    }
}

/// `s` with each escape `\c` replaced by the character it stands for; a
/// backslash at the very end stays.
pub open spec fn unescape(s: Seq<char>) -> Seq<char>
    decreases s.len(),
{
    if s.len() == 0 {
        Seq::empty()
    } else if s[0] == '\\' && s.len() > 1 {
        seq![escaped(s[1])] + unescape(s.subrange(2, s.len() as int))
    } else {
        seq![s[0]] + unescape(s.drop_first())
    }
}

fn escaped_exec(c: char) -> (r: char)
    ensures
        r == escaped(c),
{
    if c == 'n' {
        '\n'
    } else if c == 't' {
        '\t'
    } else if c == 'r' {
        '\r'
    } else if c == '0' {
        '\0'
    } else {
        c
    }
}

/// The characters of `cs[start..end]` with escapes resolved.
fn unescape_range(cs: &Vec<char>, start: usize, end: usize) -> (r: String)
    requires
        start <= end <= cs@.len(),
    ensures
        r@ == unescape(cs@.subrange(start as int, end as int)),
{
    let ghost whole = cs@.subrange(start as int, end as int);
    let mut out: Vec<char> = Vec::new();
    let mut i = start;
    while i < end
        invariant
            start <= i <= end <= cs@.len(),
            whole == cs@.subrange(start as int, end as int),
            unescape(whole) == out@ + unescape(cs@.subrange(i as int, end as int)),
        decreases end - i,
    {
        let ghost rest = cs@.subrange(i as int, end as int);
        if cs[i] == '\\' && end - i > 1 {
            out.push(escaped_exec(cs[i + 1]));
            proof {
                assert(rest.subrange(2, rest.len() as int) =~= cs@.subrange(i + 2, end as int));
            }
            i = i + 2;
        } else {
            out.push(cs[i]);
            proof {
                assert(rest.drop_first() =~= cs@.subrange(i + 1, end as int));
            }
            i = i + 1;
        }
        proof {
            assert(unescape(whole) =~= out@ + unescape(cs@.subrange(i as int, end as int)));
        }
    }
    proof {
        assert(unescape(cs@.subrange(end as int, end as int)) =~= Seq::<char>::empty());
        assert(out@ + Seq::<char>::empty() =~= out@);
    }
    string_of_range(&out, 0, out.len())
}

impl PrimValue {
    pub fn new_empty() -> (p: PrimValue)
        ensures
            p@ == PrimView::Empty,
    {
        PrimValue::Empty
    }

    /// An unsigned number, as written.
    pub fn new_uint(s: &str) -> (p: PrimValue)
        ensures
            p@ == PrimView::UInt(s@),
    {
        PrimValue::UInt(s.to_owned())
    }

    /// A signed number, as written.
    pub fn new_int(s: &str) -> (p: PrimValue)
        ensures
            p@ == PrimView::Int(s@),
    {
        PrimValue::Int(s.to_owned())
    }

    /// A floating-point number, as written.
    pub fn new_float(s: &str) -> (p: PrimValue)
        ensures
            p@ == PrimView::Float(s@),
    {
        PrimValue::Float(s.to_owned())
    }

    /// A character, from the text between its quotes.
    pub fn new_char(s: &str) -> (p: PrimValue)
        ensures
            p@ == PrimView::Char(unescape(s@)),
    {
        let cs = chars_of(s);
        proof {
            assert(cs@.subrange(0, cs@.len() as int) =~= s@);
        }
        PrimValue::Char(unescape_range(&cs, 0, cs.len()))
    }

    /// A string, from the text between its quotes.
    pub fn new_string(s: &str) -> (p: PrimValue)
        ensures
            p@ == PrimView::Str(unescape(s@)),
    {
        let cs = chars_of(s);
        proof {
            assert(cs@.subrange(0, cs@.len() as int) =~= s@);
        }
        PrimValue::String(unescape_range(&cs, 0, cs.len()))
    }
}

// ---------------------------------------------------------------------------
// Values
// ---------------------------------------------------------------------------

/// A value read from source text: a literal, a keyword, a symbol, or a form
/// (an application) with its elements as children.
#[derive(Debug, PartialEq, Eq)]
pub struct Value {
    pub name: Option<String>,
    pub typing: Option<Type>,
    pub value: Option<PrimValue>,
    pub children: Vec<Value>,
    pub token: Token,
}

/// Model of a `Value`.
pub struct ValueView {
    pub name: Option<Seq<char>>,
    pub typing: Option<TypeView>,
    pub value: Option<PrimView>,
    pub children: Seq<ValueView>,
    pub token: TokenView,
}

pub open spec fn opt_type_view(t: Option<Type>) -> Option<TypeView> {
    match t {
        Some(x) => Some(type_view(x)),
        None => None,
    }
}

pub open spec fn opt_prim_view(p: Option<PrimValue>) -> Option<PrimView> {
    match p {
        Some(x) => Some(x@),
        None => None,
    }
}

pub open spec fn value_view(v: Value) -> ValueView
    decreases v,
{
    ValueView {
        name: opt_str_view(v.name),
        typing: opt_type_view(v.typing),
        value: opt_prim_view(v.value),
        children: values_view(v.children@),
        token: v.token@,
    }
}

/// The models of a sequence of values, element by element.
pub open spec fn values_view(vs: Seq<Value>) -> Seq<ValueView>
    decreases vs,
{
    if vs.len() == 0 {
        Seq::empty()
    } else {
        values_view(vs.drop_last()).push(value_view(vs.last()))
    }
}

impl View for Value {
    type V = ValueView;

    open spec fn view(&self) -> ValueView {
        value_view(*self)
    }
}

/// `values_view` keeps the length and maps each element to its model.
pub proof fn lemma_values_view(vs: Seq<Value>)
    ensures
        values_view(vs).len() == vs.len(),
        forall|i: int| 0 <= i < vs.len() ==> #[trigger] values_view(vs)[i] == value_view(vs[i]),
    decreases vs.len(),
{
    if vs.len() > 0 {
        lemma_values_view(vs.drop_last());
    }
}

/// `values_view` of a pushed sequence.
pub proof fn lemma_values_view_push(vs: Seq<Value>, v: Value)
    ensures
        values_view(vs.push(v)) == values_view(vs).push(value_view(v)),
{
    assert(vs.push(v).drop_last() =~= vs);
}

fn clone_value(v: &Value) -> (r: Value)
    ensures
        r@ == v@,
    decreases v,
{
    let mut children: Vec<Value> = Vec::new();
    let n = v.children.len();
    for i in 0..n
        invariant
            n == v.children@.len(),
            values_view(children@) == values_view(v.children@.take(i as int)),
    {
        proof {
            assert(decreases_to!(*v => v.children));
            assert(decreases_to!(v.children => v.children@));
            assert(decreases_to!(v.children@ => v.children@[i as int]));
        }
        let c = clone_value(&v.children[i]);
        proof {
            lemma_values_view_push(children@, c);
            assert(v.children@.take(i + 1).drop_last() =~= v.children@.take(i as int));
        }
        children.push(c);
    }
    proof {
        assert(v.children@.take(n as int) =~= v.children@);
    }
    let typing = match &v.typing {
        Some(t) => Some(t.clone()),
        None => None,
    };
    let value = match &v.value {
        Some(p) => Some(p.clone()),
        None => None,
    };
    Value {
        name: clone_opt_string(&v.name),
        typing,
        value,
        children,
        token: v.token.clone(),
    }
}

impl Clone for Value {
    fn clone(&self) -> (r: Self)
        ensures
            r@ == self@,
    {
        clone_value(self)
    }
}

/// The model of `Value::default()`.
pub open spec fn default_value_view() -> ValueView {
    ValueView {
        name: None,
        typing: None,
        value: None,
        children: Seq::empty(),
        token: TokenView {
            kind: TokenKind::EmptyLiteral,
            content: Seq::empty(),
            loc: LocView { file: None, pos: 0 },
        },
    }
}

impl Default for Value {
    /// A value with no name, no type, no payload and no children.
    fn default() -> (v: Self)
        ensures
            v@ == default_value_view(),
    {
        let v = Value { name: None, typing: None, value: None, children: Vec::new(), token: Token::default() };
        proof {
            assert(values_view(v.children@) =~= Seq::<ValueView>::empty());
        }
        v
    }
}

// ---------------------------------------------------------------------------
// Reading values from tokens
// ---------------------------------------------------------------------------

/// Token classes that make a value by themselves.
pub open spec fn is_atom(k: TokenKind) -> bool {
    match k {
        TokenKind::EmptyLiteral | TokenKind::Keyword | TokenKind::UIntLiteral
        | TokenKind::IntLiteral | TokenKind::FloatLiteral | TokenKind::CharLiteral
        | TokenKind::StringLiteral | TokenKind::ValueSymbol | TokenKind::TypeSymbol => true,
        _ => false,
    }
}

/// The text of a quoted literal without its quotes.
pub open spec fn unquote(c: Seq<char>) -> Seq<char> {
    if c.len() >= 2 {
        c.subrange(1, c.len() - 1)
    } else {
        Seq::empty()
    }
}

/// The value of a literal, keyword or symbol token: keywords and symbols
/// are named by their text; literals carry their payload and no name.
pub open spec fn atom_view(t: TokenView) -> ValueView {
    let (name, typing, value) = match t.kind {
        TokenKind::EmptyLiteral => (None, TypeView::Empty, Some(PrimView::Empty)),
        TokenKind::Keyword => (Some(t.content), TypeView::Builtin, None),
        TokenKind::UIntLiteral => (None, TypeView::UInt, Some(PrimView::UInt(t.content))),
        TokenKind::IntLiteral => (None, TypeView::Int, Some(PrimView::Int(t.content))),
        TokenKind::FloatLiteral => (None, TypeView::Float, Some(PrimView::Float(t.content))),
        TokenKind::CharLiteral => (
            None,
            TypeView::Char,
            Some(PrimView::Char(unescape(unquote(t.content)))),
        ),
        TokenKind::StringLiteral => (
            None,
            TypeView::String,
            Some(PrimView::Str(unescape(unquote(t.content)))),
        ),
        TokenKind::TypeSymbol => (Some(t.content), TypeView::Type, None),
        _ => (Some(t.content), TypeView::Unknown, None),
    };
    ValueView { name, typing: Some(typing), value, children: Seq::empty(), token: t }
}

/// The type a value contributes to the type of the form around it.
pub open spec fn child_type(v: ValueView) -> TypeView {
    match v.typing {
        Some(t) => t,
        None => TypeView::Unknown,
    }
}

/// The value of a form opened by `t` with elements `cs`: it is named by
/// its head and typed as the application of its elements' types.
pub open spec fn app_view(t: TokenView, cs: Seq<ValueView>) -> ValueView {
    ValueView {
        name: if cs.len() > 0 {
            cs[0].name
        } else {
            None
        },
        typing: Some(TypeView::App(cs.map_values(|c: ValueView| child_type(c)))),
        value: None,
        children: cs,
        token: t,
    }
}

pub open spec fn loc_err(kind: ErrorKind, t: TokenView) -> ErrorView {
    ErrorView::Parsing(kind, Some(t.loc))
}

/// The value that starts at token `i`, and the index after it.
pub open spec fn parse_item(toks: Seq<TokenView>, i: int) -> Result<(ValueView, int), ErrorView>
    decreases toks.len() - i, 0int,
{
    if i < 0 || i >= toks.len() {
        Err(ErrorView::Parsing(ErrorKind::UnexpectedEnd, None))
    } else {
        let t = toks[i];
        match t.kind {
            TokenKind::FormStart => match parse_items(toks, i + 1) {
                Ok((cs, k)) => Ok((app_view(t, cs), k)),
                Err(e) => Err(e),
            },
            TokenKind::FormEnd => Err(loc_err(ErrorKind::UnexpectedFormEnd, t)),
            TokenKind::Comment => Err(loc_err(ErrorKind::UnexpectedComment, t)),
            TokenKind::DocComment => Err(loc_err(ErrorKind::UnexpectedDocComment, t)),
            _ => Ok((atom_view(t), i + 1)),
        }
    }
}

/// The values from token `i` up to the `)` that closes the form, and the
/// index after that `)`.
pub open spec fn parse_items(toks: Seq<TokenView>, i: int) -> Result<
    (Seq<ValueView>, int),
    ErrorView,
>
    decreases toks.len() - i, 1int,
{
    if i < 0 || i >= toks.len() {
        Err(ErrorView::Parsing(ErrorKind::UnterminatedForm, None))
    } else if toks[i].kind == TokenKind::FormEnd {
        Ok((Seq::empty(), i + 1))
    } else {
        match parse_item(toks, i) {
            Ok((v, j)) => if i < j <= toks.len() {
                match parse_items(toks, j) {
                    Ok((vs, k)) => Ok((seq![v] + vs, k)),
                    Err(e) => Err(e),
                }
            } else {
                Err(ErrorView::Parsing(ErrorKind::UnexpectedEnd, None))
            },
            Err(e) => Err(e),
        }
    }
}

/// The form made of exactly the tokens `toks`.
pub open spec fn spec_new_app(toks: Seq<TokenView>) -> Result<ValueView, ErrorView> {
    if toks.len() == 0 {
        Err(ErrorView::Parsing(ErrorKind::EmptyForm, None))
    } else if toks[0].kind != TokenKind::FormStart {
        Err(loc_err(ErrorKind::NotAForm, toks[0]))
    } else {
        match parse_item(toks, 0) {
            Ok((v, j)) => if j == toks.len() {
                Ok(v)
            } else {
                Err(loc_err(ErrorKind::TrailingTokens, toks[j]))
            },
            Err(e) => Err(e),
        }
    }
}

/// Reading always moves forward and stays within the tokens.
pub proof fn lemma_parse_item_advances(toks: Seq<TokenView>, i: int)
    ensures
        parse_item(toks, i) matches Ok((v, j)) ==> i < j <= toks.len(),
    decreases toks.len() - i, 0int,
{
    if 0 <= i < toks.len() && toks[i].kind == TokenKind::FormStart {
        lemma_parse_items_advances(toks, i + 1);
    }
}

pub proof fn lemma_parse_items_advances(toks: Seq<TokenView>, i: int)
    ensures
        parse_items(toks, i) matches Ok((vs, k)) ==> i < k <= toks.len(),
    decreases toks.len() - i, 1int,
{
    if 0 <= i < toks.len() && toks[i].kind != TokenKind::FormEnd {
        lemma_parse_item_advances(toks, i);
        if let Ok((v, j)) = parse_item(toks, i) {
            if i < j <= toks.len() {
                lemma_parse_items_advances(toks, j);
            }
        }
    }
}

pub open spec fn prepend_items(p: Seq<ValueView>, r: Result<(Seq<ValueView>, int), ErrorView>) -> Result<
    (Seq<ValueView>, int),
    ErrorView,
> {
    match r {
        Ok((vs, k)) => Ok((p + vs, k)),
        Err(e) => Err(e),
    }
}

fn wrong_token(t: &Token) -> (e: Error)
    ensures
        e@ == loc_err(ErrorKind::WrongToken, t@),
{
    parsing_error(ErrorKind::WrongToken, Some(t.loc.clone()))
}

/// The value of an atom token.
fn atom(token: Token) -> (v: Value)
    requires
        is_atom(token.kind),
    ensures
        v@ == atom_view(token@),
{
    let (name, typing, value) = match token.kind {
        TokenKind::EmptyLiteral => (None, Type::Empty, Some(PrimValue::Empty)),
        TokenKind::Keyword => (Some(token.content.clone()), Type::Builtin, None),
        TokenKind::UIntLiteral => (None, Type::UInt, Some(PrimValue::UInt(token.content.clone()))),
        TokenKind::IntLiteral => (None, Type::Int, Some(PrimValue::Int(token.content.clone()))),
        TokenKind::FloatLiteral => (
            None,
            Type::Float,
            Some(PrimValue::Float(token.content.clone())),
        ),
        TokenKind::CharLiteral => (
            None,
            Type::Char,
            Some(PrimValue::Char(unquoted_unescaped(&token.content))),
        ),
        TokenKind::StringLiteral => (
            None,
            Type::String,
            Some(PrimValue::String(unquoted_unescaped(&token.content))),
        ),
        TokenKind::TypeSymbol => (Some(token.content.clone()), Type::Type, None),
        _ => (Some(token.content.clone()), Type::Unknown, None),
    };
    let v = Value { name, typing: Some(typing), value, children: Vec::new(), token };
    proof {
        assert(values_view(v.children@) =~= Seq::<ValueView>::empty());
    }
    v
}

fn unquoted_unescaped(content: &String) -> (r: String)
    ensures
        r@ == unescape(unquote(content@)),
{
    let cs = chars_of(content.as_str());
    if cs.len() >= 2 {
        unescape_range(&cs, 1, cs.len() - 1)
    } else {
        proof {
            assert(cs@.subrange(0, 0) =~= Seq::<char>::empty());
        }
        unescape_range(&cs, 0, 0)
    }
}

fn parse_item_exec(toks: &Vec<Token>, i: usize) -> (r: Result<(Value, usize), Error>)
    ensures
        match r {
            Ok((v, j)) => parse_item(tokens_view(toks@), i as int) == Ok::<
                (ValueView, int),
                ErrorView,
            >((v@, j as int)),
            Err(e) => parse_item(tokens_view(toks@), i as int) == Err::<(ValueView, int), ErrorView>(
                e@,
            ),
        },
    decreases toks@.len() - i, 0int,
{
    let ghost tv = tokens_view(toks@);
    if i >= toks.len() {
        return Err(parsing_error(ErrorKind::UnexpectedEnd, None));
    }
    let t = &toks[i];
    assert(tv[i as int] == t@);
    match t.kind {
        TokenKind::FormStart => {
            match parse_items_exec(toks, i + 1) {
                Ok((cs, k)) => {
                    let mut types: Vec<Type> = Vec::new();
                    let n = cs.len();
                    for m in 0..n
                        invariant
                            n == cs@.len(),
                            types@.len() == m,
                            forall|q: int|
                                0 <= q < m ==> type_view(#[trigger] types@[q]) == child_type(
                                    value_view(cs@[q]),
                                ),
                    {
                        let ty = match &cs[m].typing {
                            Some(x) => x.clone(),
                            None => Type::Unknown,
                        };
                        types.push(ty);
                    }
                    let name = if cs.len() > 0 {
                        clone_opt_string(&cs[0].name)
                    } else {
                        None
                    };
                    let v = Value {
                        name,
                        typing: Some(Type::App(types)),
                        value: None,
                        children: cs,
                        token: t.clone(),
                    };
                    proof {
                        lemma_types_view(types@);
                        lemma_values_view(v.children@);
                        assert(types_view(types@) =~= values_view(v.children@).map_values(
                            |c: ValueView| child_type(c),
                        ));
                    }
                    Ok((v, k))
                },
                Err(e) => Err(e),
            }
        },
        TokenKind::FormEnd => Err(parsing_error(ErrorKind::UnexpectedFormEnd, Some(t.loc.clone()))),
        TokenKind::Comment => Err(parsing_error(ErrorKind::UnexpectedComment, Some(t.loc.clone()))),
        TokenKind::DocComment => Err(
            parsing_error(ErrorKind::UnexpectedDocComment, Some(t.loc.clone())),
        ),
        _ => Ok((atom(t.clone()), i + 1)),
    }
}

fn parse_items_exec(toks: &Vec<Token>, i: usize) -> (r: Result<(Vec<Value>, usize), Error>)
    ensures
        match r {
            Ok((vs, k)) => parse_items(tokens_view(toks@), i as int) == Ok::<
                (Seq<ValueView>, int),
                ErrorView,
            >((values_view(vs@), k as int)),
            Err(e) => parse_items(tokens_view(toks@), i as int) == Err::<
                (Seq<ValueView>, int),
                ErrorView,
            >(e@),
        },
    decreases toks@.len() - i, 1int,
{
    let ghost tv = tokens_view(toks@);
    let mut children: Vec<Value> = Vec::new();
    let mut j = i;
    proof {
        assert(values_view(children@) =~= Seq::<ValueView>::empty());
        match parse_items(tv, i as int) {
            Ok((vs, k)) => assert(Seq::<ValueView>::empty() + vs =~= vs),
            Err(e) => {},
        }
    }
    loop
        invariant
            i <= j,
            tv == tokens_view(toks@),
            parse_items(tv, i as int) == prepend_items(values_view(children@), parse_items(tv, j as int)),
        decreases toks@.len() - j,
    {
        if j >= toks.len() {
            return Err(parsing_error(ErrorKind::UnterminatedForm, None));
        }
        assert(tv[j as int] == toks@[j as int]@);
        if toks[j].kind == TokenKind::FormEnd {
            proof {
                assert(values_view(children@) + Seq::<ValueView>::empty() =~= values_view(children@));
            }
            return Ok((children, j + 1));
        }
        match parse_item_exec(toks, j) {
            Err(e) => {
                return Err(e);
            },
            Ok((v, k)) => {
                proof {
                    lemma_parse_item_advances(tv, j as int);
                    lemma_values_view_push(children@, v);
                    match parse_items(tv, k as int) {
                        Ok((vs, q)) => {
                            assert(values_view(children@) + (seq![v@] + vs) =~= values_view(
                                children@,
                            ).push(v@) + vs);
                        },
                        Err(e) => {},
                    }
                }
                children.push(v);
                j = k;
            },
        }
    }
}

impl Value {
    /// The empty literal `()`; a `WrongToken` error for a token of another class.
    pub fn new_empty(token: Token) -> (r: Result<Value, Error>)
        ensures
            r is Ok <==> token.kind == TokenKind::EmptyLiteral,
            r matches Ok(v) ==> v@ == atom_view(token@),
            r matches Err(e) ==> e@ == loc_err(ErrorKind::WrongToken, token@),
    {
        if token.kind == TokenKind::EmptyLiteral {
            Ok(atom(token))
        } else {
            Err(wrong_token(&token))
        }
    }

    /// A keyword, named by its text.
    pub fn new_keyword(token: Token) -> (r: Result<Value, Error>)
        ensures
            r is Ok <==> token.kind == TokenKind::Keyword,
            r matches Ok(v) ==> v@ == atom_view(token@),
            r matches Err(e) ==> e@ == loc_err(ErrorKind::WrongToken, token@),
    {
        if token.kind == TokenKind::Keyword {
            Ok(atom(token))
        } else {
            Err(wrong_token(&token))
        }
    }

    /// An unsigned number literal.
    pub fn new_uint(token: Token) -> (r: Result<Value, Error>)
        ensures
            r is Ok <==> token.kind == TokenKind::UIntLiteral,
            r matches Ok(v) ==> v@ == atom_view(token@),
            r matches Err(e) ==> e@ == loc_err(ErrorKind::WrongToken, token@),
    {
        if token.kind == TokenKind::UIntLiteral {
            Ok(atom(token))
        } else {
            Err(wrong_token(&token))
        }
    }

    /// A signed number literal.
    pub fn new_int(token: Token) -> (r: Result<Value, Error>)
        ensures
            r is Ok <==> token.kind == TokenKind::IntLiteral,
            r matches Ok(v) ==> v@ == atom_view(token@),
            r matches Err(e) ==> e@ == loc_err(ErrorKind::WrongToken, token@),
    {
        if token.kind == TokenKind::IntLiteral {
            Ok(atom(token))
        } else {
            Err(wrong_token(&token))
        }
    }

    /// A floating-point number literal.
    pub fn new_float(token: Token) -> (r: Result<Value, Error>)
        ensures
            r is Ok <==> token.kind == TokenKind::FloatLiteral,
            r matches Ok(v) ==> v@ == atom_view(token@),
            r matches Err(e) ==> e@ == loc_err(ErrorKind::WrongToken, token@),
    {
        if token.kind == TokenKind::FloatLiteral {
            Ok(atom(token))
        } else {
            Err(wrong_token(&token))
        }
    }

    /// A character literal.
    pub fn new_char(token: Token) -> (r: Result<Value, Error>)
        ensures
            r is Ok <==> token.kind == TokenKind::CharLiteral,
            r matches Ok(v) ==> v@ == atom_view(token@),
            r matches Err(e) ==> e@ == loc_err(ErrorKind::WrongToken, token@),
    {
        if token.kind == TokenKind::CharLiteral {
            Ok(atom(token))
        } else {
            Err(wrong_token(&token))
        }
    }

    /// A string literal.
    pub fn new_string(token: Token) -> (r: Result<Value, Error>)
        ensures
            r is Ok <==> token.kind == TokenKind::StringLiteral,
            r matches Ok(v) ==> v@ == atom_view(token@),
            r matches Err(e) ==> e@ == loc_err(ErrorKind::WrongToken, token@),
    {
        if token.kind == TokenKind::StringLiteral {
            Ok(atom(token))
        } else {
            Err(wrong_token(&token))
        }
    }

    /// A value or type symbol, named by its text.
    pub fn new_symbol(token: Token) -> (r: Result<Value, Error>)
        ensures
            r is Ok <==> (token.kind == TokenKind::ValueSymbol || token.kind
                == TokenKind::TypeSymbol),
            r matches Ok(v) ==> v@ == atom_view(token@),
            r matches Err(e) ==> e@ == loc_err(ErrorKind::WrongToken, token@),
    {
        if token.kind == TokenKind::ValueSymbol || token.kind == TokenKind::TypeSymbol {
            Ok(atom(token))
        } else {
            Err(wrong_token(&token))
        }
    }

    /// The form written by exactly the tokens `form`, from its `(` to the
    /// `)` that closes it.
    pub fn new_app(form: Vec<Token>) -> (r: Result<Value, Error>)
        ensures
            match r {
                Ok(v) => spec_new_app(tokens_view(form@)) == Ok::<ValueView, ErrorView>(v@),
                Err(e) => spec_new_app(tokens_view(form@)) == Err::<ValueView, ErrorView>(e@),
            },
    {
        let ghost tv = tokens_view(form@);
        if form.len() == 0 {
            return Err(parsing_error(ErrorKind::EmptyForm, None));
        }
        assert(tv[0] == form@[0]@);
        if form[0].kind != TokenKind::FormStart {
            return Err(parsing_error(ErrorKind::NotAForm, Some(form[0].loc.clone())));
        }
        match parse_item_exec(&form, 0) {
            Ok((v, j)) => {
                if j == form.len() {
                    Ok(v)
                } else {
                    proof {
                        lemma_parse_item_advances(tv, 0);
                        assert(tv[j as int] == form@[j as int]@);
                    }
                    Err(parsing_error(ErrorKind::TrailingTokens, Some(form[j].loc.clone())))
                }
            },
            Err(e) => Err(e),
        }
    }
}

// ---------------------------------------------------------------------------
// Shape of the values read
// ---------------------------------------------------------------------------

/// `v` is what reading makes of its token: a form is named by its head,
/// typed by its elements' types, carries no payload, and its elements are
/// well formed too; any other value is the value of its token.
pub open spec fn well_formed(v: ValueView) -> bool
    decreases v,
{
    if v.token.kind == TokenKind::FormStart {
        v == app_view(v.token, v.children) && all_well_formed(v.children)
    } else {
        is_atom(v.token.kind) && v == atom_view(v.token)
    }
}

/// Every value of `vs` is well formed.
pub open spec fn all_well_formed(vs: Seq<ValueView>) -> bool
    decreases vs,
{
    if vs.len() == 0 {
        true
    } else {
        all_well_formed(vs.drop_last()) && well_formed(vs.last())
    }
}

pub proof fn lemma_all_well_formed(vs: Seq<ValueView>)
    ensures
        all_well_formed(vs) <==> forall|i: int| 0 <= i < vs.len() ==> well_formed(#[trigger] vs[i]),
    decreases vs.len(),
{
    if vs.len() > 0 {
        lemma_all_well_formed(vs.drop_last());
        if forall|i: int| 0 <= i < vs.len() ==> well_formed(#[trigger] vs[i]) {
            assert forall|i: int| 0 <= i < vs.drop_last().len() implies well_formed(#[trigger] vs.drop_last()[i]) by {
                assert(vs.drop_last()[i] == vs[i]);
            }
        }
        if all_well_formed(vs) {
            assert forall|i: int| 0 <= i < vs.len() implies well_formed(#[trigger] vs[i]) by {
                if i < vs.len() - 1 {
                    assert(vs.drop_last()[i] == vs[i]);
                }
            }
        }
    }
}

/// Every value read from tokens is well formed.
pub proof fn lemma_parse_item_well_formed(toks: Seq<TokenView>, i: int)
    ensures
        parse_item(toks, i) matches Ok((v, j)) ==> well_formed(v),
    decreases toks.len() - i, 0int,
{
    if 0 <= i < toks.len() && toks[i].kind == TokenKind::FormStart {
        lemma_parse_items_well_formed(toks, i + 1);
        if let Ok((cs, k)) = parse_items(toks, i + 1) {
            lemma_all_well_formed(cs);
        }
    }
}

pub proof fn lemma_parse_items_well_formed(toks: Seq<TokenView>, i: int)
    ensures
        parse_items(toks, i) matches Ok((vs, k)) ==> all_well_formed(vs),
    decreases toks.len() - i, 1int,
{
    if i < 0 || i >= toks.len() {
    } else if toks[i].kind == TokenKind::FormEnd {
        lemma_all_well_formed(Seq::<ValueView>::empty());
    } else {
        lemma_parse_item_well_formed(toks, i);
        if let Ok((v, j)) = parse_item(toks, i) {
            if i < j <= toks.len() {
                lemma_parse_items_well_formed(toks, j);
                if let Ok((vs, k)) = parse_items(toks, j) {
                    lemma_all_well_formed(vs);
                    lemma_all_well_formed(seq![v] + vs);
                    assert forall|q: int| 0 <= q < (seq![v] + vs).len() implies well_formed(#[trigger] (seq![v] + vs)[q]) by {
                        if q > 0 {
                            assert((seq![v] + vs)[q] == vs[q - 1]);
                        }
                    }
                }
            }
        }
    }
}

/// A form built from tokens is well formed.
pub proof fn lemma_new_app_well_formed(toks: Seq<TokenView>)
    ensures
        spec_new_app(toks) matches Ok(v) ==> well_formed(v),
{
    lemma_parse_item_well_formed(toks, 0);
}

// ---------------------------------------------------------------------------
// Reading moved tokens
// ---------------------------------------------------------------------------

/// `v` with every token in it moved by `off`.
pub open spec fn shift_value(v: ValueView, off: int) -> ValueView
    decreases v,
{
    ValueView {
        name: v.name,
        typing: v.typing,
        value: v.value,
        children: shift_values(v.children, off),
        token: shift_token(v.token, off),
    }
}

pub open spec fn shift_values(vs: Seq<ValueView>, off: int) -> Seq<ValueView>
    decreases vs,
{
    if vs.len() == 0 {
        Seq::empty()
    } else {
        shift_values(vs.drop_last(), off).push(shift_value(vs.last(), off))
    }
}

pub proof fn lemma_shift_values(vs: Seq<ValueView>, off: int)
    ensures
        shift_values(vs, off).len() == vs.len(),
        forall|i: int| 0 <= i < vs.len() ==> #[trigger] shift_values(vs, off)[i] == shift_value(vs[i], off),
    decreases vs.len(),
{
    if vs.len() > 0 {
        lemma_shift_values(vs.drop_last(), off);
    }
}

/// Moving values moves each of them.
pub proof fn lemma_shift_values_ext(a: Seq<ValueView>, b: Seq<ValueView>, off: int)
    requires
        a.len() == b.len(),
        forall|i: int| 0 <= i < a.len() ==> #[trigger] b[i] == shift_value(a[i], off),
    ensures
        shift_values(a, off) == b,
{
    lemma_shift_values(a, off);
    assert(shift_values(a, off) =~= b);
}

/// The value of a moved token is the value of the token, moved.
pub proof fn lemma_atom_view_shift(t: TokenView, off: int)
    ensures
        atom_view(shift_token(t, off)) == shift_value(atom_view(t), off),
{
    assert(shift_values(Seq::<ValueView>::empty(), off) =~= Seq::<ValueView>::empty());
}

proof fn lemma_app_view_shift(t: TokenView, cs: Seq<ValueView>, off: int)
    ensures
        app_view(shift_token(t, off), shift_values(cs, off)) == shift_value(app_view(t, cs), off),
{
    lemma_shift_values(cs, off);
    let sc = shift_values(cs, off);
    assert(sc.map_values(|c: ValueView| child_type(c)) =~= cs.map_values(|c: ValueView| child_type(c)));
}

/// Reading tokens moved by `off` reads the same values, moved by `off`.
pub proof fn lemma_parse_item_shift(toks: Seq<TokenView>, i: int, off: int)
    ensures
        parse_item(toks, i) matches Ok((v, j)) ==> parse_item(shift_tokens(toks, off), i) == Ok::<
            (ValueView, int),
            ErrorView,
        >((shift_value(v, off), j)),
    decreases toks.len() - i, 0int,
{
    let st = shift_tokens(toks, off);
    if 0 <= i < toks.len() {
        assert(st[i] == shift_token(toks[i], off));
        if toks[i].kind == TokenKind::FormStart {
            lemma_parse_items_shift(toks, i + 1, off);
            if let Ok((cs, k)) = parse_items(toks, i + 1) {
                lemma_app_view_shift(toks[i], cs, off);
            }
        } else {
            lemma_atom_view_shift(toks[i], off);
        }
    }
}

pub proof fn lemma_parse_items_shift(toks: Seq<TokenView>, i: int, off: int)
    ensures
        parse_items(toks, i) matches Ok((vs, k)) ==> parse_items(shift_tokens(toks, off), i) == Ok::<
            (Seq<ValueView>, int),
            ErrorView,
        >((shift_values(vs, off), k)),
    decreases toks.len() - i, 1int,
{
    let st = shift_tokens(toks, off);
    if 0 <= i < toks.len() {
        assert(st[i] == shift_token(toks[i], off));
        if toks[i].kind == TokenKind::FormEnd {
            assert(shift_values(Seq::<ValueView>::empty(), off) =~= Seq::<ValueView>::empty());
        } else {
            lemma_parse_item_shift(toks, i, off);
            if let Ok((v, j)) = parse_item(toks, i) {
                if i < j <= toks.len() {
                    lemma_parse_items_shift(toks, j, off);
                    if let Ok((vs, k)) = parse_items(toks, j) {
                        lemma_shift_values(vs, off);
                        assert forall|q: int| 0 <= q < (seq![v] + vs).len() implies #[trigger] (seq![shift_value(v, off)] + shift_values(vs, off))[q] == shift_value((seq![v] + vs)[q], off) by {
                                if q > 0 {
                                    assert((seq![v] + vs)[q] == vs[q - 1]);
                                }
                            }
                        lemma_shift_values_ext(seq![v] + vs, seq![shift_value(v, off)] + shift_values(vs, off), off);
                    }
                }
            }
        }
    }
}

/// A form read from moved tokens is the form read from the tokens, moved.
pub proof fn lemma_new_app_shift(toks: Seq<TokenView>, off: int)
    ensures
        spec_new_app(toks) matches Ok(v) ==> spec_new_app(shift_tokens(toks, off)) == Ok::<ValueView, ErrorView>(
            shift_value(v, off),
        ),
{
    if toks.len() > 0 {
        assert(shift_tokens(toks, off)[0] == shift_token(toks[0], off));
        lemma_parse_item_shift(toks, 0, off);
    }
}

} // verus!
