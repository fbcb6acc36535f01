use lib::error::{Error, ErrorKind};
use lib::symbol_table::SymbolTable;
use lib::syntax::Keyword;
use lib::token::{Loc, Token, TokenKind};
use lib::tokens::Tokens;
use lib::typing::Type;
use lib::value::{PrimValue, Value};
use lib::values::Values;

fn kind_of<T: std::fmt::Debug>(r: Result<T, Error>) -> ErrorKind {
    match r {
        Err(Error::Parsing(p)) => p.kind,
        Ok(v) => panic!("expected an error, got {:?}", v),
    }
}

fn kinds(s: &str) -> Vec<TokenKind> {
    Tokens::from_str(s).unwrap().0.into_iter().map(|t| t.kind).collect()
}

#[test]
fn tokens_classes() {
    assert_eq!(
        kinds("# c\n#! d\n() ( ) import 1 -1 1.0 'a' \"s\" x X"),
        vec![
            TokenKind::Comment,
            TokenKind::DocComment,
            TokenKind::EmptyLiteral,
            TokenKind::FormStart,
            TokenKind::FormEnd,
            TokenKind::Keyword,
            TokenKind::UIntLiteral,
            TokenKind::IntLiteral,
            TokenKind::FloatLiteral,
            TokenKind::CharLiteral,
            TokenKind::StringLiteral,
            TokenKind::ValueSymbol,
            TokenKind::TypeSymbol,
        ]
    );
}

#[test]
fn tokens_are_slices_of_the_text() {
    let s = "(f \"a b\" 'c') # end";
    let toks = Tokens::from_str(s).unwrap().0;
    let chars: Vec<char> = s.chars().collect();
    let mut last_end = 0;
    for t in &toks {
        let text: String = chars[t.loc.pos..t.loc.pos + t.content.chars().count()].iter().collect();
        assert_eq!(text, t.content);
        assert!(t.loc.pos >= last_end);
        last_end = t.loc.pos + t.content.chars().count();
    }
    assert_eq!(toks.len(), 6);
    assert_eq!(toks[5].content, "# end");
}

#[test]
fn tokens_blank_text() {
    assert!(Tokens::from_str(" \t\r\n").unwrap().0.is_empty());
    assert!(Values::from_str("").unwrap().is_empty());
}

#[test]
fn new_app_errors() {
    let toks = |s: &str| Tokens::from_str(s).unwrap().0;
    assert_eq!(kind_of(Value::new_app(vec![])), ErrorKind::EmptyForm);
    assert_eq!(kind_of(Value::new_app(toks("a (b)"))), ErrorKind::NotAForm);
    assert_eq!(kind_of(Value::new_app(toks("(a (b)"))), ErrorKind::UnterminatedForm);
    assert_eq!(kind_of(Value::new_app(toks("(a) b"))), ErrorKind::TrailingTokens);
    assert_eq!(kind_of(Value::new_app(toks("(a # c\n)"))), ErrorKind::UnexpectedComment);
    assert_eq!(kind_of(Value::new_app(toks("(a #! c\n)"))), ErrorKind::UnexpectedDocComment);
    let v = Value::new_app(toks("(a (b 1) ())")).unwrap();
    assert_eq!(v.name, Some("a".to_string()));
    assert_eq!(v.typing, Some(Type::App(vec![Type::Unknown, Type::App(vec![Type::Unknown, Type::UInt]), Type::Empty])));
}

#[test]
fn atom_constructors() {
    let tok = |s: &str| Tokens::from_str(s).unwrap().0.remove(0);
    assert_eq!(Value::new_uint(tok("12")).unwrap().value, Some(PrimValue::new_uint("12")));
    assert_eq!(Value::new_int(tok("-12")).unwrap().typing, Some(Type::Int));
    assert_eq!(Value::new_float(tok("1.25")).unwrap().value, Some(PrimValue::new_float("1.25")));
    assert_eq!(Value::new_char(tok("'x'")).unwrap().value, Some(PrimValue::new_char("x")));
    assert_eq!(Value::new_string(tok("\"hi\"")).unwrap().value, Some(PrimValue::new_string("hi")));
    assert_eq!(Value::new_keyword(tok("defun")).unwrap().name, Some("defun".to_string()));
    assert_eq!(Value::new_symbol(tok("Foo")).unwrap().typing, Some(Type::Type));
    assert_eq!(Value::new_empty(tok("()")).unwrap().value, Some(PrimValue::Empty));
    assert_eq!(kind_of(Value::new_uint(tok("x"))), ErrorKind::WrongToken);
    assert_eq!(kind_of(Value::new_symbol(tok("12"))), ErrorKind::WrongToken);
}

#[test]
fn keywords() {
    for (s, k) in [
        ("import", Keyword::Import),
        ("export", Keyword::Export),
        ("deftype", Keyword::Deftype),
        ("defsig", Keyword::Defsig),
        ("defprim", Keyword::Defprim),
        ("defsum", Keyword::Defsum),
        ("defprod", Keyword::Defprod),
        ("defun", Keyword::Defun),
        ("defattrs", Keyword::Defattrs),
    ] {
        assert_eq!(Keyword::from_str(s).unwrap(), k);
    }
    assert_eq!(kind_of(Keyword::from_str("define")), ErrorKind::UnknownKeyword);
    assert_eq!(kind_of(Keyword::from_str("")), ErrorKind::UnknownKeyword);
}

#[test]
fn unknown_keyword_in_table() {
    let head = Token { kind: TokenKind::Keyword, content: "bogus".to_string(), loc: Loc { file: None, pos: 0 } };
    let value = Value {
        name: Some("bogus".to_string()),
        typing: Some(Type::App(vec![Type::Builtin])),
        value: None,
        children: vec![],
        token: head,
    };
    let values = Values::from(vec![value]);
    assert_eq!(kind_of(SymbolTable::from_values(&values)), ErrorKind::UnknownKeyword);
}

#[test]
fn table_records_files() {
    let mut values = Values::from_str("(import a)").unwrap();
    values.0[0].token.loc.file = Some("main.sp".to_string());
    let st = SymbolTable::from_values(&values).unwrap();
    assert_eq!(st.files.len(), 1);
    assert!(st.files.contains("main.sp"));
    assert_eq!(st.imports.get("a").unwrap()[0].file, Some("main.sp".to_string()));
}
