use std::convert::TryFrom;
use lib::error::{Error, ErrorKind};
use lib::typing::Type;
use lib::value::PrimValue;
use lib::values::Values;

#[test]
fn ignore_comment_tokens() {
    let s = "# comment\n#! doc comment";

    let values = Values::from_str(s).unwrap();

    assert!(values.is_empty());
}

#[test]
fn empty_value() {
    let s = "()";

    let values = Values::from_str(s).unwrap();

    assert_eq!(values.len(), 1);
    assert_eq!(values[0].typing, Some(Type::Empty));
    assert_eq!(values[0].value, Some(PrimValue::Empty));
}

#[test]
fn keyword_value() {
    let s = "defsig";

    let values = Values::from_str(s).unwrap();

    assert_eq!(values.len(), 1);
    assert_eq!(values[0].name, Some(s.into()));
    assert_eq!(values[0].typing, Some(Type::Builtin));
}

#[test]
fn uint_value() {
    let s = "b101010";

    let values = Values::from_str(s).unwrap();

    assert_eq!(values.len(), 1);
    assert_eq!(values[0].typing, Some(Type::UInt));
    assert_eq!(values[0].value, Some(PrimValue::new_uint(s)));
}

#[test]
fn int_value() {
    let s = "-3290";

    let values = Values::from_str(s).unwrap();

    assert_eq!(values.len(), 1);
    assert_eq!(values[0].typing, Some(Type::Int));
    assert_eq!(values[0].value, Some(PrimValue::new_int(s)));
}

#[test]
fn float_value() {
    let s = "+0.432E-100";

    let values = Values::from_str(s).unwrap();

    assert_eq!(values.len(), 1);
    assert_eq!(values[0].typing, Some(Type::Float));
    assert_eq!(values[0].value, Some(PrimValue::new_float(s)));
}

#[test]
fn char_value() {
    let s = "'\''";

    let values = Values::from_str(s).unwrap();

    assert_eq!(values.len(), 1);
    assert_eq!(values[0].typing, Some(Type::Char));
    assert_eq!(values[0].value, Some(PrimValue::new_char("'")));
}

#[test]
fn string_value() {
    let s = "\"\\\"\"";

    let values = Values::from_str(s).unwrap();

    assert_eq!(values.len(), 1);
    assert_eq!(values[0].typing, Some(Type::String));
    assert_eq!(values[0].value, Some(PrimValue::new_string("\\\"")));
}

#[test]
fn symbol_value() {
    let mut s = "Int";

    let mut values = Values::from_str(s).unwrap();

    assert_eq!(values.len(), 1);
    assert_eq!(values[0].typing, Some(Type::Type));

    s = "square";

    values = Values::from_str(s).unwrap();

    assert_eq!(values.len(), 1);
    assert_eq!(values[0].typing, Some(Type::Unknown));
}

#[test]
fn fun_value() {
    let s = "(+ 1 (sum (square 3) 4))";

    let values = Values::from_str(s).unwrap();

    assert_eq!(values.len(), 1);
    assert_eq!(values[0].name, Some("+".into()));
    assert_eq!(
        values[0].typing,
        Some(Type::App(vec![
            Type::Unknown,
            Type::UInt,
            Type::App(vec![
                Type::Unknown,
                Type::App(vec![Type::Unknown, Type::UInt]),
                Type::UInt
            ])
        ]))
    );
    assert_eq!(values[0].value, None);
    assert_eq!(values[0].children.len(), 3);
}

fn error_kind(r: Result<Values, Error>) -> ErrorKind {
    match r {
        Err(Error::Parsing(p)) => p.kind,
        Ok(_) => panic!("expected an error"),
    }
}

fn error_pos(r: Result<Values, Error>) -> Option<usize> {
    match r {
        Err(Error::Parsing(p)) => p.loc.map(|l| l.pos),
        Ok(_) => panic!("expected an error"),
    }
}

#[test]
fn values_several_top_level() {
    let values = Values::from_str("1 (f x) \"s\" 'c' Foo").unwrap();
    assert_eq!(values.len(), 5);
    assert_eq!(values[0].typing, Some(Type::UInt));
    assert_eq!(values[1].name, Some("f".into()));
    assert_eq!(values[2].value, Some(PrimValue::new_string("s")));
    assert_eq!(values[3].value, Some(PrimValue::new_char("c")));
    assert_eq!(values[4].typing, Some(Type::Type));
}

#[test]
fn values_number_forms() {
    for (s, t) in [
        ("42", Type::UInt),
        ("o17", Type::UInt),
        ("xFf", Type::UInt),
        ("+7", Type::Int),
        ("1.5", Type::Float),
        ("1e10", Type::Float),
        ("-2.5e-3", Type::Float),
        ("+", Type::Unknown),
        ("b2", Type::Unknown),
    ] {
        let values = Values::from_str(s).unwrap();
        assert_eq!(values.len(), 1, "{}", s);
        assert_eq!(values[0].typing, Some(t), "{}", s);
    }
}

#[test]
fn values_escapes() {
    let values = Values::from_str("\"a\\nb\" '\\t'").unwrap();
    assert_eq!(values[0].value, Some(PrimValue::String("a\nb".to_string())));
    assert_eq!(values[1].value, Some(PrimValue::Char("\t".to_string())));
    let quote = Values::from_str("'\\''").unwrap();
    assert_eq!(quote[0].value, Some(PrimValue::new_char("'")));
}

#[test]
fn values_token_positions() {
    let values = Values::from_str("  foo (bar)").unwrap();
    assert_eq!(values[0].token.loc.pos, 2);
    assert_eq!(values[1].token.loc.pos, 6);
    assert_eq!(values[1].children[0].token.loc.pos, 7);
    assert_eq!(values[0].token.content, "foo");
    assert_eq!(values[0].token.file(), None);
}

#[test]
fn values_comment_inside_form() {
    let values = Values::from_str("(f # note\n x)").unwrap();
    assert_eq!(values.len(), 1);
    assert_eq!(values[0].children.len(), 2);
}

#[test]
fn values_unclosed_form_gives_no_value() {
    let values = Values::from_str("a (f x").unwrap();
    assert_eq!(values.len(), 1);
    assert_eq!(values[0].name, Some("a".into()));
}

#[test]
fn values_blank_form() {
    let values = Values::from_str("( )").unwrap();
    assert_eq!(values.len(), 1);
    assert_eq!(values[0].typing, Some(Type::App(vec![])));
    assert_eq!(values[0].name, None);
}

#[test]
fn values_errors() {
    assert_eq!(error_kind(Values::from_str("\"abc")), ErrorKind::UnterminatedString);
    assert_eq!(error_pos(Values::from_str("x \"abc")), Some(2));
    assert_eq!(error_kind(Values::from_str("'ab'")), ErrorKind::InvalidChar);
    assert_eq!(error_kind(Values::from_str("12ab")), ErrorKind::InvalidNumber);
    assert_eq!(error_kind(Values::from_str(") ( ( )")), ErrorKind::NotAForm);
}

#[test]
fn values_new_push_len() {
    let mut values = Values::new();
    assert!(values.is_empty());
    let other = Values::from_str("x").unwrap();
    values.push(other[0].clone());
    assert_eq!(values.len(), 1);
    assert!(!values.is_empty());
    assert_eq!(values, other);
    assert_eq!(Values::from(vec![other[0].clone()]), other);
}

#[test]
fn values_from_string() {
    let values = Values::from_string("(import std.io)".to_string()).unwrap();
    assert_eq!(values, Values::from_str("(import std.io)").unwrap());
    let parsed: Values = "(import std.io)".parse().unwrap();
    assert_eq!(values, parsed);
}

#[test]
fn values_into_iter_in_order() {
    let values = Values::from_str("a b c").unwrap();
    let names: Vec<Option<String>> = values.into_iter().map(|v| v.name).collect();
    assert_eq!(names, vec![Some("a".into()), Some("b".into()), Some("c".into())]);
}

#[test]
fn values_try_from_string() {
    let v = Values::try_from("(import std.io)".to_string()).unwrap();
    assert_eq!(v, Values::from_str("(import std.io)").unwrap());
    assert!(Values::try_from("\"open".to_string()).is_err());
}

#[test]
fn values_joined_by_comment() {
    let s1 = "(f 1) x";
    let s2 = "(g \"s\") 2";
    let v1 = Values::from_str(s1).unwrap();
    let v2 = Values::from_str(s2).unwrap();
    let joined = format!("{}\n# note\n{}", s1, s2);
    let v = Values::from_str(&joined).unwrap();
    assert_eq!(v.len(), v1.len() + v2.len());
    for i in 0..v1.len() {
        assert_eq!(v[i], v1[i]);
    }
    let off = s1.chars().count() + 8;
    for i in 0..v2.len() {
        let a = &v[v1.len() + i];
        let b = &v2[i];
        assert_eq!(a.name, b.name);
        assert_eq!(a.typing, b.typing);
        assert_eq!(a.value, b.value);
        assert_eq!(a.children.len(), b.children.len());
        assert_eq!(a.token.loc.pos, b.token.loc.pos + off);
    }
}
