use lib::symbol_table::{table_ready_exec, STElement, SymbolTable};
use lib::values::Values;

#[test]
fn symbol_table_from_values() {
    let s = "(import std.io)";

    let values = Values::from_str(s).unwrap();

    let res = SymbolTable::from_values(&values);

    assert!(res.is_ok());
}

#[test]
fn symbol_table_imports() {
    let s = "(import std.io)";

    let values = Values::from_str(s).unwrap();

    let st = SymbolTable::from_values(&values).unwrap();

    assert_eq!(st.imp_paths.len(), 1);
    assert!(st.imp_paths.contains("std.io"));
    assert_eq!(st.imports.len(), 1);
    assert!(st.imports.contains_key("std.io"));
}

#[test]
fn symbol_table_exports() {
    let mut s = "(export >>)";

    let mut values = Values::from_str(s).unwrap();

    let mut st = SymbolTable::from_values(&values).unwrap();

    assert_eq!(st.exp_values.len(), 1);
    assert!(st.exp_values.contains(">>"));
    assert_eq!(st.exports.len(), 1);
    assert!(st.exports.contains_key(">>"));

    s = "(export (prod a b c))";

    values = Values::from_str(s).unwrap();

    st = SymbolTable::from_values(&values).unwrap();

    assert_eq!(st.exp_values.len(), 3);
    assert!(st.exp_values.contains("a"));
    assert!(st.exp_values.contains("b"));
    assert!(st.exp_values.contains("c"));
    assert_eq!(st.exports.len(), 3);
    assert!(st.exports.contains_key("b"));
}

#[test]
fn symbol_table_attrs() {
    let s = "(defattrs sum (prod attr1 attr2 attr3))";

    let values = Values::from_str(s).unwrap();

    let st = SymbolTable::from_values(&values).unwrap();

    assert_eq!(st.def_attrs.len(), 1);
    assert!(st.def_attrs.contains("sum"));
    assert_eq!(st.attrs.len(), 1);
    assert!(st.attrs.contains_key("sum"));
}

#[test]
fn symbol_table_types() {
    let s = "(deftype RGB (Prod UInt UInt UInt))";

    let values = Values::from_str(s).unwrap();

    let st = SymbolTable::from_values(&values).unwrap();

    assert_eq!(st.def_types.len(), 1);
    assert!(st.def_types.contains("RGB"));
    assert_eq!(st.types.len(), 1);
    assert!(st.types.contains_key("RGB"));
}

#[test]
fn symbol_table_new_is_empty() {
    let st = SymbolTable::new();
    assert!(st.files.is_empty());
    assert!(st.imp_paths.is_empty());
    assert!(st.def_types.is_empty());
    assert!(st.def_values.is_empty());
    assert!(st.def_attrs.is_empty());
    assert!(st.exp_values.is_empty());
    assert!(st.imports.is_empty());
    assert!(st.exports.is_empty());
    assert!(st.funs.is_empty());
}

#[test]
fn symbol_table_definitions_of_values() {
    let s = "(defprim zero UInt) (defsum bool (Sum a b)) (defprod pair (Prod a b)) \
             (defun id (x) x) (defsig id (Fun T T)) (deftype T UInt)";
    let values = Values::from_str(s).unwrap();
    let st = SymbolTable::from_values(&values).unwrap();

    assert_eq!(st.def_values.len(), 4);
    for name in ["zero", "bool", "pair", "id"] {
        assert!(st.def_values.contains(name));
    }
    assert!(st.prims.contains_key("zero"));
    assert!(st.sums.contains_key("bool"));
    assert!(st.prods.contains_key("pair"));
    assert!(st.funs.contains_key("id"));
    assert!(!st.funs.contains_key("zero"));

    assert_eq!(st.def_types.len(), 2);
    assert!(st.def_types.contains("id"));
    assert!(st.def_types.contains("T"));
    assert!(st.sigs.contains_key("id"));
    assert!(st.types.contains_key("T"));
    assert!(st.files.is_empty());
}

#[test]
fn symbol_table_repeated_name_collects_entries() {
    let s = "(import std.io) (import std.io) (import std.fs)";
    let values = Values::from_str(s).unwrap();
    let st = SymbolTable::from_values(&values).unwrap();

    assert_eq!(st.imp_paths.len(), 2);
    assert_eq!(st.imports.len(), 2);
    let io = st.imports.get("std.io").unwrap();
    assert_eq!(io.len(), 2);
    assert_eq!(io[0].name, Some("import".to_string()));
    assert_eq!(io[0].file, None);
    assert_eq!(io[0].value, values[0]);
    assert_eq!(io[1].value, values[1]);
    assert_eq!(st.imports.get("std.fs").unwrap().len(), 1);
    assert!(st.imports.get("std.net").is_none());
}

#[test]
fn symbol_table_export_entries_are_the_exported_form() {
    let values = Values::from_str("(export (prod a b))").unwrap();
    let st = SymbolTable::from_values(&values).unwrap();
    let a = st.exports.get("a").unwrap();
    assert_eq!(a.len(), 1);
    assert_eq!(a[0].value, values[0].children[1]);
    assert_eq!(a[0].name, Some("prod".to_string()));
}

#[test]
fn symbol_table_ignores_other_values() {
    let values = Values::from_str("(+ 1 2) 3 foo (f (import x))").unwrap();
    let st = SymbolTable::from_values(&values).unwrap();
    assert_eq!(st, SymbolTable::new());
}

#[test]
fn symbol_table_names_kept_in_order() {
    let values = Values::from_str("(import b) (import a) (import c) (import a)").unwrap();
    let st = SymbolTable::from_values(&values).unwrap();
    let other = SymbolTable::from_values(&Values::from_str("(import c) (import a) (import b)").unwrap()).unwrap();
    assert_eq!(st.imp_paths, other.imp_paths);
    assert_eq!(st.imp_paths.len(), 3);
}

#[test]
fn st_element_new_and_from_value() {
    let e = STElement::new();
    assert_eq!(e.name, None);
    assert_eq!(e.file, None);
    assert!(e.value.children.is_empty());

    let values = Values::from_str("(deftype RGB UInt)").unwrap();
    let e = STElement::from_value(&values[0]);
    assert_eq!(e.name, Some("deftype".to_string()));
    assert_eq!(e.value, values[0]);
    assert_eq!(e.file, None);
}

#[test]
fn table_ready_exec_matches_from_values() {
    let ok = Values::from_str("(import std.io) (export (prod a b))").unwrap();
    assert!(table_ready_exec(&ok));
    assert!(!table_ready_exec(&Values::from_str("(import)").unwrap()));
    assert!(!table_ready_exec(&Values::from_str("(export (f 1))").unwrap()));
    assert!(!table_ready_exec(&Values::from_str("( ) x").unwrap()));
    assert!(table_ready_exec(&Values::from_str("(bogus) x 1").unwrap()));
    assert!(!table_ready_exec(&Values::from_str("(import a) (import)").unwrap()));
}

#[test]
fn names_and_keys_in_order() {
    let values = Values::from_str("(import c) (import a) (import b) (import a)").unwrap();
    let st = SymbolTable::from_values(&values).unwrap();
    assert_eq!(st.imp_paths.names(), vec!["a".to_string(), "b".to_string(), "c".to_string()]);
    assert_eq!(st.imports.keys(), vec!["a".to_string(), "b".to_string(), "c".to_string()]);
    for k in st.imports.keys() {
        assert!(!st.imports.get(&k).unwrap().is_empty());
    }
}

#[test]
fn table_of_joined_values() {
    let a = Values::from_str("(import x) (deftype T UInt)").unwrap();
    let b = Values::from_str("(import x) (import y)").unwrap();
    let sa = SymbolTable::from_values(&a).unwrap();
    let sb = SymbolTable::from_values(&b).unwrap();
    let ab: Values = Values::from(a.clone().into_iter().chain(b.clone().into_iter()).collect::<Vec<_>>());
    let s = SymbolTable::from_values(&ab).unwrap();
    assert_eq!(s.imp_paths.len(), 2);
    let x = s.imports.get("x").unwrap();
    assert_eq!(x.len(), sa.imports.get("x").unwrap().len() + sb.imports.get("x").unwrap().len());
    assert_eq!(x[0], sa.imports.get("x").unwrap()[0]);
    assert_eq!(x[1], sb.imports.get("x").unwrap()[0]);
    assert!(s.def_types.contains("T"));
    assert_eq!(SymbolTable::from_values(&Values::new()).unwrap(), SymbolTable::new());
}
