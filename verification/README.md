# lib

A reader for a small s-expression language, verified with Verus.

- `tokens`: the lexer. Blanks separate tokens; `#` starts a comment and
  `#!` a doc comment, both to the end of the line; `(` and `)` open and close
  forms, `()` is the empty literal; `"..."` strings and `'c'` characters take
  backslash escapes; any other word is a keyword, a number (`42`, `b1010`,
  `o17`, `xff`, `-3`, `+0.5e-3`), a type symbol (capitalised) or a value
  symbol. `lex` is its specification.
- `value`, `values`: values read from tokens (`read_text` is the
  specification), with their types (`typing`).
- `symbol_table`: the names that a sequence of values imports, exports and
  declares (`table_of` is the specification); `names` holds the sorted name
  sets it is built from.
- `app/`: reading a file from disk.
