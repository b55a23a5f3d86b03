# yang_atom

A YANG module parser and grammar checker, verified with Verus, with the
Erlang NIFs that use it.

- `src/` is the verified library: the atom table (`atoms`), error reports
  (`errors`), the tokenizer and statement parser (`parser`), the grammar
  tables and their installation (`grammar`, `core_grammar`, `core_table`,
  `core_types`), the module checker (`check`), the argument validators and the
  `if-feature` expression parser (`validators`, `if_feature`), the text form of
  a grammar (`grammar_text`), and the conversions the NIFs need (`terms`).
  Regular expressions are matched by a function the caller hands in
  (`regex`).
- `app/` holds the NIFs: file reading, libxml2 regular expressions, the
  process-wide grammar, and Erlang terms.
- `tests/` runs the library on concrete inputs.
