use yang_atom::core_table::core_table;

fn s(x: &str) -> Option<Vec<u8>> {
    Some(x.as_bytes().to_vec())
}

#[test]
fn core_table_reads_strings_then_nulls() {
    let src = "/* the grammar */\n\
               static const char *stmts[] = {\n\
               \x20   \"module\", \"identifier\",\n\
               \x20   \"1\", \"namespace\", \"1\", NULL, NULL, NULL,\n\
               \x20   NULL, \"last\"\n\
               };\n\
               int other;\n";
    let t = core_table(src.as_bytes()).unwrap();
    assert_eq!(
        t,
        vec![
            s("module"),
            s("identifier"),
            s("1"),
            s("namespace"),
            s("1"),
            None,
            None,
            None,
            s("last"),
            None,
        ]
    );
}

#[test]
fn core_table_skips_the_opening_line() {
    let src = "static const char *stmts[] = { \"not\", NULL,\n\"yes\",\n};";
    assert_eq!(core_table(src.as_bytes()).unwrap(), vec![s("yes")]);
}

#[test]
fn core_table_drops_open_strings_and_counts_null_in_strings() {
    let src = "static const char *stmts[] = {\n\"a\" \"b\n\"NULL\"\n};";
    assert_eq!(core_table(src.as_bytes()).unwrap(), vec![s("a"), s("NULL"), None]);
}

#[test]
fn core_table_reencodes_each_byte_as_a_character() {
    let src = "static const char *stmts[] = {\n\"\u{e9}\",\n};";
    assert_eq!(core_table(src.as_bytes()).unwrap(), vec![Some(vec![0xc3, 0x83, 0xc2, 0xa9])]);
}

#[test]
fn core_table_empty_table() {
    let src = "static const char *stmts[] = {\n};";
    assert_eq!(core_table(src.as_bytes()).unwrap(), Vec::<Option<Vec<u8>>>::new());
}

#[test]
fn core_table_missing_start_or_end() {
    assert_eq!(core_table(b"const char *x[] = {\n\"a\"\n};"), None);
    assert_eq!(core_table(b"static const char *stmts[] = {\n\"a\",\n}"), None);
}

#[test]
fn core_table_refuses_invalid_utf8() {
    let mut src = b"static const char *stmts[] = {\n\"a".to_vec();
    src.push(0xff);
    src.extend_from_slice(b"\",\n};");
    assert_eq!(core_table(&src), None);
}
