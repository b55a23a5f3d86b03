use yang_atom::atoms::{yang_make_atom, AtomTable};
use yang_atom::core_grammar::{yang_init_grammar, InitResult};
use yang_atom::errors::yang_alloc_err_ctx;
use yang_atom::grammar::{yang_get_arg_type_idx, yang_set_type_bits, F_ERL_ATOM, F_ERL_ATOM_OR_INT, F_ERL_IDENTIFIER_REF, F_ERL_INT};
use yang_atom::parser::{YangStatement, YANG_VERSION_1};
use yang_atom::terms::{
    arg_value, get_grammar_module_names, get_statement_spec, install_arg_types, install_grammar, intern_name,
    keyword_value, latin1_bytes, match_result, parse_module, parse_occurance, return_type_flags, ArgValue, RuleEntry,
    SpecEntry, TypeEntry,
};

fn e(s: &str) -> Option<Vec<u8>> {
    Some(s.as_bytes().to_vec())
}

fn spec(t: &mut Vec<Option<Vec<u8>>>, kw: &str, arg: Option<&str>, rules: &[(&str, &str, &str)]) {
    t.push(e(kw));
    t.push(arg.map(|a| a.as_bytes().to_vec()));
    for (v, k, o) in rules {
        t.push(e(v));
        t.push(e(k));
        t.push(e(o));
    }
    t.push(None);
    t.push(None);
    t.push(None);
}

fn core_table() -> Vec<Option<Vec<u8>>> {
    let mut t = Vec::new();
    spec(&mut t, "module", Some("identifier"), &[("1", "namespace", "1"), ("1", "prefix", "1"), ("1", "import", "*"), ("1", "leaf", "*")]);
    spec(&mut t, "namespace", Some("uri"), &[]);
    spec(&mut t, "prefix", Some("identifier"), &[]);
    spec(&mut t, "import", Some("identifier"), &[("1", "prefix", "1")]);
    spec(&mut t, "leaf", Some("identifier"), &[("1", "type", "1"), ("1", "max-elements", "?")]);
    spec(&mut t, "type", Some("identifier-ref"), &[]);
    spec(&mut t, "max-elements", Some("max-value"), &[]);
    t.push(None);
    t
}

fn setup() -> (AtomTable, InitResult) {
    let mut atoms = AtomTable::new();
    let c = |_p: &[u8]| true;
    let mut init = yang_init_grammar(&mut atoms, &core_table(), &c);
    assert!(init.ok);
    yang_set_type_bits(&mut init.tables, &mut atoms);
    (atoms, init)
}

fn node(arg: Option<&[u8]>, arg_type: Option<usize>) -> YangStatement {
    YangStatement {
        prefix: None,
        module_name: None,
        keyword: 0,
        arg: arg.map(|a| a.to_vec()),
        arg_type,
        yang_version: YANG_VERSION_1,
        line: 1,
        next: None,
        substmt: None,
    }
}

#[test]
fn occurrence_names() {
    assert_eq!(parse_occurance(b"?"), Some(b'?'));
    assert_eq!(parse_occurance(b"1"), Some(b'1'));
    assert_eq!(parse_occurance(b"*"), Some(b'*'));
    assert_eq!(parse_occurance(b"+"), Some(b'+'));
    assert_eq!(parse_occurance(b"0"), None);
    assert_eq!(parse_occurance(b"**"), None);
    assert_eq!(parse_occurance(b""), None);
}

#[test]
fn return_type_names() {
    assert_eq!(return_type_flags(b"string"), Some(0));
    assert_eq!(return_type_flags(b"atom"), Some(F_ERL_ATOM));
    assert_eq!(return_type_flags(b"int"), Some(F_ERL_INT));
    assert_eq!(return_type_flags(b"atom-or-int"), Some(F_ERL_ATOM_OR_INT));
    assert_eq!(return_type_flags(b"identifier-ref"), Some(F_ERL_IDENTIFIER_REF));
    assert_eq!(return_type_flags(b"uint"), None);
}

#[test]
fn latin1_lists() {
    assert_eq!(latin1_bytes(&[104, 105, 255, 0]), Some(vec![104, 105, 255, 0]));
    assert_eq!(latin1_bytes(&[256]), None);
    assert_eq!(latin1_bytes(&[-1]), None);
    assert_eq!(latin1_bytes(&[]), Some(vec![]));
}

#[test]
fn match_codes() {
    assert_eq!(match_result(1), Some(true));
    assert_eq!(match_result(0), Some(false));
    assert_eq!(match_result(-1), None);
}

#[test]
fn names_with_nul_are_refused() {
    let mut atoms = AtomTable::new();
    assert_eq!(intern_name(&mut atoms, b"a\0b"), None);
    assert_eq!(atoms.len(), 0);
    let a = intern_name(&mut atoms, b"ab").unwrap();
    assert_eq!(atoms.name(a).as_slice(), b"ab");
}

#[test]
fn arguments_by_kind() {
    let (mut atoms, init) = setup();
    let t = &init.tables;
    let idx = |atoms: &mut AtomTable, n: &[u8]| {
        let a = yang_make_atom(atoms, Some(n)).unwrap();
        yang_get_arg_type_idx(t, Some(a)) as usize
    };
    let boolean = idx(&mut atoms, b"boolean");
    let integer = idx(&mut atoms, b"integer");
    let uint = idx(&mut atoms, b"non-negative-integer");
    let maxv = idx(&mut atoms, b"max-value");
    let idref = idx(&mut atoms, b"identifier-ref");
    let string = idx(&mut atoms, b"string");
    assert_eq!(arg_value(t, &node(None, Some(boolean))), Some(ArgValue::Nothing));
    assert_eq!(arg_value(t, &node(Some(b"x"), None)), Some(ArgValue::Binary(b"x".to_vec())));
    assert_eq!(arg_value(t, &node(Some(b"x"), Some(string))), Some(ArgValue::Binary(b"x".to_vec())));
    assert_eq!(arg_value(t, &node(Some(b"true"), Some(boolean))), Some(ArgValue::Atom(b"true".to_vec())));
    assert_eq!(arg_value(t, &node(Some(b"-12"), Some(integer))), Some(ArgValue::Int(-12)));
    assert_eq!(arg_value(t, &node(Some(b"x"), Some(integer))), None);
    assert_eq!(arg_value(t, &node(Some(b"12"), Some(uint))), Some(ArgValue::UInt(12)));
    assert_eq!(arg_value(t, &node(Some(b"7"), Some(maxv))), Some(ArgValue::UInt(7)));
    assert_eq!(arg_value(t, &node(Some(b"unbounded"), Some(maxv))), Some(ArgValue::Atom(b"unbounded".to_vec())));
    assert_eq!(arg_value(t, &node(Some(b"p:n"), Some(idref))), Some(ArgValue::Ref(b"p".to_vec(), b"n".to_vec())));
    assert_eq!(arg_value(t, &node(Some(b"n"), Some(idref))), Some(ArgValue::Atom(b"n".to_vec())));
    assert_eq!(arg_value(t, &node(Some(b"\xff"), Some(boolean))), None);
}

#[test]
fn keywords_for_the_caller() {
    let mut atoms = AtomTable::new();
    let kw = yang_make_atom(&mut atoms, Some(b"leaf")).unwrap();
    let pre = yang_make_atom(&mut atoms, Some(b"ex")).unwrap();
    let m = yang_make_atom(&mut atoms, Some(b"acme")).unwrap();
    let mut n = node(None, None);
    n.keyword = kw;
    assert_eq!(keyword_value(&atoms, &n), Some((None, b"leaf".to_vec())));
    n.prefix = Some(pre);
    assert_eq!(keyword_value(&atoms, &n), None);
    n.module_name = Some(m);
    assert_eq!(keyword_value(&atoms, &n), Some((Some(b"acme".to_vec()), b"leaf".to_vec())));
}

#[test]
fn argument_types_from_the_caller() {
    let (mut atoms, mut init) = setup();
    let c = |_p: &[u8]| true;
    let entries = vec![
        TypeEntry { name: b"color".to_vec(), regexp: Some(b"red|green".to_vec()), return_type: b"atom".to_vec() },
        TypeEntry { name: b"any".to_vec(), regexp: None, return_type: b"string".to_vec() },
    ];
    assert_eq!(install_arg_types(&mut init.tables, &mut atoms, &entries, &c), Some(true));
    assert_eq!(init.tables.types.len(), 31);
    assert_ne!(init.tables.types[29].flags & F_ERL_ATOM, 0);
    let bad = vec![TypeEntry { name: b"x".to_vec(), regexp: None, return_type: b"float".to_vec() }];
    assert_eq!(install_arg_types(&mut init.tables, &mut atoms, &bad, &c), None);
    assert_eq!(init.tables.types.len(), 31);
}

#[test]
fn grammar_from_the_caller() {
    let (mut atoms, mut init) = setup();
    let entries = vec![SpecEntry {
        keyword: b"ext".to_vec(),
        arg: Some(b"string".to_vec()),
        rules: vec![RuleEntry { module: None, keyword: b"description".to_vec(), occurance: b"?".to_vec() }],
        usein: Some((b"*".to_vec(), vec![(None, b"leaf".to_vec())])),
    }];
    assert_eq!(install_grammar(&mut init.tables, &mut atoms, b"acme", &entries), Some(false));
    let entries3 = vec![SpecEntry { keyword: b"other".to_vec(), arg: None, rules: vec![], usein: None }];
    assert_eq!(install_grammar(&mut init.tables, &mut atoms, b"later", &entries3), Some(false));
    let (mut atoms, mut init) = setup();
    let entries2 = vec![SpecEntry {
        keyword: b"ext".to_vec(),
        arg: Some(b"string".to_vec()),
        rules: vec![],
        usein: Some((b"*".to_vec(), vec![(None, b"leaf".to_vec())])),
    }];
    assert_eq!(install_grammar(&mut init.tables, &mut atoms, b"acme2", &entries2), Some(true));
    let info = get_statement_spec(&init.tables, &mut atoms, None, b"leaf").unwrap().unwrap();
    assert_eq!(info.keyword, b"leaf".to_vec());
    assert_eq!(info.arg_type, Some(b"identifier".to_vec()));
    assert_eq!(info.rules.len(), 3);
    assert_eq!(info.rules[2].module, Some(b"acme2".to_vec()));
    assert_eq!(info.rules[2].keyword, b"ext".to_vec());
    assert_eq!(info.rules[2].occurance, b"*".to_vec());
    let names = get_grammar_module_names(&init.tables, &atoms).unwrap();
    assert_eq!(names, vec![b"acme2".to_vec()]);
}

#[test]
fn bad_entries_are_refused() {
    let (mut atoms, mut init) = setup();
    let bad_occ = vec![SpecEntry {
        keyword: b"ext".to_vec(),
        arg: None,
        rules: vec![RuleEntry { module: None, keyword: b"leaf".to_vec(), occurance: b"2".to_vec() }],
        usein: None,
    }];
    assert_eq!(install_grammar(&mut init.tables, &mut atoms, b"m", &bad_occ), None);
    let bad_type = vec![SpecEntry { keyword: b"ext".to_vec(), arg: Some(b"nope".to_vec()), rules: vec![], usein: None }];
    assert_eq!(install_grammar(&mut init.tables, &mut atoms, b"m", &bad_type), None);
    assert_eq!(init.tables.grammars.len(), 1);
}

#[test]
fn statement_lookup_for_the_caller() {
    let (mut atoms, init) = setup();
    assert!(get_statement_spec(&init.tables, &mut atoms, None, b"nothing").unwrap().is_none());
    assert!(get_statement_spec(&init.tables, &mut atoms, Some(b"x\0"), b"leaf").is_none());
    let info = get_statement_spec(&init.tables, &mut atoms, None, b"prefix").unwrap().unwrap();
    assert!(info.rules.is_empty());
    assert_eq!(info.arg_type, Some(b"identifier".to_vec()));
}

#[test]
fn parse_and_check_a_file() {
    let (mut atoms, init) = setup();
    let m = |_p: &[u8], i: &[u8]| !i.is_empty() && !i.contains(&b' ');
    let mut ectx = yang_alloc_err_ctx(8192);
    let text = b"module m { namespace urn:m; prefix m; leaf x { type string; max-elements 3; } }";
    let tree = parse_module(&init.tables, &mut atoms, &m, text, &None, &Some(b"m.yang".to_vec()), false, &mut ectx, init.yang_version);
    assert!(ectx.err.is_empty());
    let tree = tree.unwrap();
    assert_eq!(tree.filename, Some(b"m.yang".to_vec()));
    let leaf = tree.nodes.iter().position(|n| atoms.name(n.keyword).as_slice() == b"leaf").unwrap();
    assert_eq!(arg_value(&init.tables, &tree.nodes[leaf]), Some(ArgValue::Atom(b"x".to_vec())));
    let mut ectx2 = yang_alloc_err_ctx(8192);
    let bad = b"module m { prefix m; }";
    assert!(parse_module(&init.tables, &mut atoms, &m, bad, &None, &None, false, &mut ectx2, init.yang_version).is_none());
    assert_eq!(ectx2.err.len(), 1);
    let mut ectx3 = yang_alloc_err_ctx(8192);
    assert!(parse_module(&init.tables, &mut atoms, &m, b"module m {", &None, &None, false, &mut ectx3, init.yang_version).is_none());
}

#[test]
fn installation_stops_at_a_pattern_that_does_not_compile() {
    let (mut atoms, mut init) = setup();
    let n = init.tables.types.len();
    let c = |p: &[u8]| p != b"(";
    let entries = vec![
        TypeEntry { name: b"first".to_vec(), regexp: Some(b"a|b".to_vec()), return_type: b"atom".to_vec() },
        TypeEntry { name: b"broken".to_vec(), regexp: Some(b"(".to_vec()), return_type: b"string".to_vec() },
        TypeEntry { name: b"after".to_vec(), regexp: None, return_type: b"string".to_vec() },
    ];
    assert_eq!(install_arg_types(&mut init.tables, &mut atoms, &entries, &c), Some(false));
    assert_eq!(init.tables.types.len(), n + 2);
}

#[test]
fn a_bad_entry_after_good_ones_installs_nothing() {
    let (mut atoms, mut init) = setup();
    let n = init.tables.types.len();
    let c = |_p: &[u8]| true;
    let entries = vec![
        TypeEntry { name: b"fine".to_vec(), regexp: None, return_type: b"string".to_vec() },
        TypeEntry { name: b"bad".to_vec(), regexp: None, return_type: b"float".to_vec() },
    ];
    assert_eq!(install_arg_types(&mut init.tables, &mut atoms, &entries, &c), None);
    assert_eq!(init.tables.types.len(), n);
}
