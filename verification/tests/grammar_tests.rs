use yang_atom::atoms::{yang_make_atom, AtomTable};
use yang_atom::core_grammar::{yang_init_grammar, yang_install_arg_types_str, yang_install_grammar_str, InitResult};
use yang_atom::grammar::{
    get_grammar, yang_add_rule_to_spec, yang_get_arg_type, yang_get_arg_type_idx, yang_get_grammar_module_names,
    yang_get_statement_spec, yang_set_type_bits, ArgSyntax, Validator, YangStatementRule, F_ARG_TYPE_SYNTAX_CB,
    F_ERL_ATOM, F_ERL_ATOM_OR_UINT, F_ERL_IDENTIFIER_REF, F_ERL_INT, F_ERL_UINT,
};

fn e(s: &str) -> Option<Vec<u8>> {
    Some(s.as_bytes().to_vec())
}

fn spec(t: &mut Vec<Option<Vec<u8>>>, kw: &str, arg: Option<&str>, rules: &[(&str, &str, &str)]) {
    t.push(e(kw));
    t.push(arg.map(|a| a.as_bytes().to_vec()));
    for (v, k, o) in rules {
        t.push(e(v));
        t.push(e(k));
        t.push(e(o));
    }
    t.push(None);
    t.push(None);
    t.push(None);
}

fn core_table() -> Vec<Option<Vec<u8>>> {
    let mut t = Vec::new();
    spec(&mut t, "module", Some("identifier"), &[("1", "namespace", "1"), ("1", "leaf", "*"), ("1", "leaf", "?")]);
    spec(&mut t, "namespace", Some("uri"), &[]);
    spec(&mut t, "leaf", Some("identifier"), &[("1.1", "type", "1")]);
    spec(&mut t, "leaf", Some("identifier"), &[]);
    spec(&mut t, "type", Some("identifier-ref"), &[]);
    spec(&mut t, "deviate", Some("=delete"), &[]);
    t.push(None);
    t
}

fn setup() -> (AtomTable, InitResult) {
    let mut atoms = AtomTable::new();
    let c = |_p: &[u8]| true;
    let init = yang_init_grammar(&mut atoms, &core_table(), &c);
    assert!(init.ok);
    (atoms, init)
}

#[test]
fn core_types_are_installed_in_order() {
    let (mut atoms, init) = setup();
    assert_eq!(init.tables.types.len(), 29);
    let names: Vec<Vec<u8>> = init.tables.types.iter().map(|t| atoms.name(t.name).clone()).collect();
    assert_eq!(names[0], b"string".to_vec());
    assert_eq!(names[15], b"uri".to_vec());
    assert_eq!(names[28], b"if-feature-expr".to_vec());
    let uri = yang_make_atom(&mut atoms, Some(b"uri")).unwrap();
    assert_eq!(yang_get_arg_type_idx(&init.tables, Some(uri)), 15);
    let t = &init.tables.types[15];
    assert_eq!(t.flags, F_ARG_TYPE_SYNTAX_CB);
    match &t.syntax {
        ArgSyntax::Callback(v, Some(p)) => {
            assert_eq!(*v, Validator::XsdRegexp);
            assert!(p.starts_with(b"[A-Za-z][-+.A-Za-z0-9]*:(//"));
            assert_eq!(p.len(), 2162);
        }
        _ => panic!("uri is checked by its pattern"),
    }
    match &init.tables.types[1].syntax {
        ArgSyntax::Callback(v, Some(p)) => {
            assert_eq!(*v, Validator::Identifier);
            assert_eq!(p.as_slice(), b"[_A-Za-z][._\\-A-Za-z0-9]*");
        }
        _ => panic!("identifier has a validator"),
    }
    match &init.tables.types[25].syntax {
        ArgSyntax::Callback(_, Some(p)) => assert_eq!(p.len(), 2109),
        _ => panic!("path-arg is checked by its pattern"),
    }
}

#[test]
fn unknown_type_name_is_minus_one() {
    let (mut atoms, init) = setup();
    let x = yang_make_atom(&mut atoms, Some(b"no-such-type")).unwrap();
    assert_eq!(yang_get_arg_type_idx(&init.tables, Some(x)), -1);
    assert_eq!(yang_get_arg_type(&init.tables, -1), None);
    assert_eq!(yang_get_arg_type(&init.tables, 29), None);
    assert_eq!(yang_get_arg_type(&init.tables, 3), Some(3));
}

#[test]
fn rules_resolve_to_specifications_in_order() {
    let (mut atoms, init) = setup();
    let g = get_grammar(&init.tables, None).unwrap();
    let specs = &init.tables.grammars[g].specs;
    assert_eq!(specs[0].rules[0].spec, Some((g, 1)));
    assert_eq!(specs[0].rules[1].spec, Some((g, 2)));
    assert_eq!(specs[0].rules[2].spec, Some((g, 3)));
    assert_eq!(specs[2].rules[0].min_yang_version, 2);
    assert_eq!(specs[0].rules[2].occurance, b'?');
    let leaf = yang_make_atom(&mut atoms, Some(b"leaf")).unwrap();
    assert_eq!(yang_get_statement_spec(&init.tables, None, leaf), Some((g, 2)));
}

#[test]
fn matching_specifications_are_not_found_by_keyword() {
    let (mut atoms, init) = setup();
    let deviate = yang_make_atom(&mut atoms, Some(b"deviate")).unwrap();
    assert_eq!(yang_get_statement_spec(&init.tables, None, deviate), None);
}

#[test]
fn module_grammar_and_duplicate() {
    let (mut atoms, mut init) = setup();
    let mut t = Vec::new();
    spec(&mut t, "ext", Some("string"), &[]);
    t.push(None);
    assert!(yang_install_grammar_str(&mut init.tables, &mut atoms, Some(b"acme"), &t));
    assert!(!yang_install_grammar_str(&mut init.tables, &mut atoms, Some(b"acme"), &t));
    let (n, names) = yang_get_grammar_module_names(&init.tables, 10);
    assert_eq!(n, 1);
    assert_eq!(atoms.name(names[0]).as_slice(), b"acme");
    let (n0, names0) = yang_get_grammar_module_names(&init.tables, 0);
    assert_eq!(n0, 1);
    assert_eq!(names0.len(), 0);
}

#[test]
fn unknown_argument_type_refuses_the_table() {
    let (mut atoms, mut init) = setup();
    let mut t = Vec::new();
    spec(&mut t, "ext", Some("nope"), &[]);
    t.push(None);
    assert!(!yang_install_grammar_str(&mut init.tables, &mut atoms, Some(b"bad"), &t));
    assert_eq!(init.tables.grammars.len(), 1);
}

#[test]
fn rule_to_an_unknown_module_fails_to_resolve() {
    let (mut atoms, mut init) = setup();
    let mut t = Vec::new();
    spec(&mut t, "ext", Some("string"), &[("1", "missing", "?")]);
    t.push(None);
    assert!(!yang_install_grammar_str(&mut init.tables, &mut atoms, Some(b"m2"), &t));
    assert_eq!(init.tables.grammars.len(), 2);
}

#[test]
fn adding_a_rule() {
    let (mut atoms, mut init) = setup();
    let leaf = yang_make_atom(&mut atoms, Some(b"leaf")).unwrap();
    let type_ = yang_make_atom(&mut atoms, Some(b"type")).unwrap();
    let r = YangStatementRule { module_name: None, keyword: type_, min_yang_version: 1, spec: None, occurance: b'?' };
    assert!(yang_add_rule_to_spec(&mut init.tables, r, None, leaf));
    let (g, s) = yang_get_statement_spec(&init.tables, None, leaf).unwrap();
    assert_eq!(init.tables.grammars[g].specs[s].rules.len(), 2);
    let nope = yang_make_atom(&mut atoms, Some(b"nope")).unwrap();
    assert!(!yang_add_rule_to_spec(&mut init.tables, r, None, nope));
}

#[test]
fn type_bits() {
    let (mut atoms, mut init) = setup();
    yang_set_type_bits(&mut init.tables, &mut atoms);
    let flags = |atoms: &mut AtomTable, n: &[u8]| {
        let a = yang_make_atom(atoms, Some(n)).unwrap();
        let i = yang_get_arg_type_idx(&init.tables, Some(a));
        init.tables.types[i as usize].flags
    };
    assert_ne!(flags(&mut atoms, b"boolean") & F_ERL_ATOM, 0);
    assert_ne!(flags(&mut atoms, b"integer") & F_ERL_INT, 0);
    assert_ne!(flags(&mut atoms, b"fraction-digits-arg") & F_ERL_UINT, 0);
    assert_ne!(flags(&mut atoms, b"max-value") & F_ERL_ATOM_OR_UINT, 0);
    assert_ne!(flags(&mut atoms, b"identifier-ref") & F_ERL_IDENTIFIER_REF, 0);
    assert_eq!(flags(&mut atoms, b"string"), 0);
}

#[test]
fn pattern_types_from_pairs() {
    let (mut atoms, mut init) = setup();
    let pairs = vec![(b"color".to_vec(), b"red|green".to_vec()), (b"bad".to_vec(), b"(".to_vec())];
    let c = |p: &[u8]| p != b"(";
    assert!(!yang_install_arg_types_str(&mut init.tables, &mut atoms, &pairs, &c));
    assert_eq!(init.tables.types.len(), 31);
    match &init.tables.types[29].syntax {
        ArgSyntax::Callback(Validator::XsdRegexp, Some(p)) => assert_eq!(p.as_slice(), b"red|green"),
        _ => panic!("a compiled pattern validates"),
    }
    match &init.tables.types[30].syntax {
        ArgSyntax::Regexp(p) => assert_eq!(p.as_slice(), b"("),
        _ => panic!("a pattern that does not compile stays as given"),
    }
}

#[test]
fn missing_core_table_fails() {
    let mut atoms = AtomTable::new();
    let c = |_p: &[u8]| true;
    let init = yang_init_grammar(&mut atoms, &Vec::new(), &c);
    assert!(!init.ok);
    assert_eq!(init.yang_version, None);
}

#[test]
fn unknown_argument_type_after_good_specs_refuses_all() {
    let (mut atoms, mut init) = setup();
    let mut t = Vec::new();
    spec(&mut t, "good", Some("string"), &[]);
    spec(&mut t, "also-good", None, &[]);
    spec(&mut t, "ext", Some("nope"), &[]);
    t.push(None);
    assert!(!yang_install_grammar_str(&mut init.tables, &mut atoms, Some(b"bad"), &t));
    assert_eq!(init.tables.grammars.len(), 1);
}

#[test]
fn type_bits_twice_change_nothing() {
    let (mut atoms, mut init) = setup();
    yang_set_type_bits(&mut init.tables, &mut atoms);
    let once: Vec<u32> = init.tables.types.iter().map(|t| t.flags).collect();
    let n = atoms.len();
    yang_set_type_bits(&mut init.tables, &mut atoms);
    let twice: Vec<u32> = init.tables.types.iter().map(|t| t.flags).collect();
    assert_eq!(once, twice);
    assert_eq!(atoms.len(), n);
}
