use yang_atom::atoms::{yang_make_atom, AtomTable};
use yang_atom::errors::yang_alloc_err_ctx;
use yang_atom::parser::{
    is_space, is_wspace, is_wspace_lf, yang_free_tree, yang_init_parser, yang_parse, YangTree, YANG_ERR_PARSE_BAD_KEYWORD,
    YANG_ERR_PARSE_EOF, YANG_ERR_PARSE_TRAILING_GARBAGE, YANG_VERSION_1, YANG_VERSION_1_1,
};

fn parse(text: &[u8]) -> (bool, Option<YangTree>, yang_atom::errors::YangErrorCtx, AtomTable) {
    let mut atoms = AtomTable::new();
    let yv = yang_init_parser(&mut atoms);
    let mut e = yang_alloc_err_ctx(8192);
    let (ok, tree) = yang_parse(text, &None, &Some(b"t.yang".to_vec()), &mut e, &mut atoms, Some(yv));
    (ok, tree, e, atoms)
}

fn kw(atoms: &AtomTable, a: usize) -> Vec<u8> {
    atoms.name(a).clone()
}

#[test]
fn space_classes() {
    assert!(is_space(b' '));
    assert!(!is_space(b'\t'));
    assert!(is_wspace(b'\t'));
    assert!(!is_wspace(b'\n'));
    assert!(is_wspace_lf(b'\n'));
    assert!(!is_wspace_lf(b'\r'));
}

#[test]
fn small_module() {
    let text = b"module m {\n  namespace \"urn:m\";\n  prefix m;\n}\n";
    let (ok, tree, e, mut atoms) = parse(text);
    assert!(ok);
    assert!(e.err.is_empty());
    let tree = tree.unwrap();
    assert_eq!(tree.filename, Some(b"t.yang".to_vec()));
    let n = &tree.nodes;
    assert_eq!(kw(&atoms, n[0].keyword), b"module".to_vec());
    assert_eq!(n[0].arg, Some(b"m".to_vec()));
    assert_eq!(n[0].line, 1);
    assert_eq!(n[0].next, None);
    let s1 = n[0].substmt.unwrap();
    assert_eq!(kw(&atoms, n[s1].keyword), b"namespace".to_vec());
    assert_eq!(n[s1].arg, Some(b"urn:m".to_vec()));
    assert_eq!(n[s1].line, 2);
    let s2 = n[s1].next.unwrap();
    assert_eq!(kw(&atoms, n[s2].keyword), b"prefix".to_vec());
    assert_eq!(n[s2].arg, Some(b"m".to_vec()));
    assert_eq!(n[s2].next, None);
    let m_atom = yang_make_atom(&mut atoms, Some(b"module")).unwrap();
    assert_eq!(n[0].keyword, m_atom);
    yang_free_tree(tree);
}

#[test]
fn prefixed_keyword_and_concatenation() {
    let text = b"module m { ex:foo \"a\" + 'b'; }";
    let (ok, tree, e, atoms) = parse(text);
    assert!(ok);
    assert!(e.err.is_empty());
    let tree = tree.unwrap();
    let s = tree.nodes[0].substmt.unwrap();
    assert_eq!(kw(&atoms, tree.nodes[s].prefix.unwrap()), b"ex".to_vec());
    assert_eq!(kw(&atoms, tree.nodes[s].keyword), b"foo".to_vec());
    assert_eq!(tree.nodes[s].arg, Some(b"ab".to_vec()));
}

#[test]
fn comments_and_escapes() {
    let text = b"// c\nmodule m { /* x */ description \"a\\tb\\n\"; }";
    let (ok, tree, _e, _atoms) = parse(text);
    assert!(ok);
    let tree = tree.unwrap();
    let s = tree.nodes[0].substmt.unwrap();
    assert_eq!(tree.nodes[s].arg, Some(b"a\tb\n".to_vec()));
}

#[test]
fn yang_version_1_1_is_seen() {
    let text = b"module m { yang-version 1.1; }";
    let (ok, tree, _e, _atoms) = parse(text);
    assert!(ok);
    let tree = tree.unwrap();
    let s = tree.nodes[0].substmt.unwrap();
    assert_eq!(tree.nodes[s].arg, Some(b"1.1".to_vec()));
    assert!(YANG_VERSION_1_1 != YANG_VERSION_1);
}

#[test]
fn premature_end_of_file() {
    let (ok, tree, e, _atoms) = parse(b"module m {");
    assert!(!ok);
    assert!(tree.is_none());
    assert!(e.err.iter().any(|x| x.code == YANG_ERR_PARSE_EOF));
}

#[test]
fn bad_keyword_character() {
    let (ok, _tree, e, _atoms) = parse(b"module m { 1foo; }");
    assert!(!ok);
    assert!(e.err.iter().any(|x| x.code == YANG_ERR_PARSE_BAD_KEYWORD));
}

#[test]
fn trailing_garbage_is_reported_but_parse_succeeds() {
    let (ok, tree, e, _atoms) = parse(b"module m { }\nfoo;");
    assert!(ok);
    assert!(tree.is_some());
    assert_eq!(e.err.len(), 1);
    assert_eq!(e.err[0].code, YANG_ERR_PARSE_TRAILING_GARBAGE);
    assert_eq!(e.err[0].msg, b"trailing garbage after module".to_vec());
}

#[test]
fn read_error_is_reported_at_the_end() {
    let mut atoms = AtomTable::new();
    let yv = yang_init_parser(&mut atoms);
    let mut e = yang_alloc_err_ctx(8192);
    let (ok, _tree) = yang_parse(b"module m {", &Some(b"disk error".to_vec()), &None, &mut e, &mut atoms, Some(yv));
    assert!(!ok);
    assert_eq!(e.err[0].code, YANG_ERR_PARSE_EOF);
    assert_eq!(e.err[0].msg, b"disk error".to_vec());
}

#[test]
fn parse_keeps_earlier_errors_first() {
    let mut atoms = AtomTable::new();
    let yv = yang_init_parser(&mut atoms);
    let mut e = yang_alloc_err_ctx(8192);
    yang_atom::errors::report_msg(&mut e, 7, &None, 3, 4, b"earlier");
    let (ok, _tree) = yang_parse(b"module m { x y }", &None, &None, &mut e, &mut atoms, Some(yv));
    assert!(!ok);
    assert!(e.err.len() >= 2);
    assert_eq!(e.err[0].code, 7);
    assert_eq!(e.err[0].msg, b"earlier".to_vec());
    assert_eq!(e.err[0].line, 3);
    assert_eq!(e.err[0].col, 4);
}

#[test]
fn yang_version_1_1_makes_bad_escapes_errors() {
    let (_ok, _tree, e, _atoms) = parse(b"module m { yang-version \"1.1\"; description \"a\\qb\"; }");
    assert!(e.err.iter().any(|x| x.code == yang_atom::parser::YANG_ERR_PARSE_ILLEGAL_ESCAPE));
    let (_ok, _tree, e, _atoms) = parse(b"module m { description \"a\\qb\"; }");
    assert!(e.err.iter().any(|x| x.code == yang_atom::parser::YANG_WARN_PARSE_ILLEGAL_ESCAPE));
    assert!(!e.err.iter().any(|x| x.code == yang_atom::parser::YANG_ERR_PARSE_ILLEGAL_ESCAPE));
}
