use yang_atom::atoms::{yang_make_atom, AtomTable};
use yang_atom::check::yang_grammar_check_module;
use yang_atom::core_grammar::{yang_init_grammar, InitResult};
use yang_atom::errors::{has_error, yang_alloc_err_ctx, YangErrorCtx};
use yang_atom::grammar::{
    YANG_ERR_GRAMMAR_BAD_ARGUMENT, YANG_ERR_GRAMMAR_DUPLICATE_PREFIX, YANG_ERR_GRAMMAR_EXPECTED_KEYWORD,
    YANG_ERR_GRAMMAR_KEYWORD_ALREADY_FOUND, YANG_ERR_GRAMMAR_MISSING_ARGUMENT, YANG_ERR_GRAMMAR_UNDEFINED_PREFIX,
    YANG_ERR_GRAMMAR_UNEXPECTED_ARGUMENT, YANG_ERR_GRAMMAR_UNEXPECTED_KEYWORD,
};
use yang_atom::parser::yang_parse;

fn e(s: &str) -> Option<Vec<u8>> {
    Some(s.as_bytes().to_vec())
}

fn spec(t: &mut Vec<Option<Vec<u8>>>, kw: &str, arg: Option<&str>, rules: &[(&str, &str, &str)]) {
    t.push(e(kw));
    t.push(arg.map(|a| a.as_bytes().to_vec()));
    for (v, k, o) in rules {
        t.push(e(v));
        t.push(e(k));
        t.push(e(o));
    }
    t.push(None);
    t.push(None);
    t.push(None);
}

fn core_table() -> Vec<Option<Vec<u8>>> {
    let mut t = Vec::new();
    spec(
        &mut t,
        "module",
        Some("identifier"),
        &[
            ("1", "yang-version", "?"),
            ("1", "namespace", "1"),
            ("1", "prefix", "1"),
            ("1", "$cut", "*"),
            ("1", "import", "*"),
            ("1", "$cut", "*"),
            ("1", "description", "?"),
            ("1", "leaf", "*"),
            ("1", "input", "*"),
            ("1.1", "action", "*"),
        ],
    );
    spec(&mut t, "submodule", Some("identifier"), &[("1", "belongs-to", "1"), ("1", "description", "?")]);
    spec(&mut t, "yang-version", Some("version"), &[]);
    spec(&mut t, "namespace", Some("uri"), &[]);
    spec(&mut t, "prefix", Some("identifier"), &[]);
    spec(&mut t, "import", Some("identifier"), &[("1", "prefix", "1")]);
    spec(&mut t, "belongs-to", Some("identifier"), &[("1", "prefix", "1")]);
    spec(&mut t, "description", Some("string"), &[]);
    spec(&mut t, "leaf", Some("identifier"), &[("1", "type", "1"), ("1", "max-elements", "?"), ("1", "if-feature", "*")]);
    spec(&mut t, "type", Some("identifier-ref"), &[]);
    spec(&mut t, "max-elements", Some("max-value"), &[]);
    spec(&mut t, "if-feature", Some("if-feature-expr"), &[]);
    spec(&mut t, "input", None, &[]);
    spec(&mut t, "action", Some("identifier"), &[]);
    t.push(None);
    t
}

fn matcher(p: &[u8], i: &[u8]) -> bool {
    if p == b"1|1\\.1" {
        return i == b"1" || i == b"1.1";
    }
    !i.is_empty() && !i.contains(&b' ')
}

fn setup() -> (AtomTable, InitResult) {
    let mut atoms = AtomTable::new();
    let c = |_p: &[u8]| true;
    let init = yang_init_grammar(&mut atoms, &core_table(), &c);
    assert!(init.ok);
    (atoms, init)
}

fn check(text: &str, canonical: bool) -> (bool, YangErrorCtx) {
    let (mut atoms, init) = setup();
    let mut ectx = yang_alloc_err_ctx(8192);
    let (ok, tree) = yang_parse(text.as_bytes(), &None, &Some(b"t.yang".to_vec()), &mut ectx, &mut atoms, init.yang_version);
    assert!(ok, "parse failed");
    let mut tree = tree.unwrap();
    let m = |p: &[u8], i: &[u8]| matcher(p, i);
    let res = yang_grammar_check_module(&init.tables, &mut tree, &mut atoms, &m, canonical, &mut ectx);
    (res, ectx)
}

fn msgs(e: &YangErrorCtx) -> Vec<(i32, String)> {
    e.err.iter().map(|x| (x.code, String::from_utf8(x.msg.clone()).unwrap())).collect()
}

#[test]
fn a_good_module_passes() {
    let (ok, e) = check("module m {\n namespace urn:m;\n prefix m;\n description \"d\";\n leaf x { type string; max-elements unbounded; }\n}\n", true);
    assert!(ok);
    assert!(e.err.is_empty(), "{:?}", msgs(&e));
}

#[test]
fn missing_mandatory_substatement() {
    let (ok, e) = check("module m {\n prefix m;\n}\n", false);
    assert!(!ok);
    assert_eq!(msgs(&e), vec![(YANG_ERR_GRAMMAR_EXPECTED_KEYWORD, "expected keyword 'namespace' as substatement to 'module'".to_string())]);
    assert_eq!(e.err[0].line, 1);
}

#[test]
fn keyword_given_twice() {
    let (ok, e) = check("module m { namespace urn:m; prefix m; prefix n; }", false);
    assert!(!ok);
    assert_eq!(msgs(&e), vec![(YANG_ERR_GRAMMAR_KEYWORD_ALREADY_FOUND, "keyword 'prefix' already given".to_string())]);
}

#[test]
fn unknown_keyword() {
    let (ok, e) = check("module m { namespace urn:m; prefix m; foo x; }", false);
    assert!(!ok);
    assert_eq!(msgs(&e), vec![(YANG_ERR_GRAMMAR_UNEXPECTED_KEYWORD, "unexpected keyword 'foo'".to_string())]);
}

#[test]
fn cut_requires_the_group_before() {
    let (ok, e) = check("module m { description d; namespace urn:m; prefix m; }", false);
    assert!(!ok);
    assert_eq!(e.err[0].code, YANG_ERR_GRAMMAR_EXPECTED_KEYWORD);
    assert_eq!(e.err[0].msg, b"expected keyword 'namespace'".to_vec());
}

#[test]
fn canonical_order_is_enforced() {
    let (ok, e) = check("module m { prefix m; namespace urn:m; }", true);
    assert!(!ok);
    assert_eq!(e.err[0].code, YANG_ERR_GRAMMAR_EXPECTED_KEYWORD);
    assert_eq!(e.err[0].msg, b"expected keyword 'namespace' before 'prefix'".to_vec());
    let (ok2, e2) = check("module m { prefix m; namespace urn:m; }", false);
    assert!(ok2);
    assert!(e2.err.is_empty());
}

#[test]
fn argument_checks() {
    let (ok, e) = check("module m { namespace urn:m; prefix m; leaf; input foo; leaf y { type t; max-elements many; } }", false);
    assert!(!ok);
    let got = msgs(&e);
    assert!(got.contains(&(YANG_ERR_GRAMMAR_MISSING_ARGUMENT, "missing argument to 'leaf'".to_string())));
    assert!(got.contains(&(YANG_ERR_GRAMMAR_EXPECTED_KEYWORD, "expected keyword 'type' as substatement to 'leaf'".to_string())));
    assert!(got.contains(&(YANG_ERR_GRAMMAR_UNEXPECTED_ARGUMENT, "did not expect an argument to 'input', got \"foo\"".to_string())));
    assert!(got.contains(&(YANG_ERR_GRAMMAR_BAD_ARGUMENT, "bad argument value \"many\", should be of type max-value".to_string())));
}

#[test]
fn validator_message_is_reported() {
    let (ok, e) = check("module m { namespace urn:m; prefix xmlm; }", false);
    assert!(!ok);
    assert_eq!(
        msgs(&e),
        vec![(
            YANG_ERR_GRAMMAR_BAD_ARGUMENT,
            "bad argument value \"xmlm\", an identifier must not start with [xX][mM][lL] in YANG version 1".to_string()
        )]
    );
}

#[test]
fn newer_keyword_in_older_version_is_reported() {
    let (ok, e) = check("module m { namespace urn:m; prefix m; action a; }", false);
    assert!(ok);
    assert!(has_error(&e));
    assert_eq!(msgs(&e), vec![(YANG_ERR_GRAMMAR_UNEXPECTED_KEYWORD, "action not valid in YANG version 1".to_string())]);
    let (ok2, e2) = check("module m { yang-version 1.1; namespace urn:m; prefix m; action a; }", false);
    assert!(ok2);
    assert!(e2.err.is_empty(), "{:?}", msgs(&e2));
}

#[test]
fn undefined_prefix_is_reported_and_the_statement_skipped() {
    let (ok, e) = check("module m { namespace urn:m; prefix m; ex:foo bar; }", false);
    assert!(ok);
    assert_eq!(msgs(&e), vec![(YANG_ERR_GRAMMAR_UNDEFINED_PREFIX, "undefined prefix ex".to_string())]);
}

#[test]
fn imported_prefix_names_its_module() {
    let (mut atoms, init) = setup();
    let mut ectx = yang_alloc_err_ctx(8192);
    let text = b"module m { namespace urn:m; prefix m; import other { prefix o; } o:ext x; }";
    let (ok, tree) = yang_parse(text, &None, &Some(b"t.yang".to_vec()), &mut ectx, &mut atoms, init.yang_version);
    assert!(ok);
    let mut tree = tree.unwrap();
    let m = |p: &[u8], i: &[u8]| matcher(p, i);
    assert!(yang_grammar_check_module(&init.tables, &mut tree, &mut atoms, &m, false, &mut ectx));
    assert!(ectx.err.is_empty());
    let other = yang_make_atom(&mut atoms, Some(b"other")).unwrap();
    let ext = tree.nodes.iter().find(|n| n.prefix.is_some()).unwrap();
    assert_eq!(ext.module_name, Some(other));
}

#[test]
fn duplicate_prefix_is_reported() {
    let (ok, e) = check("module m {\n namespace urn:m;\n prefix m;\n import other { prefix m; }\n}", false);
    assert!(ok);
    assert_eq!(msgs(&e), vec![(YANG_ERR_GRAMMAR_DUPLICATE_PREFIX, "prefix 'm' already defined at t.yang:3".to_string())]);
}

#[test]
fn if_feature_depends_on_the_version() {
    let (ok, e) = check("module m { yang-version 1.1; namespace urn:m; prefix m; leaf x { type t; if-feature \"a and b\"; } }", false);
    assert!(ok, "{:?}", msgs(&e));
    let (ok2, e2) = check("module m { namespace urn:m; prefix m; leaf x { type t; if-feature \"a and b\"; } }", false);
    assert!(!ok2);
    assert_eq!(
        msgs(&e2),
        vec![(YANG_ERR_GRAMMAR_BAD_ARGUMENT, "bad argument value \"a and b\", should be of type identifier-ref in YANG version 1".to_string())]
    );
}

#[test]
fn top_statement_must_be_a_module() {
    let (ok, e) = check("leaf x { type t; }", false);
    assert!(!ok);
    assert_eq!(msgs(&e), vec![(YANG_ERR_GRAMMAR_UNEXPECTED_KEYWORD, "unexpected keyword 'leaf'".to_string())]);
}

#[test]
fn argument_types_are_recorded() {
    let (mut atoms, init) = setup();
    let mut ectx = yang_alloc_err_ctx(8192);
    let (_, tree) = yang_parse(b"module m { namespace urn:m; prefix m; }", &None, &None, &mut ectx, &mut atoms, init.yang_version);
    let mut tree = tree.unwrap();
    let m = |p: &[u8], i: &[u8]| matcher(p, i);
    assert!(yang_grammar_check_module(&init.tables, &mut tree, &mut atoms, &m, false, &mut ectx));
    let root_type = tree.nodes[0].arg_type.unwrap();
    assert_eq!(atoms.name(init.tables.types[root_type].name).as_slice(), b"identifier");
}
