//! Checking a parse tree against the grammar.
//!
//! The top statement must be `module` or `submodule`.  Before the check, the
//! prefixes that the module declares (its own and those of its imports or of
//! the module it belongs to) are collected and each prefixed statement gets
//! the module the prefix stands for; an unknown prefix is reported.  Then
//! each block of substatements is checked against the rules of its parent's
//! specification: every statement must match a rule that may still occur, in
//! the order the rules give when the check is canonical, with an argument when
//! and only when the specification has an argument type, and that argument
//! must pass the type's validator.  Rules that must occur and did not are
//! reported at the end of the block.  Statements of modules without a grammar
//! are skipped.

use vstd::prelude::*;
use crate::atoms::{Atom, AtomTable, spec_intern, spec_table_wf, lemma_intern, law_intern_idempotent, lemma_clean_no_nul};
use crate::errors::{YangErrorCtx, ErrorRecord, reported, report_msg, spec_stored_msg, YANG_FIRST_WARNING};
use crate::grammar::{
    GrammarTables, GrammarV, ArgTypeV, SpecV, SyntaxV, Validator, KnownAtoms, YangStatementRule,
    F_STMT_ARG_MATCH, F_ARG_TYPE_SYNTAX_CB, YANG_ERR_GRAMMAR_UNEXPECTED_KEYWORD,
    YANG_ERR_GRAMMAR_KEYWORD_ALREADY_FOUND, YANG_ERR_GRAMMAR_EXPECTED_KEYWORD,
    YANG_ERR_GRAMMAR_MISSING_ARGUMENT, YANG_ERR_GRAMMAR_UNEXPECTED_ARGUMENT, YANG_ERR_GRAMMAR_BAD_ARGUMENT,
    ArgSyntax, YangStatementSpec, spec_get_grammar, get_grammar, opt_usize, yang_get_arg_type,
    YANG_ERR_GRAMMAR_UNDEFINED_PREFIX, YANG_ERR_GRAMMAR_DUPLICATE_PREFIX, YANG_ERR_INTERNAL,
    spec_get_spec_from_rule, get_spec_from_rule, opt_pair,
};
use crate::parser::{YangStatement, YangTree, StmtNode, opt_int, opt_view, nodes_view, forward_links, YANG_VERSION_1, YANG_VERSION_1_1};
use crate::regex::{pattern_matches, matcher_ok, call_match};
use crate::text::{lossy_text, lossy_utf8, push_str, push_bytes, contains_nul, spec_decimal, decimal_i64, lemma_no_nul};
use crate::validators::{
    spec_xml_prefix, spec_msg_xml_identifier, spec_msg_if_feature_v1, spec_date_ok, spec_unbounded,
    spec_ws_at_start, spec_ws_at_end, spec_parse_u64, spec_parse_i64, chk_xsd_regexp,
    chk_identifier_rs, chk_date_rs, chk_max_value_rs, chk_non_negative_integer_rs, chk_integer_rs,
    chk_enum_arg_rs, chk_fraction_digits_arg_rs, chk_if_feature_expr_rs,
};
use crate::if_feature::spec_if_feature_expr;
use vstd::string::StringSliceAdditionalSpecFns;

verus! {

/// The rule must occur exactly once.
pub const OCC_ONE: u8 = 49;
/// The rule may occur at most once.
pub const OCC_OPTIONAL: u8 = 63;
/// The rule may occur any number of times.
pub const OCC_ANY: u8 = 42;
/// The rule must occur at least once.
pub const OCC_MANY: u8 = 43;
/// The rule occurred and may not occur again.
pub const OCC_DONE: u8 = 48;
/// The rule was passed over in canonical order.
pub const OCC_PASSED: u8 = 45;

/// What a check reads and does not change: the grammars, the argument types,
/// the known atoms, the atom texts, the file name and the room of a message.
pub struct Env {
    pub gs: Seq<GrammarV>,
    pub ts: Seq<ArgTypeV>,
    pub am: KnownAtoms,
    pub atoms: Seq<Seq<u8>>,
    pub filename: Option<Seq<u8>>,
    pub cap: usize,
}

/// The bytes of an optional byte string.
pub open spec fn opt_bytes(o: Option<&[u8]>) -> Option<Seq<u8>> {
    match o {
        Some(b) => Some(b@),
        None => None,
    }
}

/// The argument is present, the pattern is present and the argument matches it.
pub open spec fn regex_ok<F: Fn(&[u8], &[u8]) -> bool>(m: F, pat: Option<Seq<u8>>, arg: Option<Seq<u8>>) -> bool {
    match pat {
        Some(p) => match arg {
            Some(a) => pattern_matches(m, p, a),
            None => false,
        },
        None => false,
    }
}

/// What validator `v`, with pattern `pat`, says of `arg` in YANG version
/// `vsn`: whether the argument passes, and the message it gives when it has one.
pub open spec fn spec_validate<F: Fn(&[u8], &[u8]) -> bool>(
    m: F,
    v: Validator,
    pat: Option<Seq<u8>>,
    arg: Option<Seq<u8>>,
    vsn: i8,
) -> (bool, Option<Seq<u8>>) {
    let rm = regex_ok(m, pat, arg);
    match arg {
        None => (false, None),
        Some(a) => match v {
            Validator::XsdRegexp => (rm, None),
            Validator::Identifier => if !rm {
                (false, None)
            } else if vsn != YANG_VERSION_1 {
                (true, None)
            } else if spec_xml_prefix(a) {
                (false, Some(spec_msg_xml_identifier(lossy_text(a))))
            } else {
                (true, None)
            },
            Validator::Date => (rm && spec_date_ok(a), None),
            Validator::MaxValue => (a == spec_unbounded() || (!spec_ws_at_start(a) && !(a.len() > 0
                && a[0] == 45) && spec_parse_u64(a) is Some), None),
            Validator::NonNegativeInteger => (!spec_ws_at_start(a) && !(a.len() > 0 && a[0] == 45)
                && spec_parse_u64(a) is Some, None),
            Validator::Integer => (!spec_ws_at_start(a) && spec_parse_i64(a) is Some, None),
            Validator::EnumArg => (a.len() > 0 && !spec_ws_at_start(a) && !spec_ws_at_end(a), None),
            Validator::FractionDigitsArg => (!spec_ws_at_start(a) && !(a.len() > 0 && a[0] == 45)
                && match spec_parse_u64(a) {
                Some(d) => 1 <= d <= 18,
                None => false,
            }, None),
            Validator::IfFeatureExpr => if vsn == YANG_VERSION_1 {
                if rm {
                    (true, None)
                } else {
                    (false, Some(spec_msg_if_feature_v1(lossy_text(a))))
                }
            } else {
                (spec_if_feature_expr(a), None)
            },
        },
    }
}

fn match_pattern<F: Fn(&[u8], &[u8]) -> bool>(m: &F, pat: &Option<Vec<u8>>, arg: Option<&[u8]>) -> (r: bool)
    requires
        matcher_ok(*m),
    ensures
        r == regex_ok(*m, opt_view(*pat), opt_bytes(arg)),
{
    match pat {
        Some(p) => match arg {
            Some(a) => call_match(m, p.as_slice(), a),
            None => false,
        },
        None => false,
    }
}

/// Runs validator `v`, with pattern `pat`, on `arg` in YANG version `vsn`.
pub fn run_validator<F: Fn(&[u8], &[u8]) -> bool>(
    m: &F,
    v: Validator,
    pat: &Option<Vec<u8>>,
    arg: Option<&[u8]>,
    vsn: i8,
) -> (r: (bool, Option<Vec<u8>>))
    requires
        matcher_ok(*m),
    ensures
        r.0 == spec_validate(*m, v, opt_view(*pat), opt_bytes(arg), vsn).0,
        opt_view(r.1) == spec_validate(*m, v, opt_view(*pat), opt_bytes(arg), vsn).1,
{
    match v {
        Validator::XsdRegexp => {
            let rm = match_pattern(m, pat, arg);
            (chk_xsd_regexp(arg, rm), None)
        },
        Validator::Identifier => {
            let rm = match_pattern(m, pat, arg);
            chk_identifier_rs(arg, rm, vsn)
        },
        Validator::Date => {
            let rm = match_pattern(m, pat, arg);
            (chk_date_rs(arg, rm), None)
        },
        Validator::MaxValue => (chk_max_value_rs(arg), None),
        Validator::NonNegativeInteger => (chk_non_negative_integer_rs(arg), None),
        Validator::Integer => (chk_integer_rs(arg), None),
        Validator::EnumArg => (chk_enum_arg_rs(arg), None),
        Validator::FractionDigitsArg => (chk_fraction_digits_arg_rs(arg), None),
        Validator::IfFeatureExpr => {
            let rm = if vsn == YANG_VERSION_1 {
                match_pattern(m, pat, arg)
            } else {
                false
            };
            chk_if_feature_expr_rs(arg, rm, vsn)
        },
    }
}


/// The environment of a check on tables `t`, atoms `atoms`, a file and a
/// message room.
pub open spec fn env_of(t: &GrammarTables, atoms: Seq<Seq<u8>>, filename: Option<Seq<u8>>, cap: usize) -> Env {
    Env { gs: t.gv(), ts: t.tv(), am: t.am, atoms, filename, cap }
}

/// The text of atom `a`, read as UTF-8; nothing for an atom not in the table.
pub open spec fn atom_text(atoms: Seq<Seq<u8>>, a: int) -> Seq<u8> {
    if 0 <= a < atoms.len() {
        lossy_text(atoms[a])
    } else {
        Seq::empty()
    }
}

/// A keyword as messages show it: `prefix:keyword`, or the keyword alone.
pub open spec fn kw_bytes(atoms: Seq<Seq<u8>>, pre: Option<int>, kw: int) -> Seq<u8> {
    match pre {
        Some(p) => atom_text(atoms, p) + seq![58u8] + atom_text(atoms, kw),
        None => atom_text(atoms, kw),
    }
}

/// The keyword of a statement as messages show it.
pub open spec fn stmt_kw(atoms: Seq<Seq<u8>>, s: StmtNode) -> Seq<u8> {
    kw_bytes(atoms, s.prefix, s.keyword)
}

/// The keyword of a rule as messages show it.
pub open spec fn rule_kw(atoms: Seq<Seq<u8>>, r: YangStatementRule) -> Seq<u8> {
    kw_bytes(atoms, opt_int(r.module_name), r.keyword as int)
}

/// A YANG version as messages show it.
pub open spec fn vsn_text(vsn: i8) -> Seq<u8> {
    if vsn == YANG_VERSION_1 {
        "1".spec_bytes()
    } else if vsn == YANG_VERSION_1_1 {
        "1.1".spec_bytes()
    } else {
        "unknown version".spec_bytes()
    }
}

pub open spec fn msg_unexpected(kw: Seq<u8>) -> Seq<u8> {
    "unexpected keyword '".spec_bytes() + kw + "'".spec_bytes()
}

pub open spec fn msg_already(kw: Seq<u8>) -> Seq<u8> {
    "keyword '".spec_bytes() + kw + "' already given".spec_bytes()
}

pub open spec fn msg_not_valid(kw: Seq<u8>, vsn: i8) -> Seq<u8> {
    kw + " not valid in YANG version ".spec_bytes() + vsn_text(vsn)
}

pub open spec fn msg_expected(rk: Seq<u8>) -> Seq<u8> {
    "expected keyword '".spec_bytes() + rk + "'".spec_bytes()
}

pub open spec fn msg_expected_before(rk: Seq<u8>, sk: Seq<u8>) -> Seq<u8> {
    "expected keyword '".spec_bytes() + rk + "' before '".spec_bytes() + sk + "'".spec_bytes()
}

/// The errors after reporting `msg` at statement `s`.
pub open spec fn stmt_report(env: Env, errs: Seq<ErrorRecord>, s: StmtNode, code: i32, msg: Seq<u8>) -> Seq<ErrorRecord> {
    reported(errs, code, env.filename, s.line as i32, -1i32, msg, env.cap)
}

/// The specification a rule stands for, when it stands for one in the tables.
pub open spec fn spec_of(gs: Seq<GrammarV>, p: Option<(usize, usize)>) -> Option<SpecV> {
    match p {
        Some(gp) => if gp.0 < gs.len() && gp.1 < gs[gp.0 as int].specs.len() {
            Some(gs[gp.0 as int].specs[gp.1 as int])
        } else {
            None
        },
        None => None,
    }
}

/// The argument type at `idx`, when there is one.
pub open spec fn type_at(ts: Seq<ArgTypeV>, idx: i32) -> Option<ArgTypeV> {
    if 0 <= idx < ts.len() {
        Some(ts[idx as int])
    } else {
        None
    }
}

/// The argument of `s` passes the validator of the argument type of `sp`.
pub open spec fn spec_arg_matches<F: Fn(&[u8], &[u8]) -> bool>(ts: Seq<ArgTypeV>, m: F, sp: SpecV, s: StmtNode) -> bool {
    match type_at(ts, sp.arg_type_idx) {
        Some(at) => match at.syntax {
            SyntaxV::Callback(v, p) => spec_validate(m, v, p, s.arg, s.yang_version).0,
            _ => false,
        },
        None => false,
    }
}

/// Statement `s` matches rule `r`: same module and keyword and, when the
/// rule's specification matches on the argument, an argument that passes.
pub open spec fn spec_rule_match<F: Fn(&[u8], &[u8]) -> bool>(
    gs: Seq<GrammarV>,
    ts: Seq<ArgTypeV>,
    m: F,
    s: StmtNode,
    r: YangStatementRule,
) -> bool {
    &&& s.module_name == opt_int(r.module_name)
    &&& s.keyword == r.keyword as int
    &&& match spec_of(gs, r.spec) {
        Some(sp) => sp.flags & F_STMT_ARG_MATCH != 0 ==> spec_arg_matches(ts, m, sp, s),
        None => true,
    }
}

/// A rule with another occurrence.
pub open spec fn with_occ(r: YangStatementRule, o: u8) -> YangStatementRule {
    YangStatementRule { occurance: o, ..r }
}

/// The rule must still occur.
pub open spec fn required(r: YangStatementRule) -> bool {
    r.occurance == OCC_ONE || r.occurance == OCC_MANY
}

/// The first rule from `j` up to `i` that must still occur.
pub open spec fn first_required(rules: Seq<YangStatementRule>, j: int, i: int) -> Option<int>
    decreases i - j,
{
    if j < 0 || j >= i || j >= rules.len() {
        None
    } else if required(rules[j]) {
        Some(j)
    } else {
        first_required(rules, j + 1, i)
    }
}

/// The outcome of matching a statement against the rules of its block:
/// whether it matched, the rules and the start of the current group after,
/// the rule it matched, and the errors.
pub struct MatchResult {
    pub ok: bool,
    pub rules: Seq<YangStatementRule>,
    pub start: int,
    pub found: int,
    pub errs: Seq<ErrorRecord>,
}

/// Matching statement `s` against the rules from `i` on.
pub open spec fn spec_match_from<F: Fn(&[u8], &[u8]) -> bool>(
    env: Env,
    m: F,
    s: StmtNode,
    rules: Seq<YangStatementRule>,
    start: int,
    i: int,
    canonical: bool,
    errs: Seq<ErrorRecord>,
) -> MatchResult
    decreases rules.len() - i,
{
    let kw = stmt_kw(env.atoms, s);
    if i < 0 || i >= rules.len() {
        MatchResult {
            ok: false,
            rules,
            start,
            found: -1,
            errs: stmt_report(env, errs, s, YANG_ERR_GRAMMAR_UNEXPECTED_KEYWORD, msg_unexpected(kw)),
        }
    } else {
        let r = rules[i];
        if spec_rule_match(env.gs, env.ts, m, s, r) {
            let errs1 = if r.min_yang_version > s.yang_version {
                stmt_report(env, errs, s, YANG_ERR_GRAMMAR_UNEXPECTED_KEYWORD, msg_not_valid(kw, s.yang_version))
            } else {
                errs
            };
            if r.occurance == OCC_ONE || r.occurance == OCC_OPTIONAL {
                MatchResult { ok: true, rules: rules.update(i, with_occ(r, OCC_DONE)), start, found: i, errs: errs1 }
            } else if r.occurance == OCC_ANY {
                MatchResult { ok: true, rules, start, found: i, errs: errs1 }
            } else if r.occurance == OCC_MANY {
                MatchResult { ok: true, rules: rules.update(i, with_occ(r, OCC_ANY)), start, found: i, errs: errs1 }
            } else if r.occurance == OCC_DONE {
                MatchResult {
                    ok: false,
                    rules,
                    start,
                    found: -1,
                    errs: stmt_report(env, errs1, s, YANG_ERR_GRAMMAR_KEYWORD_ALREADY_FOUND, msg_already(kw)),
                }
            } else if r.occurance == OCC_PASSED {
                MatchResult {
                    ok: false,
                    rules,
                    start,
                    found: -1,
                    errs: stmt_report(env, errs1, s, YANG_ERR_GRAMMAR_UNEXPECTED_KEYWORD, msg_unexpected(kw)),
                }
            } else {
                spec_match_from(env, m, s, rules, start, i + 1, canonical, errs1)
            }
        } else if s.prefix is Some {
            spec_match_from(env, m, s, rules, start, i + 1, false, errs)
        } else if Some(r.keyword) == env.am.sp_cut {
            match first_required(rules, start, i) {
                Some(j) => MatchResult {
                    ok: false,
                    rules: rules.update(j, with_occ(rules[j], OCC_DONE)),
                    start,
                    found: -1,
                    errs: stmt_report(env, errs, s, YANG_ERR_GRAMMAR_EXPECTED_KEYWORD, msg_expected(rule_kw(env.atoms, rules[j]))),
                },
                None => spec_match_from(env, m, s, rules, i + 1, i + 1, canonical, errs),
            }
        } else if canonical {
            if required(r) {
                MatchResult {
                    ok: false,
                    rules: rules.update(i, with_occ(r, OCC_DONE)),
                    start,
                    found: -1,
                    errs: stmt_report(
                        env,
                        errs,
                        s,
                        YANG_ERR_GRAMMAR_EXPECTED_KEYWORD,
                        msg_expected_before(rule_kw(env.atoms, r), kw),
                    ),
                }
            } else {
                spec_match_from(env, m, s, rules.update(i, with_occ(r, OCC_PASSED)), start, i + 1, canonical, errs)
            }
        } else {
            spec_match_from(env, m, s, rules, start, i + 1, canonical, errs)
        }
    }
}

/// The text of atom `a`, read as UTF-8.
fn atom_lossy(atoms: &AtomTable, a: Atom) -> (r: Vec<u8>)
    ensures
        r@ == atom_text(atoms.view(), a as int),
        atoms.wf() ==> !r@.contains(0u8),
{
    if a < atoms.len() {
        assert(atoms.wf() ==> !atoms.view()[a as int].contains(0u8));
        lossy_utf8(atoms.name(a).as_slice())
    } else {
        Vec::new()
    }
}

/// A keyword as messages show it.
fn kw_text(atoms: &AtomTable, pre: Option<Atom>, kw: Atom) -> (r: Vec<u8>)
    ensures
        r@ == kw_bytes(atoms.view(), opt_int(pre), kw as int),
        atoms.wf() ==> !r@.contains(0u8),
{
    let mut v: Vec<u8> = Vec::new();
    match pre {
        Some(p) => {
            let pt = atom_lossy(atoms, p);
            push_bytes(&mut v, pt.as_slice());
            v.push(58);
        },
        None => {},
    }
    let kt = atom_lossy(atoms, kw);
    push_bytes(&mut v, kt.as_slice());
    proof {
        match pre {
            Some(p) => assert(v@ =~= kw_bytes(atoms.view(), opt_int(pre), kw as int)),
            None => assert(v@ =~= kw_bytes(atoms.view(), opt_int(pre), kw as int)),
        }
        if atoms.wf() {
            assert forall|i: int| 0 <= i < v@.len() implies #[trigger] v@[i] != 0u8 by {
                match pre {
                    Some(p) => {
                        let pt = atom_text(atoms.view(), p as int);
                        if i < pt.len() {
                            assert(v@[i] == pt[i]);
                        } else if i > pt.len() {
                            assert(v@[i] == atom_text(atoms.view(), kw as int)[i - pt.len() - 1]);
                        }
                    },
                    None => {
                        assert(v@[i] == atom_text(atoms.view(), kw as int)[i]);
                    },
                }
            }
        }
    }
    v
}

fn vsn_str(vsn: i8) -> (r: &'static str)
    ensures
        r.spec_bytes() == vsn_text(vsn),
{
    if vsn == YANG_VERSION_1 {
        "1"
    } else if vsn == YANG_VERSION_1_1 {
        "1.1"
    } else {
        "unknown version"
    }
}

/// The specification a rule stands for.
fn spec_ref(t: &GrammarTables, p: Option<(usize, usize)>) -> (r: Option<&crate::grammar::YangStatementSpec>)
    ensures
        match r {
            Some(sp) => spec_of(t.gv(), p) == Some(sp.view()),
            None => spec_of(t.gv(), p) is None,
        },
{
    match p {
        Some(gp) => {
            if gp.0 < t.grammars.len() && gp.1 < t.grammars[gp.0].specs.len() {
                assert(t.gv()[gp.0 as int].specs[gp.1 as int] == t.grammars@[gp.0 as int].specs@[gp.1 as int].view());
                Some(&t.grammars[gp.0].specs[gp.1])
            } else {
                None
            }
        },
        None => None,
    }
}

/// The argument of a statement, as bytes.
fn arg_of(node: &YangStatement) -> (r: Option<&[u8]>)
    ensures
        opt_bytes(r) == node.view().arg,
{
    match &node.arg {
        Some(v) => Some(v.as_slice()),
        None => None,
    }
}

fn rule_matches<F: Fn(&[u8], &[u8]) -> bool>(t: &GrammarTables, m: &F, node: &YangStatement, r: &YangStatementRule) -> (b: bool)
    requires
        matcher_ok(*m),
    ensures
        b == spec_rule_match(t.gv(), t.tv(), *m, node.view(), *r),
{
    if node.module_name != r.module_name || node.keyword != r.keyword {
        return false;
    }
    match spec_ref(t, r.spec) {
        Some(sp) => {
            if sp.flags & F_STMT_ARG_MATCH != 0 {
                match crate::grammar::yang_get_arg_type(t, sp.arg_type_idx) {
                    Some(k) => {
                        assert(t.tv()[k as int] == t.types@[k as int].view());
                        match &t.types[k].syntax {
                            crate::grammar::ArgSyntax::Callback(v, p) => run_validator(m, *v, p, arg_of(node), node.yang_version).0,
                            _ => false,
                        }
                    },
                    None => false,
                }
            } else {
                true
            }
        },
        None => true,
    }
}


/// `a`, then `b`, then `c`.
fn msg3(a: &str, b: &[u8], c: &str) -> (r: Vec<u8>)
    ensures
        r@ == a.spec_bytes() + b@ + c.spec_bytes(),
        !a.spec_bytes().contains(0u8) && !b@.contains(0u8) && !c.spec_bytes().contains(0u8) ==> !r@.contains(0u8),
{
    let mut v: Vec<u8> = Vec::new();
    push_str(&mut v, a);
    push_bytes(&mut v, b);
    push_str(&mut v, c);
    let ghost l1 = a.spec_bytes();
    let ghost l2 = c.spec_bytes();
    assert(v@ =~= l1 + b@ + l2);
    proof {
        if !l1.contains(0u8) && !b@.contains(0u8) && !l2.contains(0u8) {
            assert forall|i: int| 0 <= i < v@.len() implies #[trigger] v@[i] != 0u8 by {
                if i < l1.len() {
                    assert(v@[i] == l1[i]);
                } else if i < l1.len() + b@.len() {
                    assert(v@[i] == b@[i - l1.len()]);
                } else {
                    assert(v@[i] == l2[i - l1.len() - b@.len()]);
                }
            }
        }
    }
    v
}

/// Matches statement `node` against `rules` from `*start` on, as
/// `spec_match_from` says: on success, the rule it matched.
fn match_rule<F: Fn(&[u8], &[u8]) -> bool>(
    t: &GrammarTables,
    atoms: &AtomTable,
    m: &F,
    filename: &Option<Vec<u8>>,
    ectx: &mut YangErrorCtx,
    node: &YangStatement,
    rules: &mut Vec<YangStatementRule>,
    start: &mut usize,
    canonical: bool,
) -> (r: (bool, usize))
    requires
        matcher_ok(*m),
        old(ectx).msg_cap >= 1,
        *old(start) <= old(rules)@.len(),
    ensures
        ({
            let mr = spec_match_from(
                env_of(t, atoms.view(), opt_view(*filename), old(ectx).msg_cap),
                *m,
                node.view(),
                old(rules)@,
                *old(start) as int,
                *old(start) as int,
                canonical,
                old(ectx).errors(),
            );
            &&& r.0 == mr.ok
            &&& (r.0 ==> r.1 as int == mr.found)
            &&& final(rules)@ == mr.rules
            &&& *final(start) as int == mr.start
            &&& final(ectx).errors() == mr.errs
        }),
        final(ectx).msg_cap == old(ectx).msg_cap,
        final(rules)@.len() == old(rules)@.len(),
        *final(start) <= final(rules)@.len(),
        r.0 ==> r.1 < final(rules)@.len(),
{
    let ghost env = env_of(t, atoms.view(), opt_view(*filename), ectx.msg_cap);
    let ghost goal = spec_match_from(env, *m, node.view(), rules@, *start as int, *start as int, canonical, ectx.errors());
    let mut canon = canonical;
    let mut i: usize = *start;
    while i < rules.len()
        invariant
            env == env_of(t, atoms.view(), opt_view(*filename), ectx.msg_cap),
            matcher_ok(*m),
            ectx.msg_cap >= 1,
            ectx.msg_cap == old(ectx).msg_cap,
            *start <= i <= rules@.len(),
            rules@.len() == old(rules)@.len(),
            spec_match_from(env, *m, node.view(), rules@, *start as int, i as int, canon, ectx.errors()) == goal,
            goal == spec_match_from(env, *m, node.view(), old(rules)@, *old(start) as int, *old(start) as int, canonical, old(ectx).errors()),
        decreases rules@.len() - i,
    {
        let r = rules[i];
        if rule_matches(t, m, node, &r) {
            if r.min_yang_version > node.yang_version {
                let mut msg = kw_text(atoms, node.prefix, node.keyword);
                push_str(&mut msg, " not valid in YANG version ");
                push_str(&mut msg, vsn_str(node.yang_version));
                report_msg(ectx, YANG_ERR_GRAMMAR_UNEXPECTED_KEYWORD, filename, node.line, -1, msg.as_slice());
            }
            if r.occurance == OCC_ONE || r.occurance == OCC_OPTIONAL {
                rules.set(i, YangStatementRule { occurance: OCC_DONE, ..r });
                return (true, i);
            } else if r.occurance == OCC_ANY {
                return (true, i);
            } else if r.occurance == OCC_MANY {
                rules.set(i, YangStatementRule { occurance: OCC_ANY, ..r });
                return (true, i);
            } else if r.occurance == OCC_DONE {
                let kw = kw_text(atoms, node.prefix, node.keyword);
                let msg = msg3("keyword '", kw.as_slice(), "' already given");
                report_msg(ectx, YANG_ERR_GRAMMAR_KEYWORD_ALREADY_FOUND, filename, node.line, -1, msg.as_slice());
                return (false, 0);
            } else if r.occurance == OCC_PASSED {
                let kw = kw_text(atoms, node.prefix, node.keyword);
                let msg = msg3("unexpected keyword '", kw.as_slice(), "'");
                report_msg(ectx, YANG_ERR_GRAMMAR_UNEXPECTED_KEYWORD, filename, node.line, -1, msg.as_slice());
                return (false, 0);
            }
        } else if node.prefix.is_some() {
            canon = false;
        } else if Some(r.keyword) == t.am.sp_cut {
            let mut j: usize = *start;
            while j < i
                invariant
                    env == env_of(t, atoms.view(), opt_view(*filename), ectx.msg_cap),
                    matcher_ok(*m),
                    ectx.msg_cap >= 1,
                    ectx.msg_cap == old(ectx).msg_cap,
                    rules@.len() == old(rules)@.len(),
                    spec_match_from(env, *m, node.view(), rules@, *start as int, i as int, canon, ectx.errors()) == goal,
                    goal == spec_match_from(env, *m, node.view(), old(rules)@, *old(start) as int, *old(start) as int, canonical, old(ectx).errors()),
                    r == rules@[i as int],
                    !spec_rule_match(t.gv(), t.tv(), *m, node.view(), r),
                    node.prefix is None,
                    Some(r.keyword) == t.am.sp_cut,
                    *start <= j <= i,
                    i < rules@.len(),
                    first_required(rules@, *start as int, i as int) == first_required(rules@, j as int, i as int),
                decreases i - j,
            {
                let rj = rules[j];
                if rj.occurance == OCC_ONE || rj.occurance == OCC_MANY {
                    rules.set(j, YangStatementRule { occurance: OCC_DONE, ..rj });
                    let rk = kw_text(atoms, rj.module_name, rj.keyword);
                    let msg = msg3("expected keyword '", rk.as_slice(), "'");
                    report_msg(ectx, YANG_ERR_GRAMMAR_EXPECTED_KEYWORD, filename, node.line, -1, msg.as_slice());
                    return (false, 0);
                }
                j = j + 1;
            }
            *start = i + 1;
        } else if canon {
            if r.occurance == OCC_ONE || r.occurance == OCC_MANY {
                rules.set(i, YangStatementRule { occurance: OCC_DONE, ..r });
                let rk = kw_text(atoms, r.module_name, r.keyword);
                let sk = kw_text(atoms, node.prefix, node.keyword);
                let mut msg = msg3("expected keyword '", rk.as_slice(), "' before '");
                push_bytes(&mut msg, sk.as_slice());
                push_str(&mut msg, "'");
                report_msg(ectx, YANG_ERR_GRAMMAR_EXPECTED_KEYWORD, filename, node.line, -1, msg.as_slice());
                return (false, 0);
            } else {
                rules.set(i, YangStatementRule { occurance: OCC_PASSED, ..r });
            }
        }
        i = i + 1;
    }
    let kw = kw_text(atoms, node.prefix, node.keyword);
    let msg = msg3("unexpected keyword '", kw.as_slice(), "'");
    report_msg(ectx, YANG_ERR_GRAMMAR_UNEXPECTED_KEYWORD, filename, node.line, -1, msg.as_slice());
    (false, 0)
}


/// The state a check changes: the statements (their argument types), the
/// errors, and whether all was well so far.
pub struct ChkState {
    pub nodes: Seq<StmtNode>,
    pub errs: Seq<ErrorRecord>,
    pub res: bool,
}

/// What a validator's message leaves in an error buffer of `cap` bytes,
/// up to its first NUL: nothing when there is no message or it holds a NUL,
/// else its first `cap - 1` bytes.
pub open spec fn err_text(msg: Option<Seq<u8>>, cap: usize) -> Seq<u8> {
    match msg {
        Some(mm) => if mm.contains(0u8) {
            Seq::empty()
        } else {
            spec_stored_msg(mm, cap)
        },
        None => Seq::empty(),
    }
}

pub open spec fn msg_bad_arg(a: Seq<u8>, tn: Seq<u8>) -> Seq<u8> {
    "bad argument value \"".spec_bytes() + a + "\", should be of type ".spec_bytes() + tn
}

pub open spec fn msg_missing(rk: Seq<u8>) -> Seq<u8> {
    "missing argument to '".spec_bytes() + rk + "'".spec_bytes()
}

pub open spec fn msg_unexpected_arg(rk: Seq<u8>, a: Seq<u8>) -> Seq<u8> {
    "did not expect an argument to '".spec_bytes() + rk + "', got \"".spec_bytes() + a + "\"".spec_bytes()
}

pub open spec fn msg_expected_sub(rk: Seq<u8>, pk: Seq<u8>) -> Seq<u8> {
    "expected keyword '".spec_bytes() + rk + "' as substatement to '".spec_bytes() + pk + "'".spec_bytes()
}

/// Checking the argument of statement `i`, matched by rule `r` whose
/// specification is `sub`: the statement gets the argument type, and the
/// argument must pass its validator, be there when a type is given and be
/// absent when none is.
pub open spec fn spec_arg_check<F: Fn(&[u8], &[u8]) -> bool>(
    env: Env,
    m: F,
    st: ChkState,
    i: int,
    sub: SpecV,
    r: YangStatementRule,
) -> ChkState {
    let s = st.nodes[i];
    let rk = rule_kw(env.atoms, r);
    if sub.arg_type_idx != -1 && s.arg is Some {
        let at_idx = if 0 <= sub.arg_type_idx < env.ts.len() {
            Some(sub.arg_type_idx as int)
        } else {
            None
        };
        let st1 = ChkState { nodes: st.nodes.update(i, StmtNode { arg_type: at_idx, ..s }), ..st };
        match at_idx {
            Some(k) => {
                let at = env.ts[k];
                if at.flags & F_ARG_TYPE_SYNTAX_CB != 0 {
                    match at.syntax {
                        SyntaxV::Callback(v, p) => {
                            let vr = spec_validate(m, v, p, s.arg, s.yang_version);
                            if vr.0 {
                                st1
                            } else {
                                let et = err_text(vr.1, env.cap);
                                let text = if et.len() == 0 {
                                    msg_bad_arg(lossy_text(s.arg->0), atom_text(env.atoms, at.name as int))
                                } else {
                                    lossy_text(et)
                                };
                                ChkState {
                                    errs: stmt_report(env, st1.errs, s, YANG_ERR_GRAMMAR_BAD_ARGUMENT, text),
                                    res: false,
                                    ..st1
                                }
                            }
                        },
                        _ => st1,
                    }
                } else {
                    st1
                }
            },
            None => st1,
        }
    } else if sub.arg_type_idx != -1 {
        ChkState { errs: stmt_report(env, st.errs, s, YANG_ERR_GRAMMAR_MISSING_ARGUMENT, msg_missing(rk)), res: false, ..st }
    } else if s.arg is Some {
        ChkState {
            errs: stmt_report(
                env,
                st.errs,
                s,
                YANG_ERR_GRAMMAR_UNEXPECTED_ARGUMENT,
                msg_unexpected_arg(rk, lossy_text(s.arg->0)),
            ),
            res: false,
            ..st
        }
    } else {
        st
    }
}

/// The end of a block: each rule from `k` on that must still occur is
/// reported at the parent, and the check fails.
pub open spec fn spec_block_end(env: Env, st: ChkState, parent: Option<int>, rules: Seq<YangStatementRule>, k: int) -> ChkState
    decreases rules.len() - k,
{
    if k < 0 || k >= rules.len() {
        st
    } else {
        let st1 = if required(rules[k]) {
            ChkState {
                errs: match parent {
                    Some(p) => if 0 <= p < st.nodes.len() {
                        stmt_report(
                            env,
                            st.errs,
                            st.nodes[p],
                            YANG_ERR_GRAMMAR_EXPECTED_KEYWORD,
                            msg_expected_sub(rule_kw(env.atoms, rules[k]), stmt_kw(env.atoms, st.nodes[p])),
                        )
                    } else {
                        st.errs
                    },
                    None => st.errs,
                },
                res: false,
                ..st
            }
        } else {
            st
        };
        spec_block_end(env, st1, parent, rules, k + 1)
    }
}

/// A link to a statement after `i` and before `n`, or none.
pub open spec fn link_after(l: Option<int>, i: int, n: int) -> Option<int> {
    match l {
        Some(j) => if i < j < n {
            Some(j)
        } else {
            None
        },
        None => None,
    }
}

/// An atom given as an integer, as an atom.
pub open spec fn as_atom(o: Option<int>) -> Option<Atom> {
    match o {
        Some(a) => Some(a as Atom),
        None => None,
    }
}

/// The measure of a chain that starts at `cur`.
pub open spec fn chain_measure(cur: Option<int>, n: int) -> int {
    match cur {
        Some(i) => if 0 <= i < n {
            n - i
        } else {
            0
        },
        None => 0,
    }
}

/// Checking the statements of a block, from `cur` along their `next` links,
/// against `rules`, with `start` the first rule of the current group; then
/// the end of the block.  `n` bounds the statements.
pub open spec fn spec_chk_chain<F: Fn(&[u8], &[u8]) -> bool>(
    env: Env,
    m: F,
    n: int,
    st: ChkState,
    cur: Option<int>,
    parent: Option<int>,
    rules: Seq<YangStatementRule>,
    start: int,
    canonical: bool,
) -> ChkState
    decreases chain_measure(cur, n),
{
    if cur is Some && 0 <= cur->0 < n && cur->0 < st.nodes.len() {
        let i = cur->0;
        let s = st.nodes[i];
        let nxt = link_after(s.next, i, n);
        let g = if s.module_name is None && s.prefix is Some {
            None
        } else {
            spec_get_grammar(env.gs, as_atom(s.module_name))
        };
        if g is None {
            spec_chk_chain(env, m, n, st, nxt, parent, rules, start, canonical)
        } else {
            let mr = spec_match_from(env, m, s, rules, start, start, canonical, st.errs);
            if !mr.ok {
                spec_chk_chain(env, m, n, ChkState { errs: mr.errs, res: false, ..st }, nxt, parent, mr.rules, mr.start, canonical)
            } else {
                let r = mr.rules[mr.found];
                let st1 = ChkState { errs: mr.errs, ..st };
                match spec_of(env.gs, r.spec) {
                    None => spec_chk_chain(env, m, n, st1, nxt, parent, mr.rules, mr.start, canonical),
                    Some(sub) => {
                        let st2 = spec_arg_check(env, m, st1, i, sub, r);
                        let st3 = spec_chk_chain(env, m, n, st2, link_after(s.substmt, i, n), Some(i), sub.rules, 0, canonical);
                        spec_chk_chain(env, m, n, st3, nxt, parent, mr.rules, mr.start, canonical)
                    },
                }
            }
        }
    } else {
        spec_block_end(env, st, parent, rules, 0)
    }
}

/// The statements keep their links.
pub open spec fn same_links(a: Seq<YangStatement>, b: Seq<YangStatement>) -> bool {
    &&& a.len() == b.len()
    &&& forall|k: int| 0 <= k < a.len() ==> (#[trigger] b[k]).next == a[k].next && b[k].substmt == a[k].substmt
}

proof fn lemma_same_links(a: Seq<YangStatement>, b: Seq<YangStatement>)
    requires
        same_links(a, b),
        forward_links(nodes_view(a)),
    ensures
        forward_links(nodes_view(b)),
{
    assert forall|i: int| 0 <= i < nodes_view(b).len() implies (#[trigger] nodes_view(b)[i].next matches Some(j) ==> i < j < nodes_view(b).len()) && (
    nodes_view(b)[i].substmt matches Some(j) ==> i < j < nodes_view(b).len()) by {
        assert(nodes_view(b)[i] == b[i].view());
        assert(nodes_view(a)[i] == a[i].view());
        assert(b[i].next == a[i].next);
        assert(b[i].substmt == a[i].substmt);
        assert(nodes_view(a)[i].next matches Some(j) ==> i < j < nodes_view(a).len());
    }
}

/// What a validator's message leaves in an error buffer of `cap` bytes.
fn err_text_exec(msg: &Option<Vec<u8>>, cap: usize) -> (r: Vec<u8>)
    requires
        cap >= 1,
    ensures
        r@ == err_text(opt_view(*msg), cap),
{
    match msg {
        Some(mm) => {
            if contains_nul(mm.as_slice()) {
                return Vec::new();
            }
            let n = if mm.len() < cap {
                mm.len()
            } else {
                cap - 1
            };
            let mut v: Vec<u8> = Vec::new();
            let mut k: usize = 0;
            while k < n
                invariant
                    n <= mm@.len(),
                    k <= n,
                    v@ == mm@.subrange(0, k as int),
                decreases n - k,
            {
                v.push(mm[k]);
                k = k + 1;
                assert(v@ =~= mm@.subrange(0, k as int));
            }
            assert(mm@.subrange(0, mm@.len() as int) =~= mm@);
            v
        },
        None => Vec::new(),
    }
}

/// The argument of a statement read as UTF-8.
fn arg_lossy(node: &YangStatement) -> (r: Vec<u8>)
    requires
        node.arg is Some,
    ensures
        r@ == lossy_text(node.view().arg->0),
{
    match &node.arg {
        Some(a) => lossy_utf8(a.as_slice()),
        None => Vec::new(),
    }
}

/// Checks the argument of statement `i`, as `spec_arg_check` says.
fn arg_check<F: Fn(&[u8], &[u8]) -> bool>(
    t: &GrammarTables,
    atoms: &AtomTable,
    m: &F,
    filename: &Option<Vec<u8>>,
    ectx: &mut YangErrorCtx,
    nodes: &mut Vec<YangStatement>,
    i: usize,
    sub: &YangStatementSpec,
    r: &YangStatementRule,
    res: &mut bool,
)
    requires
        matcher_ok(*m),
        old(ectx).msg_cap >= 1,
        i < old(nodes)@.len(),
    ensures
        ({
            let st = spec_arg_check(
                env_of(t, atoms.view(), opt_view(*filename), old(ectx).msg_cap),
                *m,
                ChkState { nodes: nodes_view(old(nodes)@), errs: old(ectx).errors(), res: *old(res) },
                i as int,
                sub.view(),
                *r,
            );
            &&& nodes_view(final(nodes)@) == st.nodes
            &&& final(ectx).errors() == st.errs
            &&& *final(res) == st.res
        }),
        final(ectx).msg_cap == old(ectx).msg_cap,
        same_links(old(nodes)@, final(nodes)@),
{
    let ghost nv0 = nodes_view(nodes@);
    assert(nv0[i as int] == nodes@[i as int].view());
    let idx = sub.arg_type_idx;
    let has_arg = nodes[i].arg.is_some();
    if idx != -1 && has_arg {
        let at = yang_get_arg_type(t, idx);
        nodes[i].arg_type = at;
        assert(nodes_view(nodes@) =~= nv0.update(i as int, StmtNode { arg_type: opt_int(at), ..nv0[i as int] }));
        match at {
            Some(k) => {
                let aty = &t.types[k];
                assert(t.tv()[k as int] == aty.view());
                if aty.flags & F_ARG_TYPE_SYNTAX_CB != 0 {
                    match &aty.syntax {
                        ArgSyntax::Callback(v, p) => {
                            let vr = run_validator(m, *v, p, arg_of(&nodes[i]), nodes[i].yang_version);
                            if !vr.0 {
                                *res = false;
                                let et = err_text_exec(&vr.1, ectx.msg_cap);
                                let text = if et.len() == 0 {
                                    let a = arg_lossy(&nodes[i]);
                                    let tn = atom_lossy(atoms, aty.name);
                                    let mut mm = msg3("bad argument value \"", a.as_slice(), "\", should be of type ");
                                    push_bytes(&mut mm, tn.as_slice());
                                    mm
                                } else {
                                    lossy_utf8(et.as_slice())
                                };
                                report_msg(ectx, YANG_ERR_GRAMMAR_BAD_ARGUMENT, filename, nodes[i].line, -1, text.as_slice());
                            }
                        },
                        _ => {},
                    }
                }
            },
            None => {},
        }
    } else if idx != -1 {
        *res = false;
        let rk = kw_text(atoms, r.module_name, r.keyword);
        let msg = msg3("missing argument to '", rk.as_slice(), "'");
        report_msg(ectx, YANG_ERR_GRAMMAR_MISSING_ARGUMENT, filename, nodes[i].line, -1, msg.as_slice());
    } else if has_arg {
        *res = false;
        let rk = kw_text(atoms, r.module_name, r.keyword);
        let a = arg_lossy(&nodes[i]);
        let mut msg = msg3("did not expect an argument to '", rk.as_slice(), "', got \"");
        push_bytes(&mut msg, a.as_slice());
        push_str(&mut msg, "\"");
        report_msg(ectx, YANG_ERR_GRAMMAR_UNEXPECTED_ARGUMENT, filename, nodes[i].line, -1, msg.as_slice());
    }
}


/// A copy of a list of rules.
fn copy_rules(v: &Vec<YangStatementRule>) -> (r: Vec<YangStatementRule>)
    ensures
        r@ == v@,
{
    let mut out: Vec<YangStatementRule> = Vec::new();
    let mut k: usize = 0;
    while k < v.len()
        invariant
            k <= v@.len(),
            out@ == v@.subrange(0, k as int),
        decreases v@.len() - k,
    {
        out.push(v[k]);
        k = k + 1;
        assert(out@ =~= v@.subrange(0, k as int));
    }
    assert(v@.subrange(0, v@.len() as int) =~= v@);
    out
}

/// The end of a block, as `spec_block_end` says.
fn block_end(
    atoms: &AtomTable,
    filename: &Option<Vec<u8>>,
    ectx: &mut YangErrorCtx,
    nodes: &Vec<YangStatement>,
    parent: Option<usize>,
    rules: &Vec<YangStatementRule>,
    res: &mut bool,
    env: Ghost<Env>,
)
    requires
        old(ectx).msg_cap >= 1,
        env@.atoms == atoms.view(),
        env@.filename == opt_view(*filename),
        env@.cap == old(ectx).msg_cap,
        parent matches Some(p) ==> p < nodes@.len(),
    ensures
        ({
            let st = spec_block_end(
                env@,
                ChkState { nodes: nodes_view(nodes@), errs: old(ectx).errors(), res: *old(res) },
                opt_usize(parent),
                rules@,
                0,
            );
            &&& nodes_view(nodes@) == st.nodes
            &&& final(ectx).errors() == st.errs
            &&& *final(res) == st.res
        }),
        final(ectx).msg_cap == old(ectx).msg_cap,
{
    let ghost goal = spec_block_end(
        env@,
        ChkState { nodes: nodes_view(nodes@), errs: ectx.errors(), res: *res },
        opt_usize(parent),
        rules@,
        0,
    );
    let mut k: usize = 0;
    while k < rules.len()
        invariant
            k <= rules@.len(),
            ectx.msg_cap >= 1,
            ectx.msg_cap == old(ectx).msg_cap,
            env@.atoms == atoms.view(),
            env@.filename == opt_view(*filename),
            env@.cap == ectx.msg_cap,
            parent matches Some(p) ==> p < nodes@.len(),
            spec_block_end(
                env@,
                ChkState { nodes: nodes_view(nodes@), errs: ectx.errors(), res: *res },
                opt_usize(parent),
                rules@,
                k as int,
            ) == goal,
        decreases rules@.len() - k,
    {
        let r = rules[k];
        if r.occurance == OCC_ONE || r.occurance == OCC_MANY {
            *res = false;
            match parent {
                Some(p) => {
                    assert(nodes_view(nodes@)[p as int] == nodes@[p as int].view());
                    let rk = kw_text(atoms, r.module_name, r.keyword);
                    let pk = kw_text(atoms, nodes[p].prefix, nodes[p].keyword);
                    let mut msg = msg3("expected keyword '", rk.as_slice(), "' as substatement to '");
                    push_bytes(&mut msg, pk.as_slice());
                    push_str(&mut msg, "'");
                    report_msg(ectx, YANG_ERR_GRAMMAR_EXPECTED_KEYWORD, filename, nodes[p].line, -1, msg.as_slice());
                },
                None => {},
            }
        }
        k = k + 1;
    }
}

/// Checks the statements from `stmt` along their `next` links against
/// `rules`, and their substatements against the rules of the
/// specifications they match, as `spec_chk_chain` says.
fn chk_statements<F: Fn(&[u8], &[u8]) -> bool>(
    t: &GrammarTables,
    atoms: &AtomTable,
    m: &F,
    filename: &Option<Vec<u8>>,
    ectx: &mut YangErrorCtx,
    nodes: &mut Vec<YangStatement>,
    stmt: Option<usize>,
    parent: Option<usize>,
    rules: Vec<YangStatementRule>,
    canonical: bool,
    res: &mut bool,
)
    requires
        matcher_ok(*m),
        old(ectx).msg_cap >= 1,
        forward_links(nodes_view(old(nodes)@)),
        stmt matches Some(i) ==> i < old(nodes)@.len(),
        parent matches Some(p) ==> p < old(nodes)@.len(),
    ensures
        ({
            let st = spec_chk_chain(
                env_of(t, atoms.view(), opt_view(*filename), old(ectx).msg_cap),
                *m,
                old(nodes)@.len() as int,
                ChkState { nodes: nodes_view(old(nodes)@), errs: old(ectx).errors(), res: *old(res) },
                opt_usize(stmt),
                opt_usize(parent),
                rules@,
                0,
                canonical,
            );
            &&& nodes_view(final(nodes)@) == st.nodes
            &&& final(ectx).errors() == st.errs
            &&& *final(res) == st.res
        }),
        final(ectx).msg_cap == old(ectx).msg_cap,
        same_links(old(nodes)@, final(nodes)@),
    decreases chain_measure(opt_usize(stmt), old(nodes)@.len() as int),
{
    let ghost n = nodes@.len() as int;
    let ghost env = env_of(t, atoms.view(), opt_view(*filename), ectx.msg_cap);
    let ghost nodes0 = nodes@;
    let ghost goal = spec_chk_chain(
        env,
        *m,
        n,
        ChkState { nodes: nodes_view(nodes@), errs: ectx.errors(), res: *res },
        opt_usize(stmt),
        opt_usize(parent),
        rules@,
        0,
        canonical,
    );
    let mut rules = rules;
    let mut start: usize = 0;
    let mut cur = stmt;
    while cur.is_some()
        invariant
            env == env_of(t, atoms.view(), opt_view(*filename), ectx.msg_cap),
            matcher_ok(*m),
            ectx.msg_cap >= 1,
            ectx.msg_cap == old(ectx).msg_cap,
            n == nodes@.len(),
            nodes0 == old(nodes)@,
            same_links(nodes0, nodes@),
            forward_links(nodes_view(nodes0)),
            forward_links(nodes_view(nodes@)),
            parent matches Some(p) ==> p < n,
            start <= rules@.len(),
            cur matches Some(c) ==> c < n,
            chain_measure(opt_usize(cur), n) <= chain_measure(opt_usize(stmt), n),
            spec_chk_chain(
                env,
                *m,
                n,
                ChkState { nodes: nodes_view(nodes@), errs: ectx.errors(), res: *res },
                opt_usize(cur),
                opt_usize(parent),
                rules@,
                start as int,
                canonical,
            ) == goal,
        decreases chain_measure(opt_usize(cur), n),
    {
        let i = match cur {
            Some(i) => i,
            None => 0,
        };
        let ghost st = ChkState { nodes: nodes_view(nodes@), errs: ectx.errors(), res: *res };
        proof {
            assert(st.nodes[i as int] == nodes@[i as int].view());
            assert(st.nodes[i as int].next matches Some(j) ==> i < j < n);
        }
        let node_mn = nodes[i].module_name;
        let node_prefix = nodes[i].prefix;
        let nxt = nodes[i].next;
        let subl = nodes[i].substmt;
        assert(as_atom(opt_int(node_mn)) == node_mn);
        let g = if node_mn.is_none() && node_prefix.is_some() {
            None
        } else {
            get_grammar(t, node_mn)
        };
        if g.is_some() {
            let mr = match_rule(t, atoms, m, filename, ectx, &nodes[i], &mut rules, &mut start, canonical);
            if !mr.0 {
                *res = false;
            } else {
                let r = rules[mr.1];
                match spec_ref(t, r.spec) {
                    None => {},
                    Some(sub) => {
                        arg_check(t, atoms, m, filename, ectx, nodes, i, sub, &r, res);
                        proof {
                            lemma_same_links(nodes0, nodes@);
                        }
                        let subrules = copy_rules(&sub.rules);
                        chk_statements(t, atoms, m, filename, ectx, nodes, subl, Some(i), subrules, canonical, res);
                        proof {
                            lemma_same_links(nodes0, nodes@);
                        }
                    },
                }
            }
        }
        cur = nxt;
    }
    block_end(atoms, filename, ectx, nodes, parent, &rules, res, Ghost(env));
}


/// A declared prefix: its atom, the module it stands for, and the line of
/// its declaration.
#[derive(Clone, Copy)]
pub struct PrefixEntry {
    pub prefix: Atom,
    pub module_name: Option<Atom>,
    pub line: i32,
}

/// The first declared prefix from `k` on whose atom is `p`.
pub open spec fn find_prefix(pm: Seq<PrefixEntry>, p: int, k: int) -> Option<int>
    decreases pm.len() - k,
{
    if k < 0 || k >= pm.len() {
        None
    } else if pm[k].prefix as int == p {
        Some(k)
    } else {
        find_prefix(pm, p, k + 1)
    }
}

pub open spec fn msg_undefined_prefix(p: Seq<u8>) -> Seq<u8> {
    "undefined prefix ".spec_bytes() + p
}

/// The statements and the errors, as giving statements their modules changes them.
pub struct ModState {
    pub nodes: Seq<StmtNode>,
    pub errs: Seq<ErrorRecord>,
}

/// Gives the statements from `cur` on, along `next` and into substatements,
/// the YANG version `vsn` and, to each prefixed one, the module its prefix
/// stands for in `pm`; a prefix not there is reported.
pub open spec fn spec_set_mod(env: Env, pm: Seq<PrefixEntry>, vsn: i8, n: int, st: ModState, cur: Option<int>) -> ModState
    decreases chain_measure(cur, n),
{
    if cur is Some && 0 <= cur->0 < n && cur->0 < st.nodes.len() {
        let i = cur->0;
        let s = st.nodes[i];
        let st1 = match s.prefix {
            Some(p) => match find_prefix(pm, p, 0) {
                Some(k) => ModState {
                    nodes: st.nodes.update(i, StmtNode { yang_version: vsn, module_name: opt_int(pm[k].module_name), ..s }),
                    errs: st.errs,
                },
                None => ModState {
                    nodes: st.nodes.update(i, StmtNode { yang_version: vsn, ..s }),
                    errs: stmt_report(
                        env,
                        st.errs,
                        s,
                        YANG_ERR_GRAMMAR_UNDEFINED_PREFIX,
                        msg_undefined_prefix(atom_text(env.atoms, p)),
                    ),
                },
            },
            None => ModState { nodes: st.nodes.update(i, StmtNode { yang_version: vsn, ..s }), errs: st.errs },
        };
        let st2 = spec_set_mod(env, pm, vsn, n, st1, link_after(s.substmt, i, n));
        spec_set_mod(env, pm, vsn, n, st2, link_after(s.next, i, n))
    } else {
        st
    }
}

fn find_prefix_exec(pm: &Vec<PrefixEntry>, p: Atom) -> (r: Option<usize>)
    ensures
        opt_usize(r) == find_prefix(pm@, p as int, 0),
        r matches Some(k) ==> k < pm@.len(),
{
    let mut k: usize = 0;
    while k < pm.len()
        invariant
            k <= pm@.len(),
            find_prefix(pm@, p as int, k as int) == find_prefix(pm@, p as int, 0),
        decreases pm@.len() - k,
    {
        if pm[k].prefix == p {
            return Some(k);
        }
        k = k + 1;
    }
    None
}

/// The statements that keep their links and whose count is `n`.
pub open spec fn links_kept(nodes0: Seq<YangStatement>, nodes: Seq<YangStatement>) -> bool {
    same_links(nodes0, nodes) && forward_links(nodes_view(nodes0))
}

/// Gives statements their version and modules, as `spec_set_mod` says.
fn set_module_name_from_prefix(
    atoms: &AtomTable,
    filename: &Option<Vec<u8>>,
    ectx: &mut YangErrorCtx,
    nodes: &mut Vec<YangStatement>,
    stmt: Option<usize>,
    pm: &Vec<PrefixEntry>,
    vsn: i8,
    env: Ghost<Env>,
)
    requires
        old(ectx).msg_cap >= 1,
        env@.atoms == atoms.view(),
        env@.filename == opt_view(*filename),
        env@.cap == old(ectx).msg_cap,
        forward_links(nodes_view(old(nodes)@)),
        stmt matches Some(i) ==> i < old(nodes)@.len(),
    ensures
        ({
            let st = spec_set_mod(
                env@,
                pm@,
                vsn,
                old(nodes)@.len() as int,
                ModState { nodes: nodes_view(old(nodes)@), errs: old(ectx).errors() },
                opt_usize(stmt),
            );
            &&& nodes_view(final(nodes)@) == st.nodes
            &&& final(ectx).errors() == st.errs
        }),
        final(ectx).msg_cap == old(ectx).msg_cap,
        same_links(old(nodes)@, final(nodes)@),
    decreases chain_measure(opt_usize(stmt), old(nodes)@.len() as int),
{
    let ghost n = nodes@.len() as int;
    let ghost nodes0 = nodes@;
    let ghost goal = spec_set_mod(env@, pm@, vsn, n, ModState { nodes: nodes_view(nodes@), errs: ectx.errors() }, opt_usize(stmt));
    let mut cur = stmt;
    while cur.is_some()
        invariant
            ectx.msg_cap >= 1,
            ectx.msg_cap == old(ectx).msg_cap,
            env@.atoms == atoms.view(),
            env@.filename == opt_view(*filename),
            env@.cap == ectx.msg_cap,
            n == nodes@.len(),
            nodes0 == old(nodes)@,
            links_kept(nodes0, nodes@),
            forward_links(nodes_view(nodes@)),
            cur matches Some(c) ==> c < n,
            chain_measure(opt_usize(cur), n) <= chain_measure(opt_usize(stmt), n),
            spec_set_mod(env@, pm@, vsn, n, ModState { nodes: nodes_view(nodes@), errs: ectx.errors() }, opt_usize(cur)) == goal,
        decreases chain_measure(opt_usize(cur), n),
    {
        let i = match cur {
            Some(i) => i,
            None => 0,
        };
        let ghost nv = nodes_view(nodes@);
        proof {
            assert(nv[i as int] == nodes@[i as int].view());
            assert(nv[i as int].next matches Some(j) ==> i < j < n);
        }
        let nxt = nodes[i].next;
        let subl = nodes[i].substmt;
        nodes[i].yang_version = vsn;
        match nodes[i].prefix {
            Some(p) => {
                match find_prefix_exec(pm, p) {
                    Some(k) => {
                        nodes[i].module_name = pm[k].module_name;
                    },
                    None => {
                        let pt = atom_lossy(atoms, p);
                        let mut msg: Vec<u8> = Vec::new();
                        push_str(&mut msg, "undefined prefix ");
                        push_bytes(&mut msg, pt.as_slice());
                        assert(msg@ =~= msg_undefined_prefix(atom_text(env@.atoms, p as int)));
                        report_msg(ectx, YANG_ERR_GRAMMAR_UNDEFINED_PREFIX, filename, nodes[i].line, -1, msg.as_slice());
                    },
                }
            },
            None => {},
        }
        proof {
            let s = nv[i as int];
            let s1 = match s.prefix {
                Some(p) => match find_prefix(pm@, p, 0) {
                    Some(k) => StmtNode { yang_version: vsn, module_name: opt_int(pm@[k].module_name), ..s },
                    None => StmtNode { yang_version: vsn, ..s },
                },
                None => StmtNode { yang_version: vsn, ..s },
            };
            assert(nodes_view(nodes@) =~= nv.update(i as int, s1));
            lemma_same_links(nodes0, nodes@);
        }
        set_module_name_from_prefix(atoms, filename, ectx, nodes, subl, pm, vsn, env);
        proof {
            lemma_same_links(nodes0, nodes@);
        }
        cur = nxt;
    }
}


/// The atoms, the declared prefixes and the errors while prefixes are collected.
pub struct RState {
    pub atoms: Seq<Seq<u8>>,
    pub pm: Seq<PrefixEntry>,
    pub errs: Seq<ErrorRecord>,
}

/// A file name as messages show it.
pub open spec fn fname_text(f: Option<Seq<u8>>) -> Seq<u8> {
    match f {
        Some(x) => lossy_text(x),
        None => Seq::empty(),
    }
}

pub open spec fn msg_dup_prefix(p: Seq<u8>, f: Seq<u8>, line: int) -> Seq<u8> {
    "prefix '".spec_bytes() + p + "' already defined at ".spec_bytes() + f + ":".spec_bytes() + spec_decimal(line)
}

/// Declaring the prefix that statement `s` gives as its argument, for module
/// `mn`: a prefix declared before is reported instead.
pub open spec fn spec_add_prefix(env: Env, rs: RState, s: StmtNode, mn: Option<Atom>) -> RState {
    match s.arg {
        None => rs,
        Some(a) => {
            let atoms1 = spec_intern(rs.atoms, a).0;
            let p = spec_intern(rs.atoms, a).1;
            match find_prefix(rs.pm, p, 0) {
                Some(k) => RState {
                    atoms: atoms1,
                    pm: rs.pm,
                    errs: stmt_report(
                        env,
                        rs.errs,
                        s,
                        YANG_ERR_GRAMMAR_DUPLICATE_PREFIX,
                        msg_dup_prefix(atom_text(atoms1, p), fname_text(env.filename), rs.pm[k].line as int),
                    ),
                },
                None => RState {
                    atoms: atoms1,
                    pm: rs.pm.push(PrefixEntry { prefix: p as Atom, module_name: mn, line: s.line as i32 }),
                    errs: rs.errs,
                },
            }
        },
    }
}

/// The first statement from `cur` on, along `next`, that is an unprefixed `prefix`.
pub open spec fn find_sub_prefix(am: KnownAtoms, nodes: Seq<StmtNode>, n: int, cur: Option<int>) -> Option<int>
    decreases chain_measure(cur, n),
{
    if cur is Some && 0 <= cur->0 < n && cur->0 < nodes.len() {
        let i = cur->0;
        let s = nodes[i];
        if s.prefix is None && Some(s.keyword as Atom) == am.prefix {
            Some(i)
        } else {
            find_sub_prefix(am, nodes, n, link_after(s.next, i, n))
        }
    } else {
        None
    }
}

/// Collecting the prefixes that the substatements of the top statement
/// declare, from `cur` on, while fewer than `np` are declared: the module's
/// own prefix (for the module named by `root_arg`), and the prefix of each
/// `belongs-to` or `import` (for the module it names).
pub open spec fn spec_collect(
    env: Env,
    n: int,
    nodes: Seq<StmtNode>,
    root_arg: Option<Seq<u8>>,
    np: int,
    rs: RState,
    cur: Option<int>,
) -> RState
    decreases chain_measure(cur, n),
{
    if cur is Some && 0 <= cur->0 < n && cur->0 < nodes.len() && rs.pm.len() < np {
        let i = cur->0;
        let s = nodes[i];
        let kw = Some(s.keyword as Atom);
        let rs1 = if s.prefix is Some {
            rs
        } else if kw == env.am.prefix && root_arg is Some {
            let r0 = spec_intern(rs.atoms, root_arg->0);
            spec_add_prefix(env, RState { atoms: r0.0, ..rs }, s, Some(r0.1 as Atom))
        } else if (kw == env.am.belongs_to || kw == env.am.import) && s.arg is Some {
            match find_sub_prefix(env.am, nodes, n, link_after(s.substmt, i, n)) {
                Some(j) => {
                    let r0 = spec_intern(rs.atoms, s.arg->0);
                    spec_add_prefix(env, RState { atoms: r0.0, ..rs }, nodes[j], Some(r0.1 as Atom))
                },
                None => rs,
            }
        } else {
            rs
        };
        spec_collect(env, n, nodes, root_arg, np, rs1, link_after(s.next, i, n))
    } else {
        rs
    }
}

/// The text `1.1`.
pub open spec fn text_1_1() -> Seq<u8> {
    seq![49u8, 46u8, 49u8]
}

/// The YANG version that the header statements from `cur` on give: the
/// `yang-version` statement's, if one comes before the first statement that
/// may not stand in the header of a module (`root_kw` being `module`) or of a
/// submodule.
pub open spec fn spec_find_vsn(am: KnownAtoms, nodes: Seq<StmtNode>, n: int, root_kw: int, cur: Option<int>) -> i8
    decreases chain_measure(cur, n),
{
    if cur is Some && 0 <= cur->0 < n && cur->0 < nodes.len() {
        let i = cur->0;
        let s = nodes[i];
        let kw = Some(s.keyword as Atom);
        let rk = Some(root_kw as Atom);
        if kw == am.yang_version {
            if s.arg == Some(text_1_1()) {
                YANG_VERSION_1_1
            } else {
                YANG_VERSION_1
            }
        } else if s.prefix is None && ((rk == am.module && kw != am.namespace && kw != am.prefix) || (rk
            == am.submodule && kw != am.belongs_to)) {
            YANG_VERSION_1
        } else {
            spec_find_vsn(am, nodes, n, root_kw, link_after(s.next, i, n))
        }
    } else {
        YANG_VERSION_1
    }
}

/// The number of `import` statements among the header statements from `cur` on.
pub open spec fn count_imports(am: KnownAtoms, nodes: Seq<StmtNode>, n: int, cur: Option<int>) -> int
    decreases chain_measure(cur, n),
{
    if cur is Some && 0 <= cur->0 < n && cur->0 < nodes.len() {
        let i = cur->0;
        let s = nodes[i];
        let kw = Some(s.keyword as Atom);
        if s.prefix is None && kw == am.import {
            1 + count_imports(am, nodes, n, link_after(s.next, i, n))
        } else if s.prefix is None && kw != am.yang_version && kw != am.namespace && kw != am.prefix && kw
            != am.belongs_to && kw != am.incl {
            0
        } else {
            count_imports(am, nodes, n, link_after(s.next, i, n))
        }
    } else {
        0
    }
}

/// The outcome of resolving prefixes: the statements, the atoms and the errors.
pub struct ResolveResult {
    pub nodes: Seq<StmtNode>,
    pub atoms: Seq<Seq<u8>>,
    pub errs: Seq<ErrorRecord>,
}

/// Resolving the prefixes of the module whose top statement is the first
/// statement, with room for `np` prefixes: collect them, find the YANG
/// version, and give every statement the version and its module.
pub open spec fn spec_resolve(env: Env, np: int, nodes: Seq<StmtNode>, errs: Seq<ErrorRecord>) -> ResolveResult {
    let n = nodes.len() as int;
    if n == 0 || np <= 0 {
        ResolveResult { nodes, atoms: env.atoms, errs }
    } else {
        let root = nodes[0];
        let first = link_after(root.substmt, 0, n);
        let rs = spec_collect(env, n, nodes, root.arg, np, RState { atoms: env.atoms, pm: Seq::empty(), errs }, first);
        let vsn = spec_find_vsn(env.am, nodes, n, root.keyword, first);
        let nodes1 = nodes.update(0, StmtNode { yang_version: vsn, ..root });
        let ms = spec_set_mod(Env { atoms: rs.atoms, ..env }, rs.pm, vsn, n, ModState { nodes: nodes1, errs: rs.errs }, Some(0));
        ResolveResult { nodes: ms.nodes, atoms: rs.atoms, errs: ms.errs }
    }
}

/// Declares a prefix, as `spec_add_prefix` says.
fn add_prefix(
    atoms: &mut AtomTable,
    filename: &Option<Vec<u8>>,
    ectx: &mut YangErrorCtx,
    pm: &mut Vec<PrefixEntry>,
    node: &YangStatement,
    mn: Option<Atom>,
    env: Ghost<Env>,
)
    requires
        old(ectx).msg_cap >= 1,
        old(atoms).view().len() < usize::MAX,
        env@.filename == opt_view(*filename),
        env@.cap == old(ectx).msg_cap,
    ensures
        spec_add_prefix(env@, RState { atoms: old(atoms).view(), pm: old(pm)@, errs: old(ectx).errors() }, node.view(), mn)
            == (RState { atoms: final(atoms).view(), pm: final(pm)@, errs: final(ectx).errors() }),
        final(ectx).msg_cap == old(ectx).msg_cap,
        final(atoms).view().len() <= old(atoms).view().len() + 1,
{
    match &node.arg {
        None => {},
        Some(a) => {
            let p = atoms.intern_bytes(a.as_slice());
            match find_prefix_exec(pm, p) {
                Some(k) => {
                    let pt = atom_lossy(atoms, p);
                    let ft = match filename {
                        Some(f) => lossy_utf8(f.as_slice()),
                        None => Vec::new(),
                    };
                    let lt = decimal_i64(pm[k].line as i64);
                    let mut msg = msg3("prefix '", pt.as_slice(), "' already defined at ");
                    push_bytes(&mut msg, ft.as_slice());
                    push_str(&mut msg, ":");
                    push_bytes(&mut msg, lt.as_slice());
                    report_msg(ectx, YANG_ERR_GRAMMAR_DUPLICATE_PREFIX, filename, node.line, -1, msg.as_slice());
                },
                None => {
                    pm.push(PrefixEntry { prefix: p, module_name: mn, line: node.line });
                },
            }
        },
    }
}

fn find_sub_prefix_exec(am: &KnownAtoms, nodes: &Vec<YangStatement>, start: Option<usize>) -> (r: Option<usize>)
    requires
        forward_links(nodes_view(nodes@)),
        start matches Some(i) ==> i < nodes@.len(),
    ensures
        opt_usize(r) == find_sub_prefix(*am, nodes_view(nodes@), nodes@.len() as int, opt_usize(start)),
        r matches Some(j) ==> j < nodes@.len(),
{
    let ghost n = nodes@.len() as int;
    let ghost nv = nodes_view(nodes@);
    let mut cur = start;
    while cur.is_some()
        invariant
            n == nodes@.len(),
            nv == nodes_view(nodes@),
            forward_links(nv),
            cur matches Some(c) ==> c < n,
            find_sub_prefix(*am, nv, n, opt_usize(cur)) == find_sub_prefix(*am, nv, n, opt_usize(start)),
        decreases chain_measure(opt_usize(cur), n),
    {
        let i = match cur {
            Some(i) => i,
            None => 0,
        };
        proof {
            assert(nv[i as int] == nodes@[i as int].view());
            assert(nv[i as int].next matches Some(j) ==> i < j < n);
        }
        if nodes[i].prefix.is_none() && Some(nodes[i].keyword) == am.prefix {
            return Some(i);
        }
        cur = nodes[i].next;
    }
    None
}

fn find_vsn(am: &KnownAtoms, nodes: &Vec<YangStatement>, root_kw: Atom, start: Option<usize>) -> (r: i8)
    requires
        forward_links(nodes_view(nodes@)),
        start matches Some(i) ==> i < nodes@.len(),
    ensures
        r == spec_find_vsn(*am, nodes_view(nodes@), nodes@.len() as int, root_kw as int, opt_usize(start)),
{
    let ghost n = nodes@.len() as int;
    let ghost nv = nodes_view(nodes@);
    let mut cur = start;
    while cur.is_some()
        invariant
            n == nodes@.len(),
            nv == nodes_view(nodes@),
            forward_links(nv),
            cur matches Some(c) ==> c < n,
            spec_find_vsn(*am, nv, n, root_kw as int, opt_usize(cur)) == spec_find_vsn(*am, nv, n, root_kw as int, opt_usize(start)),
        decreases chain_measure(opt_usize(cur), n),
    {
        let i = match cur {
            Some(i) => i,
            None => 0,
        };
        proof {
            assert(nv[i as int] == nodes@[i as int].view());
            assert(nv[i as int].next matches Some(j) ==> i < j < n);
        }
        let kw = Some(nodes[i].keyword);
        let rk = Some(root_kw);
        if kw == am.yang_version {
            let is_11 = match &nodes[i].arg {
                Some(a) => a.len() == 3 && a[0] == 49 && a[1] == 46 && a[2] == 49,
                None => false,
            };
            proof {
                if let Some(a) = nodes@[i as int].arg {
                    if is_11 {
                        assert(a@ =~= text_1_1());
                    }
                }
            }
            if is_11 {
                return YANG_VERSION_1_1;
            } else {
                return YANG_VERSION_1;
            }
        }
        if nodes[i].prefix.is_none() && ((rk == am.module && kw != am.namespace && kw != am.prefix) || (rk
            == am.submodule && kw != am.belongs_to)) {
            return YANG_VERSION_1;
        }
        cur = nodes[i].next;
    }
    YANG_VERSION_1
}

fn count_imports_exec(am: &KnownAtoms, nodes: &Vec<YangStatement>, start: Option<usize>) -> (r: usize)
    requires
        forward_links(nodes_view(nodes@)),
        start matches Some(i) ==> i < nodes@.len(),
    ensures
        r as int == count_imports(*am, nodes_view(nodes@), nodes@.len() as int, opt_usize(start)),
        r <= nodes@.len(),
{
    let ghost n = nodes@.len() as int;
    let ghost nv = nodes_view(nodes@);
    let total = nodes.len();
    let mut cur = start;
    let mut c: usize = 0;
    while cur.is_some()
        invariant
            n == nodes@.len(),
            n == total,
            nv == nodes_view(nodes@),
            forward_links(nv),
            cur matches Some(k) ==> k < n && c <= k,
            cur is None ==> c <= n,
            c + count_imports(*am, nv, n, opt_usize(cur)) == count_imports(*am, nv, n, opt_usize(start)),
        decreases chain_measure(opt_usize(cur), n),
    {
        let i = match cur {
            Some(i) => i,
            None => 0,
        };
        proof {
            assert(nv[i as int] == nodes@[i as int].view());
            assert(nv[i as int].next matches Some(j) ==> i < j < n);
        }
        let kw = Some(nodes[i].keyword);
        if nodes[i].prefix.is_none() && kw == am.import {
            c = c + 1;
        } else if nodes[i].prefix.is_none() && kw != am.yang_version && kw != am.namespace && kw != am.prefix
            && kw != am.belongs_to && kw != am.incl {
            return c;
        }
        cur = nodes[i].next;
    }
    c
}


/// Resolves the prefixes of the module whose top statement is the first
/// statement, as `spec_resolve` says.
fn resolve_module_names_from_prefixes(
    am: &KnownAtoms,
    atoms: &mut AtomTable,
    filename: &Option<Vec<u8>>,
    ectx: &mut YangErrorCtx,
    nodes: &mut Vec<YangStatement>,
    np: usize,
    env: Ghost<Env>,
)
    requires
        old(ectx).msg_cap >= 1,
        env@.am == *am,
        env@.atoms == old(atoms).view(),
        env@.filename == opt_view(*filename),
        env@.cap == old(ectx).msg_cap,
        forward_links(nodes_view(old(nodes)@)),
        old(atoms).view().len() + 2 * old(nodes)@.len() < usize::MAX,
    ensures
        ({
            let rr = spec_resolve(env@, np as int, nodes_view(old(nodes)@), old(ectx).errors());
            &&& nodes_view(final(nodes)@) == rr.nodes
            &&& final(atoms).view() == rr.atoms
            &&& final(ectx).errors() == rr.errs
        }),
        final(ectx).msg_cap == old(ectx).msg_cap,
        same_links(old(nodes)@, final(nodes)@),
{
    if nodes.len() == 0 || np == 0 {
        return;
    }
    let ghost n = nodes@.len() as int;
    let ghost nv = nodes_view(nodes@);
    let ghost a0 = atoms.view().len();
    let ghost nodes0 = nodes@;
    proof {
        assert(nv[0] == nodes@[0].view());
        assert(nv[0].next matches Some(j) ==> 0 < j < n);
        assert(nv[0].substmt matches Some(j) ==> 0 < j < n);
    }
    let first = nodes[0].substmt;
    let mut pm: Vec<PrefixEntry> = Vec::new();
    let mut cur = first;
    let ghost goal = spec_collect(
        env@,
        n,
        nv,
        nv[0].arg,
        np as int,
        RState { atoms: atoms.view(), pm: pm@, errs: ectx.errors() },
        opt_usize(first),
    );
    while cur.is_some() && pm.len() < np
        invariant
            n == nodes@.len(),
            nodes@ == nodes0,
            nv == nodes_view(nodes@),
            forward_links(nv),
            n > 0,
            cur matches Some(c) ==> 0 < c < n,
            atoms.view().len() <= a0 + 2 * (match cur {
                Some(c) => c as int,
                None => n,
            }),
            a0 + 2 * n < usize::MAX,
            ectx.msg_cap >= 1,
            ectx.msg_cap == old(ectx).msg_cap,
            env@.am == *am,
            env@.filename == opt_view(*filename),
            env@.cap == ectx.msg_cap,
            spec_collect(
                env@,
                n,
                nv,
                nv[0].arg,
                np as int,
                RState { atoms: atoms.view(), pm: pm@, errs: ectx.errors() },
                opt_usize(cur),
            ) == goal,
        decreases chain_measure(opt_usize(cur), n),
    {
        let i = match cur {
            Some(i) => i,
            None => 0,
        };
        proof {
            assert(nv[i as int] == nodes@[i as int].view());
            assert(nv[i as int].next matches Some(j) ==> i < j < n);
            assert(nv[i as int].substmt matches Some(j) ==> i < j < n);
        }
        let nxt = nodes[i].next;
        if nodes[i].prefix.is_none() {
            let kw = Some(nodes[i].keyword);
            if kw == am.prefix && nodes[0].arg.is_some() {
                let mn = match &nodes[0].arg {
                    Some(a) => atoms.intern_bytes(a.as_slice()),
                    None => 0,
                };
                add_prefix(atoms, filename, ectx, &mut pm, &nodes[i], Some(mn), env);
            } else if (kw == am.belongs_to || kw == am.import) && nodes[i].arg.is_some() {
                match find_sub_prefix_exec(am, nodes, nodes[i].substmt) {
                    Some(j) => {
                        assert(nv[j as int] == nodes@[j as int].view());
                        let mn = match &nodes[i].arg {
                            Some(a) => atoms.intern_bytes(a.as_slice()),
                            None => 0,
                        };
                        add_prefix(atoms, filename, ectx, &mut pm, &nodes[j], Some(mn), env);
                    },
                    None => {},
                }
            }
        }
        cur = nxt;
    }
    let vsn = find_vsn(am, nodes, nodes[0].keyword, first);
    let ghost rs = RState { atoms: atoms.view(), pm: pm@, errs: ectx.errors() };
    nodes[0].yang_version = vsn;
    proof {
        assert(nodes_view(nodes@) =~= nv.update(0, StmtNode { yang_version: vsn, ..nv[0] }));
        lemma_same_links(nodes0, nodes@);
    }
    let ghost env2 = Env { atoms: atoms.view(), ..env@ };
    set_module_name_from_prefix(atoms, filename, ectx, nodes, Some(0), &pm, vsn, Ghost(env2));
}

/// The outcome of a check: whether the module is well formed, the
/// statements, the atoms and the errors.
pub struct CheckResult {
    pub ok: bool,
    pub nodes: Seq<StmtNode>,
    pub atoms: Seq<Seq<u8>>,
    pub errs: Seq<ErrorRecord>,
}

/// The keyword of the top rule for a top statement with keyword `kw`:
/// `module` or `submodule`.
pub open spec fn top_keyword(am: KnownAtoms, kw: int) -> Option<Atom> {
    if Some(kw as Atom) == am.module {
        am.module
    } else if Some(kw as Atom) == am.submodule {
        am.submodule
    } else {
        None
    }
}

/// Checking the module whose statements are `nodes`, the first one its top
/// statement, in environment `env`.
pub open spec fn spec_check_module<F: Fn(&[u8], &[u8]) -> bool>(
    env: Env,
    m: F,
    canonical: bool,
    nodes: Seq<StmtNode>,
    errs: Seq<ErrorRecord>,
) -> CheckResult {
    let n = nodes.len() as int;
    if n == 0 {
        CheckResult { ok: false, nodes, atoms: env.atoms, errs }
    } else {
        let root = nodes[0];
        match top_keyword(env.am, root.keyword) {
            None => CheckResult {
                ok: false,
                nodes,
                atoms: env.atoms,
                errs: stmt_report(env, errs, root, YANG_ERR_GRAMMAR_UNEXPECTED_KEYWORD, msg_unexpected(stmt_kw(env.atoms, root))),
            },
            Some(kw) => match spec_get_spec_from_rule(env.gs, spec_get_grammar(env.gs, None), kw, 0) {
                None => CheckResult {
                    ok: false,
                    nodes,
                    atoms: env.atoms,
                    errs: stmt_report(env, errs, root, YANG_ERR_INTERNAL, "top-level grammar rule not found".spec_bytes()),
                },
                Some(sp) => {
                    let top = YangStatementRule {
                        module_name: None,
                        keyword: kw,
                        min_yang_version: YANG_VERSION_1,
                        spec: Some((sp.0 as usize, sp.1 as usize)),
                        occurance: OCC_ONE,
                    };
                    let np = 1 + count_imports(env.am, nodes, n, link_after(root.substmt, 0, n));
                    let rr = spec_resolve(env, np, nodes, errs);
                    let st = spec_chk_chain(
                        Env { atoms: rr.atoms, ..env },
                        m,
                        n,
                        ChkState { nodes: rr.nodes, errs: rr.errs, res: true },
                        Some(0),
                        None,
                        seq![top],
                        0,
                        canonical,
                    );
                    CheckResult { ok: st.res, nodes: st.nodes, atoms: rr.atoms, errs: st.errs }
                },
            },
        }
    }
}

/// Checks a parsed module against the grammar.  The matcher `m` tells
/// whether an argument matches a pattern.  Statements get their module and
/// argument type; what is wrong is reported to `ectx`.  The result is whether
/// the module is well formed.
pub fn yang_grammar_check_module<F: Fn(&[u8], &[u8]) -> bool>(
    t: &GrammarTables,
    tree: &mut YangTree,
    atoms: &mut AtomTable,
    m: &F,
    canonical: bool,
    ectx: &mut YangErrorCtx,
) -> (ok: bool)
    requires
        matcher_ok(*m),
        old(ectx).msg_cap >= 1,
        forward_links(nodes_view(old(tree).nodes@)),
        old(atoms).view().len() + 2 * old(tree).nodes@.len() < usize::MAX,
    ensures
        ({
            let r = spec_check_module(
                env_of(t, old(atoms).view(), opt_view(old(tree).filename), old(ectx).msg_cap),
                *m,
                canonical,
                nodes_view(old(tree).nodes@),
                old(ectx).errors(),
            );
            &&& ok == r.ok
            &&& nodes_view(final(tree).nodes@) == r.nodes
            &&& final(atoms).view() == r.atoms
            &&& final(ectx).errors() == r.errs
        }),
        opt_view(final(tree).filename) == opt_view(old(tree).filename),
        final(ectx).msg_cap == old(ectx).msg_cap,
        forward_links(nodes_view(final(tree).nodes@)),
        old(tree).nodes@.len() == 0 ==> !ok && final(ectx).errors() == old(ectx).errors(),
        old(atoms).wf() && old(tree).nodes@.len() > 0 && top_keyword(t.am, old(tree).nodes@[0].keyword as int) is None ==> {
            &&& !ok
            &&& final(ectx).errors() == old(ectx).errors().push(ErrorRecord {
                code: YANG_ERR_GRAMMAR_UNEXPECTED_KEYWORD,
                filename: opt_view(old(tree).filename),
                line: old(tree).nodes@[0].line,
                col: -1i32,
                msg: spec_stored_msg(
                    msg_unexpected(stmt_kw(old(atoms).view(), old(tree).nodes@[0].view())),
                    old(ectx).msg_cap,
                ),
            })
            &&& nodes_view(final(tree).nodes@) == nodes_view(old(tree).nodes@)
            &&& final(atoms).view() == old(atoms).view()
        },
{
    let ghost nodes0 = tree.nodes@;
    if tree.nodes.len() == 0 {
        return false;
    }
    let ghost env = env_of(t, atoms.view(), opt_view(tree.filename), ectx.msg_cap);
    let ghost nv = nodes_view(tree.nodes@);
    proof {
        assert(nv[0] == tree.nodes@[0].view());
        assert(nv[0].next matches Some(j) ==> 0 < j < nv.len());
        assert(nv[0].substmt matches Some(j) ==> 0 < j < nv.len());
    }
    let root_kw = tree.nodes[0].keyword;
    let top = if Some(root_kw) == t.am.module {
        t.am.module
    } else if Some(root_kw) == t.am.submodule {
        t.am.submodule
    } else {
        None
    };
    let kw = match top {
        Some(k) => k,
        None => {
            let sk = kw_text(atoms, tree.nodes[0].prefix, root_kw);
            proof {
                reveal_strlit("unexpected keyword '");
                reveal_strlit("'");
                lemma_no_nul("unexpected keyword '");
                lemma_no_nul("'");
            }
            let msg = msg3("unexpected keyword '", sk.as_slice(), "'");
            report_msg(ectx, YANG_ERR_GRAMMAR_UNEXPECTED_KEYWORD, &tree.filename, tree.nodes[0].line, -1, msg.as_slice());
            return false;
        },
    };
    let core = get_grammar(t, None);
    let sp = match get_spec_from_rule(t, core, kw, 0) {
        Some(p) => p,
        None => {
            let msg = "top-level grammar rule not found";
            report_msg(ectx, YANG_ERR_INTERNAL, &tree.filename, tree.nodes[0].line, -1, msg.as_bytes());
            return false;
        },
    };
    let top_rule = YangStatementRule {
        module_name: None,
        keyword: kw,
        min_yang_version: YANG_VERSION_1,
        spec: Some(sp),
        occurance: OCC_ONE,
    };
    let np = 1 + count_imports_exec(&t.am, &tree.nodes, tree.nodes[0].substmt);
    resolve_module_names_from_prefixes(&t.am, atoms, &tree.filename, ectx, &mut tree.nodes, np, Ghost(env));
    proof {
        lemma_same_links(nodes0, tree.nodes@);
    }
    let mut rules: Vec<YangStatementRule> = Vec::new();
    rules.push(top_rule);
    assert(rules@ =~= seq![top_rule]);
    let mut res = true;
    chk_statements(t, atoms, m, &tree.filename, ectx, &mut tree.nodes, Some(0), None, rules, canonical, &mut res);
    proof {
        lemma_same_links(nodes0, tree.nodes@);
    }
    res
}


/// What a check does not change in the statements: their keywords,
/// prefixes, arguments, lines and links.
pub open spec fn same_shape(a: Seq<StmtNode>, b: Seq<StmtNode>) -> bool {
    &&& a.len() == b.len()
    &&& forall|k: int|
        0 <= k < a.len() ==> (#[trigger] b[k]).keyword == a[k].keyword && b[k].prefix == a[k].prefix && b[k].arg
            == a[k].arg && b[k].line == a[k].line && b[k].next == a[k].next && b[k].substmt == a[k].substmt
}

proof fn lemma_prefix_trans(a: Seq<ErrorRecord>, b: Seq<ErrorRecord>, c: Seq<ErrorRecord>)
    requires
        a.is_prefix_of(b),
        b.is_prefix_of(c),
    ensures
        a.is_prefix_of(c),
{
    assert forall|i: int| 0 <= i < a.len() implies a[i] == c[i] by {
        assert(a[i] == b.subrange(0, a.len() as int)[i]);
        assert(b[i] == c.subrange(0, b.len() as int)[i]);
    }
    assert(a =~= c.subrange(0, a.len() as int));
}

proof fn lemma_prefix_refl(a: Seq<ErrorRecord>)
    ensures
        a.is_prefix_of(a),
{
    assert(a =~= a.subrange(0, a.len() as int));
}

proof fn lemma_report(env: Env, errs: Seq<ErrorRecord>, s: StmtNode, code: i32, msg: Seq<u8>)
    ensures
        errs.is_prefix_of(stmt_report(env, errs, s, code, msg)),
{
    let r = stmt_report(env, errs, s, code, msg);
    if !msg.contains(0u8) {
        assert(errs =~= r.subrange(0, errs.len() as int));
    } else {
        lemma_prefix_refl(errs);
    }
}

proof fn lemma_shape_trans(a: Seq<StmtNode>, b: Seq<StmtNode>, c: Seq<StmtNode>)
    requires
        same_shape(a, b),
        same_shape(b, c),
    ensures
        same_shape(a, c),
{
    assert forall|k: int| 0 <= k < a.len() implies (#[trigger] c[k]).keyword == a[k].keyword && c[k].prefix
        == a[k].prefix && c[k].arg == a[k].arg && c[k].line == a[k].line && c[k].next == a[k].next && c[k].substmt
        == a[k].substmt by {
        assert(b[k].keyword == a[k].keyword);
        assert(c[k].keyword == b[k].keyword);
    }
}

proof fn lemma_shape_refl(a: Seq<StmtNode>)
    ensures
        same_shape(a, a),
{
}

/// Matching a statement only adds errors and keeps the number of rules.
proof fn lemma_match_from<F: Fn(&[u8], &[u8]) -> bool>(
    env: Env,
    m: F,
    s: StmtNode,
    rules: Seq<YangStatementRule>,
    start: int,
    i: int,
    canonical: bool,
    errs: Seq<ErrorRecord>,
)
    ensures
        errs.is_prefix_of(spec_match_from(env, m, s, rules, start, i, canonical, errs).errs),
    decreases rules.len() - i,
{
    let kw = stmt_kw(env.atoms, s);
    if i < 0 || i >= rules.len() {
        lemma_report(env, errs, s, YANG_ERR_GRAMMAR_UNEXPECTED_KEYWORD, msg_unexpected(kw));
    } else {
        let r = rules[i];
        if spec_rule_match(env.gs, env.ts, m, s, r) {
            let errs1 = if r.min_yang_version > s.yang_version {
                stmt_report(env, errs, s, YANG_ERR_GRAMMAR_UNEXPECTED_KEYWORD, msg_not_valid(kw, s.yang_version))
            } else {
                errs
            };
            lemma_report(env, errs, s, YANG_ERR_GRAMMAR_UNEXPECTED_KEYWORD, msg_not_valid(kw, s.yang_version));
            lemma_prefix_refl(errs);
            lemma_report(env, errs1, s, YANG_ERR_GRAMMAR_KEYWORD_ALREADY_FOUND, msg_already(kw));
            lemma_report(env, errs1, s, YANG_ERR_GRAMMAR_UNEXPECTED_KEYWORD, msg_unexpected(kw));
            lemma_prefix_trans(errs, errs1, stmt_report(env, errs1, s, YANG_ERR_GRAMMAR_KEYWORD_ALREADY_FOUND, msg_already(kw)));
            lemma_prefix_trans(errs, errs1, stmt_report(env, errs1, s, YANG_ERR_GRAMMAR_UNEXPECTED_KEYWORD, msg_unexpected(kw)));
            lemma_match_from(env, m, s, rules, start, i + 1, canonical, errs1);
            lemma_prefix_trans(errs, errs1, spec_match_from(env, m, s, rules, start, i + 1, canonical, errs1).errs);
        } else if s.prefix is Some {
            lemma_match_from(env, m, s, rules, start, i + 1, false, errs);
        } else if Some(r.keyword) == env.am.sp_cut {
            match first_required(rules, start, i) {
                Some(j) => {
                    lemma_report(env, errs, s, YANG_ERR_GRAMMAR_EXPECTED_KEYWORD, msg_expected(rule_kw(env.atoms, rules[j])));
                },
                None => {
                    lemma_match_from(env, m, s, rules, i + 1, i + 1, canonical, errs);
                },
            }
        } else if canonical {
            if required(r) {
                lemma_report(
                    env,
                    errs,
                    s,
                    YANG_ERR_GRAMMAR_EXPECTED_KEYWORD,
                    msg_expected_before(rule_kw(env.atoms, r), kw),
                );
            } else {
                lemma_match_from(env, m, s, rules.update(i, with_occ(r, OCC_PASSED)), start, i + 1, canonical, errs);
            }
        } else {
            lemma_match_from(env, m, s, rules, start, i + 1, canonical, errs);
        }
    }
}

/// Checking an argument only adds errors and keeps the statements' shape.
proof fn lemma_arg_check<F: Fn(&[u8], &[u8]) -> bool>(
    env: Env,
    m: F,
    st: ChkState,
    i: int,
    sub: SpecV,
    r: YangStatementRule,
)
    requires
        0 <= i < st.nodes.len(),
    ensures
        st.errs.is_prefix_of(spec_arg_check(env, m, st, i, sub, r).errs),
        same_shape(st.nodes, spec_arg_check(env, m, st, i, sub, r).nodes),
        !st.res ==> !spec_arg_check(env, m, st, i, sub, r).res,
{
    let res = spec_arg_check(env, m, st, i, sub, r);
    let s = st.nodes[i];
    lemma_prefix_refl(st.errs);
    assert forall|k: int| 0 <= k < st.nodes.len() implies (#[trigger] res.nodes[k]).keyword == st.nodes[k].keyword
        && res.nodes[k].prefix == st.nodes[k].prefix && res.nodes[k].arg == st.nodes[k].arg && res.nodes[k].line
        == st.nodes[k].line && res.nodes[k].next == st.nodes[k].next && res.nodes[k].substmt == st.nodes[k].substmt by {
    }
    if sub.arg_type_idx != -1 && s.arg is Some {
        let at_idx = if 0 <= sub.arg_type_idx < env.ts.len() {
            Some(sub.arg_type_idx as int)
        } else {
            None
        };
        if let Some(k) = at_idx {
            let at = env.ts[k];
            if at.flags & F_ARG_TYPE_SYNTAX_CB != 0 {
                if let SyntaxV::Callback(v, p) = at.syntax {
                    let vr = spec_validate(m, v, p, s.arg, s.yang_version);
                    let et = err_text(vr.1, env.cap);
                    let text = if et.len() == 0 {
                        msg_bad_arg(lossy_text(s.arg->0), atom_text(env.atoms, at.name as int))
                    } else {
                        lossy_text(et)
                    };
                    lemma_report(env, st.errs, s, YANG_ERR_GRAMMAR_BAD_ARGUMENT, text);
                }
            }
        }
    } else if sub.arg_type_idx != -1 {
        lemma_report(env, st.errs, s, YANG_ERR_GRAMMAR_MISSING_ARGUMENT, msg_missing(rule_kw(env.atoms, r)));
    } else if s.arg is Some {
        lemma_report(
            env,
            st.errs,
            s,
            YANG_ERR_GRAMMAR_UNEXPECTED_ARGUMENT,
            msg_unexpected_arg(rule_kw(env.atoms, r), lossy_text(s.arg->0)),
        );
    }
}

/// The end of a block only adds errors and keeps the statements.
proof fn lemma_block_end(env: Env, st: ChkState, parent: Option<int>, rules: Seq<YangStatementRule>, k: int)
    ensures
        st.errs.is_prefix_of(spec_block_end(env, st, parent, rules, k).errs),
        spec_block_end(env, st, parent, rules, k).nodes == st.nodes,
        0 <= k ==> spec_block_end(env, st, parent, rules, k).res == (st.res
            && forall|j: int| k <= j < rules.len() ==> !required(#[trigger] rules[j])),
        forall|x: int| st.errs.len() <= x < spec_block_end(env, st, parent, rules, k).errs.len()
            ==> (#[trigger] spec_block_end(env, st, parent, rules, k).errs[x]).code == YANG_ERR_GRAMMAR_EXPECTED_KEYWORD,
        parent is None ==> spec_block_end(env, st, parent, rules, k).errs == st.errs,
    decreases rules.len() - k,
{
    lemma_prefix_refl(st.errs);
    if 0 <= k < rules.len() {
        let st1 = if required(rules[k]) {
            ChkState {
                errs: match parent {
                    Some(p) => if 0 <= p < st.nodes.len() {
                        stmt_report(
                            env,
                            st.errs,
                            st.nodes[p],
                            YANG_ERR_GRAMMAR_EXPECTED_KEYWORD,
                            msg_expected_sub(rule_kw(env.atoms, rules[k]), stmt_kw(env.atoms, st.nodes[p])),
                        )
                    } else {
                        st.errs
                    },
                    None => st.errs,
                },
                res: false,
                ..st
            }
        } else {
            st
        };
        if let Some(p) = parent {
            if 0 <= p < st.nodes.len() {
                lemma_report(
                    env,
                    st.errs,
                    st.nodes[p],
                    YANG_ERR_GRAMMAR_EXPECTED_KEYWORD,
                    msg_expected_sub(rule_kw(env.atoms, rules[k]), stmt_kw(env.atoms, st.nodes[p])),
                );
            }
        }
        lemma_block_end(env, st1, parent, rules, k + 1);
        let fin = spec_block_end(env, st1, parent, rules, k + 1).errs;
        lemma_prefix_trans(st.errs, st1.errs, fin);
        assert forall|x: int| st.errs.len() <= x < fin.len() implies (#[trigger] fin[x]).code == YANG_ERR_GRAMMAR_EXPECTED_KEYWORD by {
            if x < st1.errs.len() {
                assert(fin[x] == fin.subrange(0, st1.errs.len() as int)[x]);
                assert(st1.errs[x].code == YANG_ERR_GRAMMAR_EXPECTED_KEYWORD);
            }
        }
    }
}

/// Checking a block only adds errors and keeps the statements' shape.
proof fn lemma_chk_chain<F: Fn(&[u8], &[u8]) -> bool>(
    env: Env,
    m: F,
    n: int,
    st: ChkState,
    cur: Option<int>,
    parent: Option<int>,
    rules: Seq<YangStatementRule>,
    start: int,
    canonical: bool,
)
    ensures
        st.errs.is_prefix_of(spec_chk_chain(env, m, n, st, cur, parent, rules, start, canonical).errs),
        same_shape(st.nodes, spec_chk_chain(env, m, n, st, cur, parent, rules, start, canonical).nodes),
        !st.res ==> !spec_chk_chain(env, m, n, st, cur, parent, rules, start, canonical).res,
    decreases chain_measure(cur, n),
{
    let res = spec_chk_chain(env, m, n, st, cur, parent, rules, start, canonical);
    if cur is Some && 0 <= cur->0 < n && cur->0 < st.nodes.len() {
        let i = cur->0;
        let s = st.nodes[i];
        let nxt = link_after(s.next, i, n);
        let g = if s.module_name is None && s.prefix is Some {
            None
        } else {
            spec_get_grammar(env.gs, as_atom(s.module_name))
        };
        if g is None {
            lemma_chk_chain(env, m, n, st, nxt, parent, rules, start, canonical);
        } else {
            let mr = spec_match_from(env, m, s, rules, start, start, canonical, st.errs);
            lemma_match_from(env, m, s, rules, start, start, canonical, st.errs);
            if !mr.ok {
                let st1 = ChkState { errs: mr.errs, res: false, ..st };
                lemma_chk_chain(env, m, n, st1, nxt, parent, mr.rules, mr.start, canonical);
                lemma_prefix_trans(st.errs, st1.errs, res.errs);
            } else {
                let r = mr.rules[mr.found];
                let st1 = ChkState { errs: mr.errs, ..st };
                match spec_of(env.gs, r.spec) {
                    None => {
                        lemma_chk_chain(env, m, n, st1, nxt, parent, mr.rules, mr.start, canonical);
                        lemma_prefix_trans(st.errs, st1.errs, res.errs);
                    },
                    Some(sub) => {
                        let st2 = spec_arg_check(env, m, st1, i, sub, r);
                        lemma_arg_check(env, m, st1, i, sub, r);
                        let st3 = spec_chk_chain(env, m, n, st2, link_after(s.substmt, i, n), Some(i), sub.rules, 0, canonical);
                        lemma_chk_chain(env, m, n, st2, link_after(s.substmt, i, n), Some(i), sub.rules, 0, canonical);
                        lemma_chk_chain(env, m, n, st3, nxt, parent, mr.rules, mr.start, canonical);
                        lemma_prefix_trans(st.errs, st1.errs, st2.errs);
                        lemma_prefix_trans(st.errs, st2.errs, st3.errs);
                        lemma_prefix_trans(st.errs, st3.errs, res.errs);
                        lemma_shape_trans(st.nodes, st2.nodes, st3.nodes);
                        lemma_shape_trans(st.nodes, st3.nodes, res.nodes);
                    },
                }
            }
        }
    } else {
        lemma_block_end(env, st, parent, rules, 0);
    }
}


/// Giving statements their modules only adds errors and keeps their shape.
proof fn lemma_set_mod(env: Env, pm: Seq<PrefixEntry>, vsn: i8, n: int, st: ModState, cur: Option<int>)
    ensures
        st.errs.is_prefix_of(spec_set_mod(env, pm, vsn, n, st, cur).errs),
        same_shape(st.nodes, spec_set_mod(env, pm, vsn, n, st, cur).nodes),
    decreases chain_measure(cur, n),
{
    lemma_prefix_refl(st.errs);
    if cur is Some && 0 <= cur->0 < n && cur->0 < st.nodes.len() {
        let i = cur->0;
        let s = st.nodes[i];
        let st1 = match s.prefix {
            Some(p) => match find_prefix(pm, p, 0) {
                Some(k) => ModState {
                    nodes: st.nodes.update(i, StmtNode { yang_version: vsn, module_name: opt_int(pm[k].module_name), ..s }),
                    errs: st.errs,
                },
                None => ModState {
                    nodes: st.nodes.update(i, StmtNode { yang_version: vsn, ..s }),
                    errs: stmt_report(
                        env,
                        st.errs,
                        s,
                        YANG_ERR_GRAMMAR_UNDEFINED_PREFIX,
                        msg_undefined_prefix(atom_text(env.atoms, p)),
                    ),
                },
            },
            None => ModState { nodes: st.nodes.update(i, StmtNode { yang_version: vsn, ..s }), errs: st.errs },
        };
        if let Some(p) = s.prefix {
            lemma_report(env, st.errs, s, YANG_ERR_GRAMMAR_UNDEFINED_PREFIX, msg_undefined_prefix(atom_text(env.atoms, p)));
        }
        assert(same_shape(st.nodes, st1.nodes));
        let st2 = spec_set_mod(env, pm, vsn, n, st1, link_after(s.substmt, i, n));
        lemma_set_mod(env, pm, vsn, n, st1, link_after(s.substmt, i, n));
        lemma_set_mod(env, pm, vsn, n, st2, link_after(s.next, i, n));
        let res = spec_set_mod(env, pm, vsn, n, st2, link_after(s.next, i, n));
        lemma_prefix_trans(st.errs, st1.errs, st2.errs);
        lemma_prefix_trans(st.errs, st2.errs, res.errs);
        lemma_shape_trans(st.nodes, st1.nodes, st2.nodes);
        lemma_shape_trans(st.nodes, st2.nodes, res.nodes);
    }
}

/// Declaring a prefix only adds errors.
proof fn lemma_add_prefix(env: Env, rs: RState, s: StmtNode, mn: Option<Atom>)
    ensures
        rs.errs.is_prefix_of(spec_add_prefix(env, rs, s, mn).errs),
{
    lemma_prefix_refl(rs.errs);
    if let Some(a) = s.arg {
        let atoms1 = spec_intern(rs.atoms, a).0;
        let p = spec_intern(rs.atoms, a).1;
        if let Some(k) = find_prefix(rs.pm, p, 0) {
            lemma_report(
                env,
                rs.errs,
                s,
                YANG_ERR_GRAMMAR_DUPLICATE_PREFIX,
                msg_dup_prefix(atom_text(atoms1, p), fname_text(env.filename), rs.pm[k].line as int),
            );
        }
    }
}

/// Collecting prefixes only adds errors.
proof fn lemma_collect(env: Env, n: int, nodes: Seq<StmtNode>, root_arg: Option<Seq<u8>>, np: int, rs: RState, cur: Option<int>)
    ensures
        rs.errs.is_prefix_of(spec_collect(env, n, nodes, root_arg, np, rs, cur).errs),
    decreases chain_measure(cur, n),
{
    lemma_prefix_refl(rs.errs);
    if cur is Some && 0 <= cur->0 < n && cur->0 < nodes.len() && rs.pm.len() < np {
        let i = cur->0;
        let s = nodes[i];
        let kw = Some(s.keyword as Atom);
        let rs1 = if s.prefix is Some {
            rs
        } else if kw == env.am.prefix && root_arg is Some {
            let r0 = spec_intern(rs.atoms, root_arg->0);
            lemma_add_prefix(env, RState { atoms: r0.0, ..rs }, s, Some(r0.1 as Atom));
            spec_add_prefix(env, RState { atoms: r0.0, ..rs }, s, Some(r0.1 as Atom))
        } else if (kw == env.am.belongs_to || kw == env.am.import) && s.arg is Some {
            match find_sub_prefix(env.am, nodes, n, link_after(s.substmt, i, n)) {
                Some(j) => {
                    let r0 = spec_intern(rs.atoms, s.arg->0);
                    lemma_add_prefix(env, RState { atoms: r0.0, ..rs }, nodes[j], Some(r0.1 as Atom));
                    spec_add_prefix(env, RState { atoms: r0.0, ..rs }, nodes[j], Some(r0.1 as Atom))
                },
                None => rs,
            }
        } else {
            rs
        };
        lemma_collect(env, n, nodes, root_arg, np, rs1, link_after(s.next, i, n));
        lemma_prefix_trans(rs.errs, rs1.errs, spec_collect(env, n, nodes, root_arg, np, rs1, link_after(s.next, i, n)).errs);
    }
}

/// Checking a module only adds errors to those reported before, and keeps
/// the keyword, prefix, argument, line and links of every statement.
pub proof fn law_check_appends<F: Fn(&[u8], &[u8]) -> bool>(
    env: Env,
    m: F,
    canonical: bool,
    nodes: Seq<StmtNode>,
    errs: Seq<ErrorRecord>,
)
    ensures
        errs.is_prefix_of(spec_check_module(env, m, canonical, nodes, errs).errs),
        same_shape(nodes, spec_check_module(env, m, canonical, nodes, errs).nodes),
{
    let res = spec_check_module(env, m, canonical, nodes, errs);
    let n = nodes.len() as int;
    lemma_prefix_refl(errs);
    lemma_shape_refl(nodes);
    if n > 0 {
        let root = nodes[0];
        match top_keyword(env.am, root.keyword) {
            None => {
                lemma_report(env, errs, root, YANG_ERR_GRAMMAR_UNEXPECTED_KEYWORD, msg_unexpected(stmt_kw(env.atoms, root)));
            },
            Some(kw) => match spec_get_spec_from_rule(env.gs, spec_get_grammar(env.gs, None), kw, 0) {
                None => {
                    lemma_report(env, errs, root, YANG_ERR_INTERNAL, "top-level grammar rule not found".spec_bytes());
                },
                Some(sp) => {
                    let top = YangStatementRule {
                        module_name: None,
                        keyword: kw,
                        min_yang_version: YANG_VERSION_1,
                        spec: Some((sp.0 as usize, sp.1 as usize)),
                        occurance: OCC_ONE,
                    };
                    let np = 1 + count_imports(env.am, nodes, n, link_after(root.substmt, 0, n));
                    let rr = spec_resolve(env, np, nodes, errs);
                    if np > 0 {
                        let first = link_after(root.substmt, 0, n);
                        let rs = spec_collect(env, n, nodes, root.arg, np, RState { atoms: env.atoms, pm: Seq::empty(), errs }, first);
                        lemma_collect(env, n, nodes, root.arg, np, RState { atoms: env.atoms, pm: Seq::empty(), errs }, first);
                        let vsn = spec_find_vsn(env.am, nodes, n, root.keyword, first);
                        let nodes1 = nodes.update(0, StmtNode { yang_version: vsn, ..root });
                        assert(same_shape(nodes, nodes1));
                        let env2 = Env { atoms: rs.atoms, ..env };
                        lemma_set_mod(env2, rs.pm, vsn, n, ModState { nodes: nodes1, errs: rs.errs }, Some(0));
                        lemma_prefix_trans(errs, rs.errs, rr.errs);
                        lemma_shape_trans(nodes, nodes1, rr.nodes);
                    }
                    let st = spec_chk_chain(
                        Env { atoms: rr.atoms, ..env },
                        m,
                        n,
                        ChkState { nodes: rr.nodes, errs: rr.errs, res: true },
                        Some(0),
                        None,
                        seq![top],
                        0,
                        canonical,
                    );
                    lemma_chk_chain(
                        Env { atoms: rr.atoms, ..env },
                        m,
                        n,
                        ChkState { nodes: rr.nodes, errs: rr.errs, res: true },
                        Some(0),
                        None,
                        seq![top],
                        0,
                        canonical,
                    );
                    lemma_prefix_trans(errs, rr.errs, st.errs);
                    lemma_shape_trans(nodes, rr.nodes, st.nodes);
                },
            },
        }
    }
}


/// A rule that allows its statement at most once takes the first statement
/// that matches it, and refuses a second one with "already given".
pub proof fn law_once_only<F: Fn(&[u8], &[u8]) -> bool>(
    env: Env,
    m: F,
    s: StmtNode,
    rules: Seq<YangStatementRule>,
    start: int,
    canonical: bool,
    errs: Seq<ErrorRecord>,
)
    requires
        0 <= start < rules.len(),
        spec_rule_match(env.gs, env.ts, m, s, rules[start]),
        rules[start].occurance == OCC_ONE || rules[start].occurance == OCC_OPTIONAL,
        rules[start].min_yang_version <= s.yang_version,
    ensures
        ({
            let r1 = spec_match_from(env, m, s, rules, start, start, canonical, errs);
            let r2 = spec_match_from(env, m, s, r1.rules, r1.start, r1.start, canonical, r1.errs);
            &&& r1.ok
            &&& r1.found == start
            &&& r1.errs == errs
            &&& !r2.ok
            &&& r2.errs == stmt_report(env, errs, s, YANG_ERR_GRAMMAR_KEYWORD_ALREADY_FOUND, msg_already(stmt_kw(env.atoms, s)))
        }),
{
    let r1 = spec_match_from(env, m, s, rules, start, start, canonical, errs);
    assert(r1.rules == rules.update(start, with_occ(rules[start], OCC_DONE)));
    assert(r1.rules[start] == with_occ(rules[start], OCC_DONE));
}

/// A rule that allows its statement any number of times matches it again
/// and again, without error.
pub proof fn law_repeatable<F: Fn(&[u8], &[u8]) -> bool>(
    env: Env,
    m: F,
    s: StmtNode,
    rules: Seq<YangStatementRule>,
    start: int,
    canonical: bool,
    errs: Seq<ErrorRecord>,
)
    requires
        0 <= start < rules.len(),
        spec_rule_match(env.gs, env.ts, m, s, rules[start]),
        rules[start].occurance == OCC_ANY || rules[start].occurance == OCC_MANY,
        rules[start].min_yang_version <= s.yang_version,
    ensures
        ({
            let r1 = spec_match_from(env, m, s, rules, start, start, canonical, errs);
            let r2 = spec_match_from(env, m, s, r1.rules, r1.start, r1.start, canonical, r1.errs);
            &&& r1.ok && r1.found == start && r1.errs == errs
            &&& r2.ok && r2.found == start && r2.errs == errs
            &&& r2.rules[start].occurance == OCC_ANY
        }),
{
    let r1 = spec_match_from(env, m, s, rules, start, start, canonical, errs);
    if rules[start].occurance == OCC_MANY {
        assert(r1.rules[start] == with_occ(rules[start], OCC_ANY));
    }
}

/// The result of matching statement `s` at rule `i` of its block, where the
/// rule allows it: the rule now allows it no more (once-only rules) or any
/// number of times more (repeatable rules).
pub open spec fn matched_at(rules: Seq<YangStatementRule>, i: int) -> Seq<YangStatementRule> {
    if rules[i].occurance == OCC_ONE || rules[i].occurance == OCC_OPTIONAL {
        rules.update(i, with_occ(rules[i], OCC_DONE))
    } else {
        rules.update(i, with_occ(rules[i], OCC_ANY))
    }
}

proof fn lemma_first_match<F: Fn(&[u8], &[u8]) -> bool>(
    env: Env,
    m: F,
    s: StmtNode,
    rules: Seq<YangStatementRule>,
    start: int,
    k: int,
    i: int,
    errs: Seq<ErrorRecord>,
)
    requires
        0 <= start <= k <= i < rules.len(),
        s.prefix is None,
        forall|j: int| start <= j < i ==> !spec_rule_match(env.gs, env.ts, m, s, #[trigger] rules[j])
            && Some(rules[j].keyword) != env.am.sp_cut,
        spec_rule_match(env.gs, env.ts, m, s, rules[i]),
        rules[i].min_yang_version <= s.yang_version,
        rules[i].occurance == OCC_ONE || rules[i].occurance == OCC_OPTIONAL
            || rules[i].occurance == OCC_MANY || rules[i].occurance == OCC_ANY,
    ensures
        spec_match_from(env, m, s, rules, start, k, false, errs)
            == (MatchResult { ok: true, rules: matched_at(rules, i), start, found: i, errs }),
    decreases i - k,
{
    if k < i {
        assert(!spec_rule_match(env.gs, env.ts, m, s, rules[k]));
        lemma_first_match(env, m, s, rules, start, k + 1, i, errs);
    } else if rules[i].occurance == OCC_ANY {
        assert(rules.update(i, with_occ(rules[i], OCC_ANY)) =~= rules);
    }
}

/// Matching a statement without a prefix, outside canonical order, goes to
/// the first rule from the start of the current group that the statement
/// matches, as long as no cut lies before it: a rule that allows the
/// statement there (once, optionally, one or more times, any number of
/// times) takes it without an error; the rule then allows it no more, or any
/// number of times more, and every other rule and the group's start stay as
/// they were.
pub proof fn law_first_match<F: Fn(&[u8], &[u8]) -> bool>(
    env: Env,
    m: F,
    s: StmtNode,
    rules: Seq<YangStatementRule>,
    start: int,
    i: int,
    errs: Seq<ErrorRecord>,
)
    requires
        0 <= start <= i < rules.len(),
        s.prefix is None,
        forall|j: int| start <= j < i ==> !spec_rule_match(env.gs, env.ts, m, s, #[trigger] rules[j])
            && Some(rules[j].keyword) != env.am.sp_cut,
        spec_rule_match(env.gs, env.ts, m, s, rules[i]),
        rules[i].min_yang_version <= s.yang_version,
        rules[i].occurance == OCC_ONE || rules[i].occurance == OCC_OPTIONAL
            || rules[i].occurance == OCC_MANY || rules[i].occurance == OCC_ANY,
    ensures
        ({
            let r = spec_match_from(env, m, s, rules, start, start, false, errs);
            &&& r.ok && r.found == i && r.start == start && r.errs == errs
            &&& r.rules.len() == rules.len()
            &&& r.rules[i] == with_occ(rules[i], if rules[i].occurance == OCC_ONE || rules[i].occurance == OCC_OPTIONAL {
                OCC_DONE
            } else {
                OCC_ANY
            })
            &&& forall|j: int| 0 <= j < rules.len() && j != i ==> #[trigger] r.rules[j] == rules[j]
        }),
{
    lemma_first_match(env, m, s, rules, start, start, i, errs);
}

/// The rules with those from `k` up to `i` marked as passed over.
pub open spec fn passed_over(rules: Seq<YangStatementRule>, k: int, i: int) -> Seq<YangStatementRule> {
    Seq::new(rules.len(), |x: int| if k <= x < i { with_occ(rules[x], OCC_PASSED) } else { rules[x] })
}

proof fn lemma_pass_over<F: Fn(&[u8], &[u8]) -> bool>(
    env: Env,
    m: F,
    s: StmtNode,
    rules: Seq<YangStatementRule>,
    start: int,
    k: int,
    i: int,
    errs: Seq<ErrorRecord>,
)
    requires
        0 <= k <= i <= rules.len(),
        s.prefix is None,
        forall|x: int| k <= x < i ==> !spec_rule_match(env.gs, env.ts, m, s, #[trigger] rules[x])
            && Some(rules[x].keyword) != env.am.sp_cut && !required(rules[x]),
    ensures
        spec_match_from(env, m, s, rules, start, k, true, errs)
            == spec_match_from(env, m, s, passed_over(rules, k, i), start, i, true, errs),
    decreases i - k,
{
    if k < i {
        let r2 = rules.update(k, with_occ(rules[k], OCC_PASSED));
        assert(!spec_rule_match(env.gs, env.ts, m, s, rules[k]));
        assert forall|x: int| k + 1 <= x < i implies !spec_rule_match(env.gs, env.ts, m, s, #[trigger] r2[x])
            && Some(r2[x].keyword) != env.am.sp_cut && !required(r2[x]) by {
            assert(r2[x] == rules[x]);
        }
        lemma_pass_over(env, m, s, r2, start, k + 1, i, errs);
        assert(passed_over(r2, k + 1, i) =~= passed_over(rules, k, i));
    } else {
        assert(passed_over(rules, k, k) =~= rules);
    }
}

/// Canonical order holds across the statements of a block: once a statement
/// has matched rule `i`, passing over the optional rules before it from the
/// start of the group, a later statement whose first matching rule of the
/// group is some `j < i` is refused with "unexpected keyword", and nothing
/// else is reported for it.
pub proof fn law_canonical_order<F: Fn(&[u8], &[u8]) -> bool>(
    env: Env,
    m: F,
    s1: StmtNode,
    s2: StmtNode,
    rules: Seq<YangStatementRule>,
    start: int,
    i: int,
    j: int,
    errs: Seq<ErrorRecord>,
)
    requires
        0 <= start <= j < i < rules.len(),
        s1.prefix is None,
        s2.prefix is None,
        forall|x: int| start <= x < i ==> !spec_rule_match(env.gs, env.ts, m, s1, #[trigger] rules[x])
            && Some(rules[x].keyword) != env.am.sp_cut && !required(rules[x]),
        spec_rule_match(env.gs, env.ts, m, s1, rules[i]),
        rules[i].occurance == OCC_ONE || rules[i].occurance == OCC_OPTIONAL
            || rules[i].occurance == OCC_MANY || rules[i].occurance == OCC_ANY,
        forall|x: int| start <= x < j ==> !spec_rule_match(env.gs, env.ts, m, s2, #[trigger] rules[x]),
        spec_rule_match(env.gs, env.ts, m, s2, rules[j]),
        rules[j].min_yang_version <= s2.yang_version,
    ensures
        ({
            let r1 = spec_match_from(env, m, s1, rules, start, start, true, errs);
            let r2 = spec_match_from(env, m, s2, r1.rules, r1.start, r1.start, true, r1.errs);
            &&& r1.ok && r1.found == i && r1.start == start
            &&& !r2.ok
            &&& r2.errs == stmt_report(env, r1.errs, s2, YANG_ERR_GRAMMAR_UNEXPECTED_KEYWORD, msg_unexpected(stmt_kw(env.atoms, s2)))
        }),
{
    lemma_pass_over(env, m, s1, rules, start, start, i, errs);
    let p1 = passed_over(rules, start, i);
    assert(p1[i] == rules[i]);
    let r1 = spec_match_from(env, m, s1, rules, start, start, true, errs);
    assert(r1.rules.len() == rules.len());
    assert forall|x: int| start <= x <= j implies #[trigger] r1.rules[x] == with_occ(rules[x], OCC_PASSED) by {
        assert(r1.rules[x] == p1[x]);
    }
    assert forall|x: int| start <= x < j implies !spec_rule_match(env.gs, env.ts, m, s2, #[trigger] r1.rules[x])
        && Some(r1.rules[x].keyword) != env.am.sp_cut && !required(r1.rules[x]) by {
        assert(r1.rules[x] == with_occ(rules[x], OCC_PASSED));
        assert(!spec_rule_match(env.gs, env.ts, m, s2, rules[x]));
    }
    lemma_pass_over(env, m, s2, r1.rules, start, start, j, r1.errs);
    let p2 = passed_over(r1.rules, start, j);
    assert(p2[j] == with_occ(rules[j], OCC_PASSED));
    assert(spec_rule_match(env.gs, env.ts, m, s2, p2[j]));
}

/// At the end of a block the check fails exactly when some rule that must
/// still occur (once, or one or more times) was never met, or it had failed
/// before.  Each report made there is "expected keyword" (201) at the parent
/// statement; with no parent nothing is reported.  The statements and the
/// errors reported before stay as they were.
pub proof fn law_block_end(env: Env, st: ChkState, parent: Option<int>, rules: Seq<YangStatementRule>)
    ensures
        ({
            let r = spec_block_end(env, st, parent, rules, 0);
            &&& r.nodes == st.nodes
            &&& st.errs.is_prefix_of(r.errs)
            &&& r.res == (st.res && forall|j: int| 0 <= j < rules.len() ==> !required(#[trigger] rules[j]))
            &&& forall|x: int| st.errs.len() <= x < r.errs.len() ==> (#[trigger] r.errs[x]).code == YANG_ERR_GRAMMAR_EXPECTED_KEYWORD
            &&& parent is None ==> r.errs == st.errs
        }),
{
    lemma_block_end(env, st, parent, rules, 0);
}

/// Checking the argument of statement `i` against the specification `sub`
/// of the rule `r` it matched: an argument type with no argument is
/// "missing argument" (205); an argument where none is expected is
/// "unexpected argument" (206); either fails the check and changes no
/// statement.  With both, the statement gets the argument type (none when
/// the index is out of range), and when the type's validator refuses the
/// argument the check fails with "bad argument" (207).  With neither, nothing
/// changes.  Only the argument type of statement `i` can change.
pub proof fn law_arg_check<F: Fn(&[u8], &[u8]) -> bool>(
    env: Env,
    m: F,
    st: ChkState,
    i: int,
    sub: SpecV,
    r: YangStatementRule,
)
    requires
        0 <= i < st.nodes.len(),
    ensures
        ({
            let o = spec_arg_check(env, m, st, i, sub, r);
            let s = st.nodes[i];
            &&& (sub.arg_type_idx != -1 && s.arg is None) ==> !o.res && o.nodes == st.nodes
                && o.errs == stmt_report(env, st.errs, s, YANG_ERR_GRAMMAR_MISSING_ARGUMENT, msg_missing(rule_kw(env.atoms, r)))
            &&& (sub.arg_type_idx == -1 && s.arg is Some) ==> !o.res && o.nodes == st.nodes
                && o.errs == stmt_report(env, st.errs, s, YANG_ERR_GRAMMAR_UNEXPECTED_ARGUMENT,
                    msg_unexpected_arg(rule_kw(env.atoms, r), lossy_text(s.arg->0)))
            &&& (sub.arg_type_idx == -1 && s.arg is None) ==> o == st
            &&& (sub.arg_type_idx != -1 && s.arg is Some) ==> {
                &&& o.nodes == st.nodes.update(i, StmtNode {
                    arg_type: if 0 <= sub.arg_type_idx < env.ts.len() { Some(sub.arg_type_idx as int) } else { None },
                    ..s
                })
                &&& (!o.res || o.res == st.res)
                &&& (o.errs.len() > st.errs.len() ==> !o.res)
                &&& o.errs.len() <= st.errs.len() + 1
                &&& (0 <= sub.arg_type_idx < env.ts.len()
                    && env.ts[sub.arg_type_idx as int].flags & F_ARG_TYPE_SYNTAX_CB != 0 ==> match env.ts[sub.arg_type_idx as int].syntax {
                        SyntaxV::Callback(v, p) => !spec_validate(m, v, p, s.arg, s.yang_version).0 ==> !o.res,
                        _ => true,
                    })
                &&& forall|x: int| st.errs.len() <= x < o.errs.len() ==> (#[trigger] o.errs[x]).code == YANG_ERR_GRAMMAR_BAD_ARGUMENT
            }
            &&& st.errs.is_prefix_of(o.errs)
        }),
{
    lemma_arg_check(env, m, st, i, sub, r);
    let o = spec_arg_check(env, m, st, i, sub, r);
    if sub.arg_type_idx != -1 && st.nodes[i].arg is Some {
        if o.errs.len() > st.errs.len() {
            assert(!o.res);
        }
    }
}

/// Checking the statements of a block never takes back an error, never
/// makes a failed check succeed, and changes only the module and argument
/// type of statements: their keywords, prefixes, arguments, lines and links
/// stay as they were.
pub proof fn law_chk_chain_keeps<F: Fn(&[u8], &[u8]) -> bool>(
    env: Env,
    m: F,
    n: int,
    st: ChkState,
    cur: Option<int>,
    parent: Option<int>,
    rules: Seq<YangStatementRule>,
    start: int,
    canonical: bool,
)
    ensures
        st.errs.is_prefix_of(spec_chk_chain(env, m, n, st, cur, parent, rules, start, canonical).errs),
        same_shape(st.nodes, spec_chk_chain(env, m, n, st, cur, parent, rules, start, canonical).nodes),
        !st.res ==> !spec_chk_chain(env, m, n, st, cur, parent, rules, start, canonical).res,
{
    lemma_chk_chain(env, m, n, st, cur, parent, rules, start, canonical);
}

proof fn lemma_find_prefix_push(pm: Seq<PrefixEntry>, e: PrefixEntry, p: int, k: int)
    requires
        0 <= k <= pm.len(),
        find_prefix(pm, p, k) is None,
        e.prefix as int == p,
    ensures
        find_prefix(pm.push(e), p, k) == Some(pm.len() as int),
    decreases pm.len() - k,
{
    if k < pm.len() {
        lemma_find_prefix_push(pm, e, p, k + 1);
    }
}

/// A prefix declared a second time is reported as a duplicate, with the line
/// of its first declaration, and the declared prefixes stay as the first
/// declaration left them: that one added the prefix, for its module and at
/// its line, after those declared before.
pub proof fn law_prefix_twice(env: Env, rs: RState, s1: StmtNode, s2: StmtNode, mn1: Option<Atom>, mn2: Option<Atom>, a: Seq<u8>)
    requires
        spec_table_wf(rs.atoms),
        rs.atoms.len() + 1 < usize::MAX,
        !a.contains(0u8),
        s1.arg == Some(a),
        s2.arg == Some(a),
        find_prefix(rs.pm, spec_intern(rs.atoms, a).1, 0) is None,
    ensures
        ({
            let r1 = spec_add_prefix(env, rs, s1, mn1);
            let r2 = spec_add_prefix(env, r1, s2, mn2);
            let p = spec_intern(rs.atoms, a).1;
            &&& r1.pm == rs.pm.push(PrefixEntry { prefix: p as Atom, module_name: mn1, line: s1.line as i32 })
            &&& r1.errs == rs.errs
            &&& r2.pm == r1.pm
            &&& r2.atoms == r1.atoms
            &&& r2.errs == stmt_report(env, r1.errs, s2, YANG_ERR_GRAMMAR_DUPLICATE_PREFIX,
                msg_dup_prefix(atom_text(r1.atoms, p), fname_text(env.filename), s1.line as i32 as int))
        }),
{
    law_intern_idempotent(rs.atoms, a);
    lemma_intern(rs.atoms, a);
    let p = spec_intern(rs.atoms, a).1;
    let e = PrefixEntry { prefix: p as Atom, module_name: mn1, line: s1.line as i32 };
    lemma_find_prefix_push(rs.pm, e, p, 0);
}

/// What the contract of `lossy_utf8` promises of each call, as a property of
/// the text it names: bytes without a NUL give text without one.
pub open spec fn lossy_keeps_nul_free() -> bool {
    forall|b: Seq<u8>| !b.contains(0u8) ==> !(#[trigger] lossy_text(b)).contains(0u8)
}

pub open spec fn nul_free(b: Seq<u8>) -> bool {
    !b.contains(0u8)
}

/// Some error (a code below 1000) stands in `e` from place `k` on.
pub open spec fn err_after(e: Seq<ErrorRecord>, k: int) -> bool {
    exists|x: int| 0 <= x && k <= x < e.len() && #[trigger] e[x].code < YANG_FIRST_WARNING
}

/// No statement's argument holds a NUL byte.
pub open spec fn args_nul_free(nodes: Seq<StmtNode>) -> bool {
    forall|k: int| 0 <= k < nodes.len() ==> match (#[trigger] nodes[k]).arg {
        Some(a) => nul_free(a),
        None => true,
    }
}

proof fn lemma_cat_nf(a: Seq<u8>, b: Seq<u8>)
    requires
        nul_free(a),
        nul_free(b),
    ensures
        nul_free(a + b),
{
    assert forall|i: int| 0 <= i < (a + b).len() implies (a + b)[i] != 0u8 by {
        if i < a.len() {
            assert((a + b)[i] == a[i]);
        } else {
            assert((a + b)[i] == b[i - a.len()]);
        }
    }
}

proof fn lemma_err_after_grow(e: Seq<ErrorRecord>, e2: Seq<ErrorRecord>, k: int, k2: int)
    requires
        err_after(e, k),
        e.is_prefix_of(e2),
        k2 <= k,
    ensures
        err_after(e2, k2),
{
    let x = choose|x: int| 0 <= x && k <= x < e.len() && #[trigger] e[x].code < YANG_FIRST_WARNING;
    assert(e.len() <= e2.len());
    assert(e =~= e2.subrange(0, e.len() as int));
    assert(e[x] == e2.subrange(0, e.len() as int)[x]);
    assert(e2[x].code < YANG_FIRST_WARNING);
}

proof fn lemma_report_err(env: Env, errs: Seq<ErrorRecord>, s: StmtNode, code: i32, msg: Seq<u8>)
    requires
        nul_free(msg),
        code < YANG_FIRST_WARNING,
    ensures
        err_after(stmt_report(env, errs, s, code, msg), errs.len() as int),
        errs.is_prefix_of(stmt_report(env, errs, s, code, msg)),
{
    let r = stmt_report(env, errs, s, code, msg);
    assert(r[errs.len() as int].code == code);
    lemma_report(env, errs, s, code, msg);
}

proof fn lemma_literals()
    ensures
        nul_free("unexpected keyword '".spec_bytes()),
        nul_free("'".spec_bytes()),
        nul_free("keyword '".spec_bytes()),
        nul_free("' already given".spec_bytes()),
        nul_free("expected keyword '".spec_bytes()),
        nul_free("' before '".spec_bytes()),
        nul_free("missing argument to '".spec_bytes()),
        nul_free("did not expect an argument to '".spec_bytes()),
        nul_free("', got \"".spec_bytes()),
        nul_free("\"".spec_bytes()),
        nul_free("bad argument value \"".spec_bytes()),
        nul_free("\", should be of type ".spec_bytes()),
        nul_free("' as substatement to '".spec_bytes()),
        nul_free("top-level grammar rule not found".spec_bytes()),
{
    reveal_strlit("unexpected keyword '");
    lemma_no_nul("unexpected keyword '");
    reveal_strlit("'");
    lemma_no_nul("'");
    reveal_strlit("keyword '");
    lemma_no_nul("keyword '");
    reveal_strlit("' already given");
    lemma_no_nul("' already given");
    reveal_strlit("expected keyword '");
    lemma_no_nul("expected keyword '");
    reveal_strlit("' before '");
    lemma_no_nul("' before '");
    reveal_strlit("missing argument to '");
    lemma_no_nul("missing argument to '");
    reveal_strlit("did not expect an argument to '");
    lemma_no_nul("did not expect an argument to '");
    reveal_strlit("', got \"");
    lemma_no_nul("', got \"");
    reveal_strlit("\"");
    lemma_no_nul("\"");
    reveal_strlit("bad argument value \"");
    lemma_no_nul("bad argument value \"");
    reveal_strlit("\", should be of type ");
    lemma_no_nul("\", should be of type ");
    reveal_strlit("' as substatement to '");
    lemma_no_nul("' as substatement to '");
    reveal_strlit("top-level grammar rule not found");
    lemma_no_nul("top-level grammar rule not found");
}

proof fn lemma_atom_text_nf(atoms: Seq<Seq<u8>>, a: int)
    requires
        lossy_keeps_nul_free(),
        spec_table_wf(atoms),
    ensures
        nul_free(atom_text(atoms, a)),
{
    if 0 <= a < atoms.len() {
        assert(!atoms[a].contains(0u8));
        assert(!lossy_text(atoms[a]).contains(0u8));
    }
}

proof fn lemma_kw_nf(atoms: Seq<Seq<u8>>, pre: Option<int>, kw: int)
    requires
        lossy_keeps_nul_free(),
        spec_table_wf(atoms),
    ensures
        nul_free(kw_bytes(atoms, pre, kw)),
{
    lemma_atom_text_nf(atoms, kw);
    if let Some(p) = pre {
        lemma_atom_text_nf(atoms, p);
        assert(nul_free(seq![58u8]));
        lemma_cat_nf(atom_text(atoms, p), seq![58u8]);
        lemma_cat_nf(atom_text(atoms, p) + seq![58u8], atom_text(atoms, kw));
    }
}

proof fn lemma_first_required(rules: Seq<YangStatementRule>, j: int, i: int)
    ensures
        first_required(rules, j, i) matches Some(k) ==> 0 <= j <= k < i && k < rules.len(),
    decreases i - j,
{
    if 0 <= j < i && j < rules.len() && !required(rules[j]) {
        lemma_first_required(rules, j + 1, i);
    }
}

proof fn lemma_match_reports<F: Fn(&[u8], &[u8]) -> bool>(
    env: Env,
    m: F,
    s: StmtNode,
    rules: Seq<YangStatementRule>,
    start: int,
    i: int,
    canonical: bool,
    errs: Seq<ErrorRecord>,
)
    requires
        lossy_keeps_nul_free(),
        spec_table_wf(env.atoms),
    ensures
        !spec_match_from(env, m, s, rules, start, i, canonical, errs).ok
            ==> err_after(spec_match_from(env, m, s, rules, start, i, canonical, errs).errs, errs.len() as int),
        spec_match_from(env, m, s, rules, start, i, canonical, errs).rules.len() == rules.len(),
        forall|k: int| 0 <= k < rules.len() && required(#[trigger] spec_match_from(env, m, s, rules, start, i, canonical, errs).rules[k])
            ==> required(rules[k]),
    decreases rules.len() - i,
{
    lemma_match_from(env, m, s, rules, start, i, canonical, errs);
    lemma_literals();
    let kw = stmt_kw(env.atoms, s);
    lemma_kw_nf(env.atoms, s.prefix, s.keyword);
    lemma_cat_nf("unexpected keyword '".spec_bytes(), kw);
    lemma_cat_nf("unexpected keyword '".spec_bytes() + kw, "'".spec_bytes());
    lemma_cat_nf("keyword '".spec_bytes(), kw);
    lemma_cat_nf("keyword '".spec_bytes() + kw, "' already given".spec_bytes());
    if i < 0 || i >= rules.len() {
        lemma_report_err(env, errs, s, YANG_ERR_GRAMMAR_UNEXPECTED_KEYWORD, msg_unexpected(kw));
    } else {
        let r = rules[i];
        if spec_rule_match(env.gs, env.ts, m, s, r) {
            let errs1 = if r.min_yang_version > s.yang_version {
                stmt_report(env, errs, s, YANG_ERR_GRAMMAR_UNEXPECTED_KEYWORD, msg_not_valid(kw, s.yang_version))
            } else {
                errs
            };
            lemma_report(env, errs, s, YANG_ERR_GRAMMAR_UNEXPECTED_KEYWORD, msg_not_valid(kw, s.yang_version));
            lemma_prefix_refl(errs);
            lemma_report_err(env, errs1, s, YANG_ERR_GRAMMAR_KEYWORD_ALREADY_FOUND, msg_already(kw));
            lemma_report_err(env, errs1, s, YANG_ERR_GRAMMAR_UNEXPECTED_KEYWORD, msg_unexpected(kw));
            if r.occurance == OCC_ONE || r.occurance == OCC_OPTIONAL || r.occurance == OCC_ANY || r.occurance == OCC_MANY
                || r.occurance == OCC_DONE || r.occurance == OCC_PASSED {
                lemma_prefix_refl(stmt_report(env, errs1, s, YANG_ERR_GRAMMAR_KEYWORD_ALREADY_FOUND, msg_already(kw)));
                lemma_prefix_refl(stmt_report(env, errs1, s, YANG_ERR_GRAMMAR_UNEXPECTED_KEYWORD, msg_unexpected(kw)));
                if r.occurance == OCC_DONE {
                    lemma_err_after_grow(stmt_report(env, errs1, s, YANG_ERR_GRAMMAR_KEYWORD_ALREADY_FOUND, msg_already(kw)),
                        stmt_report(env, errs1, s, YANG_ERR_GRAMMAR_KEYWORD_ALREADY_FOUND, msg_already(kw)), errs1.len() as int, errs.len() as int);
                } else if r.occurance == OCC_PASSED {
                    lemma_err_after_grow(stmt_report(env, errs1, s, YANG_ERR_GRAMMAR_UNEXPECTED_KEYWORD, msg_unexpected(kw)),
                        stmt_report(env, errs1, s, YANG_ERR_GRAMMAR_UNEXPECTED_KEYWORD, msg_unexpected(kw)), errs1.len() as int, errs.len() as int);
                }
            } else {
                lemma_match_reports(env, m, s, rules, start, i + 1, canonical, errs1);
                let rr = spec_match_from(env, m, s, rules, start, i + 1, canonical, errs1);
                if !rr.ok {
                    lemma_prefix_refl(rr.errs);
                    lemma_err_after_grow(rr.errs, rr.errs, errs1.len() as int, errs.len() as int);
                }
            }
        } else if s.prefix is Some {
            lemma_match_reports(env, m, s, rules, start, i + 1, false, errs);
        } else if Some(r.keyword) == env.am.sp_cut {
            lemma_first_required(rules, start, i);
            match first_required(rules, start, i) {
                Some(j) => {
                    let rk = rule_kw(env.atoms, rules[j]);
                    lemma_kw_nf(env.atoms, opt_int(rules[j].module_name), rules[j].keyword as int);
                    lemma_cat_nf("expected keyword '".spec_bytes(), rk);
                    lemma_cat_nf("expected keyword '".spec_bytes() + rk, "'".spec_bytes());
                    lemma_report_err(env, errs, s, YANG_ERR_GRAMMAR_EXPECTED_KEYWORD, msg_expected(rk));
                },
                None => {
                    lemma_match_reports(env, m, s, rules, i + 1, i + 1, canonical, errs);
                },
            }
        } else if canonical {
            if required(r) {
                let rk = rule_kw(env.atoms, r);
                lemma_kw_nf(env.atoms, opt_int(r.module_name), r.keyword as int);
                lemma_cat_nf("expected keyword '".spec_bytes(), rk);
                lemma_cat_nf("expected keyword '".spec_bytes() + rk, "' before '".spec_bytes());
                lemma_cat_nf("expected keyword '".spec_bytes() + rk + "' before '".spec_bytes(), kw);
                lemma_cat_nf("expected keyword '".spec_bytes() + rk + "' before '".spec_bytes() + kw, "'".spec_bytes());
                lemma_report_err(env, errs, s, YANG_ERR_GRAMMAR_EXPECTED_KEYWORD, msg_expected_before(rk, kw));
            } else {
                let rules2 = rules.update(i, with_occ(r, OCC_PASSED));
                lemma_match_reports(env, m, s, rules2, start, i + 1, canonical, errs);
                let rr = spec_match_from(env, m, s, rules2, start, i + 1, canonical, errs);
                assert forall|k: int| 0 <= k < rules.len() && required(#[trigger] rr.rules[k]) implies required(rules[k]) by {
                    assert(required(rules2[k]));
                }
            }
        } else {
            lemma_match_reports(env, m, s, rules, start, i + 1, canonical, errs);
        }
    }
}

proof fn lemma_stored_nf(msg: Seq<u8>, cap: usize)
    requires
        nul_free(msg),
        cap >= 1,
    ensures
        nul_free(spec_stored_msg(msg, cap)),
{
    if msg.len() + 1 > cap {
        let t = msg.subrange(0, cap - 1);
        assert forall|i: int| 0 <= i < t.len() implies t[i] != 0u8 by {
            assert(t[i] == msg[i]);
        }
    }
}

proof fn lemma_arg_reports<F: Fn(&[u8], &[u8]) -> bool>(
    env: Env,
    m: F,
    st: ChkState,
    i: int,
    sub: SpecV,
    r: YangStatementRule,
)
    requires
        lossy_keeps_nul_free(),
        spec_table_wf(env.atoms),
        env.cap >= 1,
        0 <= i < st.nodes.len(),
        args_nul_free(st.nodes),
    ensures
        !spec_arg_check(env, m, st, i, sub, r).res ==> !st.res || err_after(spec_arg_check(env, m, st, i, sub, r).errs, st.errs.len() as int),
{
    lemma_literals();
    let s = st.nodes[i];
    let rk = rule_kw(env.atoms, r);
    lemma_kw_nf(env.atoms, opt_int(r.module_name), r.keyword as int);
    if sub.arg_type_idx != -1 && s.arg is Some {
        let a = s.arg->0;
        assert(nul_free(a));
        let at_idx = if 0 <= sub.arg_type_idx < env.ts.len() { Some(sub.arg_type_idx as int) } else { None };
        let st1 = ChkState { nodes: st.nodes.update(i, StmtNode { arg_type: at_idx, ..s }), ..st };
        if let Some(k) = at_idx {
            let at = env.ts[k];
            if at.flags & F_ARG_TYPE_SYNTAX_CB != 0 {
                if let SyntaxV::Callback(v, p) = at.syntax {
                    let vr = spec_validate(m, v, p, s.arg, s.yang_version);
                    if !vr.0 {
                        let et = err_text(vr.1, env.cap);
                        if let Some(mm) = vr.1 {
                            if !mm.contains(0u8) {
                                lemma_stored_nf(mm, env.cap);
                            }
                        }
                        assert(nul_free(et));
                        let text = if et.len() == 0 {
                            msg_bad_arg(lossy_text(a), atom_text(env.atoms, at.name as int))
                        } else {
                            lossy_text(et)
                        };
                        assert(nul_free(lossy_text(a)));
                        assert(nul_free(lossy_text(et)));
                        lemma_atom_text_nf(env.atoms, at.name as int);
                        lemma_cat_nf("bad argument value \"".spec_bytes(), lossy_text(a));
                        lemma_cat_nf("bad argument value \"".spec_bytes() + lossy_text(a), "\", should be of type ".spec_bytes());
                        lemma_cat_nf("bad argument value \"".spec_bytes() + lossy_text(a) + "\", should be of type ".spec_bytes(),
                            atom_text(env.atoms, at.name as int));
                        lemma_report_err(env, st1.errs, s, YANG_ERR_GRAMMAR_BAD_ARGUMENT, text);
                    }
                }
            }
        }
    } else if sub.arg_type_idx != -1 {
        lemma_cat_nf("missing argument to '".spec_bytes(), rk);
        lemma_cat_nf("missing argument to '".spec_bytes() + rk, "'".spec_bytes());
        lemma_report_err(env, st.errs, s, YANG_ERR_GRAMMAR_MISSING_ARGUMENT, msg_missing(rk));
    } else if s.arg is Some {
        let a = s.arg->0;
        assert(nul_free(a));
        assert(nul_free(lossy_text(a)));
        let l1 = "did not expect an argument to '".spec_bytes();
        lemma_cat_nf(l1, rk);
        lemma_cat_nf(l1 + rk, "', got \"".spec_bytes());
        lemma_cat_nf(l1 + rk + "', got \"".spec_bytes(), lossy_text(a));
        lemma_cat_nf(l1 + rk + "', got \"".spec_bytes() + lossy_text(a), "\"".spec_bytes());
        lemma_report_err(env, st.errs, s, YANG_ERR_GRAMMAR_UNEXPECTED_ARGUMENT, msg_unexpected_arg(rk, lossy_text(a)));
    }
}

proof fn lemma_block_reports(env: Env, st: ChkState, parent: Option<int>, rules: Seq<YangStatementRule>, k: int)
    requires
        lossy_keeps_nul_free(),
        spec_table_wf(env.atoms),
        0 <= k,
        parent matches Some(p) ==> 0 <= p < st.nodes.len(),
        parent is None ==> forall|j: int| 0 <= j < rules.len() ==> !required(#[trigger] rules[j]),
    ensures
        !spec_block_end(env, st, parent, rules, k).res ==> !st.res || err_after(spec_block_end(env, st, parent, rules, k).errs, st.errs.len() as int),
    decreases rules.len() - k,
{
    lemma_block_end(env, st, parent, rules, k);
    if k < rules.len() {
        lemma_literals();
        let st1 = if required(rules[k]) {
            ChkState {
                errs: match parent {
                    Some(p) => if 0 <= p < st.nodes.len() {
                        stmt_report(
                            env,
                            st.errs,
                            st.nodes[p],
                            YANG_ERR_GRAMMAR_EXPECTED_KEYWORD,
                            msg_expected_sub(rule_kw(env.atoms, rules[k]), stmt_kw(env.atoms, st.nodes[p])),
                        )
                    } else {
                        st.errs
                    },
                    None => st.errs,
                },
                res: false,
                ..st
            }
        } else {
            st
        };
        lemma_block_reports(env, st1, parent, rules, k + 1);
        lemma_block_end(env, st1, parent, rules, k + 1);
        let fin = spec_block_end(env, st1, parent, rules, k + 1);
        if required(rules[k]) {
            let p = parent->0;
            let rk = rule_kw(env.atoms, rules[k]);
            let pk = stmt_kw(env.atoms, st.nodes[p]);
            lemma_kw_nf(env.atoms, opt_int(rules[k].module_name), rules[k].keyword as int);
            lemma_kw_nf(env.atoms, st.nodes[p].prefix, st.nodes[p].keyword);
            let l1 = "expected keyword '".spec_bytes();
            lemma_cat_nf(l1, rk);
            lemma_cat_nf(l1 + rk, "' as substatement to '".spec_bytes());
            lemma_cat_nf(l1 + rk + "' as substatement to '".spec_bytes(), pk);
            lemma_cat_nf(l1 + rk + "' as substatement to '".spec_bytes() + pk, "'".spec_bytes());
            lemma_report_err(env, st.errs, st.nodes[p], YANG_ERR_GRAMMAR_EXPECTED_KEYWORD, msg_expected_sub(rk, pk));
            lemma_err_after_grow(st1.errs, fin.errs, st.errs.len() as int, st.errs.len() as int);
        } else {
            assert(st1 == st);
        }
    }
}

proof fn lemma_args_shape(a: Seq<StmtNode>, b: Seq<StmtNode>)
    requires
        args_nul_free(a),
        same_shape(a, b),
    ensures
        args_nul_free(b),
{
    assert forall|k: int| 0 <= k < b.len() implies match (#[trigger] b[k]).arg {
        Some(x) => nul_free(x),
        None => true,
    } by {
        assert(b[k].arg == a[k].arg);
        assert(match a[k].arg {
            Some(x) => nul_free(x),
            None => true,
        });
    }
}

proof fn lemma_chain_reports<F: Fn(&[u8], &[u8]) -> bool>(
    env: Env,
    m: F,
    n: int,
    st: ChkState,
    cur: Option<int>,
    parent: Option<int>,
    rules: Seq<YangStatementRule>,
    start: int,
    canonical: bool,
)
    requires
        lossy_keeps_nul_free(),
        spec_table_wf(env.atoms),
        env.cap >= 1,
        args_nul_free(st.nodes),
        parent matches Some(p) ==> 0 <= p < st.nodes.len(),
        parent is None ==> forall|j: int| 0 <= j < rules.len() ==> !required(#[trigger] rules[j]),
    ensures
        !spec_chk_chain(env, m, n, st, cur, parent, rules, start, canonical).res
            ==> !st.res || err_after(spec_chk_chain(env, m, n, st, cur, parent, rules, start, canonical).errs, st.errs.len() as int),
    decreases chain_measure(cur, n),
{
    let res = spec_chk_chain(env, m, n, st, cur, parent, rules, start, canonical);
    lemma_chk_chain(env, m, n, st, cur, parent, rules, start, canonical);
    if cur is Some && 0 <= cur->0 < n && cur->0 < st.nodes.len() {
        let i = cur->0;
        let s = st.nodes[i];
        let nxt = link_after(s.next, i, n);
        let g = if s.module_name is None && s.prefix is Some {
            None
        } else {
            spec_get_grammar(env.gs, as_atom(s.module_name))
        };
        if g is None {
            lemma_chain_reports(env, m, n, st, nxt, parent, rules, start, canonical);
        } else {
            let mr = spec_match_from(env, m, s, rules, start, start, canonical, st.errs);
            lemma_match_from(env, m, s, rules, start, start, canonical, st.errs);
            lemma_match_reports(env, m, s, rules, start, start, canonical, st.errs);
            if !mr.ok {
                let st1 = ChkState { errs: mr.errs, res: false, ..st };
                lemma_chk_chain(env, m, n, st1, nxt, parent, mr.rules, mr.start, canonical);
                lemma_err_after_grow(mr.errs, res.errs, st.errs.len() as int, st.errs.len() as int);
            } else {
                let r = mr.rules[mr.found];
                let st1 = ChkState { errs: mr.errs, ..st };
                match spec_of(env.gs, r.spec) {
                    None => {
                        lemma_chain_reports(env, m, n, st1, nxt, parent, mr.rules, mr.start, canonical);
                        if !res.res && st.res {
                            lemma_err_after_grow(res.errs, res.errs, st1.errs.len() as int, st.errs.len() as int);
                            lemma_prefix_refl(res.errs);
                        }
                    },
                    Some(sub) => {
                        let st2 = spec_arg_check(env, m, st1, i, sub, r);
                        lemma_arg_check(env, m, st1, i, sub, r);
                        lemma_arg_reports(env, m, st1, i, sub, r);
                        lemma_args_shape(st1.nodes, st2.nodes);
                        let st3 = spec_chk_chain(env, m, n, st2, link_after(s.substmt, i, n), Some(i), sub.rules, 0, canonical);
                        lemma_chk_chain(env, m, n, st2, link_after(s.substmt, i, n), Some(i), sub.rules, 0, canonical);
                        lemma_chain_reports(env, m, n, st2, link_after(s.substmt, i, n), Some(i), sub.rules, 0, canonical);
                        lemma_args_shape(st2.nodes, st3.nodes);
                        lemma_chk_chain(env, m, n, st3, nxt, parent, mr.rules, mr.start, canonical);
                        lemma_chain_reports(env, m, n, st3, nxt, parent, mr.rules, mr.start, canonical);
                        lemma_prefix_trans(st.errs, st1.errs, st2.errs);
                        lemma_prefix_trans(st.errs, st2.errs, st3.errs);
                        lemma_prefix_trans(st2.errs, st3.errs, res.errs);
                        lemma_prefix_refl(res.errs);
                        if !res.res && st.res {
                            if st3.res {
                                lemma_err_after_grow(res.errs, res.errs, st3.errs.len() as int, st.errs.len() as int);
                            } else if st2.res {
                                lemma_err_after_grow(st3.errs, res.errs, st2.errs.len() as int, st.errs.len() as int);
                            } else {
                                lemma_err_after_grow(st2.errs, res.errs, st1.errs.len() as int, st.errs.len() as int);
                            }
                        }
                    },
                }
            }
        }
    } else {
        lemma_block_reports(env, st, parent, rules, 0);
    }
}

proof fn lemma_add_prefix_wf(env: Env, rs: RState, s: StmtNode, mn: Option<Atom>)
    requires
        spec_table_wf(rs.atoms),
    ensures
        spec_table_wf(spec_add_prefix(env, rs, s, mn).atoms),
        rs.atoms.len() <= spec_add_prefix(env, rs, s, mn).atoms.len(),
        forall|k: int| 0 <= k < rs.atoms.len() ==> #[trigger] spec_add_prefix(env, rs, s, mn).atoms[k] == rs.atoms[k],
        rs.pm.len() <= spec_add_prefix(env, rs, s, mn).pm.len(),
        forall|k: int| 0 <= k < rs.pm.len() ==> #[trigger] spec_add_prefix(env, rs, s, mn).pm[k] == rs.pm[k],
{
    if let Some(a) = s.arg {
        lemma_intern(rs.atoms, a);
    }
}

proof fn lemma_collect_wf(env: Env, n: int, nodes: Seq<StmtNode>, root_arg: Option<Seq<u8>>, np: int, rs: RState, cur: Option<int>)
    requires
        spec_table_wf(rs.atoms),
    ensures
        spec_table_wf(spec_collect(env, n, nodes, root_arg, np, rs, cur).atoms),
        rs.atoms.len() <= spec_collect(env, n, nodes, root_arg, np, rs, cur).atoms.len(),
        forall|k: int| 0 <= k < rs.atoms.len() ==> #[trigger] spec_collect(env, n, nodes, root_arg, np, rs, cur).atoms[k] == rs.atoms[k],
        rs.pm.len() <= spec_collect(env, n, nodes, root_arg, np, rs, cur).pm.len(),
        forall|k: int| 0 <= k < rs.pm.len() ==> #[trigger] spec_collect(env, n, nodes, root_arg, np, rs, cur).pm[k] == rs.pm[k],
    decreases chain_measure(cur, n),
{
    if cur is Some && 0 <= cur->0 < n && cur->0 < nodes.len() && rs.pm.len() < np {
        let i = cur->0;
        let s = nodes[i];
        let kw = Some(s.keyword as Atom);
        let rs1 = if s.prefix is Some {
            rs
        } else if kw == env.am.prefix && root_arg is Some {
            let r0 = spec_intern(rs.atoms, root_arg->0);
            lemma_intern(rs.atoms, root_arg->0);
            lemma_add_prefix_wf(env, RState { atoms: r0.0, ..rs }, s, Some(r0.1 as Atom));
            spec_add_prefix(env, RState { atoms: r0.0, ..rs }, s, Some(r0.1 as Atom))
        } else if (kw == env.am.belongs_to || kw == env.am.import) && s.arg is Some {
            match find_sub_prefix(env.am, nodes, n, link_after(s.substmt, i, n)) {
                Some(j) => {
                    let r0 = spec_intern(rs.atoms, s.arg->0);
                    lemma_intern(rs.atoms, s.arg->0);
                    lemma_add_prefix_wf(env, RState { atoms: r0.0, ..rs }, nodes[j], Some(r0.1 as Atom));
                    spec_add_prefix(env, RState { atoms: r0.0, ..rs }, nodes[j], Some(r0.1 as Atom))
                },
                None => rs,
            }
        } else {
            rs
        };
        lemma_collect_wf(env, n, nodes, root_arg, np, rs1, link_after(s.next, i, n));
    }
}

proof fn lemma_find_prefix_none(pm: Seq<PrefixEntry>, p: int, k: int)
    requires
        0 <= k,
        forall|x: int| k <= x < pm.len() ==> (#[trigger] pm[x]).prefix as int != p,
    ensures
        find_prefix(pm, p, k) is None,
    decreases pm.len() - k,
{
    if k < pm.len() {
        lemma_find_prefix_none(pm, p, k + 1);
    }
}

proof fn lemma_find_prefix_ext(pm: Seq<PrefixEntry>, pm2: Seq<PrefixEntry>, p: int, k: int)
    requires
        0 <= k,
        find_prefix(pm, p, k) is Some,
        pm.len() <= pm2.len(),
        forall|x: int| 0 <= x < pm.len() ==> #[trigger] pm2[x] == pm[x],
    ensures
        find_prefix(pm2, p, k) == find_prefix(pm, p, k),
    decreases pm.len() - k,
{
    if k < pm.len() && pm[k].prefix as int != p {
        lemma_find_prefix_ext(pm, pm2, p, k + 1);
    }
}

/// A prefix declared inside `belongs-to X` or `import X` stands for the
/// module X: where such a statement names X and its first unprefixed
/// `prefix` substatement declares a prefix `p` not declared before,
/// collecting the prefixes from that statement on adds, right after those
/// declared before, the entry that `p` is found by from then on: its module
/// is the atom of X, whatever module holds the statement, and its line is
/// that of the `prefix` statement.
pub proof fn law_import_prefix_module(
    env: Env,
    n: int,
    nodes: Seq<StmtNode>,
    root_arg: Option<Seq<u8>>,
    np: int,
    rs: RState,
    i: int,
    j: int,
    x: Seq<u8>,
    p: Seq<u8>,
)
    requires
        spec_table_wf(rs.atoms),
        rs.atoms.len() + 2 <= usize::MAX,
        0 <= i < n,
        i < nodes.len(),
        rs.pm.len() < np,
        nodes[i].prefix is None,
        Some(nodes[i].keyword as Atom) == env.am.belongs_to || Some(nodes[i].keyword as Atom) == env.am.import,
        Some(nodes[i].keyword as Atom) != env.am.prefix,
        nodes[i].arg == Some(x),
        !x.contains(0u8),
        find_sub_prefix(env.am, nodes, n, link_after(nodes[i].substmt, i, n)) == Some(j),
        nodes[j].arg == Some(p),
        !p.contains(0u8),
        forall|k: int| 0 <= k < rs.pm.len() ==> (#[trigger] rs.pm[k]).prefix < rs.atoms.len()
            && rs.atoms[rs.pm[k].prefix as int] != p,
    ensures
        ({
            let r = spec_collect(env, n, nodes, root_arg, np, rs, Some(i));
            let e = r.pm[rs.pm.len() as int];
            &&& rs.pm.len() < r.pm.len()
            &&& e.prefix < r.atoms.len() && r.atoms[e.prefix as int] == p
            &&& e.module_name matches Some(mn) && mn < r.atoms.len() && r.atoms[mn as int] == x
            &&& e.line == nodes[j].line as i32
            &&& find_prefix(r.pm, e.prefix as int, 0) == Some(rs.pm.len() as int)
        }),
{
    let s = nodes[i];
    let r0 = spec_intern(rs.atoms, x);
    lemma_intern(rs.atoms, x);
    lemma_clean_no_nul(x);
    let rs0 = RState { atoms: r0.0, ..rs };
    let a1 = spec_intern(r0.0, p).0;
    let id = spec_intern(r0.0, p).1;
    lemma_intern(r0.0, p);
    lemma_clean_no_nul(p);
    assert forall|k: int| 0 <= k < rs.pm.len() implies (#[trigger] rs.pm[k]).prefix as int != id by {
        let q = rs.pm[k].prefix as int;
        assert(a1[q] == r0.0[q]);
        assert(r0.0[q] == rs.atoms[q]);
    }
    lemma_find_prefix_none(rs.pm, id, 0);
    let e = PrefixEntry { prefix: id as Atom, module_name: Some(r0.1 as Atom), line: nodes[j].line as i32 };
    let rs1 = spec_add_prefix(env, rs0, nodes[j], Some(r0.1 as Atom));
    assert(rs1 == RState { atoms: a1, pm: rs.pm.push(e), errs: rs.errs });
    lemma_find_prefix_push(rs.pm, e, id, 0);
    lemma_collect_wf(env, n, nodes, root_arg, np, rs1, link_after(s.next, i, n));
    let r = spec_collect(env, n, nodes, root_arg, np, rs, Some(i));
    assert(r == spec_collect(env, n, nodes, root_arg, np, rs1, link_after(s.next, i, n)));
    assert(r.pm[rs.pm.len() as int] == rs1.pm[rs.pm.len() as int]);
    assert(r.atoms[id] == a1[id]);
    assert(r0.1 < a1.len());
    assert(r.atoms[r0.1] == a1[r0.1]);
    assert(a1[r0.1] == r0.0[r0.1]);
    lemma_find_prefix_ext(rs1.pm, r.pm, id, 0);
}

/// The module's own prefix stands for the module itself: where an
/// unprefixed `prefix` substatement of the top statement declares a prefix
/// `p` not declared before, collecting the prefixes from it on adds, right
/// after those declared before, the entry that `p` is found by from then on:
/// its module is the atom of the top statement's argument, and its line is
/// that of the `prefix` statement.
pub proof fn law_own_prefix_module(
    env: Env,
    n: int,
    nodes: Seq<StmtNode>,
    root: Seq<u8>,
    np: int,
    rs: RState,
    i: int,
    p: Seq<u8>,
)
    requires
        spec_table_wf(rs.atoms),
        rs.atoms.len() + 2 <= usize::MAX,
        0 <= i < n,
        i < nodes.len(),
        rs.pm.len() < np,
        nodes[i].prefix is None,
        Some(nodes[i].keyword as Atom) == env.am.prefix,
        !root.contains(0u8),
        nodes[i].arg == Some(p),
        !p.contains(0u8),
        forall|k: int| 0 <= k < rs.pm.len() ==> (#[trigger] rs.pm[k]).prefix < rs.atoms.len()
            && rs.atoms[rs.pm[k].prefix as int] != p,
    ensures
        ({
            let r = spec_collect(env, n, nodes, Some(root), np, rs, Some(i));
            let e = r.pm[rs.pm.len() as int];
            &&& rs.pm.len() < r.pm.len()
            &&& e.prefix < r.atoms.len() && r.atoms[e.prefix as int] == p
            &&& e.module_name matches Some(mn) && mn < r.atoms.len() && r.atoms[mn as int] == root
            &&& e.line == nodes[i].line as i32
            &&& find_prefix(r.pm, e.prefix as int, 0) == Some(rs.pm.len() as int)
        }),
{
    let s = nodes[i];
    let r0 = spec_intern(rs.atoms, root);
    lemma_intern(rs.atoms, root);
    lemma_clean_no_nul(root);
    let rs0 = RState { atoms: r0.0, ..rs };
    let a1 = spec_intern(r0.0, p).0;
    let id = spec_intern(r0.0, p).1;
    lemma_intern(r0.0, p);
    lemma_clean_no_nul(p);
    assert forall|k: int| 0 <= k < rs.pm.len() implies (#[trigger] rs.pm[k]).prefix as int != id by {
        let q = rs.pm[k].prefix as int;
        assert(a1[q] == r0.0[q]);
        assert(r0.0[q] == rs.atoms[q]);
    }
    lemma_find_prefix_none(rs.pm, id, 0);
    let e = PrefixEntry { prefix: id as Atom, module_name: Some(r0.1 as Atom), line: s.line as i32 };
    let rs1 = spec_add_prefix(env, rs0, s, Some(r0.1 as Atom));
    assert(rs1 == RState { atoms: a1, pm: rs.pm.push(e), errs: rs.errs });
    lemma_find_prefix_push(rs.pm, e, id, 0);
    lemma_collect_wf(env, n, nodes, Some(root), np, rs1, link_after(s.next, i, n));
    let r = spec_collect(env, n, nodes, Some(root), np, rs, Some(i));
    assert(r == spec_collect(env, n, nodes, Some(root), np, rs1, link_after(s.next, i, n)));
    assert(r.pm[rs.pm.len() as int] == rs1.pm[rs.pm.len() as int]);
    assert(r.atoms[id] == a1[id]);
    assert(r.atoms[r0.1] == a1[r0.1]);
    assert(a1[r0.1] == r0.0[r0.1]);
    lemma_find_prefix_ext(rs1.pm, r.pm, id, 0);
}

proof fn lemma_set_mod_unprefixed(env: Env, pm: Seq<PrefixEntry>, vsn: i8, n: int, st: ModState, cur: Option<int>)
    ensures
        spec_set_mod(env, pm, vsn, n, st, cur).nodes.len() == st.nodes.len(),
        forall|k: int| 0 <= k < st.nodes.len() && st.nodes[k].prefix is None
            ==> (#[trigger] spec_set_mod(env, pm, vsn, n, st, cur).nodes[k]).module_name == st.nodes[k].module_name,
    decreases chain_measure(cur, n),
{
    if cur is Some && 0 <= cur->0 < n && cur->0 < st.nodes.len() {
        let i = cur->0;
        let s = st.nodes[i];
        let st1 = match s.prefix {
            Some(p) => match find_prefix(pm, p, 0) {
                Some(k) => ModState {
                    nodes: st.nodes.update(i, StmtNode { yang_version: vsn, module_name: opt_int(pm[k].module_name), ..s }),
                    errs: st.errs,
                },
                None => ModState {
                    nodes: st.nodes.update(i, StmtNode { yang_version: vsn, ..s }),
                    errs: stmt_report(
                        env,
                        st.errs,
                        s,
                        YANG_ERR_GRAMMAR_UNDEFINED_PREFIX,
                        msg_undefined_prefix(atom_text(env.atoms, p)),
                    ),
                },
            },
            None => ModState { nodes: st.nodes.update(i, StmtNode { yang_version: vsn, ..s }), errs: st.errs },
        };
        lemma_set_mod_unprefixed(env, pm, vsn, n, st1, link_after(s.substmt, i, n));
        let st2 = spec_set_mod(env, pm, vsn, n, st1, link_after(s.substmt, i, n));
        lemma_set_mod(env, pm, vsn, n, st1, link_after(s.substmt, i, n));
        lemma_set_mod_unprefixed(env, pm, vsn, n, st2, link_after(s.next, i, n));
        lemma_set_mod(env, pm, vsn, n, st2, link_after(s.next, i, n));
        assert forall|k: int| 0 <= k < st.nodes.len() && st.nodes[k].prefix is None
            implies (#[trigger] spec_set_mod(env, pm, vsn, n, st, cur).nodes[k]).module_name == st.nodes[k].module_name by {
            assert(st1.nodes[k].prefix is None);
            assert(st2.nodes[k].prefix == st1.nodes[k].prefix);
        }
    }
}

/// A failed check of a module reports an error.  For a module whose top
/// statement has no prefix and no module, whose atoms hold no NUL byte and
/// whose arguments hold none either: when the check fails, an error (a code
/// below 1000) is among those it added.  It rests on what `lossy_utf8`
/// promises of each call, stated here of the text it names: bytes without a
/// NUL give text without one.  (An empty list of statements fails with no
/// error.)
pub proof fn law_check_failure_reported<F: Fn(&[u8], &[u8]) -> bool>(
    env: Env,
    m: F,
    canonical: bool,
    nodes: Seq<StmtNode>,
    errs: Seq<ErrorRecord>,
)
    requires
        lossy_keeps_nul_free(),
        spec_table_wf(env.atoms),
        env.cap >= 1,
        args_nul_free(nodes),
        nodes.len() > 0,
        nodes[0].prefix is None,
        nodes[0].module_name is None,
    ensures
        !spec_check_module(env, m, canonical, nodes, errs).ok
            ==> err_after(spec_check_module(env, m, canonical, nodes, errs).errs, errs.len() as int),
{
    let res = spec_check_module(env, m, canonical, nodes, errs);
    let n = nodes.len() as int;
    let root = nodes[0];
    lemma_literals();
    match top_keyword(env.am, root.keyword) {
        None => {
            let kw = stmt_kw(env.atoms, root);
            lemma_kw_nf(env.atoms, root.prefix, root.keyword);
            lemma_cat_nf("unexpected keyword '".spec_bytes(), kw);
            lemma_cat_nf("unexpected keyword '".spec_bytes() + kw, "'".spec_bytes());
            lemma_report_err(env, errs, root, YANG_ERR_GRAMMAR_UNEXPECTED_KEYWORD, msg_unexpected(kw));
        },
        Some(kw) => match spec_get_spec_from_rule(env.gs, spec_get_grammar(env.gs, None), kw, 0) {
            None => {
                lemma_report_err(env, errs, root, YANG_ERR_INTERNAL, "top-level grammar rule not found".spec_bytes());
            },
            Some(sp) => {
                let top = YangStatementRule {
                    module_name: None,
                    keyword: kw,
                    min_yang_version: YANG_VERSION_1,
                    spec: Some((sp.0 as usize, sp.1 as usize)),
                    occurance: OCC_ONE,
                };
                let np = 1 + count_imports(env.am, nodes, n, link_after(root.substmt, 0, n));
                let rr = spec_resolve(env, np, nodes, errs);
                lemma_prefix_refl(errs);
                lemma_shape_refl(nodes);
                if np > 0 {
                    let first = link_after(root.substmt, 0, n);
                    let rs = spec_collect(env, n, nodes, root.arg, np, RState { atoms: env.atoms, pm: Seq::empty(), errs }, first);
                    lemma_collect(env, n, nodes, root.arg, np, RState { atoms: env.atoms, pm: Seq::empty(), errs }, first);
                    lemma_collect_wf(env, n, nodes, root.arg, np, RState { atoms: env.atoms, pm: Seq::empty(), errs }, first);
                    let vsn = spec_find_vsn(env.am, nodes, n, root.keyword, first);
                    let nodes1 = nodes.update(0, StmtNode { yang_version: vsn, ..root });
                    assert(same_shape(nodes, nodes1));
                    let env2 = Env { atoms: rs.atoms, ..env };
                    lemma_set_mod(env2, rs.pm, vsn, n, ModState { nodes: nodes1, errs: rs.errs }, Some(0));
                    lemma_set_mod_unprefixed(env2, rs.pm, vsn, n, ModState { nodes: nodes1, errs: rs.errs }, Some(0));
                    lemma_prefix_trans(errs, rs.errs, rr.errs);
                    lemma_shape_trans(nodes, nodes1, rr.nodes);
                    assert(rr.nodes[0].module_name == nodes1[0].module_name);
                }
                lemma_args_shape(nodes, rr.nodes);
                let env3 = Env { atoms: rr.atoms, ..env };
                let st0 = ChkState { nodes: rr.nodes, errs: rr.errs, res: true };
                let s = rr.nodes[0];
                assert(s.prefix is None && s.module_name is None);
                let g = spec_get_grammar(env.gs, None);
                assert(g is Some);
                let rules = seq![top];
                let mr = spec_match_from(env3, m, s, rules, 0, 0, canonical, rr.errs);
                lemma_match_from(env3, m, s, rules, 0, 0, canonical, rr.errs);
                lemma_match_reports(env3, m, s, rules, 0, 0, canonical, rr.errs);
                let nxt = link_after(s.next, 0, n);
                if !mr.ok {
                    let st1 = ChkState { errs: mr.errs, res: false, ..st0 };
                    lemma_chk_chain(env3, m, n, st1, nxt, None, mr.rules, mr.start, canonical);
                    lemma_err_after_grow(mr.errs, res.errs, rr.errs.len() as int, errs.len() as int);
                } else {
                    assert(spec_match_from(env3, m, s, rules, 0, 1, canonical, rr.errs).ok == false);
                    assert(spec_match_from(env3, m, s, rules, 1, 1, canonical, rr.errs).ok == false);
                    assert(spec_match_from(env3, m, s, rules.update(0, with_occ(top, OCC_PASSED)), 0, 1, canonical, rr.errs).ok == false);
                    assert(mr.rules[0].occurance == OCC_DONE);
                    assert forall|j: int| 0 <= j < mr.rules.len() implies !required(#[trigger] mr.rules[j]) by {}
                    let r = mr.rules[mr.found];
                    let st1 = ChkState { errs: mr.errs, ..st0 };
                    match spec_of(env.gs, r.spec) {
                        None => {
                            lemma_chain_reports(env3, m, n, st1, nxt, None, mr.rules, mr.start, canonical);
                            lemma_chk_chain(env3, m, n, st1, nxt, None, mr.rules, mr.start, canonical);
                            lemma_prefix_refl(res.errs);
                            if !res.ok {
                                lemma_err_after_grow(res.errs, res.errs, st1.errs.len() as int, errs.len() as int);
                            }
                        },
                        Some(sub) => {
                            let st2 = spec_arg_check(env3, m, st1, 0, sub, r);
                            lemma_arg_check(env3, m, st1, 0, sub, r);
                            lemma_arg_reports(env3, m, st1, 0, sub, r);
                            lemma_args_shape(st1.nodes, st2.nodes);
                            let st3 = spec_chk_chain(env3, m, n, st2, link_after(s.substmt, 0, n), Some(0), sub.rules, 0, canonical);
                            lemma_chk_chain(env3, m, n, st2, link_after(s.substmt, 0, n), Some(0), sub.rules, 0, canonical);
                            lemma_chain_reports(env3, m, n, st2, link_after(s.substmt, 0, n), Some(0), sub.rules, 0, canonical);
                            lemma_args_shape(st2.nodes, st3.nodes);
                            lemma_chk_chain(env3, m, n, st3, nxt, None, mr.rules, mr.start, canonical);
                            lemma_chain_reports(env3, m, n, st3, nxt, None, mr.rules, mr.start, canonical);
                            lemma_prefix_trans(errs, rr.errs, mr.errs);
                            lemma_prefix_trans(errs, st1.errs, st2.errs);
                            lemma_prefix_trans(errs, st2.errs, st3.errs);
                            lemma_prefix_trans(st2.errs, st3.errs, res.errs);
                            lemma_prefix_refl(res.errs);
                            if !res.ok {
                                if st3.res {
                                    lemma_err_after_grow(res.errs, res.errs, st3.errs.len() as int, errs.len() as int);
                                } else if st2.res {
                                    lemma_err_after_grow(st3.errs, res.errs, st2.errs.len() as int, errs.len() as int);
                                } else {
                                    lemma_err_after_grow(st2.errs, res.errs, st1.errs.len() as int, errs.len() as int);
                                }
                            }
                        },
                    }
                }
            },
        },
    }
}

} // verus!
