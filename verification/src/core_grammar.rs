//! Installing argument types and grammars given as flat tables of strings,
//! and the core YANG argument types.
//!
//! A grammar table is a list of optional strings.  Each specification takes
//! its keyword and the name of its argument type (none for no argument), then
//! its rules as triples (the YANG version it needs, its keyword, its
//! occurrence), then a triple whose first entry is missing.  A missing
//! keyword ends the table, and so does its end.

use vstd::prelude::*;
use crate::atoms::{Atom, AtomTable, spec_intern, spec_clean, spec_table_wf, lemma_intern};
use crate::check::{OCC_OPTIONAL, text_1_1, opt_bytes};
use crate::grammar::{
    GrammarTables, GrammarV, ArgTypeV, SpecV, SyntaxV, YangArgType, YangStatementSpec, YangStatementRule,
    ArgSyntax, F_STMT_ARG_MATCH, F_ARG_TYPE_SYNTAX_REGEXP, spec_get_arg_type_idx, yang_get_arg_type_idx,
    spec_install_grammar, yang_install_grammar, specs_view, spec_install_types, yang_install_arg_types,
    types_view, types_fit, type_from,
};
use crate::parser::{YANG_VERSION_1, YANG_VERSION_1_1};
use crate::regex::{compiler_ok, compiles};
use crate::core_types::{
    TypeDesc, descs_view, by_pattern, spec_named_types, make_types, core_type_list, init_core_stmt_types,
    lemma_named_types_len, lemma_core_type_count,
};
use crate::grammar::{KnownAtoms, lemma_install_types_len};
use crate::text::copy_bytes;
use vstd::string::StringSliceAdditionalSpecFns;

verus! {

/// The entry at `i` of a table, none past its end.
pub open spec fn entry(st: Seq<Option<Seq<u8>>>, i: int) -> Option<Seq<u8>> {
    if 0 <= i < st.len() {
        st[i]
    } else {
        None
    }
}

/// The occurrence a table entry gives: its first byte, `?` when missing.
pub open spec fn occ_of(o: Option<Seq<u8>>) -> u8 {
    match o {
        None => OCC_OPTIONAL,
        Some(b) => if b.len() > 0 {
            b[0]
        } else {
            0
        },
    }
}

/// The YANG version a table entry gives: 1.1 for `1.1`, else 1.
pub open spec fn vsn_of(o: Option<Seq<u8>>) -> i8 {
    if o == Some(text_1_1()) {
        YANG_VERSION_1_1
    } else {
        YANG_VERSION_1
    }
}

/// The outcome of reading a grammar table: whether it could be read, the
/// atoms, and the specifications read.
pub struct TableRead {
    pub ok: bool,
    pub atoms: Seq<Seq<u8>>,
    pub specs: Seq<SpecV>,
}

/// Reading a grammar table from position `i`, the specification being read
/// being `cur` (none between specifications).  An argument type that is not
/// installed, or a rule without a keyword, stops the reading.
pub open spec fn spec_read_table(
    mn: Option<Atom>,
    ts: Seq<ArgTypeV>,
    st: Seq<Option<Seq<u8>>>,
    atoms: Seq<Seq<u8>>,
    specs: Seq<SpecV>,
    cur: Option<SpecV>,
    i: int,
) -> TableRead
    decreases st.len() + 3 - i,
{
    if i < 0 {
        TableRead { ok: false, atoms, specs }
    } else {
        match cur {
            None => match entry(st, i) {
                None => TableRead { ok: true, atoms, specs },
                Some(kwb) => {
                    let r0 = spec_intern(atoms, kwb);
                    match entry(st, i + 1) {
                        None => spec_read_table(
                            mn,
                            ts,
                            st,
                            r0.0,
                            specs,
                            Some(SpecV { keyword: r0.1 as Atom, arg_type_idx: -1i32, flags: 0u32, rules: Seq::empty() }),
                            i + 2,
                        ),
                        Some(an) => {
                            let r1 = spec_intern(r0.0, an);
                            let idx = spec_get_arg_type_idx(ts, Some(r1.1 as Atom));
                            if idx == -1 {
                                TableRead { ok: false, atoms: r1.0, specs }
                            } else {
                                let flags: u32 = if an.len() > 0 && an[0] == 61 {
                                    F_STMT_ARG_MATCH
                                } else {
                                    0
                                };
                                spec_read_table(
                                    mn,
                                    ts,
                                    st,
                                    r1.0,
                                    specs,
                                    Some(SpecV { keyword: r0.1 as Atom, arg_type_idx: idx as i32, flags, rules: Seq::empty() }),
                                    i + 2,
                                )
                            }
                        },
                    }
                },
            },
            Some(sp) => match entry(st, i) {
                None => if i + 3 >= st.len() {
                    TableRead { ok: true, atoms, specs: specs.push(sp) }
                } else {
                    spec_read_table(mn, ts, st, atoms, specs.push(sp), None, i + 3)
                },
                Some(vb) => match entry(st, i + 1) {
                    None => TableRead { ok: false, atoms, specs },
                    Some(kwb) => {
                        let r0 = spec_intern(atoms, kwb);
                        let rule = YangStatementRule {
                            module_name: mn,
                            keyword: r0.1 as Atom,
                            min_yang_version: vsn_of(Some(vb)),
                            spec: None,
                            occurance: occ_of(entry(st, i + 2)),
                        };
                        spec_read_table(mn, ts, st, r0.0, specs, Some(SpecV { rules: sp.rules.push(rule), ..sp }), i + 3)
                    },
                },
            },
        }
    }
}

/// The module a grammar table is installed for: the atom of its name, none
/// for the core grammar.
pub open spec fn table_module(atoms: Seq<Seq<u8>>, module_name: Option<Seq<u8>>) -> Option<Atom> {
    match module_name {
        Some(b) => Some(spec_intern(atoms, b).1 as Atom),
        None => None,
    }
}

/// Reading the grammar table `st` of module `module_name`, with the atoms
/// `atoms` and the argument types `ts`: the module's name is made an atom
/// first.
pub open spec fn spec_table_read(
    atoms: Seq<Seq<u8>>,
    module_name: Option<Seq<u8>>,
    ts: Seq<ArgTypeV>,
    st: Seq<Option<Seq<u8>>>,
) -> TableRead {
    let a1 = match module_name {
        Some(b) => spec_intern(atoms, b).0,
        None => atoms,
    };
    spec_read_table(table_module(atoms, module_name), ts, st, a1, Seq::empty(), None, 0)
}

/// Where the rules that start at `j` end: the first triple from `j` on
/// whose first entry is missing.
pub open spec fn rules_end(st: Seq<Option<Seq<u8>>>, j: int) -> int
    decreases st.len() + 3 - j,
{
    if j < 0 || entry(st, j) is None {
        j
    } else {
        rules_end(st, j + 3)
    }
}

/// Where the `n`-th specification of a table starts (counting from 0): each
/// one takes its keyword and argument type, its rules, and the closing triple.
pub open spec fn spec_start(st: Seq<Option<Seq<u8>>>, n: nat) -> int
    decreases n,
{
    if n == 0 {
        0
    } else {
        rules_end(st, spec_start(st, (n - 1) as nat) + 2) + 3
    }
}

proof fn lemma_rules_end(st: Seq<Option<Seq<u8>>>, j: int)
    requires
        0 <= j,
    ensures
        j <= rules_end(st, j),
    decreases st.len() + 3 - j,
{
    if entry(st, j) is Some {
        lemma_rules_end(st, j + 3);
    }
}

proof fn lemma_spec_start(st: Seq<Option<Seq<u8>>>, n: nat)
    ensures
        0 <= spec_start(st, n),
    decreases n,
{
    if n > 0 {
        lemma_spec_start(st, (n - 1) as nat);
        lemma_rules_end(st, spec_start(st, (n - 1) as nat) + 2);
    }
}

proof fn lemma_type_from_none(ts: Seq<ArgTypeV>, name: Option<Atom>, i: int)
    requires
        0 <= i,
        forall|k: int| i <= k < ts.len() ==> Some(#[trigger] ts[k].name) != name,
    ensures
        type_from(ts, name, i) is None,
    decreases ts.len() - i,
{
    if i < ts.len() {
        lemma_type_from_none(ts, name, i + 1);
    }
}

proof fn lemma_read_refuses(
    mn: Option<Atom>,
    ts: Seq<ArgTypeV>,
    st: Seq<Option<Seq<u8>>>,
    atoms0: Seq<Seq<u8>>,
    a: Seq<Seq<u8>>,
    specs: Seq<SpecV>,
    cur: Option<SpecV>,
    i: int,
    m: nat,
    n: nat,
    an: Seq<u8>,
)
    requires
        spec_table_wf(a),
        atoms0.len() <= a.len(),
        a.len() + st.len() + 3 - i <= usize::MAX,
        forall|x: int| 0 <= x < atoms0.len() ==> #[trigger] a[x] == atoms0[x],
        forall|k: int| 0 <= k < ts.len() ==> (#[trigger] ts[k].name) < atoms0.len()
            && atoms0[ts[k].name as int] != spec_clean(an),
        forall|q: nat| q <= n ==> #[trigger] entry(st, spec_start(st, q)) is Some,
        entry(st, spec_start(st, n) + 1) == Some(an),
        m <= n,
        cur is None ==> i == spec_start(st, m),
        cur is Some ==> m < n && spec_start(st, m) + 2 <= i <= rules_end(st, i)
            && rules_end(st, i) == rules_end(st, spec_start(st, m) + 2),
    ensures
        !spec_read_table(mn, ts, st, a, specs, cur, i).ok,
    decreases st.len() + 3 - i,
{
    lemma_spec_start(st, m);
    match cur {
        None => {
            let kwb = entry(st, i)->0;
            let r0 = spec_intern(a, kwb);
            lemma_intern(a, kwb);
            match entry(st, i + 1) {
                None => {
                    assert(m < n);
                    lemma_rules_end(st, i + 2);
                    let sp = SpecV { keyword: r0.1 as Atom, arg_type_idx: -1i32, flags: 0u32, rules: Seq::empty() };
                    lemma_read_refuses(mn, ts, st, atoms0, r0.0, specs, Some(sp), i + 2, m, n, an);
                },
                Some(an2) => {
                    let r1 = spec_intern(r0.0, an2);
                    lemma_intern(r0.0, an2);
                    let idx = spec_get_arg_type_idx(ts, Some(r1.1 as Atom));
                    if m == n {
                        assert(an2 == an);
                        assert forall|k: int| 0 <= k < ts.len() implies Some(#[trigger] ts[k].name) != Some(r1.1 as Atom) by {
                            if ts[k].name == r1.1 as Atom {
                                assert(r1.1 < usize::MAX);
                                let x = ts[k].name as int;
                                assert(x == r1.1);
                                assert(r1.0[r1.1] == spec_clean(an));
                                assert(r0.0[x] == a[x]);
                                assert(r1.0[x] == r0.0[x]);
                                assert(a[x] == atoms0[x]);
                            }
                        }
                        lemma_type_from_none(ts, Some(r1.1 as Atom), 0);
                    } else if idx != -1 {
                        lemma_intern(r0.0, an2);
                        lemma_rules_end(st, i + 2);
                        let flags: u32 = if an2.len() > 0 && an2[0] == 61 { F_STMT_ARG_MATCH } else { 0 };
                        let sp = SpecV { keyword: r0.1 as Atom, arg_type_idx: idx as i32, flags, rules: Seq::empty() };
                        lemma_read_refuses(mn, ts, st, atoms0, r1.0, specs, Some(sp), i + 2, m, n, an);
                    }
                },
            }
        },
        Some(sp) => {
            match entry(st, i) {
                None => {
                    assert(spec_start(st, m + 1) == i + 3);
                    assert(entry(st, spec_start(st, m + 1)) is Some);
                    lemma_read_refuses(mn, ts, st, atoms0, a, specs.push(sp), None, i + 3, m + 1, n, an);
                },
                Some(vb) => {
                    if let Some(kwb) = entry(st, i + 1) {
                        let r0 = spec_intern(a, kwb);
                        lemma_intern(a, kwb);
                        lemma_rules_end(st, i + 3);
                        let rule = YangStatementRule {
                            module_name: mn,
                            keyword: r0.1 as Atom,
                            min_yang_version: vsn_of(Some(vb)),
                            spec: None,
                            occurance: occ_of(entry(st, i + 2)),
                        };
                        lemma_read_refuses(mn, ts, st, atoms0, r0.0, specs, Some(SpecV { rules: sp.rules.push(rule), ..sp }), i + 3, m, n, an);
                    }
                },
            }
        },
    }
}

/// A grammar table one of whose specifications names an argument type that
/// is not installed cannot be read, whatever comes before it; so installing
/// it is refused and no grammar is installed, not even for the
/// specifications before the bad one.  `n` counts the specifications before
/// the bad one, each of which must be there; the argument types are named by
/// atoms of the table.
pub proof fn law_unknown_arg_type_refused(
    atoms: Seq<Seq<u8>>,
    module_name: Option<Seq<u8>>,
    ts: Seq<ArgTypeV>,
    st: Seq<Option<Seq<u8>>>,
    n: nat,
    an: Seq<u8>,
)
    requires
        spec_table_wf(atoms),
        atoms.len() + st.len() + 4 <= usize::MAX,
        forall|k: int| 0 <= k < ts.len() ==> (#[trigger] ts[k].name) < atoms.len()
            && atoms[ts[k].name as int] != spec_clean(an),
        forall|q: nat| q <= n ==> #[trigger] entry(st, spec_start(st, q)) is Some,
        entry(st, spec_start(st, n) + 1) == Some(an),
    ensures
        !spec_table_read(atoms, module_name, ts, st).ok,
{
    let a1 = match module_name {
        Some(b) => spec_intern(atoms, b).0,
        None => atoms,
    };
    if let Some(b) = module_name {
        lemma_intern(atoms, b);
    }
    lemma_read_refuses(table_module(atoms, module_name), ts, st, atoms, a1, Seq::empty(), None, 0, 0, n, an);
}

/// The entries of a table as values.
pub open spec fn table_view(st: Seq<Option<Vec<u8>>>) -> Seq<Option<Seq<u8>>> {
    st.map_values(|o: Option<Vec<u8>>| match o {
        Some(v) => Some(v@),
        None => None,
    })
}

fn entry_exec(st: &Vec<Option<Vec<u8>>>, i: usize) -> (r: Option<&Vec<u8>>)
    ensures
        match r {
            Some(v) => entry(table_view(st@), i as int) == Some(v@),
            None => entry(table_view(st@), i as int) is None,
        },
{
    if i < st.len() {
        match &st[i] {
            Some(v) => Some(v),
            None => None,
        }
    } else {
        None
    }
}

fn occ_exec(o: Option<&Vec<u8>>) -> (r: u8)
    ensures
        r == occ_of(match o {
            Some(v) => Some(v@),
            None => None,
        }),
{
    match o {
        None => OCC_OPTIONAL,
        Some(b) => if b.len() > 0 {
            b[0]
        } else {
            0
        },
    }
}

fn vsn_exec(b: &Vec<u8>) -> (r: i8)
    ensures
        r == vsn_of(Some(b@)),
{
    if b.len() == 3 && b[0] == 49 && b[1] == 46 && b[2] == 49 {
        assert(b@ =~= text_1_1());
        YANG_VERSION_1_1
    } else {
        YANG_VERSION_1
    }
}

/// Installs the grammar of module `module_name` (the core grammar for none)
/// that the table `stmts` gives, as `spec_read_table` reads it and
/// `spec_install_grammar` installs it.  A table that cannot be read is
/// refused, with the atoms made until then kept.
pub fn yang_install_grammar_str(
    t: &mut GrammarTables,
    atoms: &mut AtomTable,
    module_name: Option<&[u8]>,
    stmts: &Vec<Option<Vec<u8>>>,
) -> (ok: bool)
    requires
        types_fit(old(t)),
        old(atoms).view().len() + stmts@.len() + 8 < usize::MAX,
        stmts@.len() + 8 < usize::MAX,
    ensures
        ({
            let tr = spec_table_read(old(atoms).view(), opt_bytes(module_name), old(t).tv(), table_view(stmts@));
            &&& final(atoms).view() == tr.atoms
            &&& if tr.ok {
                (ok, final(t).gv()) == spec_install_grammar(
                    old(t).gv(),
                    old(t).am.sp_cut,
                    table_module(old(atoms).view(), opt_bytes(module_name)),
                    tr.specs,
                )
            } else {
                !ok && final(t).gv() == old(t).gv()
            }
        }),
        final(t).tv() == old(t).tv(),
        final(t).am == old(t).am,
        final(atoms).view().len() <= old(atoms).view().len() + stmts@.len() + 6,
{
    let ghost a0 = atoms.view().len();
    let mn: Option<Atom> = match module_name {
        Some(b) => Some(atoms.intern_bytes(b)),
        None => None,
    };
    let ghost stv = table_view(stmts@);
    let ghost goal = spec_read_table(mn, t.tv(), stv, atoms.view(), Seq::empty(), None, 0);

    let mut specs: Vec<YangStatementSpec> = Vec::new();
    assert(specs_view(specs@) =~= Seq::<SpecV>::empty());
    let mut i: usize = 0;
    while i < stmts.len() && stmts[i].is_some()
        invariant
            goal == spec_table_read(old(atoms).view(), opt_bytes(module_name), old(t).tv(), table_view(stmts@)),
            types_fit(t),
            t.tv() == old(t).tv(),
            t.gv() == old(t).gv(),
            t.am == old(t).am,
            stv == table_view(stmts@),
            stmts@.len() + 8 < usize::MAX,
            i <= stmts@.len() + 5,
            atoms.view().len() <= a0 + 1 + i,
            a0 + stmts@.len() + 8 < usize::MAX,
            a0 == old(atoms).view().len(),
            spec_read_table(mn, t.tv(), stv, atoms.view(), specs_view(specs@), None, i as int) == goal,
        decreases stmts@.len() + 6 - i,
    {
        let kwb = match entry_exec(stmts, i) {
            Some(v) => v,
            None => {
                return false;
            },
        };
        let kw = atoms.intern_bytes(kwb.as_slice());
        let (idx, flags): (i32, u32) = match entry_exec(stmts, i + 1) {
            None => (-1, 0),
            Some(an) => {
                let a = atoms.intern_bytes(an.as_slice());
                let idx = yang_get_arg_type_idx(t, Some(a));
                if idx == -1 {
                    return false;
                }
                let flags: u32 = if an.len() > 0 && an[0] == 61 {
                    F_STMT_ARG_MATCH
                } else {
                    0
                };
                (idx, flags)
            },
        };
        let mut rules: Vec<YangStatementRule> = Vec::new();
        let mut j: usize = i + 2;
        while j < stmts.len() && stmts[j].is_some()
            invariant
                goal == spec_table_read(old(atoms).view(), opt_bytes(module_name), old(t).tv(), table_view(stmts@)),
                types_fit(t),
                t.tv() == old(t).tv(),
                t.gv() == old(t).gv(),
                t.am == old(t).am,
                i < stmts@.len(),
                i + 2 <= j,
                stv == table_view(stmts@),
                stmts@.len() + 8 < usize::MAX,
                j <= stmts@.len() + 2,
                atoms.view().len() <= a0 + 1 + j,
                a0 + stmts@.len() + 8 < usize::MAX,
                a0 == old(atoms).view().len(),
            a0 == old(atoms).view().len(),
                spec_read_table(
                    mn,
                    t.tv(),
                    stv,
                    atoms.view(),
                    specs_view(specs@),
                    Some(SpecV { keyword: kw, arg_type_idx: idx, flags, rules: rules@ }),
                    j as int,
                ) == goal,
            decreases stmts@.len() + 3 - j,
        {
            let vb = match entry_exec(stmts, j) {
                Some(v) => v,
                None => {
                    return false;
                },
            };
            let kwr = match entry_exec(stmts, j + 1) {
                Some(k) => k,
                None => {
                    return false;
                },
            };
            let rk = atoms.intern_bytes(kwr.as_slice());
            let rule = YangStatementRule {
                module_name: mn,
                keyword: rk,
                min_yang_version: vsn_exec(vb),
                spec: None,
                occurance: occ_exec(entry_exec(stmts, j + 2)),
            };
            rules.push(rule);
            j = j + 3;
        }
        let ghost before = specs_view(specs@);
        specs.push(YangStatementSpec { keyword: kw, arg_type_idx: idx, flags, rules });
        assert(specs_view(specs@) =~= before.push(SpecV { keyword: kw, arg_type_idx: idx, flags, rules: rules@ }));
        i = j + 3;
    }
    yang_install_grammar(t, mn, &specs)
}


/// The types that a list of (name, pattern) pairs describes.
pub open spec fn pair_descs(v: Seq<(Vec<u8>, Vec<u8>)>) -> Seq<(Seq<u8>, SyntaxV, u32)> {
    v.map_values(|p: (Vec<u8>, Vec<u8>)| by_pattern(p.0@, p.1@))
}

/// Installs an argument type for each (name, pattern) pair, checked by
/// matching its pattern; `c` tells whether a pattern compiles.
pub fn yang_install_arg_types_str<G: Fn(&[u8]) -> bool>(
    t: &mut GrammarTables,
    atoms: &mut AtomTable,
    stypes: &Vec<(Vec<u8>, Vec<u8>)>,
    c: &G,
) -> (ok: bool)
    requires
        compiler_ok(*c),
        old(atoms).view().len() + stypes@.len() < usize::MAX,
    ensures
        ({
            let nt = spec_named_types(old(atoms).view(), pair_descs(stypes@));
            &&& final(atoms).view() == nt.0
            &&& (ok, final(t).tv()) == spec_install_types(old(t).tv(), nt.1, |p: Seq<u8>| compiles(*c, p), 0)
        }),
        final(t).gv() == old(t).gv(),
        final(t).am == old(t).am,
{
    let mut descs: Vec<TypeDesc> = Vec::new();
    let mut i: usize = 0;
    while i < stypes.len()
        invariant
            i <= stypes@.len(),
            descs_view(descs@) == pair_descs(stypes@).subrange(0, i as int),
            descs@.len() == i,
        decreases stypes@.len() - i,
    {
        let p = &stypes[i];
        let d = TypeDesc {
            name: copy_bytes(p.0.as_slice()),
            syntax: ArgSyntax::Regexp(copy_bytes(p.1.as_slice())),
            flags: F_ARG_TYPE_SYNTAX_REGEXP,
        };
        let ghost before = descs_view(descs@);
        descs.push(d);
        assert(descs_view(descs@) =~= before.push(d.view()));
        i = i + 1;
        assert(descs_view(descs@) =~= pair_descs(stypes@).subrange(0, i as int));
    }
    assert(pair_descs(stypes@).subrange(0, stypes@.len() as int) =~= pair_descs(stypes@));
    let types = make_types(atoms, &descs);
    yang_install_arg_types(t, &types, c)
}

/// The atoms of the keywords the checker knows, made in order: `module`,
/// `submodule`, `yang-version`, `namespace`, `prefix`, `import`, `include`,
/// `belongs-to` and `$cut`.
#[verifier::opaque]
pub open spec fn spec_known_atoms(a0: Seq<Seq<u8>>) -> (Seq<Seq<u8>>, KnownAtoms) {
    let r1 = spec_intern(a0, "module".spec_bytes());
    let r2 = spec_intern(r1.0, "submodule".spec_bytes());
    let r3 = spec_intern(r2.0, "yang-version".spec_bytes());
    let r4 = spec_intern(r3.0, "namespace".spec_bytes());
    let r5 = spec_intern(r4.0, "prefix".spec_bytes());
    let r6 = spec_intern(r5.0, "import".spec_bytes());
    let r7 = spec_intern(r6.0, "include".spec_bytes());
    let r8 = spec_intern(r7.0, "belongs-to".spec_bytes());
    let r9 = spec_intern(r8.0, "$cut".spec_bytes());
    (r9.0, KnownAtoms {
        module: Some(r1.1 as Atom),
        submodule: Some(r2.1 as Atom),
        yang_version: Some(r3.1 as Atom),
        namespace: Some(r4.1 as Atom),
        prefix: Some(r5.1 as Atom),
        import: Some(r6.1 as Atom),
        incl: Some(r7.1 as Atom),
        belongs_to: Some(r8.1 as Atom),
        sp_cut: Some(r9.1 as Atom),
    })
}

/// Makes the atoms of the keywords the checker knows.
fn make_known_atoms(atoms: &mut AtomTable) -> (am: KnownAtoms)
    requires
        old(atoms).view().len() + 9 < usize::MAX,
    ensures
        (final(atoms).view(), am) == spec_known_atoms(old(atoms).view()),
        final(atoms).view().len() <= old(atoms).view().len() + 9,
{
    reveal(spec_known_atoms);
    let module = atoms.intern_bytes("module".as_bytes());
    let submodule = atoms.intern_bytes("submodule".as_bytes());
    let yang_version = atoms.intern_bytes("yang-version".as_bytes());
    let namespace = atoms.intern_bytes("namespace".as_bytes());
    let prefix = atoms.intern_bytes("prefix".as_bytes());
    let import = atoms.intern_bytes("import".as_bytes());
    let incl = atoms.intern_bytes("include".as_bytes());
    let belongs_to = atoms.intern_bytes("belongs-to".as_bytes());
    let sp_cut = atoms.intern_bytes("$cut".as_bytes());
    KnownAtoms {
        module: Some(module),
        submodule: Some(submodule),
        yang_version: Some(yang_version),
        namespace: Some(namespace),
        prefix: Some(prefix),
        import: Some(import),
        incl: Some(incl),
        belongs_to: Some(belongs_to),
        sp_cut: Some(sp_cut),
    }
}

/// What initializing the grammar gives: whether it worked, the atoms, the
/// grammars, the argument types, the known atoms, and the atom of
/// `yang-version` that the parser watches for.
pub struct InitSpec {
    pub ok: bool,
    pub atoms: Seq<Seq<u8>>,
    pub gv: Seq<GrammarV>,
    pub tv: Seq<ArgTypeV>,
    pub am: KnownAtoms,
    pub yang_version: Option<Atom>,
}

/// Initializing the grammar from the atoms `a0` and the core grammar table
/// `stmts`: make the known atoms, install the core argument types, then the
/// core grammar (an empty table counts as missing), then make the parser's
/// atom.
pub open spec fn spec_init_grammar(a0: Seq<Seq<u8>>, stmts: Seq<Option<Seq<u8>>>, comp: spec_fn(Seq<u8>) -> bool) -> InitSpec {
    let k = spec_known_atoms(a0);
    let nt = spec_named_types(k.0, core_type_list());
    let it = spec_install_types(Seq::empty(), nt.1, comp, 0);
    if !it.0 {
        InitSpec { ok: false, atoms: nt.0, gv: Seq::empty(), tv: it.1, am: k.1, yang_version: None }
    } else if stmts.len() == 0 {
        InitSpec { ok: false, atoms: nt.0, gv: Seq::empty(), tv: it.1, am: k.1, yang_version: None }
    } else {
        let tr = spec_table_read(nt.0, None, it.1, stmts);
        if !tr.ok {
            InitSpec { ok: false, atoms: tr.atoms, gv: Seq::empty(), tv: it.1, am: k.1, yang_version: None }
        } else {
            let ig = spec_install_grammar(Seq::empty(), k.1.sp_cut, None, tr.specs);
            if !ig.0 {
                InitSpec { ok: false, atoms: tr.atoms, gv: ig.1, tv: it.1, am: k.1, yang_version: None }
            } else {
                let yv = spec_intern(tr.atoms, "yang-version".spec_bytes());
                InitSpec { ok: true, atoms: yv.0, gv: ig.1, tv: it.1, am: k.1, yang_version: Some(yv.1 as Atom) }
            }
        }
    }
}

/// The grammar after initialization, with the atom of `yang-version` for the
/// parser when it worked.
pub struct InitResult {
    pub ok: bool,
    pub tables: GrammarTables,
    pub yang_version: Option<Atom>,
}

/// Initializes the grammar: the known atoms, the core argument types and the
/// core grammar given by the table `core_stmts`, and the parser's atom; `c`
/// tells whether a pattern compiles.
pub fn yang_init_grammar<G: Fn(&[u8]) -> bool>(
    atoms: &mut AtomTable,
    core_stmts: &Vec<Option<Vec<u8>>>,
    c: &G,
) -> (r: InitResult)
    requires
        compiler_ok(*c),
        old(atoms).view().len() + core_stmts@.len() + 64 < usize::MAX,
        core_stmts@.len() + 8 < usize::MAX,
    ensures
        ({
            let s = spec_init_grammar(old(atoms).view(), table_view(core_stmts@), |p: Seq<u8>| compiles(*c, p));
            &&& r.ok == s.ok
            &&& final(atoms).view() == s.atoms
            &&& r.tables.gv() == s.gv
            &&& r.tables.tv() == s.tv
            &&& r.tables.am == s.am
            &&& r.yang_version == s.yang_version
        }),
{
    let am = make_known_atoms(atoms);
    let ghost a1 = atoms.view();
    let mut t = GrammarTables::new(am);
    proof {
        lemma_core_type_count();
        lemma_named_types_len(a1, core_type_list());
        lemma_install_types_len(Seq::empty(), spec_named_types(a1, core_type_list()).1, |p: Seq<u8>| compiles(*c, p), 0);
    }
    if !init_core_stmt_types(&mut t, atoms, c) {
        return InitResult { ok: false, tables: t, yang_version: None };
    }
    if core_stmts.len() == 0 {
        return InitResult { ok: false, tables: t, yang_version: None };
    }
    if !yang_install_grammar_str(&mut t, atoms, None, core_stmts) {
        return InitResult { ok: false, tables: t, yang_version: None };
    }
    let yv = crate::parser::yang_init_parser(atoms);
    InitResult { ok: true, tables: t, yang_version: Some(yv) }
}

} // verus!
