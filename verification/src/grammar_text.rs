//! The grammars as text: for each grammar its module, for each
//! specification its keyword and argument type, for each rule the YANG
//! version it needs, its keyword, its occurrence and the place of the
//! specification it stands for.

use vstd::prelude::*;
use crate::atoms::{Atom, AtomTable};
use crate::check::{atom_text};
use crate::grammar::{GrammarTables, GrammarV, ArgTypeV, SpecV, YangStatementRule};
use crate::parser::YANG_VERSION_1_1;
use crate::text::{push_str, push_bytes, lossy_utf8, spec_byte_as_char, byte_as_char, spec_decimal_digits, decimal_digits_u64};
use vstd::string::StringSliceAdditionalSpecFns;

verus! {

/// The text of an optional atom, `dflt` for none.
pub open spec fn name_or(atoms: Seq<Seq<u8>>, o: Option<Atom>, dflt: Seq<u8>) -> Seq<u8> {
    match o {
        Some(a) => atom_text(atoms, a as int),
        None => dflt,
    }
}

/// The place of the specification a rule stands for, or `nil`.
pub open spec fn pos_text(p: Option<(usize, usize)>) -> Seq<u8> {
    match p {
        Some(gp) => spec_decimal_digits(gp.0 as nat) + ", ".spec_bytes() + spec_decimal_digits(gp.1 as nat),
        None => "nil".spec_bytes(),
    }
}

/// The line of a rule.
pub open spec fn rule_line(atoms: Seq<Seq<u8>>, r: YangStatementRule) -> Seq<u8> {
    "    ".spec_bytes() + (if r.min_yang_version == YANG_VERSION_1_1 {
        "1.1".spec_bytes()
    } else {
        "   ".spec_bytes()
    }) + " ".spec_bytes() + atom_text(atoms, r.keyword as int) + " ".spec_bytes() + spec_byte_as_char(r.occurance)
        + " (".spec_bytes() + pos_text(r.spec) + ")\n".spec_bytes()
}

/// The name of the argument type of a specification, `null` for none.
pub open spec fn arg_type_text(atoms: Seq<Seq<u8>>, ts: Seq<ArgTypeV>, idx: i32) -> Seq<u8> {
    if idx == -1 {
        "null".spec_bytes()
    } else if 0 <= idx < ts.len() {
        atom_text(atoms, ts[idx as int].name as int)
    } else {
        Seq::empty()
    }
}

/// The line of a specification.
pub open spec fn spec_line(atoms: Seq<Seq<u8>>, ts: Seq<ArgTypeV>, sp: SpecV) -> Seq<u8> {
    "  ".spec_bytes() + atom_text(atoms, sp.keyword as int) + " (".spec_bytes() + arg_type_text(atoms, ts, sp.arg_type_idx)
        + ")\n".spec_bytes()
}

/// The lines of the rules from `k` on.
pub open spec fn rules_text(atoms: Seq<Seq<u8>>, rs: Seq<YangStatementRule>, k: int) -> Seq<u8>
    decreases rs.len() - k,
{
    if k < 0 || k >= rs.len() {
        Seq::empty()
    } else {
        rule_line(atoms, rs[k]) + rules_text(atoms, rs, k + 1)
    }
}

/// The lines of the specifications from `j` on, each followed by its rules.
pub open spec fn specs_text(atoms: Seq<Seq<u8>>, ts: Seq<ArgTypeV>, sps: Seq<SpecV>, j: int) -> Seq<u8>
    decreases sps.len() - j,
{
    if j < 0 || j >= sps.len() {
        Seq::empty()
    } else {
        spec_line(atoms, ts, sps[j]) + rules_text(atoms, sps[j].rules, 0) + specs_text(atoms, ts, sps, j + 1)
    }
}

/// The text of the grammars from `i` on.
pub open spec fn grammars_text(atoms: Seq<Seq<u8>>, ts: Seq<ArgTypeV>, gs: Seq<GrammarV>, i: int) -> Seq<u8>
    decreases gs.len() - i,
{
    if i < 0 || i >= gs.len() {
        Seq::empty()
    } else {
        "grammar for: ".spec_bytes() + name_or(atoms, gs[i].module_name, "<builtin>".spec_bytes()) + "\n".spec_bytes()
            + specs_text(atoms, ts, gs[i].specs, 0) + grammars_text(atoms, ts, gs, i + 1)
    }
}

fn atom_text_exec(atoms: &AtomTable, a: Atom) -> (r: Vec<u8>)
    ensures
        r@ == atom_text(atoms.view(), a as int),
{
    if a < atoms.len() {
        lossy_utf8(atoms.name(a).as_slice())
    } else {
        Vec::new()
    }
}

fn push_rule_line(out: &mut Vec<u8>, atoms: &AtomTable, r: &YangStatementRule)
    ensures
        final(out)@ == old(out)@ + rule_line(atoms.view(), *r),
{
    let mut l: Vec<u8> = Vec::new();
    push_str(&mut l, "    ");
    if r.min_yang_version == YANG_VERSION_1_1 {
        push_str(&mut l, "1.1");
    } else {
        push_str(&mut l, "   ");
    }
    push_str(&mut l, " ");
    let k = atom_text_exec(atoms, r.keyword);
    push_bytes(&mut l, k.as_slice());
    push_str(&mut l, " ");
    let o = byte_as_char(r.occurance);
    push_bytes(&mut l, o.as_slice());
    push_str(&mut l, " (");
    let mut p: Vec<u8> = Vec::new();
    match r.spec {
        Some(gp) => {
            let a = decimal_digits_u64(gp.0 as u64);
            push_bytes(&mut p, a.as_slice());
            push_str(&mut p, ", ");
            let b = decimal_digits_u64(gp.1 as u64);
            push_bytes(&mut p, b.as_slice());
        },
        None => push_str(&mut p, "nil"),
    }
    assert(p@ =~= pos_text(r.spec));
    push_bytes(&mut l, p.as_slice());
    push_str(&mut l, ")\n");
    assert(l@ =~= rule_line(atoms.view(), *r));
    push_bytes(out, l.as_slice());
}

fn push_spec_line(out: &mut Vec<u8>, atoms: &AtomTable, t: &GrammarTables, sp: &crate::grammar::YangStatementSpec)
    ensures
        final(out)@ == old(out)@ + spec_line(atoms.view(), t.tv(), sp.view()),
{
    let mut l: Vec<u8> = Vec::new();
    push_str(&mut l, "  ");
    let k = atom_text_exec(atoms, sp.keyword);
    push_bytes(&mut l, k.as_slice());
    push_str(&mut l, " (");
    let mut a: Vec<u8> = Vec::new();
    if sp.arg_type_idx == -1 {
        push_str(&mut a, "null");
    } else if 0 <= sp.arg_type_idx && (sp.arg_type_idx as usize) < t.types.len() {
        let i = sp.arg_type_idx as usize;
        assert(t.tv()[i as int].name == t.types@[i as int].name);
        a = atom_text_exec(atoms, t.types[i].name);
    }
    assert(a@ =~= arg_type_text(atoms.view(), t.tv(), sp.arg_type_idx));
    push_bytes(&mut l, a.as_slice());
    push_str(&mut l, ")\n");
    assert(l@ =~= spec_line(atoms.view(), t.tv(), sp.view()));
    push_bytes(out, l.as_slice());
}

/// The grammars as text, a line for each grammar, specification and rule.
pub fn yang_print_grammar(t: &GrammarTables, atoms: &AtomTable) -> (r: Vec<u8>)
    ensures
        r@ == grammars_text(atoms.view(), t.tv(), t.gv(), 0),
{
    let ghost av = atoms.view();
    let ghost ts = t.tv();
    let ghost gs = t.gv();
    let mut out: Vec<u8> = Vec::new();
    let mut g: usize = 0;
    while g < t.grammars.len()
        invariant
            av == atoms.view(),
            ts == t.tv(),
            gs == t.gv(),
            g <= t.grammars@.len(),
            out@ + grammars_text(av, ts, gs, g as int) == grammars_text(av, ts, gs, 0),
        decreases t.grammars@.len() - g,
    {
        let gr = &t.grammars[g];
        assert(gs[g as int] == gr.view());
        let ghost out0 = out@;
        push_str(&mut out, "grammar for: ");
        match gr.module_name {
            Some(a) => {
                let n = atom_text_exec(atoms, a);
                push_bytes(&mut out, n.as_slice());
            },
            None => push_str(&mut out, "<builtin>"),
        }
        push_str(&mut out, "\n");
        let ghost sps = gs[g as int].specs;
        let ghost head = out@;
        assert(head =~= out0 + ("grammar for: ".spec_bytes() + name_or(av, gs[g as int].module_name, "<builtin>".spec_bytes()) + "\n".spec_bytes()));
        let mut j: usize = 0;
        while j < gr.specs.len()
            invariant
                av == atoms.view(),
                ts == t.tv(),
                sps == gr.view().specs,
                sps.len() == gr.specs@.len(),
                j <= gr.specs@.len(),
                out@ + specs_text(av, ts, sps, j as int) == head + specs_text(av, ts, sps, 0),
            decreases gr.specs@.len() - j,
        {
            let sp = &gr.specs[j];
            assert(sps[j as int] == sp.view());
            let ghost before = out@;
            push_spec_line(&mut out, atoms, t, sp);
            let ghost rs = sp.rules@;
            let ghost mid = out@;
            let mut k: usize = 0;
            while k < sp.rules.len()
                invariant
                    av == atoms.view(),
                    rs == sp.rules@,
                    k <= rs.len(),
                    out@ + rules_text(av, rs, k as int) == mid + rules_text(av, rs, 0),
                decreases rs.len() - k,
            {
                let ghost ob = out@;
                push_rule_line(&mut out, atoms, &sp.rules[k]);
                assert(ob + rules_text(av, rs, k as int) =~= out@ + rules_text(av, rs, k + 1));
                k = k + 1;
            }
            assert(out@ =~= mid + rules_text(av, rs, 0));
            assert(before + specs_text(av, ts, sps, j as int) =~= out@ + specs_text(av, ts, sps, j + 1));
            j = j + 1;
        }
        assert(out@ =~= head + specs_text(av, ts, sps, 0));
        assert(out0 + grammars_text(av, ts, gs, g as int) =~= out@ + grammars_text(av, ts, gs, g + 1));
        g = g + 1;
    }
    assert(out@ =~= grammars_text(av, ts, gs, 0));
    out
}

} // verus!
