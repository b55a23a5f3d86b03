//! The YANG grammar: argument types, statement specifications and their
//! rules, grouped by the module that defines them, and the check of a parse
//! tree against them.
//!
//! A statement specification names a keyword, the type of its argument (or
//! none) and the rules for its substatements.  A rule names a keyword (with
//! the module of an extension), the YANG version it needs, the specification
//! it stands for, and how often the substatement may occur: `1` exactly once,
//! `?` at most once, `*` any number, `+` at least once.  While a block is
//! checked, a rule's occurrence changes: `0` once it can no longer occur and
//! `-` once passed in canonical order.  The rule `$cut` separates groups that
//! must come in order.

use vstd::prelude::*;
use crate::atoms::{Atom, AtomTable, spec_intern, lemma_intern, spec_lookup, spec_table_wf, lemma_lookup, lemma_clean_no_nul, spec_clean, spec_is_current};
use crate::regex::{compiler_ok, compiles, call_compile};
use crate::text::{copy_bytes, lemma_no_nul};
use vstd::string::StringSliceAdditionalSpecFns;

verus! {

pub const F_STMT_ARG_MATCH: u32 = 0x1;
pub const F_ARG_TYPE_SYNTAX_REGEXP: u32 = 0x1;
pub const F_ARG_TYPE_SYNTAX_CB: u32 = 0x2;
pub const F_ERL_ATOM: u32 = 0x1_0000;
pub const F_ERL_INT: u32 = 0x2_0000;
pub const F_ERL_UINT: u32 = 0x4_0000;
pub const F_ERL_IDENTIFIER_REF: u32 = 0x8_0000;
pub const F_ERL_ATOM_OR_INT: u32 = 0x10_0000;
pub const F_ERL_ATOM_OR_UINT: u32 = 0x20_0000;

pub const YANG_ERR_INTERNAL: i32 = 1;
pub const YANG_ERR_GRAMMAR_KEYWORD_ALREADY_FOUND: i32 = 200;
pub const YANG_ERR_GRAMMAR_EXPECTED_KEYWORD: i32 = 201;
pub const YANG_ERR_GRAMMAR_UNEXPECTED_KEYWORD: i32 = 202;
pub const YANG_ERR_GRAMMAR_UNDEFINED_PREFIX: i32 = 203;
pub const YANG_ERR_GRAMMAR_DUPLICATE_PREFIX: i32 = 204;
pub const YANG_ERR_GRAMMAR_MISSING_ARGUMENT: i32 = 205;
pub const YANG_ERR_GRAMMAR_UNEXPECTED_ARGUMENT: i32 = 206;
pub const YANG_ERR_GRAMMAR_BAD_ARGUMENT: i32 = 207;

/// The checks an argument type can run on an argument.
#[derive(Clone, Copy, PartialEq, Eq, Debug, Structural)]
pub enum Validator {
    XsdRegexp,
    Identifier,
    Date,
    MaxValue,
    NonNegativeInteger,
    Integer,
    EnumArg,
    FractionDigitsArg,
    IfFeatureExpr,
}

/// How an argument type checks its arguments: not at all, by a pattern not
/// yet compiled, or by a validator with the pattern it matches against.
pub enum ArgSyntax {
    Empty,
    Regexp(Vec<u8>),
    Callback(Validator, Option<Vec<u8>>),
}

/// An argument type: its name, how it checks, and its flags.
pub struct YangArgType {
    pub name: Atom,
    pub syntax: ArgSyntax,
    pub flags: u32,
}

/// A rule for a substatement.
#[derive(Clone, Copy)]
pub struct YangStatementRule {
    pub module_name: Option<Atom>,
    pub keyword: Atom,
    pub min_yang_version: i8,
    pub spec: Option<(usize, usize)>,
    pub occurance: u8,
}

/// The specification of a statement.
pub struct YangStatementSpec {
    pub keyword: Atom,
    pub arg_type_idx: i32,
    pub flags: u32,
    pub rules: Vec<YangStatementRule>,
}

/// The statement specifications that one module defines; the core grammar
/// has no module name.
pub struct Grammar {
    pub module_name: Option<Atom>,
    pub specs: Vec<YangStatementSpec>,
}

/// The atoms of the keywords that the checker knows by name.
#[derive(Clone, Copy)]
pub struct KnownAtoms {
    pub module: Option<Atom>,
    pub submodule: Option<Atom>,
    pub yang_version: Option<Atom>,
    pub namespace: Option<Atom>,
    pub prefix: Option<Atom>,
    pub import: Option<Atom>,
    pub incl: Option<Atom>,
    pub belongs_to: Option<Atom>,
    pub sp_cut: Option<Atom>,
}

/// All grammars and argument types.
pub struct GrammarTables {
    pub grammars: Vec<Grammar>,
    pub types: Vec<YangArgType>,
    pub am: KnownAtoms,
}

pub enum SyntaxV {
    Empty,
    Regexp(Seq<u8>),
    Callback(Validator, Option<Seq<u8>>),
}

pub struct ArgTypeV {
    pub name: Atom,
    pub syntax: SyntaxV,
    pub flags: u32,
}

pub struct SpecV {
    pub keyword: Atom,
    pub arg_type_idx: i32,
    pub flags: u32,
    pub rules: Seq<YangStatementRule>,
}

pub struct GrammarV {
    pub module_name: Option<Atom>,
    pub specs: Seq<SpecV>,
}

impl ArgSyntax {
    pub open spec fn view(&self) -> SyntaxV {
        match self {
            ArgSyntax::Empty => SyntaxV::Empty,
            ArgSyntax::Regexp(p) => SyntaxV::Regexp(p@),
            ArgSyntax::Callback(v, r) => SyntaxV::Callback(*v, match r {
                Some(p) => Some(p@),
                None => None,
            }),
        }
    }
}

impl YangArgType {
    pub open spec fn view(&self) -> ArgTypeV {
        ArgTypeV { name: self.name, syntax: self.syntax.view(), flags: self.flags }
    }
}

impl YangStatementSpec {
    pub open spec fn view(&self) -> SpecV {
        SpecV { keyword: self.keyword, arg_type_idx: self.arg_type_idx, flags: self.flags, rules: self.rules@ }
    }
}

impl Grammar {
    pub open spec fn view(&self) -> GrammarV {
        GrammarV { module_name: self.module_name, specs: specs_view(self.specs@) }
    }
}

impl GrammarTables {
    pub open spec fn gv(&self) -> Seq<GrammarV> {
        self.grammars@.map_values(|g: Grammar| g.view())
    }

    pub open spec fn tv(&self) -> Seq<ArgTypeV> {
        self.types@.map_values(|t: YangArgType| t.view())
    }

    /// Empty tables, with the known atoms given.
    pub fn new(am: KnownAtoms) -> (t: GrammarTables)
        ensures
            t.gv() == Seq::<GrammarV>::empty(),
            t.tv() == Seq::<ArgTypeV>::empty(),
            t.am == am,
    {
        let t = GrammarTables { grammars: Vec::new(), types: Vec::new(), am };
        assert(t.gv() =~= Seq::<GrammarV>::empty());
        assert(t.tv() =~= Seq::<ArgTypeV>::empty());
        t
    }
}

/// The first grammar at or after `i` for module `mn`.
pub open spec fn grammar_from(gs: Seq<GrammarV>, mn: Option<Atom>, i: int) -> Option<int>
    decreases gs.len() - i,
{
    if i < 0 || i >= gs.len() {
        None
    } else if gs[i].module_name == mn {
        Some(i)
    } else {
        grammar_from(gs, mn, i + 1)
    }
}

proof fn lemma_grammar_from(gs: Seq<GrammarV>, mn: Option<Atom>, i: int)
    requires
        0 <= i,
    ensures
        grammar_from(gs, mn, i) matches Some(k) ==> i <= k < gs.len() && gs[k].module_name == mn,
        grammar_from(gs, mn, i) is None ==> forall|k: int| i <= k < gs.len() ==> #[trigger] gs[k].module_name != mn,
    decreases gs.len() - i,
{
    if i < gs.len() && gs[i].module_name != mn {
        lemma_grammar_from(gs, mn, i + 1);
    }
}

/// The grammar for module `mn` (the core grammar for none), if installed.
pub open spec fn spec_get_grammar(gs: Seq<GrammarV>, mn: Option<Atom>) -> Option<int> {
    grammar_from(gs, mn, 0)
}

/// The grammar for module `module_name`, if installed.
pub fn get_grammar(t: &GrammarTables, module_name: Option<Atom>) -> (r: Option<usize>)
    ensures
        opt_usize(r) == spec_get_grammar(t.gv(), module_name),
        r matches Some(i) ==> i < t.grammars@.len(),
{
    proof {
        lemma_grammar_from(t.gv(), module_name, 0);
    }
    let mut i: usize = 0;
    while i < t.grammars.len()
        invariant
            i <= t.grammars@.len(),
            grammar_from(t.gv(), module_name, i as int) == spec_get_grammar(t.gv(), module_name),
        decreases t.grammars@.len() - i,
    {
        assert(t.gv()[i as int].module_name == t.grammars@[i as int].module_name);
        if t.grammars[i].module_name == module_name {
            return Some(i);
        }
        i = i + 1;
    }
    None
}

pub open spec fn opt_usize(o: Option<usize>) -> Option<int> {
    match o {
        Some(v) => Some(v as int),
        None => None,
    }
}

pub open spec fn opt_pair(o: Option<(usize, usize)>) -> Option<(int, int)> {
    match o {
        Some(v) => Some((v.0 as int, v.1 as int)),
        None => None,
    }
}

/// The `offset`-th specification (from 0) at or after `j` in `specs` with keyword `kw`.
pub open spec fn nth_spec_from(specs: Seq<SpecV>, kw: Atom, offset: int, j: int) -> Option<int>
    decreases specs.len() - j,
{
    if j < 0 || j >= specs.len() {
        None
    } else if specs[j].keyword == kw {
        if offset > 0 {
            nth_spec_from(specs, kw, offset - 1, j + 1)
        } else {
            Some(j)
        }
    } else {
        nth_spec_from(specs, kw, offset, j + 1)
    }
}

/// The specification that a rule with keyword `kw` stands for in grammar
/// `g`: the `offset`-th one with that keyword.
pub open spec fn spec_get_spec_from_rule(gs: Seq<GrammarV>, g: Option<int>, kw: Atom, offset: int) -> Option<(int, int)> {
    match g {
        None => None,
        Some(gi) => if 0 <= gi < gs.len() {
            match nth_spec_from(gs[gi].specs, kw, offset, 0) {
                Some(j) => Some((gi, j)),
                None => None,
            }
        } else {
            None
        },
    }
}

/// The specification that a rule with keyword `kw` stands for in grammar `g`.
pub fn get_spec_from_rule(t: &GrammarTables, g: Option<usize>, kw: Atom, offset: usize) -> (r: Option<(usize, usize)>)
    ensures
        opt_pair(r) == spec_get_spec_from_rule(t.gv(), opt_usize(g), kw, offset as int),
{
    let gi = match g {
        None => return None,
        Some(gi) => gi,
    };
    if gi >= t.grammars.len() {
        return None;
    }
    let ghost specs = t.gv()[gi as int].specs;
    let specs_e = &t.grammars[gi].specs;
    assert(specs.len() == specs_e@.len());
    let mut off = offset;
    let mut j: usize = 0;
    while j < specs_e.len()
        invariant
            gi < t.grammars@.len(),
            g == Some(gi),
            specs == t.gv()[gi as int].specs,
            specs_e == t.grammars@[gi as int].specs,
            j <= specs_e@.len(),
            specs.len() == specs_e@.len(),
            forall|k: int| 0 <= k < specs.len() ==> #[trigger] specs[k].keyword == specs_e@[k].keyword,
            off <= offset,
            nth_spec_from(specs, kw, off as int, j as int) == nth_spec_from(specs, kw, offset as int, 0),
        decreases specs_e@.len() - j,
    {
        if specs_e[j].keyword == kw {
            if off > 0 {
                off = off - 1;
            } else {
                return Some((gi, j));
            }
        }
        j = j + 1;
    }
    None
}

/// The first specification at or after `j` with keyword `kw` that does not
/// match on its argument.
pub open spec fn stmt_spec_from(specs: Seq<SpecV>, kw: Atom, j: int) -> Option<int>
    decreases specs.len() - j,
{
    if j < 0 || j >= specs.len() {
        None
    } else if specs[j].keyword == kw && (specs[j].flags & F_STMT_ARG_MATCH) == 0 {
        Some(j)
    } else {
        stmt_spec_from(specs, kw, j + 1)
    }
}

/// The specification of statement `kw` of module `mn`: in that module's
/// grammar, the first one with that keyword that does not match on its argument.
pub open spec fn spec_get_statement_spec(gs: Seq<GrammarV>, mn: Option<Atom>, kw: Atom) -> Option<(int, int)> {
    match spec_get_grammar(gs, mn) {
        None => None,
        Some(gi) => match stmt_spec_from(gs[gi].specs, kw, 0) {
            Some(j) => Some((gi, j)),
            None => None,
        },
    }
}

/// The specification of statement `keyword` of module `module_name`.
pub fn yang_get_statement_spec(t: &GrammarTables, module_name: Option<Atom>, keyword: Atom) -> (r: Option<(usize, usize)>)
    ensures
        opt_pair(r) == spec_get_statement_spec(t.gv(), module_name, keyword),
{
    let gi = match get_grammar(t, module_name) {
        None => return None,
        Some(gi) => gi,
    };
    let ghost specs = t.gv()[gi as int].specs;
    let specs_e = &t.grammars[gi].specs;
    assert(specs.len() == specs_e@.len());
    let mut j: usize = 0;
    while j < specs_e.len()
        invariant
            gi < t.grammars@.len(),
            spec_get_grammar(t.gv(), module_name) == Some(gi as int),
            specs == t.gv()[gi as int].specs,
            specs_e == t.grammars@[gi as int].specs,
            j <= specs_e@.len(),
            specs.len() == specs_e@.len(),
            forall|k: int| 0 <= k < specs.len() ==> #[trigger] specs[k] == specs_e@[k].view(),
            stmt_spec_from(specs, keyword, j as int) == stmt_spec_from(specs, keyword, 0),
        decreases specs_e@.len() - j,
    {
        if specs_e[j].keyword == keyword && (specs_e[j].flags & F_STMT_ARG_MATCH) == 0 {
            return Some((gi, j));
        }
        j = j + 1;
    }
    None
}

/// The first argument type at or after `i` named `name`.
pub open spec fn type_from(ts: Seq<ArgTypeV>, name: Option<Atom>, i: int) -> Option<int>
    decreases ts.len() - i,
{
    if i < 0 || i >= ts.len() {
        None
    } else if Some(ts[i].name) == name {
        Some(i)
    } else {
        type_from(ts, name, i + 1)
    }
}

/// The index of the argument type named `name`, or -1.
pub open spec fn spec_get_arg_type_idx(ts: Seq<ArgTypeV>, name: Option<Atom>) -> int {
    match type_from(ts, name, 0) {
        Some(i) => i,
        None => -1,
    }
}

/// The tables hold fewer argument types than an `i32` counts.
pub open spec fn types_fit(t: &GrammarTables) -> bool {
    t.types@.len() < i32::MAX
}

/// The index of the argument type named `name`, or -1.
pub fn yang_get_arg_type_idx(t: &GrammarTables, name: Option<Atom>) -> (r: i32)
    requires
        types_fit(t),
    ensures
        r as int == spec_get_arg_type_idx(t.tv(), name),
{
    let mut i: usize = 0;
    while i < t.types.len()
        invariant
            i <= t.types@.len(),
            t.types@.len() < i32::MAX,
            type_from(t.tv(), name, i as int) == type_from(t.tv(), name, 0),
        decreases t.types@.len() - i,
    {
        assert(t.tv()[i as int].name == t.types@[i as int].name);
        if Some(t.types[i].name) == name {
            return i as i32;
        }
        i = i + 1;
    }
    -1
}

/// The argument type at `idx`, if there is one.
pub fn yang_get_arg_type(t: &GrammarTables, idx: i32) -> (r: Option<usize>)
    ensures
        r == (if 0 <= idx < t.types@.len() { Some(idx as usize) } else { None::<usize> }),
{
    if idx >= 0 && (idx as usize) < t.types.len() {
        Some(idx as usize)
    } else {
        None
    }
}

/// The module names of the grammars.  When `n` is less than their count
/// minus one (the core grammar has none), that count is all that is given.
pub fn yang_get_grammar_module_names(t: &GrammarTables, n: i32) -> (r: (i32, Vec<Atom>))
    requires
        t.grammars@.len() < i32::MAX,
    ensures
        n < t.grammars@.len() - 1 ==> r.0 == t.grammars@.len() - 1 && r.1@.len() == 0,
        n >= t.grammars@.len() - 1 ==> r.0 == r.1@.len() && r.1@ == spec_module_names(t.gv()),
{
    let ng = t.grammars.len() as i32;
    if n < ng - 1 {
        return (ng - 1, Vec::new());
    }
    let mut names: Vec<Atom> = Vec::new();
    let mut i: usize = 0;
    while i < t.grammars.len()
        invariant
            i <= t.grammars@.len(),
            t.grammars@.len() < i32::MAX,
            names@.len() <= i,
            names@ == spec_module_names(t.gv().subrange(0, i as int)),
        decreases t.grammars@.len() - i,
    {
        assert(t.gv().subrange(0, i + 1).drop_last() =~= t.gv().subrange(0, i as int));
        assert(t.gv()[i as int].module_name == t.grammars@[i as int].module_name);
        if let Some(m) = t.grammars[i].module_name {
            names.push(m);
        }
        i = i + 1;
    }
    assert(t.gv().subrange(0, t.grammars@.len() as int) =~= t.gv());
    (names.len() as i32, names)
}

/// The module names of the grammars that have one, in order.
pub open spec fn spec_module_names(gs: Seq<GrammarV>) -> Seq<Atom>
    decreases gs.len(),
{
    if gs.len() == 0 {
        Seq::<Atom>::empty()
    } else {
        match gs.last().module_name {
            Some(m) => spec_module_names(gs.drop_last()).push(m),
            None => spec_module_names(gs.drop_last()),
        }
    }
}


/// The number of grammars without a module name (the core grammar).
pub open spec fn unnamed_count(gs: Seq<GrammarV>) -> nat
    decreases gs.len(),
{
    if gs.len() == 0 {
        0
    } else {
        unnamed_count(gs.drop_last()) + if gs.last().module_name is None { 1nat } else { 0nat }
    }
}

/// The module names listed are one per grammar that has one: as many as the
/// grammars less those without a name.  So with one core grammar the count
/// `yang_get_grammar_module_names` gives is the number of grammars less one,
/// whatever `n` is.
pub proof fn law_module_names_count(gs: Seq<GrammarV>)
    ensures
        spec_module_names(gs).len() == gs.len() - unnamed_count(gs),
        unnamed_count(gs) == 1 ==> spec_module_names(gs).len() == gs.len() - 1,
    decreases gs.len(),
{
    if gs.len() > 0 {
        law_module_names_count(gs.drop_last());
    }
}

/// Sets the specification of rule `r` of specification `s` of grammar `g`.
pub open spec fn set_rule_spec(gs: Seq<GrammarV>, g: int, s: int, r: int, v: (usize, usize)) -> Seq<GrammarV> {
    let gr = gs[g];
    let sp = gr.specs[s];
    let ru = sp.rules[r];
    gs.update(g, GrammarV { specs: gr.specs.update(s, SpecV { rules: sp.rules.update(r, YangStatementRule { spec: Some(v), ..ru }), ..sp }), ..gr })
}

pub proof fn lemma_set_rule_spec(gs: Seq<GrammarV>, g: int, s: int, r: int, v: (usize, usize))
    requires
        0 <= g < gs.len(),
        0 <= s < gs[g].specs.len(),
        0 <= r < gs[g].specs[s].rules.len(),
    ensures
        set_rule_spec(gs, g, s, r, v).len() == gs.len(),
        set_rule_spec(gs, g, s, r, v)[g].specs.len() == gs[g].specs.len(),
        set_rule_spec(gs, g, s, r, v)[g].specs[s].rules.len() == gs[g].specs[s].rules.len(),
{
}

/// Resolves what each rule stands for, from grammar `g`, specification `s`,
/// rule `r` on; `offset` counts the rules just before with the same keyword.
/// A rule that names no specification yet, and is no `$cut`, stands for the
/// `offset`-th specification with its keyword in its module's grammar.  Fails
/// at the first rule whose grammar or specification is missing, with the
/// rules before it resolved.
pub open spec fn spec_fix(gs: Seq<GrammarV>, cut: Option<Atom>, g: int, s: int, r: int, offset: int) -> (bool, Seq<GrammarV>)
    decreases gs.len() - g, (if 0 <= g < gs.len() { gs[g].specs.len() - s } else { 0 }), (if 0 <= g < gs.len() && 0 <= s < gs[g].specs.len() { gs[g].specs[s].rules.len() - r } else { 0 }),
{
    if g < 0 || g >= gs.len() {
        (true, gs)
    } else if s < 0 || s >= gs[g].specs.len() {
        spec_fix(gs, cut, g + 1, 0, 0, 0)
    } else if r < 0 || r >= gs[g].specs[s].rules.len() {
        spec_fix(gs, cut, g, s + 1, 0, 0)
    } else {
        let rules = gs[g].specs[s].rules;
        let rule = rules[r];
        let off = if r > 0 && rules[r - 1].keyword == rule.keyword { offset + 1 } else { 0 };
        if rule.spec is None && Some(rule.keyword) != cut {
            match spec_get_grammar(gs, rule.module_name) {
                None => (false, gs),
                Some(rg) => match spec_get_spec_from_rule(gs, Some(rg), rule.keyword, off) {
                    None => (false, gs),
                    Some(sp) => {
                        proof {
                            lemma_set_rule_spec(gs, g, s, r, (sp.0 as usize, sp.1 as usize));
                        }
                        spec_fix(set_rule_spec(gs, g, s, r, (sp.0 as usize, sp.1 as usize)), cut, g, s, r + 1, off)
                    },
                },
            }
        } else {
            spec_fix(gs, cut, g, s, r + 1, off)
        }
    }
}


proof fn lemma_nth_spec_from(specs: Seq<SpecV>, kw: Atom, offset: int, j: int)
    requires
        0 <= j,
    ensures
        nth_spec_from(specs, kw, offset, j) matches Some(k) ==> j <= k < specs.len() && specs[k].keyword == kw,
    decreases specs.len() - j,
{
    if 0 <= j < specs.len() {
        if specs[j].keyword == kw {
            if offset > 0 {
                lemma_nth_spec_from(specs, kw, offset - 1, j + 1);
            }
        } else {
            lemma_nth_spec_from(specs, kw, offset, j + 1);
        }
    }
}

/// Rule `rule` stands for a specification with its keyword, in the grammar
/// of its module.
pub open spec fn resolved_rule(gs: Seq<GrammarV>, rule: YangStatementRule) -> bool {
    match rule.spec {
        Some(v) => {
            &&& v.0 < gs.len()
            &&& v.1 < gs[v.0 as int].specs.len()
            &&& gs[v.0 as int].module_name == rule.module_name
            &&& gs[v.0 as int].specs[v.1 as int].keyword == rule.keyword
        },
        None => false,
    }
}

/// A place of a rule in the tables.
pub open spec fn rule_place(gs: Seq<GrammarV>, g: int, s: int, k: int) -> bool {
    0 <= g < gs.len() && 0 <= s < gs[g].specs.len() && 0 <= k < gs[g].specs[s].rules.len()
}

/// How many rules just before rule `k` have its keyword, one after the
/// other: rule `k` stands for the specification with its keyword after as
/// many others.
pub open spec fn run_before(rules: Seq<YangStatementRule>, k: int) -> int
    decreases k,
{
    if 0 < k < rules.len() && rules[k - 1].keyword == rules[k].keyword {
        run_before(rules, k - 1) + 1
    } else {
        0
    }
}

/// The specification a rule with `n` rules of its keyword just before it
/// stands for: the `n`-th (from 0) with its keyword, in the grammar of its
/// module.
pub open spec fn rule_target(gs: Seq<GrammarV>, o: YangStatementRule, n: int) -> Option<(int, int)> {
    spec_get_spec_from_rule(gs, spec_get_grammar(gs, o.module_name), o.keyword, n)
}

/// A place found, as a rule names it.
pub open spec fn target_place(t: Option<(int, int)>) -> (usize, usize) {
    match t {
        Some(p) => (p.0 as usize, p.1 as usize),
        None => (0usize, 0usize),
    }
}

/// The rule at a place once resolved: a rule with a specification, or the
/// cut, is left as it was; another one names the specification it stands
/// for, which must be there.
pub open spec fn fixed_to(gs0: Seq<GrammarV>, gs: Seq<GrammarV>, o: YangStatementRule, c: YangStatementRule, cut: Option<Atom>, n: int) -> bool {
    if o.spec is None && Some(o.keyword) != cut {
        &&& rule_target(gs0, o, n) is Some
        &&& c == YangStatementRule {
            spec: Some(target_place(rule_target(gs0, o, n))),
            ..o
        }
        &&& resolved_rule(gs, c)
    } else {
        c == o
    }
}

pub open spec fn before(g2: int, s2: int, k2: int, g: int, s: int, r: int) -> bool {
    g2 < g || (g2 == g && (s2 < s || (s2 == s && k2 < r)))
}

pub open spec fn fix_inv(gs0: Seq<GrammarV>, gs: Seq<GrammarV>, cut: Option<Atom>, g: int, s: int, r: int) -> bool {
    &&& same_index(gs0, gs)
    &&& forall|g2: int, s2: int| 0 <= g2 < gs0.len() && 0 <= s2 < gs0[g2].specs.len()
        ==> (#[trigger] gs[g2].specs[s2]).rules.len() == gs0[g2].specs[s2].rules.len()
    &&& forall|g2: int, s2: int, k2: int| #[trigger] rule_place(gs0, g2, s2, k2) ==> if before(g2, s2, k2, g, s, r) {
        fixed_to(gs0, gs, gs0[g2].specs[s2].rules[k2], gs[g2].specs[s2].rules[k2], cut, run_before(gs0[g2].specs[s2].rules, k2))
    } else {
        gs[g2].specs[s2].rules[k2] == gs0[g2].specs[s2].rules[k2]
    }
}

/// Every rule from `(g, s, r)` on that must be resolved has a specification
/// to stand for.
pub open spec fn targets_from(gs0: Seq<GrammarV>, cut: Option<Atom>, g: int, s: int, r: int) -> bool {
    forall|g2: int, s2: int, k2: int| #[trigger] rule_place(gs0, g2, s2, k2) && !before(g2, s2, k2, g, s, r)
        && gs0[g2].specs[s2].rules[k2].spec is None && Some(gs0[g2].specs[s2].rules[k2].keyword) != cut
        ==> rule_target(gs0, gs0[g2].specs[s2].rules[k2], run_before(gs0[g2].specs[s2].rules, k2)) is Some
}

proof fn lemma_nth_same(a: Seq<SpecV>, b: Seq<SpecV>, kw: Atom, offset: int, j: int)
    requires
        a.len() == b.len(),
        forall|s: int| 0 <= s < a.len() ==> (#[trigger] b[s]).keyword == a[s].keyword,
    ensures
        nth_spec_from(a, kw, offset, j) == nth_spec_from(b, kw, offset, j),
    decreases a.len() - j,
{
    if 0 <= j < a.len() {
        assert(b[j].keyword == a[j].keyword);
        if a[j].keyword == kw && offset > 0 {
            lemma_nth_same(a, b, kw, offset - 1, j + 1);
        } else {
            lemma_nth_same(a, b, kw, offset, j + 1);
        }
    }
}

proof fn lemma_target_same(a: Seq<GrammarV>, b: Seq<GrammarV>, o: YangStatementRule, n: int)
    requires
        same_index(a, b),
    ensures
        rule_target(a, o, n) == rule_target(b, o, n),
{
    lemma_grammar_from_same(a, b, o.module_name, 0);
    lemma_grammar_from(a, o.module_name, 0);
    if let Some(gi) = spec_get_grammar(a, o.module_name) {
        assert(b[gi].specs.len() == a[gi].specs.len());
        assert forall|s: int| 0 <= s < a[gi].specs.len() implies (#[trigger] b[gi].specs[s]).keyword == a[gi].specs[s].keyword by {}
        lemma_nth_same(a[gi].specs, b[gi].specs, o.keyword, n, 0);
    }
}

proof fn lemma_fix_resolves(gs0: Seq<GrammarV>, gs: Seq<GrammarV>, cut: Option<Atom>, g: int, s: int, r: int, offset: int)
    requires
        0 <= g,
        0 <= s,
        0 <= r,
        fix_inv(gs0, gs, cut, g, s, r),
        gs0.len() <= usize::MAX,
        forall|g2: int| 0 <= g2 < gs0.len() ==> (#[trigger] gs0[g2]).specs.len() <= usize::MAX,
        g < gs0.len() && s < gs0[g].specs.len() && 0 < r ==> offset == run_before(gs0[g].specs[s].rules, r - 1),
    ensures
        spec_fix(gs, cut, g, s, r, offset).0 ==> fix_inv(gs0, spec_fix(gs, cut, g, s, r, offset).1, cut, gs.len() as int, 0, 0),
        spec_fix(gs, cut, g, s, r, offset).0 == targets_from(gs0, cut, g, s, r),
    decreases gs.len() - g, (if 0 <= g < gs.len() { gs[g].specs.len() - s } else { 0 }), (if 0 <= g < gs.len() && 0 <= s < gs[g].specs.len() { gs[g].specs[s].rules.len() - r } else { 0 }),
{
    if g >= gs.len() {
        assert forall|g2: int, s2: int, k2: int| #[trigger] rule_place(gs0, g2, s2, k2)
            implies before(g2, s2, k2, gs.len() as int, 0, 0) == before(g2, s2, k2, g, s, r) by {}
    } else if s >= gs[g].specs.len() {
        assert forall|g2: int, s2: int, k2: int| #[trigger] rule_place(gs0, g2, s2, k2)
            implies before(g2, s2, k2, g + 1, 0, 0) == before(g2, s2, k2, g, s, r) by {
            assert(gs[g].specs.len() == gs0[g].specs.len());
        }
        lemma_fix_resolves(gs0, gs, cut, g + 1, 0, 0, 0);
    } else if r >= gs[g].specs[s].rules.len() {
        assert forall|g2: int, s2: int, k2: int| #[trigger] rule_place(gs0, g2, s2, k2)
            implies before(g2, s2, k2, g, s + 1, 0) == before(g2, s2, k2, g, s, r) by {
            assert(gs[g].specs[s].rules.len() == gs0[g].specs[s].rules.len());
        }
        lemma_fix_resolves(gs0, gs, cut, g, s + 1, 0, 0);
    } else {
        let rules = gs[g].specs[s].rules;
        let rule = rules[r];
        let off = if r > 0 && rules[r - 1].keyword == rule.keyword { offset + 1 } else { 0 };
        assert(rule_place(gs0, g, s, r));
        let rules0 = gs0[g].specs[s].rules;
        assert(rule == rules0[r]);
        if r > 0 {
            assert(rule_place(gs0, g, s, r - 1));
            assert(rules[r - 1].keyword == rules0[r - 1].keyword);
        }
        assert(off == run_before(rules0, r));
        lemma_target_same(gs0, gs, rule, off);
        assert forall|g2: int, s2: int, k2: int| #[trigger] rule_place(gs0, g2, s2, k2) && !(g2 == g && s2 == s && k2 == r)
            implies before(g2, s2, k2, g, s, r + 1) == before(g2, s2, k2, g, s, r) by {}
        if rule.spec is None && Some(rule.keyword) != cut {
            match spec_get_grammar(gs, rule.module_name) {
                None => {
                    assert(!targets_from(gs0, cut, g, s, r));
                },
                Some(rg) => match spec_get_spec_from_rule(gs, Some(rg), rule.keyword, off) {
                    None => {
                        assert(!targets_from(gs0, cut, g, s, r));
                    },
                    Some(sp) => {
                        lemma_grammar_from(gs, rule.module_name, 0);
                        lemma_nth_spec_from(gs[rg].specs, rule.keyword, off, 0);
                        let v = (sp.0 as usize, sp.1 as usize);
                        let gs1 = set_rule_spec(gs, g, s, r, v);
                        lemma_set_rule_spec(gs, g, s, r, v);
                        assert(same_index(gs0, gs1)) by {
                            assert forall|g2: int| 0 <= g2 < gs0.len() implies {
                                &&& (#[trigger] gs1[g2]).module_name == gs0[g2].module_name
                                &&& gs1[g2].specs.len() == gs0[g2].specs.len()
                                &&& forall|s2: int| 0 <= s2 < gs0[g2].specs.len() ==> (#[trigger] gs1[g2].specs[s2]).keyword == gs0[g2].specs[s2].keyword
                                    && gs1[g2].specs[s2].flags == gs0[g2].specs[s2].flags
                            } by {
                                assert(gs[g2].module_name == gs0[g2].module_name);
                                assert forall|s2: int| 0 <= s2 < gs0[g2].specs.len() implies (#[trigger] gs1[g2].specs[s2]).keyword == gs0[g2].specs[s2].keyword
                                    && gs1[g2].specs[s2].flags == gs0[g2].specs[s2].flags by {
                                    assert(gs[g2].specs[s2].keyword == gs0[g2].specs[s2].keyword);
                                }
                            }
                        }
                        assert forall|g2: int, s2: int| 0 <= g2 < gs0.len() && 0 <= s2 < gs0[g2].specs.len()
                            implies (#[trigger] gs1[g2].specs[s2]).rules.len() == gs0[g2].specs[s2].rules.len() by {
                            assert(gs[g2].specs[s2].rules.len() == gs0[g2].specs[s2].rules.len());
                        }
                        assert forall|g2: int, s2: int, k2: int| #[trigger] rule_place(gs0, g2, s2, k2) implies if before(g2, s2, k2, g, s, r + 1) {
                            fixed_to(gs0, gs1, gs0[g2].specs[s2].rules[k2], gs1[g2].specs[s2].rules[k2], cut, run_before(gs0[g2].specs[s2].rules, k2))
                        } else {
                            gs1[g2].specs[s2].rules[k2] == gs0[g2].specs[s2].rules[k2]
                        } by {
                            let c = gs[g2].specs[s2].rules[k2];
                            if g2 == g && s2 == s && k2 == r {
                                assert(gs1[g].specs[s].rules[r] == YangStatementRule { spec: Some(v), ..rule });
                                assert(gs0[rg].specs.len() <= usize::MAX);
                                assert(v.0 as int == rg);
                                assert(v.1 as int == sp.1);
                                assert(gs[rg].module_name == rule.module_name);
                                assert(gs1[rg].module_name == gs0[rg].module_name);
                                assert(gs1[rg].specs[sp.1].keyword == gs0[rg].specs[sp.1].keyword);
                            } else {
                                assert(gs1[g2].specs[s2].rules[k2] == c);
                                if before(g2, s2, k2, g, s, r) && c != gs0[g2].specs[s2].rules[k2] {
                                    let w = c.spec->0;
                                    assert(gs1[w.0 as int].module_name == gs0[w.0 as int].module_name);
                                    assert(gs[w.0 as int].module_name == gs0[w.0 as int].module_name);
                                    assert(gs1[w.0 as int].specs[w.1 as int].keyword == gs0[w.0 as int].specs[w.1 as int].keyword);
                                    assert(gs[w.0 as int].specs[w.1 as int].keyword == gs0[w.0 as int].specs[w.1 as int].keyword);
                                }
                            }
                        }
                        lemma_fix_resolves(gs0, gs1, cut, g, s, r + 1, off);
                        assert(targets_from(gs0, cut, g, s, r) == targets_from(gs0, cut, g, s, r + 1));
                    },
                },
            }
        } else {
            assert forall|g2: int, s2: int, k2: int| #[trigger] rule_place(gs0, g2, s2, k2) implies if before(g2, s2, k2, g, s, r + 1) {
                fixed_to(gs0, gs, gs0[g2].specs[s2].rules[k2], gs[g2].specs[s2].rules[k2], cut, run_before(gs0[g2].specs[s2].rules, k2))
            } else {
                gs[g2].specs[s2].rules[k2] == gs0[g2].specs[s2].rules[k2]
            } by {}
            lemma_fix_resolves(gs0, gs, cut, g, s, r + 1, off);
            assert(targets_from(gs0, cut, g, s, r) == targets_from(gs0, cut, g, s, r + 1));
        }
    }
}

/// What resolving the rules does.  It works exactly when every rule that
/// names no specification and is not the cut has one to stand for: in the
/// grammar of the rule's module, the specification with the rule's keyword
/// that comes after as many others with that keyword as there are rules with
/// that keyword just before the rule.  When it works, each such rule names
/// that specification; every other rule, and everything else of the rules,
/// the specifications and the grammars, is as it was.  (The tables count
/// their grammars and specifications in `usize`.)
pub proof fn law_fix_resolves(gs: Seq<GrammarV>, cut: Option<Atom>)
    requires
        gs.len() <= usize::MAX,
        forall|g: int| 0 <= g < gs.len() ==> (#[trigger] gs[g]).specs.len() <= usize::MAX,
    ensures
        spec_fix(gs, cut, 0, 0, 0, 0).0 == (forall|g: int, s: int, k: int| #[trigger] rule_place(gs, g, s, k)
            && gs[g].specs[s].rules[k].spec is None && Some(gs[g].specs[s].rules[k].keyword) != cut
            ==> rule_target(gs, gs[g].specs[s].rules[k], run_before(gs[g].specs[s].rules, k)) is Some),
        spec_fix(gs, cut, 0, 0, 0, 0).0 ==> {
            let r = spec_fix(gs, cut, 0, 0, 0, 0).1;
            &&& same_index(gs, r)
            &&& forall|g: int, s: int| 0 <= g < gs.len() && 0 <= s < gs[g].specs.len()
                ==> (#[trigger] r[g].specs[s]).rules.len() == gs[g].specs[s].rules.len()
            &&& forall|g: int, s: int, k: int| #[trigger] rule_place(gs, g, s, k) ==> fixed_to(
                gs, r, gs[g].specs[s].rules[k], r[g].specs[s].rules[k], cut, run_before(gs[g].specs[s].rules, k))
        },
{
    assert(fix_inv(gs, gs, cut, 0, 0, 0));
    lemma_fix_resolves(gs, gs, cut, 0, 0, 0, 0);
    assert forall|g: int, s: int, k: int| #[trigger] rule_place(gs, g, s, k) implies !before(g, s, k, 0, 0, 0) by {}
    if spec_fix(gs, cut, 0, 0, 0, 0).0 {
        let r = spec_fix(gs, cut, 0, 0, 0, 0).1;
        assert forall|g: int, s: int, k: int| #[trigger] rule_place(gs, g, s, k) implies fixed_to(
            gs, r, gs[g].specs[s].rules[k], r[g].specs[s].rules[k], cut, run_before(gs[g].specs[s].rules, k)) by {
            assert(before(g, s, k, gs.len() as int, 0, 0));
        }
    }
}

/// Resolving rules keeps the grammars and their module names.
proof fn lemma_fix_keeps(gs: Seq<GrammarV>, cut: Option<Atom>, g: int, s: int, r: int, offset: int)
    ensures
        spec_fix(gs, cut, g, s, r, offset).1.len() == gs.len(),
        forall|k: int| 0 <= k < gs.len() ==> (#[trigger] spec_fix(gs, cut, g, s, r, offset).1[k]).module_name == gs[k].module_name,
    decreases gs.len() - g, (if 0 <= g < gs.len() { gs[g].specs.len() - s } else { 0 }), (if 0 <= g < gs.len() && 0 <= s < gs[g].specs.len() { gs[g].specs[s].rules.len() - r } else { 0 }),
{
    if g < 0 || g >= gs.len() {
    } else if s < 0 || s >= gs[g].specs.len() {
        lemma_fix_keeps(gs, cut, g + 1, 0, 0, 0);
    } else if r < 0 || r >= gs[g].specs[s].rules.len() {
        lemma_fix_keeps(gs, cut, g, s + 1, 0, 0);
    } else {
        let rules = gs[g].specs[s].rules;
        let rule = rules[r];
        let off = if r > 0 && rules[r - 1].keyword == rule.keyword { offset + 1 } else { 0 };
        if rule.spec is None && Some(rule.keyword) != cut {
            match spec_get_grammar(gs, rule.module_name) {
                None => {},
                Some(rg) => match spec_get_spec_from_rule(gs, Some(rg), rule.keyword, off) {
                    None => {},
                    Some(sp) => {
                        let v = (sp.0 as usize, sp.1 as usize);
                        lemma_set_rule_spec(gs, g, s, r, v);
                        let gs2 = set_rule_spec(gs, g, s, r, v);
                        assert forall|k: int| 0 <= k < gs.len() implies #[trigger] gs2[k].module_name == gs[k].module_name by {
                        }
                        lemma_fix_keeps(gs2, cut, g, s, r + 1, off);
                    },
                },
            }
        } else {
            lemma_fix_keeps(gs, cut, g, s, r + 1, off);
        }
    }
}

proof fn lemma_grammar_first(gs: Seq<GrammarV>, mn: Option<Atom>, i: int, j: int)
    requires
        0 <= i <= j < gs.len(),
        gs[j].module_name == mn,
        forall|k: int| i <= k < j ==> #[trigger] gs[k].module_name != mn,
    ensures
        grammar_from(gs, mn, i) == Some(j),
    decreases j - i,
{
    if i < j {
        lemma_grammar_first(gs, mn, i + 1, j);
    }
}

/// Installing the grammar of a module, whether or not its rules all resolve,
/// makes it the grammar found for that module, after those installed before;
/// installing a grammar for that module again is refused.
pub proof fn law_install_then_found(gs: Seq<GrammarV>, cut: Option<Atom>, mn: Option<Atom>, specs: Seq<SpecV>, specs2: Seq<SpecV>)
    ensures
        spec_get_grammar(gs, mn) is None ==> spec_get_grammar(spec_install_grammar(gs, cut, mn, specs).1, mn)
            == Some(gs.len() as int),
        !spec_install_grammar(spec_install_grammar(gs, cut, mn, specs).1, cut, mn, specs2).0,
{
    let r = spec_install_grammar(gs, cut, mn, specs);
    lemma_grammar_from(gs, mn, 0);
    if spec_get_grammar(gs, mn) is None {
        let gs1 = gs.push(GrammarV { module_name: mn, specs: clear_specs(specs) });
        lemma_fix_keeps(gs1, cut, 0, 0, 0, 0);
        assert(r.1[gs.len() as int].module_name == mn);
        assert forall|k: int| 0 <= k < gs.len() implies #[trigger] r.1[k].module_name != mn by {
            assert(r.1[k].module_name == gs1[k].module_name);
        }
        lemma_grammar_first(r.1, mn, 0, gs.len() as int);
    }
}

/// Sets the specification of one rule.
fn set_rule_spec_exec(t: &mut GrammarTables, g: usize, s: usize, r: usize, v: (usize, usize))
    requires
        g < old(t).grammars@.len(),
        s < old(t).grammars@[g as int].specs@.len(),
        r < old(t).grammars@[g as int].specs@[s as int].rules@.len(),
    ensures
        final(t).gv() == set_rule_spec(old(t).gv(), g as int, s as int, r as int, v),
        final(t).tv() == old(t).tv(),
        final(t).am == old(t).am,
        final(t).grammars@.len() == old(t).grammars@.len(),
        forall|i: int| 0 <= i < final(t).grammars@.len() ==> (#[trigger] final(t).grammars@[i]).specs@.len() == old(t).grammars@[i].specs@.len(),
{
    let ghost gv0 = t.gv();
    t.grammars[g].specs[s].rules[r].spec = Some(v);
    proof {
        let gv1 = t.gv();
        let target = set_rule_spec(gv0, g as int, s as int, r as int, v);
        assert(gv1.len() == target.len());
        assert forall|i: int| 0 <= i < gv1.len() implies gv1[i] == target[i] by {
            if i == g {
                let a = gv1[i].specs;
                let b = target[i].specs;
                assert(a.len() == b.len());
                assert forall|j: int| 0 <= j < a.len() implies a[j] == b[j] by {
                    if j == s {
                        assert(a[j].rules =~= b[j].rules);
                    }
                }
                assert(a =~= b);
            }
        }
        assert(gv1 =~= target);
        assert(t.tv() =~= old(t).tv());
    }
}

/// The grammars' rules all resolved, or the first one that cannot be.
pub fn fix_grammar(t: &mut GrammarTables) -> (ok: bool)
    ensures
        (ok, final(t).gv()) == spec_fix(old(t).gv(), old(t).am.sp_cut, 0, 0, 0, 0),
        final(t).tv() == old(t).tv(),
        final(t).am == old(t).am,
        final(t).grammars@.len() == old(t).grammars@.len(),
{
    let ghost target = spec_fix(t.gv(), t.am.sp_cut, 0, 0, 0, 0);
    let mut i: usize = 0;
    while i < t.grammars.len()
        invariant
            i <= t.grammars@.len(),
            t.tv() == old(t).tv(),
            t.am == old(t).am,
            t.grammars@.len() == old(t).grammars@.len(),
            target == spec_fix(old(t).gv(), old(t).am.sp_cut, 0, 0, 0, 0),
            spec_fix(t.gv(), t.am.sp_cut, i as int, 0, 0, 0) == target,
        decreases t.grammars@.len() - i,
    {
        let mut j: usize = 0;
        let ns = t.grammars[i].specs.len();
        while j < ns
            invariant
                i < t.grammars@.len(),
                ns == t.grammars@[i as int].specs@.len(),
                j <= ns,
                t.tv() == old(t).tv(),
                t.am == old(t).am,
                t.grammars@.len() == old(t).grammars@.len(),
                target == spec_fix(old(t).gv(), old(t).am.sp_cut, 0, 0, 0, 0),
                spec_fix(t.gv(), t.am.sp_cut, i as int, j as int, 0, 0) == target,
            decreases ns - j,
        {
            let mut k: usize = 0;
            let mut offset: usize = 0;
            let nrules = t.grammars[i].specs[j].rules.len();
            while k < nrules
                invariant
                    i < t.grammars@.len(),
                    ns == t.grammars@[i as int].specs@.len(),
                    j < ns,
                    nrules == t.grammars@[i as int].specs@[j as int].rules@.len(),
                    k <= nrules,
                    0 <= offset <= k,
                    t.tv() == old(t).tv(),
                    t.am == old(t).am,
                    t.grammars@.len() == old(t).grammars@.len(),
                    target == spec_fix(old(t).gv(), old(t).am.sp_cut, 0, 0, 0, 0),
                    spec_fix(t.gv(), t.am.sp_cut, i as int, j as int, k as int, offset as int) == target,
                decreases nrules - k,
            {
                let rule = t.grammars[i].specs[j].rules[k];
                assert(t.gv()[i as int].specs[j as int].rules[k as int] == rule);
                if k > 0 {
                    let prev_kw = t.grammars[i].specs[j].rules[k - 1].keyword;
                    assert(t.gv()[i as int].specs[j as int].rules[k - 1].keyword == prev_kw);
                    if prev_kw == rule.keyword {
                        offset = offset + 1;
                    } else {
                        offset = 0;
                    }
                } else {
                    offset = 0;
                }
                if rule.spec.is_none() && Some(rule.keyword) != t.am.sp_cut {
                    let rg = match get_grammar(t, rule.module_name) {
                        None => {
                            return false;
                        },
                        Some(rg) => rg,
                    };
                    let sp = match get_spec_from_rule(t, Some(rg), rule.keyword, offset) {
                        None => {
                            return false;
                        },
                        Some(sp) => sp,
                    };
                    proof {
                        lemma_set_rule_spec(t.gv(), i as int, j as int, k as int, sp);
                    }
                    set_rule_spec_exec(t, i, j, k, sp);
                    assert(t.gv()[i as int].specs[j as int].rules.len() == t.grammars@[i as int].specs@[j as int].rules@.len());
                }
                k = k + 1;
            }
            j = j + 1;
        }
        i = i + 1;
    }
    true
}


/// A rule as installed: it names no specification yet.
pub open spec fn clear_rule(r: YangStatementRule) -> YangStatementRule {
    YangStatementRule { spec: None, ..r }
}

/// A specification as installed: its rules name no specification yet.
pub open spec fn clear_spec(s: SpecV) -> SpecV {
    SpecV { rules: s.rules.map_values(|r: YangStatementRule| clear_rule(r)), ..s }
}

pub open spec fn specs_view(v: Seq<YangStatementSpec>) -> Seq<SpecV> {
    v.map_values(|s: YangStatementSpec| s.view())
}

pub open spec fn clear_specs(v: Seq<SpecV>) -> Seq<SpecV> {
    v.map_values(|s: SpecV| clear_spec(s))
}

/// Installing the grammar of module `mn`: refused when that module has one
/// already; else added, and then every grammar's rules are resolved.
pub open spec fn spec_install_grammar(gs: Seq<GrammarV>, cut: Option<Atom>, mn: Option<Atom>, specs: Seq<SpecV>) -> (bool, Seq<GrammarV>) {
    if spec_get_grammar(gs, mn) is Some {
        (false, gs)
    } else {
        spec_fix(gs.push(GrammarV { module_name: mn, specs: clear_specs(specs) }), cut, 0, 0, 0, 0)
    }
}

fn copy_spec(s: &YangStatementSpec) -> (r: YangStatementSpec)
    ensures
        r.view() == clear_spec(s.view()),
{
    let mut rules: Vec<YangStatementRule> = Vec::new();
    let mut k: usize = 0;
    while k < s.rules.len()
        invariant
            k <= s.rules@.len(),
            rules@ == s.rules@.subrange(0, k as int).map_values(|r: YangStatementRule| clear_rule(r)),
        decreases s.rules@.len() - k,
    {
        let mut r = s.rules[k];
        r.spec = None;
        rules.push(r);
        k = k + 1;
        assert(rules@ =~= s.rules@.subrange(0, k as int).map_values(|r: YangStatementRule| clear_rule(r)));
    }
    assert(s.rules@.subrange(0, s.rules@.len() as int) =~= s.rules@);
    YangStatementSpec { keyword: s.keyword, arg_type_idx: s.arg_type_idx, flags: s.flags, rules }
}

/// Installs the grammar of module `module_name`: refused when that module
/// has one already; else added, and then every grammar's rules are resolved.
pub fn yang_install_grammar(t: &mut GrammarTables, module_name: Option<Atom>, new_specs: &Vec<YangStatementSpec>) -> (ok: bool)
    ensures
        (ok, final(t).gv()) == spec_install_grammar(old(t).gv(), old(t).am.sp_cut, module_name, specs_view(new_specs@)),
        final(t).tv() == old(t).tv(),
        final(t).am == old(t).am,
{
    if get_grammar(t, module_name).is_some() {
        return false;
    }
    let ghost nv = specs_view(new_specs@);
    let mut specs: Vec<YangStatementSpec> = Vec::new();
    let mut i: usize = 0;
    while i < new_specs.len()
        invariant
            i <= new_specs@.len(),
            nv == specs_view(new_specs@),
            specs@.len() == i,
            specs_view(specs@) == clear_specs(nv.subrange(0, i as int)),
        decreases new_specs@.len() - i,
    {
        let c = copy_spec(&new_specs[i]);
        assert(nv[i as int] == new_specs@[i as int].view());
        let ghost before = specs@;
        specs.push(c);
        i = i + 1;
        assert forall|k: int| 0 <= k < i implies specs_view(specs@)[k] == clear_specs(nv.subrange(0, i as int))[k] by {
            if k < i - 1 {
                assert(specs@[k] == before[k]);
                assert(specs_view(before)[k] == clear_specs(nv.subrange(0, i - 1))[k]);
            }
        }
        assert(specs_view(specs@) =~= clear_specs(nv.subrange(0, i as int)));
    }
    assert(nv.subrange(0, nv.len() as int) =~= nv);
    let ghost gv0 = t.gv();
    let g = Grammar { module_name, specs };
    t.grammars.push(g);
    assert(t.gv() =~= gv0.push(GrammarV { module_name, specs: clear_specs(nv) }));
    fix_grammar(t)
}

/// Adding a rule to the specification of statement `kw` of module `mn`.
pub open spec fn spec_add_rule(gs: Seq<GrammarV>, rule: YangStatementRule, mn: Option<Atom>, kw: Atom) -> (bool, Seq<GrammarV>) {
    match spec_get_statement_spec(gs, mn, kw) {
        None => (false, gs),
        Some((g, s)) => (true, gs.update(g, GrammarV {
            specs: gs[g].specs.update(s, SpecV { rules: gs[g].specs[s].rules.push(rule), ..gs[g].specs[s] }),
            ..gs[g]
        })),
    }
}

/// Two tables whose grammars have the same module names and whose
/// specifications have the same keywords and flags, place by place: lookups
/// find the same places in both.
pub open spec fn same_index(a: Seq<GrammarV>, b: Seq<GrammarV>) -> bool {
    &&& a.len() == b.len()
    &&& forall|g: int| 0 <= g < a.len() ==> {
        &&& (#[trigger] b[g]).module_name == a[g].module_name
        &&& b[g].specs.len() == a[g].specs.len()
        &&& forall|s: int| 0 <= s < a[g].specs.len() ==> (#[trigger] b[g].specs[s]).keyword == a[g].specs[s].keyword
            && b[g].specs[s].flags == a[g].specs[s].flags
    }
}

/// Rule `rule` is among the rules of the specification at `p`.
pub open spec fn has_rule(gs: Seq<GrammarV>, p: Option<(int, int)>, rule: YangStatementRule) -> bool {
    match p {
        None => false,
        Some((g, s)) => 0 <= g < gs.len() && 0 <= s < gs[g].specs.len() && gs[g].specs[s].rules.contains(rule),
    }
}

proof fn lemma_grammar_from_same(a: Seq<GrammarV>, b: Seq<GrammarV>, mn: Option<Atom>, i: int)
    requires
        same_index(a, b),
    ensures
        grammar_from(a, mn, i) == grammar_from(b, mn, i),
    decreases a.len() - i,
{
    if 0 <= i < a.len() {
        assert(b[i].module_name == a[i].module_name);
        lemma_grammar_from_same(a, b, mn, i + 1);
    }
}

proof fn lemma_stmt_spec_from_same(a: Seq<SpecV>, b: Seq<SpecV>, kw: Atom, j: int)
    requires
        a.len() == b.len(),
        forall|s: int| 0 <= s < a.len() ==> (#[trigger] b[s]).keyword == a[s].keyword && b[s].flags == a[s].flags,
    ensures
        stmt_spec_from(a, kw, j) == stmt_spec_from(b, kw, j),
    decreases a.len() - j,
{
    if 0 <= j < a.len() {
        assert(b[j].keyword == a[j].keyword);
        lemma_stmt_spec_from_same(a, b, kw, j + 1);
    }
}

/// Lookups find the same places in tables with the same index.
pub proof fn lemma_lookup_same(a: Seq<GrammarV>, b: Seq<GrammarV>, mn: Option<Atom>, kw: Atom)
    requires
        same_index(a, b),
    ensures
        spec_get_statement_spec(a, mn, kw) == spec_get_statement_spec(b, mn, kw),
{
    lemma_grammar_from_same(a, b, mn, 0);
    if let Some(gi) = spec_get_grammar(a, mn) {
        lemma_grammar_from(a, mn, 0);
        assert(b[gi].specs.len() == a[gi].specs.len());
        lemma_stmt_spec_from_same(a[gi].specs, b[gi].specs, kw, 0);
    }
}

/// Adding a rule to the specification of statement `kw` of module `mn`
/// works exactly when there is one.  It then adds the rule last to that
/// specification's rules and changes nothing else; every lookup finds what
/// it found before.
pub proof fn law_add_rule(gs: Seq<GrammarV>, rule: YangStatementRule, mn: Option<Atom>, kw: Atom)
    ensures
        ({
            let r = spec_add_rule(gs, rule, mn, kw);
            let p = spec_get_statement_spec(gs, mn, kw);
            &&& r.0 == p is Some
            &&& same_index(gs, r.1)
            &&& (r.0 ==> {
                let (g, s) = p->0;
                &&& 0 <= g < gs.len() && 0 <= s < gs[g].specs.len()
                &&& r.1[g].specs[s] == SpecV { rules: gs[g].specs[s].rules.push(rule), ..gs[g].specs[s] }
                &&& forall|g2: int, s2: int| 0 <= g2 < gs.len() && 0 <= s2 < gs[g2].specs.len() && (g2, s2) != (g, s)
                    ==> #[trigger] r.1[g2].specs[s2] == gs[g2].specs[s2]
            })
            &&& (!r.0 ==> r.1 == gs)
        }),
{
    lemma_statement_spec_in_range(gs, mn, kw);
}

proof fn lemma_stmt_spec_from(specs: Seq<SpecV>, kw: Atom, j: int)
    requires
        0 <= j,
    ensures
        stmt_spec_from(specs, kw, j) matches Some(k) ==> j <= k < specs.len(),
    decreases specs.len() - j,
{
    if j < specs.len() && !(specs[j].keyword == kw && (specs[j].flags & F_STMT_ARG_MATCH) == 0) {
        lemma_stmt_spec_from(specs, kw, j + 1);
    }
}

/// A specification that a lookup finds is in the tables.
pub proof fn lemma_statement_spec_in_range(gs: Seq<GrammarV>, mn: Option<Atom>, kw: Atom)
    ensures
        spec_get_statement_spec(gs, mn, kw) matches Some(p) ==> 0 <= p.0 < gs.len() && 0 <= p.1
            < gs[p.0].specs.len(),
{
    lemma_grammar_from(gs, mn, 0);
    if let Some(gi) = spec_get_grammar(gs, mn) {
        lemma_stmt_spec_from(gs[gi].specs, kw, 0);
    }
}

/// Adds `rule` to the specification of statement `keyword` of module
/// `module_name`; refused when there is none.
pub fn yang_add_rule_to_spec(t: &mut GrammarTables, rule: YangStatementRule, module_name: Option<Atom>, keyword: Atom) -> (ok: bool)
    ensures
        (ok, final(t).gv()) == spec_add_rule(old(t).gv(), rule, module_name, keyword),
        final(t).tv() == old(t).tv(),
        final(t).am == old(t).am,
{
    let (g, s) = match yang_get_statement_spec(t, module_name, keyword) {
        None => return false,
        Some(p) => p,
    };
    proof {
        lemma_grammar_from(t.gv(), module_name, 0);
        lemma_stmt_spec_from(t.gv()[g as int].specs, keyword, 0);
    }
    let ghost gv0 = t.gv();
    t.grammars[g].specs[s].rules.push(rule);
    proof {
        let target = spec_add_rule(gv0, rule, module_name, keyword).1;
        assert forall|i: int| 0 <= i < t.gv().len() implies t.gv()[i] == target[i] by {
            if i == g {
                assert(t.gv()[i].specs =~= target[i].specs);
            }
        }
        assert(t.gv() =~= target);
        assert(t.tv() =~= old(t).tv());
    }
    true
}


/// The pattern that a type not yet installed names, if any.
pub open spec fn type_pattern(t: ArgTypeV) -> Option<Seq<u8>> {
    match t.syntax {
        SyntaxV::Regexp(p) => Some(p),
        _ => None,
    }
}

/// A type given by a pattern, once the pattern is compiled: it validates by
/// matching its pattern.
pub open spec fn installed_type(t: ArgTypeV) -> ArgTypeV {
    ArgTypeV {
        syntax: SyntaxV::Callback(Validator::XsdRegexp, type_pattern(t)),
        flags: (t.flags & !F_ARG_TYPE_SYNTAX_REGEXP) | F_ARG_TYPE_SYNTAX_CB,
        ..t
    }
}

/// Installing the types `new` from `i` on after `ts`: each is added; one
/// flagged as given by a pattern has its pattern compiled and then validates
/// by it.  A pattern that does not compile (or is missing) ends the
/// installation with that type added as it was given.  The types after it are
/// not added: the table grows only by the types up to the failing one.
pub open spec fn spec_install_types(ts: Seq<ArgTypeV>, new: Seq<ArgTypeV>, comp: spec_fn(Seq<u8>) -> bool, i: int) -> (bool, Seq<ArgTypeV>)
    decreases new.len() - i,
{
    if i < 0 || i >= new.len() {
        (true, ts)
    } else {
        let t = new[i];
        if (t.flags & F_ARG_TYPE_SYNTAX_REGEXP) != 0 {
            let ok = match type_pattern(t) {
                Some(p) => comp(p),
                None => false,
            };
            if !ok {
                (false, ts.push(t))
            } else {
                spec_install_types(ts.push(installed_type(t)), new, comp, i + 1)
            }
        } else {
            spec_install_types(ts.push(t), new, comp, i + 1)
        }
    }
}

/// Installing types adds at most one type for each type given.
pub proof fn lemma_install_types_len(ts: Seq<ArgTypeV>, new: Seq<ArgTypeV>, comp: spec_fn(Seq<u8>) -> bool, i: int)
    requires
        0 <= i,
    ensures
        spec_install_types(ts, new, comp, i).1.len() <= ts.len() + new.len() - i || i > new.len(),
        i <= new.len() ==> spec_install_types(ts, new, comp, i).1.len() <= ts.len() + new.len() - i,
    decreases new.len() - i,
{
    if i < new.len() {
        let t = new[i];
        if (t.flags & F_ARG_TYPE_SYNTAX_REGEXP) != 0 {
            lemma_install_types_len(ts.push(installed_type(t)), new, comp, i + 1);
        } else {
            lemma_install_types_len(ts.push(t), new, comp, i + 1);
        }
    }
}

proof fn lemma_install_types_keeps(ts: Seq<ArgTypeV>, new: Seq<ArgTypeV>, comp: spec_fn(Seq<u8>) -> bool, i: int)
    requires
        0 <= i <= new.len(),
    ensures
        ts.is_prefix_of(spec_install_types(ts, new, comp, i).1),
        spec_install_types(ts, new, comp, i).0 ==> spec_install_types(ts, new, comp, i).1.len() == ts.len() + new.len() - i,
    decreases new.len() - i,
{
    let res = spec_install_types(ts, new, comp, i);
    if i < new.len() {
        let t = new[i];
        let next = if (t.flags & F_ARG_TYPE_SYNTAX_REGEXP) != 0 { ts.push(installed_type(t)) } else { ts.push(t) };
        assert(ts =~= next.subrange(0, ts.len() as int));
        assert(ts =~= ts.push(t).subrange(0, ts.len() as int));
        lemma_install_types_keeps(next, new, comp, i + 1);
        let r2 = spec_install_types(next, new, comp, i + 1);
        assert forall|k: int| 0 <= k < ts.len() implies ts[k] == r2.1[k] by {
            assert(next[k] == ts[k]);
            assert(next[k] == r2.1.subrange(0, next.len() as int)[k]);
        }
        assert(ts =~= r2.1.subrange(0, ts.len() as int));
    } else {
        assert(ts =~= ts.subrange(0, ts.len() as int));
    }
}

/// Installing argument types keeps the types installed before, at the same
/// places, and when every pattern compiles it adds every type given.
pub proof fn law_install_types_keeps(ts: Seq<ArgTypeV>, new: Seq<ArgTypeV>, comp: spec_fn(Seq<u8>) -> bool)
    ensures
        ts.is_prefix_of(spec_install_types(ts, new, comp, 0).1),
        spec_install_types(ts, new, comp, 0).0 ==> spec_install_types(ts, new, comp, 0).1.len() == ts.len() + new.len(),
{
    lemma_install_types_keeps(ts, new, comp, 0);
}

/// A type as installing it leaves it: compiled when given by a pattern.
pub open spec fn install_one(t: ArgTypeV) -> ArgTypeV {
    if (t.flags & F_ARG_TYPE_SYNTAX_REGEXP) != 0 {
        installed_type(t)
    } else {
        t
    }
}

/// The pattern of a type given by one compiles.
pub open spec fn type_compiles(t: ArgTypeV, comp: spec_fn(Seq<u8>) -> bool) -> bool {
    (t.flags & F_ARG_TYPE_SYNTAX_REGEXP) != 0 ==> match type_pattern(t) {
        Some(p) => comp(p),
        None => false,
    }
}

#[verifier::spinoff_prover]
proof fn lemma_install_each(ts: Seq<ArgTypeV>, new: Seq<ArgTypeV>, comp: spec_fn(Seq<u8>) -> bool, i: int)
    requires
        0 <= i <= new.len(),
    ensures
        ({
            let r = spec_install_types(ts, new, comp, i);
            &&& (forall|j: int| i <= j < new.len() ==> type_compiles(#[trigger] new[j], comp))
                ==> r == (true, ts + new.subrange(i, new.len() as int).map_values(|t: ArgTypeV| install_one(t)))
            &&& forall|j: int| i <= j < new.len() && !type_compiles(#[trigger] new[j], comp)
                && (forall|q: int| i <= q < j ==> type_compiles(#[trigger] new[q], comp))
                ==> r == (false, ts + new.subrange(i, j).map_values(|t: ArgTypeV| install_one(t)) + seq![new[j]])
        }),
    decreases new.len() - i,
{
    if i < new.len() {
        let t = new[i];
        let next = ts.push(install_one(t));
        lemma_install_each(next, new, comp, i + 1);
        assert(ts + new.subrange(i, new.len() as int).map_values(|t: ArgTypeV| install_one(t))
            =~= next + new.subrange(i + 1, new.len() as int).map_values(|t: ArgTypeV| install_one(t)));
        assert forall|j: int| i <= j < new.len() && !type_compiles(#[trigger] new[j], comp)
            && (forall|q: int| i <= q < j ==> type_compiles(#[trigger] new[q], comp))
            implies spec_install_types(ts, new, comp, i) == (false, ts + new.subrange(i, j).map_values(|t: ArgTypeV| install_one(t)) + seq![new[j]]) by {
            if j == i {
                assert(ts + new.subrange(i, j).map_values(|t: ArgTypeV| install_one(t)) + seq![new[j]] =~= ts.push(t));
            } else {
                assert(type_compiles(new[i], comp));
                assert(ts + new.subrange(i, j).map_values(|t: ArgTypeV| install_one(t))
                    =~= next + new.subrange(i + 1, j).map_values(|t: ArgTypeV| install_one(t)));
            }
        }
    } else {
        assert(ts + new.subrange(i, new.len() as int).map_values(|t: ArgTypeV| install_one(t)) =~= ts);
    }
}

/// What installing argument types does with each type: when every pattern
/// compiles, each type given is added in order, compiled when it is given by
/// a pattern, and the installation succeeds.  When the pattern of type `j`
/// is the first that does not compile, the types before it are added as
/// above, type `j` is added as it was given, the ones after it are not, and
/// the installation fails.
pub proof fn law_install_each_type(ts: Seq<ArgTypeV>, new: Seq<ArgTypeV>, comp: spec_fn(Seq<u8>) -> bool)
    ensures
        (forall|j: int| 0 <= j < new.len() ==> type_compiles(#[trigger] new[j], comp))
            ==> spec_install_types(ts, new, comp, 0) == (true, ts + new.map_values(|t: ArgTypeV| install_one(t))),
        forall|j: int| 0 <= j < new.len() && !type_compiles(#[trigger] new[j], comp)
            && (forall|q: int| 0 <= q < j ==> type_compiles(#[trigger] new[q], comp))
            ==> spec_install_types(ts, new, comp, 0) == (false, ts + new.subrange(0, j).map_values(|t: ArgTypeV| install_one(t)) + seq![new[j]]),
{
    lemma_install_each(ts, new, comp, 0);
    assert(new.subrange(0, new.len() as int) =~= new);
}

fn copy_opt_bytes(o: &Option<Vec<u8>>) -> (r: Option<Vec<u8>>)
    ensures
        match (o, r) {
            (Some(a), Some(b)) => a@ == b@,
            (None, None) => true,
            _ => false,
        },
{
    match o {
        Some(v) => Some(copy_bytes(v.as_slice())),
        None => None,
    }
}

/// A copy of an argument type.
pub fn copy_arg_type(t: &YangArgType) -> (r: YangArgType)
    ensures
        r.view() == t.view(),
{
    let syntax = match &t.syntax {
        ArgSyntax::Empty => ArgSyntax::Empty,
        ArgSyntax::Regexp(p) => ArgSyntax::Regexp(copy_bytes(p.as_slice())),
        ArgSyntax::Callback(v, r) => ArgSyntax::Callback(*v, copy_opt_bytes(r)),
    };
    YangArgType { name: t.name, syntax, flags: t.flags }
}

pub open spec fn types_view(v: Seq<YangArgType>) -> Seq<ArgTypeV> {
    v.map_values(|t: YangArgType| t.view())
}

/// Installs argument types; `c` tells whether a pattern compiles.
pub fn yang_install_arg_types<G: Fn(&[u8]) -> bool>(t: &mut GrammarTables, new_types: &Vec<YangArgType>, c: &G) -> (ok: bool)
    requires
        compiler_ok(*c),
    ensures
        (ok, final(t).tv()) == spec_install_types(old(t).tv(), types_view(new_types@), |p: Seq<u8>| compiles(*c, p), 0),
        final(t).gv() == old(t).gv(),
        final(t).am == old(t).am,
{
    let ghost nv = types_view(new_types@);
    let ghost comp = |p: Seq<u8>| compiles(*c, p);
    let ghost target = spec_install_types(t.tv(), nv, comp, 0);
    let mut j: usize = 0;
    while j < new_types.len()
        invariant
            j <= new_types@.len(),
            nv == types_view(new_types@),
            comp == |p: Seq<u8>| compiles(*c, p),
            compiler_ok(*c),
            t.gv() == old(t).gv(),
            t.am == old(t).am,
            target == spec_install_types(old(t).tv(), nv, comp, 0),
            spec_install_types(t.tv(), nv, comp, j as int) == target,
        decreases new_types@.len() - j,
    {
        let src = copy_arg_type(&new_types[j]);
        assert(nv[j as int] == new_types@[j as int].view());
        let ghost tv0 = t.tv();
        if (src.flags & F_ARG_TYPE_SYNTAX_REGEXP) != 0 {
            let compiled = match &src.syntax {
                ArgSyntax::Regexp(p) => call_compile(c, p.as_slice()),
                _ => false,
            };
            if !compiled {
                t.types.push(src);
                assert(t.tv() =~= tv0.push(nv[j as int]));
                return false;
            }
            let pat = match src.syntax {
                ArgSyntax::Regexp(p) => Some(p),
                _ => None,
            };
            let nt = YangArgType {
                name: src.name,
                syntax: ArgSyntax::Callback(Validator::XsdRegexp, pat),
                flags: (src.flags & !F_ARG_TYPE_SYNTAX_REGEXP) | F_ARG_TYPE_SYNTAX_CB,
            };
            t.types.push(nt);
            assert(t.tv() =~= tv0.push(installed_type(nv[j as int])));
        } else {
            t.types.push(src);
            assert(t.tv() =~= tv0.push(nv[j as int]));
        }
        j = j + 1;
    }
    assert(t.gv() =~= old(t).gv());
    true
}

/// Sets `bit` in the flags of the type named `name`, interning the name.
pub open spec fn spec_set_bit(ts: Seq<ArgTypeV>, atoms: Seq<Seq<u8>>, name: Seq<u8>, bit: u32) -> (Seq<ArgTypeV>, Seq<Seq<u8>>) {
    let (atoms1, id) = spec_intern(atoms, name);
    let idx = spec_get_arg_type_idx(ts, Some(id as usize));
    if idx >= 0 {
        (ts.update(idx, ArgTypeV { flags: ts[idx].flags | bit, ..ts[idx] }), atoms1)
    } else {
        (ts, atoms1)
    }
}

proof fn lemma_type_from(ts: Seq<ArgTypeV>, name: Option<Atom>, i: int)
    requires
        0 <= i,
    ensures
        type_from(ts, name, i) matches Some(k) ==> i <= k < ts.len() && Some(ts[k].name) == name,
    decreases ts.len() - i,
{
    if i < ts.len() && Some(ts[i].name) != name {
        lemma_type_from(ts, name, i + 1);
    }
}

fn set_type_bit(t: &mut GrammarTables, atoms: &mut AtomTable, name: &str, bit: u32)
    requires
        types_fit(old(t)),
        old(atoms).view().len() < usize::MAX,
    ensures
        (final(t).tv(), final(atoms).view()) == spec_set_bit(old(t).tv(), old(atoms).view(), name.spec_bytes(), bit),
        final(t).gv() == old(t).gv(),
        final(t).am == old(t).am,
        final(t).types@.len() == old(t).types@.len(),
{
    let id = atoms.intern_bytes(name.as_bytes());
    let idx = yang_get_arg_type_idx(t, Some(id));
    proof {
        lemma_type_from(t.tv(), Some(id), 0);
    }
    if idx >= 0 {
        let ghost tv0 = t.tv();
        let u = idx as usize;
        t.types[u].flags = t.types[u].flags | bit;
        assert(t.tv() =~= tv0.update(idx as int, ArgTypeV { flags: tv0[idx as int].flags | bit, ..tv0[idx as int] }));
    }
    assert(t.gv() =~= old(t).gv());
}


/// The type names whose arguments reach the caller as atoms, integers,
/// unsigned integers, atoms or unsigned integers, and identifier references,
/// with the flag that says so, in the order they are set.
pub open spec fn type_bit_list() -> Seq<(&'static str, u32)> {
    seq![
        ("identifier", F_ERL_ATOM),
        ("uri", F_ERL_ATOM),
        ("boolean", F_ERL_ATOM),
        ("ordered-by-arg", F_ERL_ATOM),
        ("enum-arg", F_ERL_ATOM),
        ("deviate-arg", F_ERL_ATOM),
        ("=not-supported", F_ERL_ATOM),
        ("=delete", F_ERL_ATOM),
        ("=replace", F_ERL_ATOM),
        ("status-arg", F_ERL_ATOM),
        ("integer", F_ERL_INT),
        ("non-negative-integer", F_ERL_UINT),
        ("fraction-digits-arg", F_ERL_UINT),
        ("max-value", F_ERL_ATOM_OR_UINT),
        ("identifier-ref", F_ERL_IDENTIFIER_REF),
    ]
}

/// Sets the flags of the types in `l` from `i` on.
pub open spec fn spec_set_bits(ts: Seq<ArgTypeV>, atoms: Seq<Seq<u8>>, l: Seq<(&'static str, u32)>, i: int) -> (Seq<ArgTypeV>, Seq<Seq<u8>>)
    decreases l.len() - i,
{
    if i < 0 || i >= l.len() {
        (ts, atoms)
    } else {
        let (ts1, atoms1) = spec_set_bit(ts, atoms, l[i].0.spec_bytes(), l[i].1);
        spec_set_bits(ts1, atoms1, l, i + 1)
    }
}

/// Marks the core types by how their arguments reach the caller.
pub fn yang_set_type_bits(t: &mut GrammarTables, atoms: &mut AtomTable)
    requires
        types_fit(old(t)),
        old(atoms).view().len() + 15 < usize::MAX,
    ensures
        (final(t).tv(), final(atoms).view()) == spec_set_bits(old(t).tv(), old(atoms).view(), type_bit_list(), 0),
        final(t).gv() == old(t).gv(),
        final(t).am == old(t).am,
{
    let l: [(&'static str, u32); 15] = [
        ("identifier", F_ERL_ATOM),
        ("uri", F_ERL_ATOM),
        ("boolean", F_ERL_ATOM),
        ("ordered-by-arg", F_ERL_ATOM),
        ("enum-arg", F_ERL_ATOM),
        ("deviate-arg", F_ERL_ATOM),
        ("=not-supported", F_ERL_ATOM),
        ("=delete", F_ERL_ATOM),
        ("=replace", F_ERL_ATOM),
        ("status-arg", F_ERL_ATOM),
        ("integer", F_ERL_INT),
        ("non-negative-integer", F_ERL_UINT),
        ("fraction-digits-arg", F_ERL_UINT),
        ("max-value", F_ERL_ATOM_OR_UINT),
        ("identifier-ref", F_ERL_IDENTIFIER_REF),
    ];
    assert(l@ =~= type_bit_list());
    let mut i: usize = 0;
    while i < 15
        invariant
            i <= 15,
            l@ == type_bit_list(),
            types_fit(t),
            t.types@.len() == old(t).types@.len(),
            atoms.view().len() <= old(atoms).view().len() + i,
            old(atoms).view().len() + 15 < usize::MAX,
            t.gv() == old(t).gv(),
            t.am == old(t).am,
            spec_set_bits(t.tv(), atoms.view(), type_bit_list(), i as int) == spec_set_bits(old(t).tv(), old(atoms).view(), type_bit_list(), 0),
        decreases 15 - i,
    {
        set_type_bit(t, atoms, l[i].0, l[i].1);
        i = i + 1;
    }
}

/// The flag bits that marking the core types may set.
pub const F_ERL_MASK: u32 = 0x2f_0000;

/// After marking the types by the names of `l` up to `i`: each of those names
/// is an atom of `a`, and the type it names, if any, carries its bit.
pub open spec fn bits_hold(ts: Seq<ArgTypeV>, a: Seq<Seq<u8>>, l: Seq<(&'static str, u32)>, i: int) -> bool {
    forall|j: int| 0 <= j < i ==> match #[trigger] spec_lookup(a, l[j].0.spec_bytes()) {
        None => false,
        Some(id) => match type_from(ts, Some(id as Atom), 0) {
            None => true,
            Some(k) => ts[k].flags & l[j].1 == l[j].1,
        },
    }
}

proof fn lemma_type_from_same_names(ts: Seq<ArgTypeV>, ts2: Seq<ArgTypeV>, name: Option<Atom>, i: int)
    requires
        0 <= i,
        ts.len() == ts2.len(),
        forall|k: int| 0 <= k < ts.len() ==> #[trigger] ts[k].name == ts2[k].name,
    ensures
        type_from(ts, name, i) == type_from(ts2, name, i),
    decreases ts.len() - i,
{
    if i < ts.len() {
        lemma_type_from_same_names(ts, ts2, name, i + 1);
    }
}

proof fn lemma_bits_or(f: u32, b: u32, c: u32)
    ensures
        (f | b) & b == b,
        f & c == c ==> (f | b) & c == c,
        f & b == b ==> f | b == f,
        (f | b) & f == f,
        b & !F_ERL_MASK == 0 ==> (f | b) & !F_ERL_MASK == f & !F_ERL_MASK,
{
    assert((f | b) & b == b) by (bit_vector);
    assert(f & c == c ==> (f | b) & c == c) by (bit_vector);
    assert(f & b == b ==> f | b == f) by (bit_vector);
    assert((f | b) & f == f) by (bit_vector);
    assert(b & !F_ERL_MASK == 0 ==> (f | b) & !F_ERL_MASK == f & !F_ERL_MASK) by (bit_vector);
}

proof fn lemma_bits_trans(r: u32, f1: u32, f: u32)
    ensures
        r & f1 == f1 && f1 & f == f ==> r & f == f,
{
    assert(r & f1 == f1 && f1 & f == f ==> r & f == f) by (bit_vector);
}

proof fn lemma_set_bits_hold(ts: Seq<ArgTypeV>, a: Seq<Seq<u8>>, l: Seq<(&'static str, u32)>, i: int)
    requires
        spec_table_wf(a),
        0 <= i <= l.len(),
        forall|j: int| 0 <= j < l.len() ==> !(#[trigger] l[j].0.spec_bytes()).contains(0u8),
        bits_hold(ts, a, l, i),
    ensures
        bits_hold(spec_set_bits(ts, a, l, i).0, spec_set_bits(ts, a, l, i).1, l, l.len() as int),
    decreases l.len() - i,
{
    if i < l.len() {
        let name = l[i].0.spec_bytes();
        let bit = l[i].1;
        let (a1, id) = spec_intern(a, name);
        lemma_intern(a, name);
        lemma_lookup(a, name);
        lemma_clean_no_nul(name);
        let idx = spec_get_arg_type_idx(ts, Some(id as usize));
        lemma_type_from(ts, Some(id as usize), 0);
        let ts1 = spec_set_bit(ts, a, name, bit).0;
        assert(ts1.len() == ts.len());
        assert forall|k: int| 0 <= k < ts.len() implies #[trigger] ts[k].name == ts1[k].name by {}
        if spec_lookup(a, name) is None {
            assert(a1.drop_last() =~= a);
        }
        assert forall|j: int| 0 <= j < i + 1 implies match #[trigger] spec_lookup(a1, l[j].0.spec_bytes()) {
            None => false,
            Some(id2) => match type_from(ts1, Some(id2 as Atom), 0) {
                None => true,
                Some(k) => ts1[k].flags & l[j].1 == l[j].1,
            },
        } by {
            let nj = l[j].0.spec_bytes();
            if j < i {
                let id2 = spec_lookup(a, nj)->0;
                assert(spec_lookup(a, nj) is Some);
                if spec_lookup(a, name) is None {
                    assert(nj != name);
                    assert(a1.last() == name);
                }
                assert(spec_lookup(a1, nj) == Some(id2));
                lemma_type_from_same_names(ts, ts1, Some(id2 as Atom), 0);
                if let Some(k) = type_from(ts, Some(id2 as Atom), 0) {
                    lemma_type_from(ts, Some(id2 as Atom), 0);
                    lemma_bits_or(ts[k].flags, bit, l[j].1);
                }
            } else {
                assert(spec_lookup(a1, name) == Some(id));
                lemma_type_from_same_names(ts, ts1, Some(id as Atom), 0);
                if idx >= 0 {
                    lemma_bits_or(ts[idx].flags, bit, bit);
                }
            }
        }
        lemma_set_bits_hold(ts1, a1, l, i + 1);
    }
}

proof fn lemma_set_bits_again(ts: Seq<ArgTypeV>, a: Seq<Seq<u8>>, l: Seq<(&'static str, u32)>, i: int)
    requires
        0 <= i <= l.len(),
        bits_hold(ts, a, l, l.len() as int),
    ensures
        spec_set_bits(ts, a, l, i) == (ts, a),
    decreases l.len() - i,
{
    if i < l.len() {
        let name = l[i].0.spec_bytes();
        let bit = l[i].1;
        assert(spec_lookup(a, name) is Some);
        let id = spec_lookup(a, name)->0;
        assert(spec_intern(a, name) == (a, id));
        if let Some(k) = type_from(ts, Some(id as Atom), 0) {
            lemma_type_from(ts, Some(id as Atom), 0);
            lemma_bits_or(ts[k].flags, bit, bit);
            assert(ts.update(k, ArgTypeV { flags: ts[k].flags | bit, ..ts[k] }) =~= ts);
        }
        lemma_set_bits_again(ts, a, l, i + 1);
    }
}

proof fn lemma_set_bits_only(ts: Seq<ArgTypeV>, a: Seq<Seq<u8>>, l: Seq<(&'static str, u32)>, i: int)
    requires
        0 <= i <= l.len(),
        forall|j: int| 0 <= j < l.len() ==> (#[trigger] l[j].1) & !F_ERL_MASK == 0,
    ensures
        ({
            let r = spec_set_bits(ts, a, l, i).0;
            &&& r.len() == ts.len()
            &&& forall|k: int| 0 <= k < ts.len() ==> {
                &&& (#[trigger] r[k]).name == ts[k].name
                &&& r[k].syntax == ts[k].syntax
                &&& r[k].flags & ts[k].flags == ts[k].flags
                &&& r[k].flags & !F_ERL_MASK == ts[k].flags & !F_ERL_MASK
            }
        }),
    decreases l.len() - i,
{
    if i < l.len() {
        let name = l[i].0.spec_bytes();
        let bit = l[i].1;
        let (ts1, a1) = spec_set_bit(ts, a, name, bit);
        let (a0, id) = spec_intern(a, name);
        lemma_type_from(ts, Some(id as usize), 0);
        lemma_set_bits_only(ts1, a1, l, i + 1);
        let r = spec_set_bits(ts, a, l, i).0;
        assert(ts1.len() == ts.len());
        assert forall|k: int| 0 <= k < ts.len() implies {
            &&& (#[trigger] ts1[k]).name == ts[k].name
            &&& ts1[k].syntax == ts[k].syntax
            &&& (ts1[k].flags == ts[k].flags || ts1[k].flags == ts[k].flags | bit)
        } by {}
        assert forall|k: int| 0 <= k < ts.len() implies {
            &&& (#[trigger] r[k]).name == ts[k].name
            &&& r[k].syntax == ts[k].syntax
            &&& r[k].flags & ts[k].flags == ts[k].flags
            &&& r[k].flags & !F_ERL_MASK == ts[k].flags & !F_ERL_MASK
        } by {
            let f = ts[k].flags;
            lemma_bits_or(f, bit, f);
            assert(f & f == f) by (bit_vector);
            lemma_bits_trans(r[k].flags, ts1[k].flags, f);
        }
    } else {
        assert forall|k: int| 0 <= k < ts.len() implies #[trigger] ts[k].flags & ts[k].flags == ts[k].flags by {
            let f = ts[k].flags;
            assert(f & f == f) by (bit_vector);
        }
    }
}

proof fn lemma_type_bit_list()
    ensures
        type_bit_list().len() == 15,
        forall|j: int| 0 <= j < 15 ==> !(#[trigger] type_bit_list()[j].0.spec_bytes()).contains(0u8),
        forall|j: int| 0 <= j < 15 ==> (#[trigger] type_bit_list()[j].1) & !F_ERL_MASK == 0,
{
    reveal_strlit("identifier");
    lemma_no_nul("identifier");
    reveal_strlit("uri");
    lemma_no_nul("uri");
    reveal_strlit("boolean");
    lemma_no_nul("boolean");
    reveal_strlit("ordered-by-arg");
    lemma_no_nul("ordered-by-arg");
    reveal_strlit("enum-arg");
    lemma_no_nul("enum-arg");
    reveal_strlit("deviate-arg");
    lemma_no_nul("deviate-arg");
    reveal_strlit("=not-supported");
    lemma_no_nul("=not-supported");
    reveal_strlit("=delete");
    lemma_no_nul("=delete");
    reveal_strlit("=replace");
    lemma_no_nul("=replace");
    reveal_strlit("status-arg");
    lemma_no_nul("status-arg");
    reveal_strlit("integer");
    lemma_no_nul("integer");
    reveal_strlit("non-negative-integer");
    lemma_no_nul("non-negative-integer");
    reveal_strlit("fraction-digits-arg");
    lemma_no_nul("fraction-digits-arg");
    reveal_strlit("max-value");
    lemma_no_nul("max-value");
    reveal_strlit("identifier-ref");
    lemma_no_nul("identifier-ref");
    assert(F_ERL_ATOM & !F_ERL_MASK == 0) by (bit_vector);
    assert(F_ERL_INT & !F_ERL_MASK == 0) by (bit_vector);
    assert(F_ERL_UINT & !F_ERL_MASK == 0) by (bit_vector);
    assert(F_ERL_ATOM_OR_UINT & !F_ERL_MASK == 0) by (bit_vector);
    assert(F_ERL_IDENTIFIER_REF & !F_ERL_MASK == 0) by (bit_vector);
}

/// Marking the core types by how their arguments reach the caller only sets
/// the bits of atoms, integers, unsigned integers, atoms or unsigned integers,
/// and identifier references: every type keeps its name, its syntax, the
/// flags it had and every other flag bit as it was.  Each listed name is then
/// an atom, and the first type with that name, if there is one, carries the
/// name's bit.  Marking them a second
/// time changes neither the types nor the atoms.
pub proof fn law_set_type_bits(ts: Seq<ArgTypeV>, atoms: Seq<Seq<u8>>)
    requires
        spec_table_wf(atoms),
    ensures
        ({
            let r = spec_set_bits(ts, atoms, type_bit_list(), 0);
            &&& r.0.len() == ts.len()
            &&& forall|k: int| 0 <= k < ts.len() ==> {
                &&& (#[trigger] r.0[k]).name == ts[k].name
                &&& r.0[k].syntax == ts[k].syntax
                &&& r.0[k].flags & ts[k].flags == ts[k].flags
                &&& r.0[k].flags & !F_ERL_MASK == ts[k].flags & !F_ERL_MASK
            }
            &&& spec_set_bits(r.0, r.1, type_bit_list(), 0) == r
            &&& bits_hold(r.0, r.1, type_bit_list(), 15)
        }),
{
    lemma_type_bit_list();
    lemma_set_bits_only(ts, atoms, type_bit_list(), 0);
    lemma_set_bits_hold(ts, atoms, type_bit_list(), 0);
    let r = spec_set_bits(ts, atoms, type_bit_list(), 0);
    lemma_set_bits_again(r.0, r.1, type_bit_list(), 0);
}

proof fn lemma_bit_skip_step(ts: Seq<ArgTypeV>, a: Seq<Seq<u8>>, name: Seq<u8>, bit: u32, u: int, t: Seq<u8>)
    requires
        spec_table_wf(a),
        a.len() < usize::MAX,
        0 <= u < a.len(),
        a[u] == t,
        name != t,
        !name.contains(0u8),
    ensures
        ({
            let r = spec_set_bit(ts, a, name, bit);
            &&& spec_table_wf(r.1)
            &&& r.1.len() <= a.len() + 1
            &&& u < r.1.len() && r.1[u] == t
            &&& r.0.len() == ts.len()
            &&& forall|k: int| 0 <= k < ts.len() ==> (#[trigger] r.0[k]).name == ts[k].name
            &&& forall|k: int| 0 <= k < ts.len() && ts[k].name as int == u ==> #[trigger] r.0[k] == ts[k]
        }),
{
    lemma_intern(a, name);
    lemma_clean_no_nul(name);
    let (a1, id) = spec_intern(a, name);
    assert(a1[id] == name);
    assert(id != u);
    lemma_type_from(ts, Some(id as usize), 0);
    assert((id as usize) as int == id);
}

proof fn lemma_bits_skip(ts: Seq<ArgTypeV>, a: Seq<Seq<u8>>, l: Seq<(&'static str, u32)>, i: int, u: int, t: Seq<u8>)
    requires
        spec_table_wf(a),
        a.len() + l.len() - i < usize::MAX,
        0 <= u < a.len(),
        a[u] == t,
        0 <= i <= l.len(),
        forall|j: int| i <= j < l.len() ==> (#[trigger] l[j].0.spec_bytes()) != t && !l[j].0.spec_bytes().contains(0u8),
    ensures
        ({
            let r = spec_set_bits(ts, a, l, i);
            &&& r.0.len() == ts.len()
            &&& forall|k: int| 0 <= k < ts.len() ==> (#[trigger] r.0[k]).name == ts[k].name
            &&& forall|k: int| 0 <= k < ts.len() && ts[k].name as int == u ==> #[trigger] r.0[k] == ts[k]
        }),
    decreases l.len() - i,
{
    if i < l.len() {
        let r1 = spec_set_bit(ts, a, l[i].0.spec_bytes(), l[i].1);
        lemma_bit_skip_step(ts, a, l[i].0.spec_bytes(), l[i].1, u, t);
        lemma_bits_skip(r1.0, r1.1, l, i + 1, u, t);
    }
}

/// The `uri` type reaches the caller as an atom: once the core types are
/// marked, the first type named `uri` has the atom bit added to its flags,
/// and nothing else: a namespace is given back as one atom, never split as
/// an identifier reference.  (`uri` is an atom of the table, and the types
/// are named by atoms of the table.)
pub proof fn law_uri_is_atom(ts: Seq<ArgTypeV>, atoms: Seq<Seq<u8>>, u: int)
    requires
        spec_table_wf(atoms),
        atoms.len() + 15 < usize::MAX,
        spec_lookup(atoms, "uri".spec_bytes()) == Some(u),
        forall|k: int| 0 <= k < ts.len() ==> (#[trigger] ts[k]).name < atoms.len(),
    ensures
        ({
            let r = spec_set_bits(ts, atoms, type_bit_list(), 0);
            match type_from(r.0, Some(u as Atom), 0) {
                Some(k) => r.0[k].flags == ts[k].flags | F_ERL_ATOM,
                None => type_from(ts, Some(u as Atom), 0) is None,
            }
        }),
{
    let l = type_bit_list();
    let t = "uri".spec_bytes();
    lemma_type_bit_list();
    reveal_strlit("uri");
    reveal_strlit("identifier");
    broadcast use vstd::string::is_ascii_spec_bytes;
    assert(vstd::string::is_ascii("uri"));
    assert(t.len() == 3);
    lemma_lookup(atoms, t);
    assert(l[1].0 == "uri");
    assert(l[0].0 == "identifier");
    assert(vstd::string::is_ascii("identifier"));
    assert(l[0].0.spec_bytes().len() == 10);
    // the step for `identifier`
    let r0 = spec_set_bit(ts, atoms, l[0].0.spec_bytes(), l[0].1);
    lemma_bit_skip_step(ts, atoms, l[0].0.spec_bytes(), l[0].1, u, t);
    // the step for `uri`
    let (a1, id) = spec_intern(r0.1, t);
    lemma_lookup(r0.1, t);
    assert(spec_lookup(r0.1, t) is Some) by {
        assert(r0.1[u] == t);
    }
    let u2 = spec_lookup(r0.1, t)->0;
    assert(r0.1[u2] == t);
    if u2 != u {
        lemma_intern(atoms, l[0].0.spec_bytes());
        assert(spec_is_current(atoms, u));
        if u2 < atoms.len() {
            assert(r0.1[u2] == atoms[u2]);
            assert(r0.1[u] == atoms[u]);
            if u2 > u {
                assert(atoms[u2] != atoms[u]);
            } else {
                assert(spec_is_current(r0.1, u2));
                assert(r0.1[u] != r0.1[u2]);
            }
        } else {
            assert(r0.1[u2] == spec_clean(l[0].0.spec_bytes()));
            lemma_clean_no_nul(l[0].0.spec_bytes());
        }
    }
    assert(id == u);
    let r1 = spec_set_bit(r0.0, r0.1, t, F_ERL_ATOM);
    lemma_type_from(r0.0, Some(u as usize), 0);
    lemma_intern(r0.1, t);
    assert(r1.0.len() == ts.len());
    assert forall|k: int| 0 <= k < ts.len() implies (#[trigger] r1.0[k]).name == ts[k].name by {}
    // the other steps
    assert forall|j: int| 2 <= j < l.len() implies (#[trigger] l[j].0.spec_bytes()) != t && !l[j].0.spec_bytes().contains(0u8) by {
        reveal_strlit("ordered-by-arg");
        reveal_strlit("enum-arg");
        reveal_strlit("deviate-arg");
        reveal_strlit("=not-supported");
        reveal_strlit("=delete");
        reveal_strlit("=replace");
        reveal_strlit("status-arg");
        reveal_strlit("integer");
        reveal_strlit("non-negative-integer");
        reveal_strlit("fraction-digits-arg");
        reveal_strlit("max-value");
        reveal_strlit("identifier-ref");
        reveal_strlit("boolean");
        assert(vstd::string::is_ascii(l[j].0));
        assert(l[j].0.spec_bytes().len() > 3);
    }
    lemma_bits_skip(r1.0, r1.1, l, 2, u, t);
    let r = spec_set_bits(ts, atoms, l, 0);
    assert(l.len() == 15);
    assert(spec_set_bits(ts, atoms, l, 0) == spec_set_bits(r0.0, r0.1, l, 1));
    assert(spec_set_bits(r0.0, r0.1, l, 1) == spec_set_bits(r1.0, r1.1, l, 2));
    assert(r == spec_set_bits(r1.0, r1.1, l, 2));
    lemma_type_from_same_names(ts, r0.0, Some(u as Atom), 0);
    lemma_type_from_same_names(ts, r.0, Some(u as Atom), 0);
    lemma_type_from(ts, Some(u as Atom), 0);
    if let Some(k) = type_from(ts, Some(u as Atom), 0) {
        assert(ts[k].name as int == u);
        assert(r.0[k] == r1.0[k]);
    }
}

} // verus!
