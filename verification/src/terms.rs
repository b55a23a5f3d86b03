//! The values that the Erlang side gives and receives: statement arguments
//! by the kind their type asks for, occurrence and return-type names, Latin-1
//! character lists, and the outcome of a pattern match.

use vstd::prelude::*;
use vstd::utf8::valid_utf8;
use crate::atoms::{Atom, AtomTable, spec_intern, spec_table_wf, lemma_intern};
use crate::grammar::{
    GrammarTables, GrammarV, SpecV, SyntaxV, YangArgType, YangStatementSpec, YangStatementRule, ArgSyntax,
    F_ARG_TYPE_SYNTAX_REGEXP, spec_install_types, yang_install_arg_types, types_view, spec_install_grammar,
    yang_install_grammar, specs_view, spec_get_statement_spec, yang_get_statement_spec, spec_add_rule,
    yang_add_rule_to_spec, spec_get_arg_type_idx, yang_get_arg_type_idx, types_fit, opt_pair,
    ArgTypeV, F_ERL_ATOM, F_ERL_INT, F_ERL_UINT, F_ERL_ATOM_OR_INT, F_ERL_ATOM_OR_UINT,
    F_ERL_IDENTIFIER_REF,
};
use crate::check::{OCC_ONE, OCC_OPTIONAL, OCC_ANY, OCC_MANY};
use crate::parser::{
    YangStatement, YangTree, StmtNode, YANG_VERSION_1, Inp, MAX_INPUT, spec_yang_parse, yang_parse, opt_int, opt_view,
    nodes_view,
};
use crate::check::{spec_check_module, Env, yang_grammar_check_module};
use crate::errors::ErrorRecord;
use crate::grammar::{KnownAtoms, same_index, has_rule, lemma_lookup_same, law_add_rule};
use crate::errors::{YangErrorCtx, spec_has_error, has_error};
use crate::regex::matcher_ok;
use crate::text::{spec_byte_as_char, byte_as_char};
use crate::grammar::{spec_module_names, yang_get_grammar_module_names, yang_get_arg_type};
use crate::regex::{compiler_ok, compiles};
use crate::text::{contains_nul, copy_bytes};
use crate::validators::{spec_parse_i64, spec_parse_u64, parse_i64, parse_u64, find_byte, find_byte_exec, lemma_find_byte};
use vstd::string::StringSliceAdditionalSpecFns;

verus! {

/// Whether `b` is valid UTF-8, as `std::str::from_utf8` decides.
///
/// Trusted: calls `std::str::from_utf8`, whose documentation says it fails
/// exactly when the bytes are not valid UTF-8; the contract states that with
/// vstd's definition of valid UTF-8.
#[verifier::external_body]
pub(crate) fn utf8_ok(b: &[u8]) -> (r: bool)
    ensures
        r == valid_utf8(b@),
{
    std::str::from_utf8(b).is_ok()
}

/// The occurrence that an occurrence name gives: a single byte among `?`,
/// `1`, `*` and `+`.
pub open spec fn spec_parse_occurance(s: Seq<u8>) -> Option<u8> {
    if s.len() == 1 && (s[0] == OCC_OPTIONAL || s[0] == OCC_ONE || s[0] == OCC_ANY || s[0] == OCC_MANY) {
        Some(s[0])
    } else {
        None
    }
}

/// The occurrence that an occurrence name gives, or `None` for a bad name.
pub fn parse_occurance(s: &[u8]) -> (r: Option<u8>)
    ensures
        r == spec_parse_occurance(s@),
{
    if s.len() == 1 && (s[0] == OCC_OPTIONAL || s[0] == OCC_ONE || s[0] == OCC_ANY || s[0] == OCC_MANY) {
        Some(s[0])
    } else {
        None
    }
}

/// The flags that a return-type name gives: `string`, `atom`, `int`,
/// `atom-or-int` and `identifier-ref` are known.
pub open spec fn spec_return_type_flags(s: Seq<u8>) -> Option<u32> {
    if s == "string".spec_bytes() {
        Some(0)
    } else if s == "atom".spec_bytes() {
        Some(F_ERL_ATOM)
    } else if s == "int".spec_bytes() {
        Some(F_ERL_INT)
    } else if s == "atom-or-int".spec_bytes() {
        Some(F_ERL_ATOM_OR_INT)
    } else if s == "identifier-ref".spec_bytes() {
        Some(F_ERL_IDENTIFIER_REF)
    } else {
        None
    }
}

fn eq_str(a: &[u8], s: &str) -> (r: bool)
    ensures
        r == (a@ == s.spec_bytes()),
{
    crate::text::bytes_eq(a, s.as_bytes())
}

/// The flags that a return-type name gives, or `None` for an unknown name.
pub fn return_type_flags(s: &[u8]) -> (r: Option<u32>)
    ensures
        r == spec_return_type_flags(s@),
{
    if eq_str(s, "string") {
        Some(0)
    } else if eq_str(s, "atom") {
        Some(F_ERL_ATOM)
    } else if eq_str(s, "int") {
        Some(F_ERL_INT)
    } else if eq_str(s, "atom-or-int") {
        Some(F_ERL_ATOM_OR_INT)
    } else if eq_str(s, "identifier-ref") {
        Some(F_ERL_IDENTIFIER_REF)
    } else {
        None
    }
}

/// The bytes of a list of character codes, when each is from 0 to 255.
pub open spec fn spec_latin1(codes: Seq<i64>) -> Option<Seq<u8>> {
    if forall|i: int| 0 <= i < codes.len() ==> 0 <= #[trigger] codes[i] <= 255 {
        Some(codes.map_values(|c: i64| c as u8))
    } else {
        None
    }
}

/// The bytes of a list of character codes, or `None` when one is not
/// from 0 to 255.
pub fn latin1_bytes(codes: &[i64]) -> (r: Option<Vec<u8>>)
    ensures
        match r {
            Some(b) => spec_latin1(codes@) == Some(b@),
            None => spec_latin1(codes@) is None,
        },
{
    let mut out: Vec<u8> = Vec::new();
    let mut i: usize = 0;
    while i < codes.len()
        invariant
            i <= codes@.len(),
            forall|j: int| 0 <= j < i ==> 0 <= #[trigger] codes@[j] <= 255,
            out@ == codes@.subrange(0, i as int).map_values(|c: i64| c as u8),
        decreases codes@.len() - i,
    {
        let c = codes[i];
        if c < 0 || c > 255 {
            return None;
        }
        out.push(c as u8);
        i = i + 1;
        assert(out@ =~= codes@.subrange(0, i as int).map_values(|c: i64| c as u8));
    }
    assert(codes@.subrange(0, codes@.len() as int) =~= codes@);
    Some(out)
}

/// What a pattern match's return code says: 1 a match, 0 none, anything
/// else an error.
pub fn match_result(code: i32) -> (r: Option<bool>)
    ensures
        r == (if code == 1 {
            Some(true)
        } else if code == 0 {
            Some(false)
        } else {
            None::<bool>
        }),
{
    if code == 1 {
        Some(true)
    } else if code == 0 {
        Some(false)
    } else {
        None
    }
}

/// The atom for a name given from the Erlang side, refused when the name
/// holds a NUL byte or the table has no room for another atom.
pub open spec fn spec_intern_name(atoms: Seq<Seq<u8>>, name: Seq<u8>) -> Option<(Seq<Seq<u8>>, Atom)> {
    if name.contains(0u8) || atoms.len() >= usize::MAX {
        None
    } else {
        Some((spec_intern(atoms, name).0, spec_intern(atoms, name).1 as Atom))
    }
}

/// Makes the atom for a name given from the Erlang side; `None` when the
/// name holds a NUL byte or the table is full.
pub fn intern_name(atoms: &mut AtomTable, name: &[u8]) -> (r: Option<Atom>)
    ensures
        match spec_intern_name(old(atoms).view(), name@) {
            Some(p) => r == Some(p.1) && final(atoms).view() == p.0,
            None => r is None && final(atoms).view() == old(atoms).view(),
        },
        final(atoms).view().len() <= old(atoms).view().len() + 1,
{
    if contains_nul(name) || atoms.len() == usize::MAX {
        return None;
    }
    Some(atoms.intern_bytes(name))
}

/// An argument as the Erlang side receives it.
#[derive(Debug, PartialEq)]
pub enum ArgValue {
    /// No argument.
    Nothing,
    /// The argument's bytes.
    Binary(Vec<u8>),
    /// An atom with the argument's text.
    Atom(Vec<u8>),
    Int(i64),
    UInt(u64),
    /// An identifier with a prefix: the prefix and the identifier.
    Ref(Vec<u8>, Vec<u8>),
}

/// An argument as values.
pub enum ArgV {
    Nothing,
    Binary(Seq<u8>),
    Atom(Seq<u8>),
    Int(i64),
    UInt(u64),
    Ref(Seq<u8>, Seq<u8>),
}

impl ArgValue {
    pub open spec fn view(&self) -> ArgV {
        match self {
            ArgValue::Nothing => ArgV::Nothing,
            ArgValue::Binary(b) => ArgV::Binary(b@),
            ArgValue::Atom(b) => ArgV::Atom(b@),
            ArgValue::Int(v) => ArgV::Int(*v),
            ArgValue::UInt(v) => ArgV::UInt(*v),
            ArgValue::Ref(p, n) => ArgV::Ref(p@, n@),
        }
    }
}

/// An argument `a` whose type has flags `flags` (none when the statement has
/// no type), as the Erlang side receives it; `None` when it cannot be given
/// so: text that is not UTF-8 where text is asked for, or a number that does
/// not parse where one is asked for.
pub open spec fn spec_arg_value(a: Option<Seq<u8>>, flags: Option<u32>) -> Option<ArgV> {
    match a {
        None => Some(ArgV::Nothing),
        Some(s) => match flags {
            None => Some(ArgV::Binary(s)),
            Some(f) => if f & (F_ERL_ATOM | F_ERL_INT | F_ERL_UINT | F_ERL_ATOM_OR_INT | F_ERL_ATOM_OR_UINT
                | F_ERL_IDENTIFIER_REF) == 0 {
                Some(ArgV::Binary(s))
            } else if !valid_utf8(s) {
                None
            } else if f & F_ERL_ATOM != 0 {
                Some(ArgV::Atom(s))
            } else if f & F_ERL_INT != 0 {
                match spec_parse_i64(s) {
                    Some(v) => Some(ArgV::Int(v)),
                    None => None,
                }
            } else if f & F_ERL_UINT != 0 {
                match spec_parse_u64(s) {
                    Some(v) => Some(ArgV::UInt(v)),
                    None => None,
                }
            } else if f & F_ERL_ATOM_OR_INT != 0 {
                match spec_parse_i64(s) {
                    Some(v) => Some(ArgV::Int(v)),
                    None => Some(ArgV::Atom(s)),
                }
            } else if f & F_ERL_ATOM_OR_UINT != 0 {
                match spec_parse_u64(s) {
                    Some(v) => Some(ArgV::UInt(v)),
                    None => Some(ArgV::Atom(s)),
                }
            } else {
                let k = find_byte(s, 58, 0);
                if k < s.len() {
                    Some(ArgV::Ref(s.subrange(0, k), s.subrange(k + 1, s.len() as int)))
                } else {
                    Some(ArgV::Atom(s))
                }
            },
        },
    }
}

/// The flags of the argument type at `k`, when there is one.
pub open spec fn type_flags(ts: Seq<ArgTypeV>, k: Option<int>) -> Option<u32> {
    match k {
        Some(i) => if 0 <= i < ts.len() {
            Some(ts[i].flags)
        } else {
            None
        },
        None => None,
    }
}

fn sub_bytes(s: &[u8], from: usize, to: usize) -> (r: Vec<u8>)
    requires
        from <= to <= s@.len(),
    ensures
        r@ == s@.subrange(from as int, to as int),
{
    copy_bytes(&s[from..to])
}

/// The argument of statement `node` as the Erlang side receives it, by the
/// flags of its argument type, as `spec_arg_value` says.
pub fn arg_value(t: &GrammarTables, node: &YangStatement) -> (r: Option<ArgValue>)
    ensures
        match r {
            Some(v) => spec_arg_value(node.view().arg, type_flags(t.tv(), node.view().arg_type)) == Some(v.view()),
            None => spec_arg_value(node.view().arg, type_flags(t.tv(), node.view().arg_type)) is None,
        },
{
    let s = match &node.arg {
        None => return Some(ArgValue::Nothing),
        Some(a) => a.as_slice(),
    };
    let f = match node.arg_type {
        None => return Some(ArgValue::Binary(copy_bytes(s))),
        Some(k) => {
            if k >= t.types.len() {
                return Some(ArgValue::Binary(copy_bytes(s)));
            }
            assert(t.tv()[k as int].flags == t.types@[k as int].flags);
            t.types[k].flags
        },
    };
    if f & (F_ERL_ATOM | F_ERL_INT | F_ERL_UINT | F_ERL_ATOM_OR_INT | F_ERL_ATOM_OR_UINT | F_ERL_IDENTIFIER_REF) == 0 {
        return Some(ArgValue::Binary(copy_bytes(s)));
    }
    if !utf8_ok(s) {
        return None;
    }
    if f & F_ERL_ATOM != 0 {
        Some(ArgValue::Atom(copy_bytes(s)))
    } else if f & F_ERL_INT != 0 {
        match parse_i64(s) {
            Some(v) => Some(ArgValue::Int(v)),
            None => None,
        }
    } else if f & F_ERL_UINT != 0 {
        match parse_u64(s) {
            Some(v) => Some(ArgValue::UInt(v)),
            None => None,
        }
    } else if f & F_ERL_ATOM_OR_INT != 0 {
        match parse_i64(s) {
            Some(v) => Some(ArgValue::Int(v)),
            None => Some(ArgValue::Atom(copy_bytes(s))),
        }
    } else if f & F_ERL_ATOM_OR_UINT != 0 {
        match parse_u64(s) {
            Some(v) => Some(ArgValue::UInt(v)),
            None => Some(ArgValue::Atom(copy_bytes(s))),
        }
    } else {
        let k = find_byte_exec(s, 58, 0);
        proof {
            lemma_find_byte(s@, 58, 0);
        }
        if k < s.len() {
            Some(ArgValue::Ref(sub_bytes(s, 0, k), sub_bytes(s, k + 1, s.len())))
        } else {
            Some(ArgValue::Atom(copy_bytes(s)))
        }
    }
}

/// The text of atom `a`, when it is in the table and valid UTF-8.
pub open spec fn utf8_atom(atoms: Seq<Seq<u8>>, a: int) -> Option<Seq<u8>> {
    if 0 <= a < atoms.len() && valid_utf8(atoms[a]) {
        Some(atoms[a])
    } else {
        None
    }
}

/// The text of atom `a`, when it is in the table and valid UTF-8.
pub fn utf8_atom_text(atoms: &AtomTable, a: Atom) -> (r: Option<Vec<u8>>)
    ensures
        match r {
            Some(b) => utf8_atom(atoms.view(), a as int) == Some(b@),
            None => utf8_atom(atoms.view(), a as int) is None,
        },
{
    if a >= atoms.len() {
        return None;
    }
    let b = atoms.name(a);
    if utf8_ok(b.as_slice()) {
        Some(copy_bytes(b.as_slice()))
    } else {
        None
    }
}

/// The keyword of a statement as the Erlang side receives it: the keyword
/// alone, or, for a prefixed statement, its module and the keyword.  `None`
/// when a text is not UTF-8 or a prefixed statement has no module.
pub open spec fn spec_keyword_value(atoms: Seq<Seq<u8>>, s: StmtNode) -> Option<(Option<Seq<u8>>, Seq<u8>)> {
    match s.prefix {
        None => match utf8_atom(atoms, s.keyword) {
            Some(k) => Some((None, k)),
            None => None,
        },
        Some(_) => match s.module_name {
            None => None,
            Some(mn) => match (utf8_atom(atoms, mn), utf8_atom(atoms, s.keyword)) {
                (Some(m), Some(k)) => Some((Some(m), k)),
                _ => None,
            },
        },
    }
}

/// The keyword of statement `node` as the Erlang side receives it, as
/// `spec_keyword_value` says.
pub fn keyword_value(atoms: &AtomTable, node: &YangStatement) -> (r: Option<(Option<Vec<u8>>, Vec<u8>)>)
    ensures
        match r {
            Some(v) => spec_keyword_value(atoms.view(), node.view()) == Some((
                match v.0 {
                    Some(m) => Some(m@),
                    None => None,
                },
                v.1@,
            )),
            None => spec_keyword_value(atoms.view(), node.view()) is None,
        },
{
    match node.prefix {
        None => match utf8_atom_text(atoms, node.keyword) {
            Some(k) => Some((None, k)),
            None => None,
        },
        Some(_) => match node.module_name {
            None => None,
            Some(mn) => {
                let m = utf8_atom_text(atoms, mn);
                let k = utf8_atom_text(atoms, node.keyword);
                match (m, k) {
                    (Some(m), Some(k)) => Some((Some(m), k)),
                    _ => None,
                }
            },
        },
    }
}


/// An argument type given from the Erlang side: its name, its pattern (none
/// for a type that checks nothing), and the name of the kind of value its
/// arguments are given back as.
pub struct TypeEntry {
    pub name: Vec<u8>,
    pub regexp: Option<Vec<u8>>,
    pub return_type: Vec<u8>,
}

pub struct TypeEntryV {
    pub name: Seq<u8>,
    pub regexp: Option<Seq<u8>>,
    pub return_type: Seq<u8>,
}

impl TypeEntry {
    pub open spec fn view(&self) -> TypeEntryV {
        TypeEntryV {
            name: self.name@,
            regexp: match self.regexp {
                Some(r) => Some(r@),
                None => None,
            },
            return_type: self.return_type@,
        }
    }
}

pub open spec fn type_entries_view(v: Seq<TypeEntry>) -> Seq<TypeEntryV> {
    v.map_values(|e: TypeEntry| e.view())
}

/// What reading a list of entries gives: whether all could be read, the
/// atoms after, and the values read.
pub struct Parsed<T> {
    pub ok: bool,
    pub atoms: Seq<Seq<u8>>,
    pub val: T,
}

/// Reading type entries from `i` on after the types `ts` read so far: a name
/// with a NUL byte, a pattern with a NUL byte or an unknown return type
/// stops the reading.
pub open spec fn spec_type_entries(atoms: Seq<Seq<u8>>, ts: Seq<ArgTypeV>, es: Seq<TypeEntryV>, i: int) -> Parsed<Seq<ArgTypeV>>
    decreases es.len() - i,
{
    if i < 0 || i >= es.len() {
        Parsed { ok: true, atoms, val: ts }
    } else {
        let e = es[i];
        match spec_intern_name(atoms, e.name) {
            None => Parsed { ok: false, atoms, val: ts },
            Some(p) => {
                let syn: Option<(SyntaxV, u32)> = match e.regexp {
                    None => Some((SyntaxV::Empty, 0u32)),
                    Some(re) => if re.contains(0u8) {
                        None
                    } else {
                        Some((SyntaxV::Regexp(re), F_ARG_TYPE_SYNTAX_REGEXP))
                    },
                };
                match syn {
                    None => Parsed { ok: false, atoms: p.0, val: ts },
                    Some(sf) => match spec_return_type_flags(e.return_type) {
                        None => Parsed { ok: false, atoms: p.0, val: ts },
                        Some(rf) => spec_type_entries(
                            p.0,
                            ts.push(ArgTypeV { name: p.1, syntax: sf.0, flags: sf.1 | rf }),
                            es,
                            i + 1,
                        ),
                    },
                }
            },
        }
    }
}

/// A type entry that cannot be read: a name or a pattern with a NUL byte, or
/// a return type that is not known.
pub open spec fn bad_type_entry(e: TypeEntryV) -> bool {
    ||| e.name.contains(0u8)
    ||| (e.regexp matches Some(re) && re.contains(0u8))
    ||| spec_return_type_flags(e.return_type) is None
}

proof fn lemma_bad_type_entry(atoms: Seq<Seq<u8>>, ts: Seq<ArgTypeV>, es: Seq<TypeEntryV>, i: int, k: int)
    requires
        0 <= i <= k < es.len(),
        bad_type_entry(es[k]),
    ensures
        !spec_type_entries(atoms, ts, es, i).ok,
    decreases k - i,
{
    if i < k {
        let e = es[i];
        if let Some(p) = spec_intern_name(atoms, e.name) {
            let syn: Option<(SyntaxV, u32)> = match e.regexp {
                None => Some((SyntaxV::Empty, 0u32)),
                Some(re) => if re.contains(0u8) { None } else { Some((SyntaxV::Regexp(re), F_ARG_TYPE_SYNTAX_REGEXP)) },
            };
            if let Some(sf) = syn {
                if let Some(rf) = spec_return_type_flags(e.return_type) {
                    lemma_bad_type_entry(p.0, ts.push(ArgTypeV { name: p.1, syntax: sf.0, flags: sf.1 | rf }), es, i + 1, k);
                }
            }
        }
    }
}

/// A list of type entries with one that cannot be read, wherever it stands,
/// is refused as a whole: `install_arg_types` then gives `None` and installs
/// no type, not even those listed before the bad one.
pub proof fn law_bad_type_entry_refused(atoms: Seq<Seq<u8>>, es: Seq<TypeEntryV>, k: int)
    requires
        0 <= k < es.len(),
        bad_type_entry(es[k]),
    ensures
        !spec_type_entries(atoms, Seq::empty(), es, 0).ok,
{
    lemma_bad_type_entry(atoms, Seq::empty(), es, 0, k);
}

/// Installs the argument types given from the Erlang side; `c` tells
/// whether a pattern compiles.  `None` when an entry cannot be read (nothing
/// is installed then), else whether the installation worked.
pub fn install_arg_types<G: Fn(&[u8]) -> bool>(
    t: &mut GrammarTables,
    atoms: &mut AtomTable,
    entries: &Vec<TypeEntry>,
    c: &G,
) -> (r: Option<bool>)
    requires
        compiler_ok(*c),
    ensures
        ({
            let pr = spec_type_entries(old(atoms).view(), Seq::empty(), type_entries_view(entries@), 0);
            &&& final(atoms).view() == pr.atoms
            &&& if pr.ok {
                let it = spec_install_types(old(t).tv(), pr.val, |p: Seq<u8>| compiles(*c, p), 0);
                r == Some(it.0) && final(t).tv() == it.1
            } else {
                r is None && final(t).tv() == old(t).tv()
            }
        }),
        final(t).gv() == old(t).gv(),
        final(t).am == old(t).am,
{
    let ghost ev = type_entries_view(entries@);
    let ghost goal = spec_type_entries(atoms.view(), Seq::empty(), ev, 0);
    let mut types: Vec<YangArgType> = Vec::new();
    assert(types_view(types@) =~= Seq::<ArgTypeV>::empty());
    let mut i: usize = 0;
    while i < entries.len()
        invariant
            ev == type_entries_view(entries@),
            goal == spec_type_entries(old(atoms).view(), Seq::empty(), ev, 0),
            i <= entries@.len(),
            spec_type_entries(atoms.view(), types_view(types@), ev, i as int) == goal,
            t.tv() == old(t).tv(),
            t.gv() == old(t).gv(),
            t.am == old(t).am,
        decreases entries@.len() - i,
    {
        let e = &entries[i];
        assert(ev[i as int] == e.view());
        let name = match intern_name(atoms, e.name.as_slice()) {
            Some(a) => a,
            None => return None,
        };
        let (syntax, flags): (ArgSyntax, u32) = match &e.regexp {
            None => (ArgSyntax::Empty, 0),
            Some(re) => {
                if contains_nul(re.as_slice()) {
                    return None;
                }
                (ArgSyntax::Regexp(copy_bytes(re.as_slice())), F_ARG_TYPE_SYNTAX_REGEXP)
            },
        };
        let rf = match return_type_flags(e.return_type.as_slice()) {
            Some(f) => f,
            None => return None,
        };
        let ghost before = types_view(types@);
        let nt = YangArgType { name, syntax, flags: flags | rf };
        types.push(nt);
        assert(types_view(types@) =~= before.push(nt.view()));
        i = i + 1;
    }
    Some(yang_install_arg_types(t, &types, c))
}

/// A rule given from the Erlang side: the module of an extension keyword
/// (none for a core keyword), the keyword, and the occurrence name.
pub struct RuleEntry {
    pub module: Option<Vec<u8>>,
    pub keyword: Vec<u8>,
    pub occurance: Vec<u8>,
}

pub struct RuleEntryV {
    pub module: Option<Seq<u8>>,
    pub keyword: Seq<u8>,
    pub occurance: Seq<u8>,
}

/// A statement specification given from the Erlang side: its keyword, the
/// name of its argument type (none for no argument), its rules, and the
/// statements of other modules it may be used in (the occurrence name and
/// their keywords), if any.
pub struct SpecEntry {
    pub keyword: Vec<u8>,
    pub arg: Option<Vec<u8>>,
    pub rules: Vec<RuleEntry>,
    pub usein: Option<(Vec<u8>, Vec<(Option<Vec<u8>>, Vec<u8>)>)>,
}

pub struct SpecEntryV {
    pub keyword: Seq<u8>,
    pub arg: Option<Seq<u8>>,
    pub rules: Seq<RuleEntryV>,
    pub usein: Option<(Seq<u8>, Seq<(Option<Seq<u8>>, Seq<u8>)>)>,
}

pub open spec fn opt_seq(o: Option<Vec<u8>>) -> Option<Seq<u8>> {
    match o {
        Some(v) => Some(v@),
        None => None,
    }
}

pub open spec fn kw_refs_view(v: Seq<(Option<Vec<u8>>, Vec<u8>)>) -> Seq<(Option<Seq<u8>>, Seq<u8>)> {
    v.map_values(|k: (Option<Vec<u8>>, Vec<u8>)| (opt_seq(k.0), k.1@))
}

impl RuleEntry {
    pub open spec fn view(&self) -> RuleEntryV {
        RuleEntryV { module: opt_seq(self.module), keyword: self.keyword@, occurance: self.occurance@ }
    }
}

pub open spec fn rule_entries_view(v: Seq<RuleEntry>) -> Seq<RuleEntryV> {
    v.map_values(|e: RuleEntry| e.view())
}

impl SpecEntry {
    pub open spec fn view(&self) -> SpecEntryV {
        SpecEntryV {
            keyword: self.keyword@,
            arg: opt_seq(self.arg),
            rules: rule_entries_view(self.rules@),
            usein: match self.usein {
                Some(u) => Some((u.0@, kw_refs_view(u.1@))),
                None => None,
            },
        }
    }
}

pub open spec fn spec_entries_view(v: Seq<SpecEntry>) -> Seq<SpecEntryV> {
    v.map_values(|e: SpecEntry| e.view())
}

/// Reading a keyword reference: the atoms of its module (if any) and its keyword.
pub open spec fn spec_kw_ref(atoms: Seq<Seq<u8>>, m: Option<Seq<u8>>, k: Seq<u8>) -> Parsed<(Option<Atom>, Atom)> {
    match m {
        None => match spec_intern_name(atoms, k) {
            None => Parsed { ok: false, atoms, val: (None, 0) },
            Some(p) => Parsed { ok: true, atoms: p.0, val: (None, p.1) },
        },
        Some(mb) => match spec_intern_name(atoms, mb) {
            None => Parsed { ok: false, atoms, val: (None, 0) },
            Some(p1) => match spec_intern_name(p1.0, k) {
                None => Parsed { ok: false, atoms: p1.0, val: (None, 0) },
                Some(p2) => Parsed { ok: true, atoms: p2.0, val: (Some(p1.1), p2.1) },
            },
        },
    }
}

/// Reading rule entries from `i` on, for module `mn`, after the rules `acc`.
pub open spec fn spec_rule_entries(
    atoms: Seq<Seq<u8>>,
    rs: Seq<RuleEntryV>,
    i: int,
    acc: Seq<YangStatementRule>,
) -> Parsed<Seq<YangStatementRule>>
    decreases rs.len() - i,
{
    if i < 0 || i >= rs.len() {
        Parsed { ok: true, atoms, val: acc }
    } else {
        let kr = spec_kw_ref(atoms, rs[i].module, rs[i].keyword);
        if !kr.ok {
            Parsed { ok: false, atoms: kr.atoms, val: acc }
        } else {
            match spec_parse_occurance(rs[i].occurance) {
                None => Parsed { ok: false, atoms: kr.atoms, val: acc },
                Some(occ) => spec_rule_entries(
                    kr.atoms,
                    rs,
                    i + 1,
                    acc.push(YangStatementRule {
                        module_name: kr.val.0,
                        keyword: kr.val.1,
                        min_yang_version: 0,
                        spec: None,
                        occurance: occ,
                    }),
                ),
            }
        }
    }
}

/// Reading keyword references from `i` on, after `acc`.
pub open spec fn spec_kw_refs(
    atoms: Seq<Seq<u8>>,
    ks: Seq<(Option<Seq<u8>>, Seq<u8>)>,
    i: int,
    acc: Seq<(Option<Atom>, Atom)>,
) -> Parsed<Seq<(Option<Atom>, Atom)>>
    decreases ks.len() - i,
{
    if i < 0 || i >= ks.len() {
        Parsed { ok: true, atoms, val: acc }
    } else {
        let kr = spec_kw_ref(atoms, ks[i].0, ks[i].1);
        if !kr.ok {
            Parsed { ok: false, atoms: kr.atoms, val: acc }
        } else {
            spec_kw_refs(kr.atoms, ks, i + 1, acc.push(kr.val))
        }
    }
}

/// Where a statement may also be used: the occurrence and the statements.
pub type UseIn = Option<(u8, Seq<(Option<Atom>, Atom)>)>;

/// Reading one specification entry: its keyword, its argument type (which
/// must be installed), its rules, and where else it may be used.
pub open spec fn spec_spec_entry(atoms: Seq<Seq<u8>>, ts: Seq<ArgTypeV>, e: SpecEntryV) -> Parsed<(SpecV, UseIn)> {
    let dummy = (SpecV { keyword: 0, arg_type_idx: -1i32, flags: 0u32, rules: Seq::empty() }, None);
    match spec_intern_name(atoms, e.keyword) {
        None => Parsed { ok: false, atoms, val: dummy },
        Some(pk) => {
            let pa: Parsed<i32> = match e.arg {
                None => Parsed { ok: true, atoms: pk.0, val: -1i32 },
                Some(an) => match spec_intern_name(pk.0, an) {
                    None => Parsed { ok: false, atoms: pk.0, val: -1i32 },
                    Some(p) => {
                        let idx = spec_get_arg_type_idx(ts, Some(p.1));
                        if idx < 0 {
                            Parsed { ok: false, atoms: p.0, val: -1i32 }
                        } else {
                            Parsed { ok: true, atoms: p.0, val: idx as i32 }
                        }
                    },
                },
            };
            if !pa.ok {
                Parsed { ok: false, atoms: pa.atoms, val: dummy }
            } else {
                let pr = spec_rule_entries(pa.atoms, e.rules, 0, Seq::empty());
                if !pr.ok {
                    Parsed { ok: false, atoms: pr.atoms, val: dummy }
                } else {
                    let sp = SpecV { keyword: pk.1, arg_type_idx: pa.val, flags: 0, rules: pr.val };
                    match e.usein {
                        None => Parsed { ok: true, atoms: pr.atoms, val: (sp, None) },
                        Some(u) => match spec_parse_occurance(u.0) {
                            None => Parsed { ok: false, atoms: pr.atoms, val: dummy },
                            Some(occ) => {
                                let pk2 = spec_kw_refs(pr.atoms, u.1, 0, Seq::empty());
                                if !pk2.ok {
                                    Parsed { ok: false, atoms: pk2.atoms, val: dummy }
                                } else {
                                    Parsed { ok: true, atoms: pk2.atoms, val: (sp, Some((occ, pk2.val))) }
                                }
                            },
                        },
                    }
                }
            }
        },
    }
}

/// Reading specification entries from `i` on, after those read.
pub open spec fn spec_spec_entries(
    atoms: Seq<Seq<u8>>,
    ts: Seq<ArgTypeV>,
    es: Seq<SpecEntryV>,
    i: int,
    specs: Seq<SpecV>,
    useins: Seq<UseIn>,
) -> Parsed<(Seq<SpecV>, Seq<UseIn>)>
    decreases es.len() - i,
{
    if i < 0 || i >= es.len() {
        Parsed { ok: true, atoms, val: (specs, useins) }
    } else {
        let pe = spec_spec_entry(atoms, ts, es[i]);
        if !pe.ok {
            Parsed { ok: false, atoms: pe.atoms, val: (specs, useins) }
        } else {
            spec_spec_entries(pe.atoms, ts, es, i + 1, specs.push(pe.val.0), useins.push(pe.val.1))
        }
    }
}

/// Adding `rule` to the specifications of the statements `ks` from `j` on;
/// the first that is missing stops it.
pub open spec fn spec_add_rules(gs: Seq<GrammarV>, rule: YangStatementRule, ks: Seq<(Option<Atom>, Atom)>, j: int) -> (bool, Seq<GrammarV>)
    decreases ks.len() - j,
{
    if j < 0 || j >= ks.len() {
        (true, gs)
    } else {
        let ar = spec_add_rule(gs, rule, ks[j].0, ks[j].1);
        if !ar.0 {
            (false, ar.1)
        } else {
            spec_add_rules(ar.1, rule, ks, j + 1)
        }
    }
}

proof fn lemma_same_index_trans(a: Seq<GrammarV>, b: Seq<GrammarV>, c: Seq<GrammarV>)
    requires
        same_index(a, b),
        same_index(b, c),
    ensures
        same_index(a, c),
{
    assert forall|g: int| 0 <= g < a.len() implies {
        &&& (#[trigger] c[g]).module_name == a[g].module_name
        &&& c[g].specs.len() == a[g].specs.len()
        &&& forall|s: int| 0 <= s < a[g].specs.len() ==> (#[trigger] c[g].specs[s]).keyword == a[g].specs[s].keyword
            && c[g].specs[s].flags == a[g].specs[s].flags
    } by {
        assert(b[g].module_name == a[g].module_name);
        assert(c[g].module_name == b[g].module_name);
        assert forall|s: int| 0 <= s < a[g].specs.len() implies (#[trigger] c[g].specs[s]).keyword == a[g].specs[s].keyword
            && c[g].specs[s].flags == a[g].specs[s].flags by {
            assert(b[g].specs[s].keyword == a[g].specs[s].keyword);
            assert(c[g].specs[s].keyword == b[g].specs[s].keyword);
        }
    }
}

proof fn lemma_same_index_refl(a: Seq<GrammarV>)
    ensures
        same_index(a, a),
{
}

/// Adding a rule keeps every rule that was there.
proof fn lemma_add_rule_keeps(gs: Seq<GrammarV>, rule: YangStatementRule, mn: Option<Atom>, kw: Atom)
    ensures
        forall|p: Option<(int, int)>, r2: YangStatementRule| #[trigger] has_rule(gs, p, r2)
            ==> has_rule(spec_add_rule(gs, rule, mn, kw).1, p, r2),
{
    law_add_rule(gs, rule, mn, kw);
    let r = spec_add_rule(gs, rule, mn, kw);
    assert forall|p: Option<(int, int)>, r2: YangStatementRule| #[trigger] has_rule(gs, p, r2)
        implies has_rule(r.1, p, r2) by {
        if r.0 {
            let (g2, s2) = p->0;
            let (g, s) = spec_get_statement_spec(gs, mn, kw)->0;
            if (g2, s2) == (g, s) {
                let old_rules = gs[g].specs[s].rules;
                let k = choose|k: int| 0 <= k < old_rules.len() && old_rules[k] == r2;
                assert(r.1[g].specs[s].rules[k] == r2);
            } else {
                assert(r.1[g2].specs[s2] == gs[g2].specs[s2]);
            }
        }
    }
}

proof fn lemma_add_rules(gs: Seq<GrammarV>, rule: YangStatementRule, ks: Seq<(Option<Atom>, Atom)>, j: int)
    requires
        0 <= j <= ks.len(),
    ensures
        ({
            let r = spec_add_rules(gs, rule, ks, j);
            &&& same_index(gs, r.1)
            &&& r.0 == forall|q: int| j <= q < ks.len() ==> (#[trigger] spec_get_statement_spec(gs, ks[q].0, ks[q].1)) is Some
            &&& r.0 ==> forall|q: int| j <= q < ks.len() ==> has_rule(r.1, #[trigger] spec_get_statement_spec(gs, ks[q].0, ks[q].1), rule)
            &&& forall|p: Option<(int, int)>, r2: YangStatementRule| #[trigger] has_rule(gs, p, r2) ==> has_rule(r.1, p, r2)
        }),
    decreases ks.len() - j,
{
    if j < ks.len() {
        let ar = spec_add_rule(gs, rule, ks[j].0, ks[j].1);
        law_add_rule(gs, rule, ks[j].0, ks[j].1);
        lemma_add_rule_keeps(gs, rule, ks[j].0, ks[j].1);
        if ar.0 {
            lemma_add_rules(ar.1, rule, ks, j + 1);
            let r = spec_add_rules(ar.1, rule, ks, j + 1);
            lemma_same_index_trans(gs, ar.1, r.1);
            assert forall|q: int| j <= q < ks.len() implies spec_get_statement_spec(gs, ks[q].0, ks[q].1)
                == spec_get_statement_spec(ar.1, ks[q].0, ks[q].1) by {
                lemma_lookup_same(gs, ar.1, ks[q].0, ks[q].1);
            }
            let p = spec_get_statement_spec(gs, ks[j].0, ks[j].1);
            let (g, s) = p->0;
            assert(ar.1[g].specs[s].rules.last() == rule);
            assert(has_rule(ar.1, p, rule));
            assert(has_rule(r.1, p, rule));
            if r.0 {
                assert forall|q: int| j <= q < ks.len() implies has_rule(r.1, #[trigger] spec_get_statement_spec(gs, ks[q].0, ks[q].1), rule) by {
                    if q > j {
                        assert(spec_get_statement_spec(gs, ks[q].0, ks[q].1) == spec_get_statement_spec(ar.1, ks[q].0, ks[q].1));
                    }
                }
            }
            if !r.0 {
                let q = choose|q: int| j + 1 <= q < ks.len() && !(#[trigger] spec_get_statement_spec(ar.1, ks[q].0, ks[q].1) is Some);
                assert(spec_get_statement_spec(gs, ks[q].0, ks[q].1) == spec_get_statement_spec(ar.1, ks[q].0, ks[q].1));
            }
        } else {
            lemma_same_index_refl(gs);
        }
    } else {
        lemma_same_index_refl(gs);
    }
}

/// Adding a rule to the specifications of a list of statements works
/// exactly when each of them has one; it then adds the rule to each, keeps
/// every rule that was there, and every lookup finds what it found before.
pub proof fn law_add_rules(gs: Seq<GrammarV>, rule: YangStatementRule, ks: Seq<(Option<Atom>, Atom)>)
    ensures
        ({
            let r = spec_add_rules(gs, rule, ks, 0);
            &&& same_index(gs, r.1)
            &&& r.0 == forall|q: int| 0 <= q < ks.len() ==> (#[trigger] spec_get_statement_spec(gs, ks[q].0, ks[q].1)) is Some
            &&& r.0 ==> forall|q: int| 0 <= q < ks.len() ==> has_rule(r.1, #[trigger] spec_get_statement_spec(gs, ks[q].0, ks[q].1), rule)
            &&& forall|p: Option<(int, int)>, r2: YangStatementRule| #[trigger] has_rule(gs, p, r2) ==> has_rule(r.1, p, r2)
        }),
{
    lemma_add_rules(gs, rule, ks, 0);
}

/// Making each installed specification of module `mn` that may be used in
/// other statements a rule of those statements, from `i` on.
pub open spec fn spec_apply_useins(gs: Seq<GrammarV>, mn: Atom, specs: Seq<SpecV>, useins: Seq<UseIn>, i: int) -> (bool, Seq<GrammarV>)
    decreases useins.len() - i,
{
    if i < 0 || i >= useins.len() || i >= specs.len() {
        (true, gs)
    } else {
        match useins[i] {
            None => spec_apply_useins(gs, mn, specs, useins, i + 1),
            Some(u) => {
                let kw = specs[i].keyword;
                match spec_get_statement_spec(gs, Some(mn), kw) {
                    None => (false, gs),
                    Some(p) => {
                        let rule = YangStatementRule {
                            module_name: Some(mn),
                            keyword: kw,
                            min_yang_version: YANG_VERSION_1,
                            spec: Some((p.0 as usize, p.1 as usize)),
                            occurance: u.0,
                        };
                        let ar = spec_add_rules(gs, rule, u.1, 0);
                        if !ar.0 {
                            (false, ar.1)
                        } else {
                            spec_apply_useins(ar.1, mn, specs, useins, i + 1)
                        }
                    },
                }
            },
        }
    }
}


/// The statements a use-in entry names.
pub open spec fn usein_keys(u: UseIn) -> Seq<(Option<Atom>, Atom)> {
    match u {
        Some(x) => x.1,
        None => Seq::empty(),
    }
}

/// The rule that use-in entry `u` of specification `sp` of module `mn` adds
/// to the statements it names: module `mn`, the specification's keyword, YANG
/// version 1, the place the specification is found at, and the occurrence
/// given.
pub open spec fn usein_rule(gs: Seq<GrammarV>, mn: Atom, sp: SpecV, u: (u8, Seq<(Option<Atom>, Atom)>)) -> YangStatementRule {
    let p = spec_get_statement_spec(gs, Some(mn), sp.keyword)->0;
    YangStatementRule {
        module_name: Some(mn),
        keyword: sp.keyword,
        min_yang_version: YANG_VERSION_1,
        spec: Some((p.0 as usize, p.1 as usize)),
        occurance: u.0,
    }
}

proof fn lemma_apply_useins(gs: Seq<GrammarV>, mn: Atom, specs: Seq<SpecV>, useins: Seq<UseIn>, i: int)
    requires
        0 <= i,
    ensures
        ({
            let r = spec_apply_useins(gs, mn, specs, useins, i);
            &&& same_index(gs, r.1)
            &&& forall|p: Option<(int, int)>, r2: YangStatementRule| #[trigger] has_rule(gs, p, r2) ==> has_rule(r.1, p, r2)
            &&& r.0 ==> forall|k: int, q: int| i <= k < useins.len() && k < specs.len() && #[trigger] useins[k] is Some
                && 0 <= q < usein_keys(useins[k]).len()
                ==> spec_get_statement_spec(gs, Some(mn), specs[k].keyword) is Some
                && has_rule(r.1, #[trigger] spec_get_statement_spec(gs, usein_keys(useins[k])[q].0, usein_keys(useins[k])[q].1),
                    usein_rule(gs, mn, specs[k], useins[k]->0))
        }),
    decreases useins.len() - i,
{
    lemma_same_index_refl(gs);
    if i < useins.len() && i < specs.len() {
        match useins[i] {
            None => {
                lemma_apply_useins(gs, mn, specs, useins, i + 1);
            },
            Some(u) => {
                let kw = specs[i].keyword;
                if let Some(p) = spec_get_statement_spec(gs, Some(mn), kw) {
                    let rule = YangStatementRule {
                        module_name: Some(mn),
                        keyword: kw,
                        min_yang_version: YANG_VERSION_1,
                        spec: Some((p.0 as usize, p.1 as usize)),
                        occurance: u.0,
                    };
                    assert(rule == usein_rule(gs, mn, specs[i], u));
                    let ar = spec_add_rules(gs, rule, u.1, 0);
                    lemma_add_rules(gs, rule, u.1, 0);
                    if ar.0 {
                        lemma_apply_useins(ar.1, mn, specs, useins, i + 1);
                        let r = spec_apply_useins(ar.1, mn, specs, useins, i + 1);
                        lemma_same_index_trans(gs, ar.1, r.1);
                        if r.0 {
                            assert forall|k: int, q: int| i <= k < useins.len() && k < specs.len() && #[trigger] useins[k] is Some
                                && 0 <= q < usein_keys(useins[k]).len()
                                implies spec_get_statement_spec(gs, Some(mn), specs[k].keyword) is Some
                                && has_rule(r.1, #[trigger] spec_get_statement_spec(gs, usein_keys(useins[k])[q].0, usein_keys(useins[k])[q].1),
                                    usein_rule(gs, mn, specs[k], useins[k]->0)) by {
                                lemma_lookup_same(gs, ar.1, usein_keys(useins[k])[q].0, usein_keys(useins[k])[q].1);
                                lemma_lookup_same(gs, ar.1, Some(mn), specs[k].keyword);
                                if k == i {
                                    assert(has_rule(ar.1, spec_get_statement_spec(gs, u.1[q].0, u.1[q].1), rule));
                                } else {
                                    assert(usein_rule(gs, mn, specs[k], useins[k]->0) == usein_rule(ar.1, mn, specs[k], useins[k]->0));
                                }
                            }
                        }
                    }
                }
            },
        }
    }
}

/// What installing a grammar does with the statements its specifications
/// may be used in: when it works, each statement named in the use-in entry
/// of an installed specification gets, among its rules, the rule of that
/// specification (its module, its keyword, YANG version 1, where it is
/// found, and the occurrence given); every rule there before stays, and
/// every lookup finds what it found before.
pub proof fn law_apply_useins(gs: Seq<GrammarV>, mn: Atom, specs: Seq<SpecV>, useins: Seq<UseIn>)
    ensures
        ({
            let r = spec_apply_useins(gs, mn, specs, useins, 0);
            &&& same_index(gs, r.1)
            &&& forall|p: Option<(int, int)>, r2: YangStatementRule| #[trigger] has_rule(gs, p, r2) ==> has_rule(r.1, p, r2)
            &&& r.0 ==> forall|k: int, q: int| 0 <= k < useins.len() && k < specs.len() && #[trigger] useins[k] is Some
                && 0 <= q < usein_keys(useins[k]).len()
                ==> spec_get_statement_spec(gs, Some(mn), specs[k].keyword) is Some
                && has_rule(r.1, #[trigger] spec_get_statement_spec(gs, usein_keys(useins[k])[q].0, usein_keys(useins[k])[q].1),
                    usein_rule(gs, mn, specs[k], useins[k]->0))
        }),
{
    lemma_apply_useins(gs, mn, specs, useins, 0);
}

fn read_kw_ref(atoms: &mut AtomTable, m: &Option<Vec<u8>>, k: &Vec<u8>) -> (r: Option<(Option<Atom>, Atom)>)
    ensures
        ({
            let kr = spec_kw_ref(old(atoms).view(), opt_seq(*m), k@);
            &&& final(atoms).view() == kr.atoms
            &&& (r is Some <==> kr.ok)
            &&& (r matches Some(v) ==> v == kr.val)
        }),
{
    match m {
        None => match intern_name(atoms, k.as_slice()) {
            None => None,
            Some(a) => Some((None, a)),
        },
        Some(mb) => match intern_name(atoms, mb.as_slice()) {
            None => None,
            Some(ma) => match intern_name(atoms, k.as_slice()) {
                None => None,
                Some(a) => Some((Some(ma), a)),
            },
        },
    }
}

fn read_rules(atoms: &mut AtomTable, rs: &Vec<RuleEntry>) -> (r: Option<Vec<YangStatementRule>>)
    ensures
        ({
            let pr = spec_rule_entries(old(atoms).view(), rule_entries_view(rs@), 0, Seq::empty());
            &&& final(atoms).view() == pr.atoms
            &&& (r is Some <==> pr.ok)
            &&& (r matches Some(v) ==> v@ == pr.val)
        }),
{
    let ghost rv = rule_entries_view(rs@);
    let ghost goal = spec_rule_entries(atoms.view(), rv, 0, Seq::empty());
    let mut out: Vec<YangStatementRule> = Vec::new();
    let mut i: usize = 0;
    while i < rs.len()
        invariant
            rv == rule_entries_view(rs@),
            goal == spec_rule_entries(old(atoms).view(), rv, 0, Seq::empty()),
            i <= rs@.len(),
            spec_rule_entries(atoms.view(), rv, i as int, out@) == goal,
        decreases rs@.len() - i,
    {
        let e = &rs[i];
        assert(rv[i as int] == e.view());
        let kr = match read_kw_ref(atoms, &e.module, &e.keyword) {
            Some(v) => v,
            None => return None,
        };
        let occ = match parse_occurance(e.occurance.as_slice()) {
            Some(o) => o,
            None => return None,
        };
        out.push(YangStatementRule { module_name: kr.0, keyword: kr.1, min_yang_version: 0, spec: None, occurance: occ });
        i = i + 1;
    }
    Some(out)
}

fn read_kw_refs(atoms: &mut AtomTable, ks: &Vec<(Option<Vec<u8>>, Vec<u8>)>) -> (r: Option<Vec<(Option<Atom>, Atom)>>)
    ensures
        ({
            let pr = spec_kw_refs(old(atoms).view(), kw_refs_view(ks@), 0, Seq::empty());
            &&& final(atoms).view() == pr.atoms
            &&& (r is Some <==> pr.ok)
            &&& (r matches Some(v) ==> v@ == pr.val)
        }),
{
    let ghost kv = kw_refs_view(ks@);
    let ghost goal = spec_kw_refs(atoms.view(), kv, 0, Seq::empty());
    let mut out: Vec<(Option<Atom>, Atom)> = Vec::new();
    let mut i: usize = 0;
    while i < ks.len()
        invariant
            kv == kw_refs_view(ks@),
            goal == spec_kw_refs(old(atoms).view(), kv, 0, Seq::empty()),
            i <= ks@.len(),
            spec_kw_refs(atoms.view(), kv, i as int, out@) == goal,
        decreases ks@.len() - i,
    {
        let e = &ks[i];
        assert(kv[i as int] == (opt_seq(e.0), e.1@));
        let kr = match read_kw_ref(atoms, &e.0, &e.1) {
            Some(v) => v,
            None => return None,
        };
        out.push(kr);
        i = i + 1;
    }
    Some(out)
}

/// Where a statement may be used, as values.
pub open spec fn usein_view(u: Option<(u8, Vec<(Option<Atom>, Atom)>)>) -> UseIn {
    match u {
        Some(p) => Some((p.0, p.1@)),
        None => None,
    }
}

pub open spec fn useins_view(v: Seq<Option<(u8, Vec<(Option<Atom>, Atom)>)>>) -> Seq<UseIn> {
    v.map_values(|u: Option<(u8, Vec<(Option<Atom>, Atom)>)>| usein_view(u))
}

fn read_spec_entry(t: &GrammarTables, atoms: &mut AtomTable, e: &SpecEntry) -> (r: Option<(YangStatementSpec, Option<(u8, Vec<(Option<Atom>, Atom)>)>)>)
    requires
        types_fit(t),
    ensures
        ({
            let pe = spec_spec_entry(old(atoms).view(), t.tv(), e.view());
            &&& final(atoms).view() == pe.atoms
            &&& (r is Some <==> pe.ok)
            &&& (r matches Some(v) ==> v.0.view() == pe.val.0 && usein_view(v.1) == pe.val.1)
        }),
{
    let kw = match intern_name(atoms, e.keyword.as_slice()) {
        Some(a) => a,
        None => return None,
    };
    let idx: i32 = match &e.arg {
        None => -1,
        Some(an) => match intern_name(atoms, an.as_slice()) {
            None => return None,
            Some(a) => {
                let idx = yang_get_arg_type_idx(t, Some(a));
                if idx < 0 {
                    return None;
                }
                idx
            },
        },
    };
    let rules = match read_rules(atoms, &e.rules) {
        Some(v) => v,
        None => return None,
    };
    let sp = YangStatementSpec { keyword: kw, arg_type_idx: idx, flags: 0, rules };
    match &e.usein {
        None => Some((sp, None)),
        Some(u) => match parse_occurance(u.0.as_slice()) {
            None => None,
            Some(occ) => match read_kw_refs(atoms, &u.1) {
                None => None,
                Some(ks) => Some((sp, Some((occ, ks)))),
            },
        },
    }
}

/// Installs the grammar of module `module` given from the Erlang side, then
/// makes each of its statements that may be used in statements of other
/// modules a rule of those.  `None` when an entry cannot be read (nothing is
/// installed then), else whether all of it worked.
pub fn install_grammar(t: &mut GrammarTables, atoms: &mut AtomTable, module: &[u8], entries: &Vec<SpecEntry>) -> (r: Option<bool>)
    requires
        types_fit(old(t)),
    ensures
        match spec_intern_name(old(atoms).view(), module@) {
            None => r is None && final(atoms).view() == old(atoms).view() && final(t).gv() == old(t).gv(),
            Some(pm) => {
                let pr = spec_spec_entries(pm.0, old(t).tv(), spec_entries_view(entries@), 0, Seq::empty(), Seq::empty());
                &&& final(atoms).view() == pr.atoms
                &&& if !pr.ok {
                    r is None && final(t).gv() == old(t).gv()
                } else {
                    let ig = spec_install_grammar(old(t).gv(), old(t).am.sp_cut, Some(pm.1), pr.val.0);
                    if !ig.0 {
                        r == Some(false) && final(t).gv() == ig.1
                    } else {
                        let ua = spec_apply_useins(ig.1, pm.1, pr.val.0, pr.val.1, 0);
                        r == Some(ua.0) && final(t).gv() == ua.1
                    }
                }
            },
        },
        final(t).tv() == old(t).tv(),
        final(t).am == old(t).am,
{
    let mn = match intern_name(atoms, module) {
        Some(a) => a,
        None => return None,
    };
    let ghost es = spec_entries_view(entries@);
    let ghost pm = (atoms.view(), mn);
    assert(spec_intern_name(old(atoms).view(), module@) == Some(pm));
    let ghost goal = spec_spec_entries(atoms.view(), t.tv(), es, 0, Seq::empty(), Seq::empty());
    let mut specs: Vec<YangStatementSpec> = Vec::new();
    let mut useins: Vec<Option<(u8, Vec<(Option<Atom>, Atom)>)>> = Vec::new();
    assert(specs_view(specs@) =~= Seq::<SpecV>::empty());
    assert(useins_view(useins@) =~= Seq::<UseIn>::empty());
    let mut i: usize = 0;
    while i < entries.len()
        invariant
            spec_intern_name(old(atoms).view(), module@) == Some(pm),
            pm.1 == mn,
            goal == spec_spec_entries(pm.0, old(t).tv(), es, 0, Seq::empty(), Seq::empty()),
            es == spec_entries_view(entries@),
            types_fit(t),
            t.tv() == old(t).tv(),
            t.gv() == old(t).gv(),
            t.am == old(t).am,
            i <= entries@.len(),
            specs@.len() == useins@.len(),
            spec_spec_entries(atoms.view(), t.tv(), es, i as int, specs_view(specs@), useins_view(useins@)) == goal,
        decreases entries@.len() - i,
    {
        assert(es[i as int] == entries@[i as int].view());
        let (sp, u) = match read_spec_entry(t, atoms, &entries[i]) {
            Some(v) => v,
            None => return None,
        };
        let ghost sb = specs_view(specs@);
        let ghost ub = useins_view(useins@);
        let ghost spv = sp.view();
        let ghost uv = usein_view(u);
        specs.push(sp);
        useins.push(u);
        assert(specs_view(specs@) =~= sb.push(spv));
        assert(useins_view(useins@) =~= ub.push(uv));
        i = i + 1;
    }
    if !yang_install_grammar(t, Some(mn), &specs) {
        return Some(false);
    }
    let ghost sv = specs_view(specs@);
    let ghost uvs = useins_view(useins@);
    let ghost g1 = t.gv();
    let ghost goal2 = spec_apply_useins(t.gv(), mn, sv, uvs, 0);
    let mut k: usize = 0;
    while k < useins.len()
        invariant
            spec_intern_name(old(atoms).view(), module@) == Some(pm),
            pm.1 == mn,
            goal == spec_spec_entries(pm.0, old(t).tv(), es, 0, Seq::empty(), Seq::empty()),
            es == spec_entries_view(entries@),
            goal.ok,
            goal.val == (sv, uvs),
            atoms.view() == goal.atoms,
            spec_install_grammar(old(t).gv(), old(t).am.sp_cut, Some(mn), sv) == (true, g1),
            goal2 == spec_apply_useins(g1, mn, sv, uvs, 0),
            sv == specs_view(specs@),
            uvs == useins_view(useins@),
            specs@.len() == useins@.len(),
            t.tv() == old(t).tv(),
            t.am == old(t).am,
            k <= useins@.len(),
            spec_apply_useins(t.gv(), mn, sv, uvs, k as int) == goal2,
        decreases useins@.len() - k,
    {
        assert(uvs[k as int] == usein_view(useins@[k as int]));
        assert(sv[k as int] == specs@[k as int].view());
        match &useins[k] {
            None => {},
            Some(u) => {
                let kw = specs[k].keyword;
                let p = match yang_get_statement_spec(t, Some(mn), kw) {
                    Some(p) => p,
                    None => return Some(false),
                };
                let rule = YangStatementRule {
                    module_name: Some(mn),
                    keyword: kw,
                    min_yang_version: YANG_VERSION_1,
                    spec: Some(p),
                    occurance: u.0,
                };
                let ghost ks = u.1@;
                let ghost gk = t.gv();
                let ghost g2 = spec_add_rules(t.gv(), rule, ks, 0);
                assert(spec_apply_useins(gk, mn, sv, uvs, k as int) == (if !g2.0 {
                    (false, g2.1)
                } else {
                    spec_apply_useins(g2.1, mn, sv, uvs, k + 1)
                }));
                let mut j: usize = 0;
                while j < u.1.len()
                    invariant
                        spec_intern_name(old(atoms).view(), module@) == Some(pm),
                        pm.1 == mn,
                        goal == spec_spec_entries(pm.0, old(t).tv(), es, 0, Seq::empty(), Seq::empty()),
                        es == spec_entries_view(entries@),
                        goal.ok,
                        goal.val == (sv, uvs),
                        atoms.view() == goal.atoms,
                        spec_install_grammar(old(t).gv(), old(t).am.sp_cut, Some(mn), sv) == (true, g1),
                        goal2 == spec_apply_useins(g1, mn, sv, uvs, 0),
                        spec_apply_useins(gk, mn, sv, uvs, k as int) == goal2,
                        spec_apply_useins(gk, mn, sv, uvs, k as int) == (if !g2.0 {
                            (false, g2.1)
                        } else {
                            spec_apply_useins(g2.1, mn, sv, uvs, k + 1)
                        }),
                        g2 == spec_add_rules(gk, rule, ks, 0),
                        ks == u.1@,
                        t.tv() == old(t).tv(),
                        t.am == old(t).am,
                        j <= ks.len(),
                        spec_add_rules(t.gv(), rule, ks, j as int) == g2,
                    decreases ks.len() - j,
                {
                    let kr = u.1[j];
                    if !yang_add_rule_to_spec(t, rule, kr.0, kr.1) {
                        return Some(false);
                    }
                    j = j + 1;
                }
            },
        }
        k = k + 1;
    }
    Some(true)
}


/// A rule as the Erlang side receives it: the module of its keyword (none
/// for a core keyword), the keyword, and the occurrence as text.
pub struct RuleInfo {
    pub module: Option<Vec<u8>>,
    pub keyword: Vec<u8>,
    pub occurance: Vec<u8>,
}

pub struct RuleInfoV {
    pub module: Option<Seq<u8>>,
    pub keyword: Seq<u8>,
    pub occurance: Seq<u8>,
}

impl RuleInfo {
    pub open spec fn view(&self) -> RuleInfoV {
        RuleInfoV { module: opt_seq(self.module), keyword: self.keyword@, occurance: self.occurance@ }
    }
}

/// A statement specification as the Erlang side receives it: its keyword,
/// the name of its argument type (none for no argument), and its rules.
pub struct SpecInfo {
    pub keyword: Vec<u8>,
    pub arg_type: Option<Vec<u8>>,
    pub rules: Vec<RuleInfo>,
}

pub struct SpecInfoV {
    pub keyword: Seq<u8>,
    pub arg_type: Option<Seq<u8>>,
    pub rules: Seq<RuleInfoV>,
}

impl SpecInfo {
    pub open spec fn view(&self) -> SpecInfoV {
        SpecInfoV {
            keyword: self.keyword@,
            arg_type: opt_seq(self.arg_type),
            rules: self.rules@.map_values(|r: RuleInfo| r.view()),
        }
    }
}

/// A rule as the Erlang side receives it; `None` when a text is not UTF-8.
pub open spec fn spec_rule_info(atoms: Seq<Seq<u8>>, r: YangStatementRule) -> Option<RuleInfoV> {
    match utf8_atom(atoms, r.keyword as int) {
        None => None,
        Some(k) => match r.module_name {
            None => Some(RuleInfoV { module: None, keyword: k, occurance: spec_byte_as_char(r.occurance) }),
            Some(m) => match utf8_atom(atoms, m as int) {
                None => None,
                Some(mt) => Some(RuleInfoV { module: Some(mt), keyword: k, occurance: spec_byte_as_char(r.occurance) }),
            },
        },
    }
}

/// The rules as the Erlang side receives them; `None` when a text is not UTF-8.
pub open spec fn spec_rules_info(atoms: Seq<Seq<u8>>, rs: Seq<YangStatementRule>) -> Option<Seq<RuleInfoV>> {
    if forall|i: int| 0 <= i < rs.len() ==> (#[trigger] spec_rule_info(atoms, rs[i])) is Some {
        Some(Seq::new(rs.len(), |i: int| spec_rule_info(atoms, rs[i])->0))
    } else {
        None
    }
}

/// A specification as the Erlang side receives it; `None` when a text is not UTF-8.
pub open spec fn spec_spec_info(atoms: Seq<Seq<u8>>, ts: Seq<ArgTypeV>, sp: SpecV) -> Option<SpecInfoV> {
    let at: Option<Option<Seq<u8>>> = if sp.arg_type_idx < 0 || sp.arg_type_idx >= ts.len() {
        Some(None)
    } else {
        match utf8_atom(atoms, ts[sp.arg_type_idx as int].name as int) {
            None => None,
            Some(n) => Some(Some(n)),
        }
    };
    match (utf8_atom(atoms, sp.keyword as int), at, spec_rules_info(atoms, sp.rules)) {
        (Some(k), Some(a), Some(rs)) => Some(SpecInfoV { keyword: k, arg_type: a, rules: rs }),
        _ => None,
    }
}

/// Looking up the specification of statement `keyword` of module `module`
/// (a core statement for none): the atoms after, and `None` for a bad
/// argument, `Some(None)` when there is no such specification.
pub open spec fn spec_statement_spec_info(
    atoms: Seq<Seq<u8>>,
    gs: Seq<GrammarV>,
    ts: Seq<ArgTypeV>,
    module: Option<Seq<u8>>,
    keyword: Seq<u8>,
) -> (Seq<Seq<u8>>, Option<Option<SpecInfoV>>) {
    let pm: Option<(Seq<Seq<u8>>, Option<Atom>)> = match module {
        None => Some((atoms, None)),
        Some(m) => match spec_intern_name(atoms, m) {
            None => None,
            Some(p) => Some((p.0, Some(p.1))),
        },
    };
    match pm {
        None => (atoms, None),
        Some(pm) => match spec_intern_name(pm.0, keyword) {
            None => (pm.0, None),
            Some(pk) => match spec_get_statement_spec(gs, pm.1, pk.1) {
                None => (pk.0, Some(None)),
                Some(p) => (pk.0, match spec_spec_info(pk.0, ts, gs[p.0].specs[p.1]) {
                    None => None,
                    Some(info) => Some(Some(info)),
                }),
            },
        },
    }
}

fn rule_info(atoms: &AtomTable, r: &YangStatementRule) -> (out: Option<RuleInfo>)
    ensures
        match out {
            Some(i) => spec_rule_info(atoms.view(), *r) == Some(i.view()),
            None => spec_rule_info(atoms.view(), *r) is None,
        },
{
    let k = match utf8_atom_text(atoms, r.keyword) {
        Some(k) => k,
        None => return None,
    };
    match r.module_name {
        None => Some(RuleInfo { module: None, keyword: k, occurance: byte_as_char(r.occurance) }),
        Some(m) => match utf8_atom_text(atoms, m) {
            None => None,
            Some(mt) => Some(RuleInfo { module: Some(mt), keyword: k, occurance: byte_as_char(r.occurance) }),
        },
    }
}

fn rules_info(atoms: &AtomTable, rs: &Vec<YangStatementRule>) -> (out: Option<Vec<RuleInfo>>)
    ensures
        match out {
            Some(v) => spec_rules_info(atoms.view(), rs@) == Some(v@.map_values(|r: RuleInfo| r.view())),
            None => spec_rules_info(atoms.view(), rs@) is None,
        },
{
    let mut v: Vec<RuleInfo> = Vec::new();
    let mut i: usize = 0;
    while i < rs.len()
        invariant
            i <= rs@.len(),
            v@.len() == i,
            forall|j: int| 0 <= j < i ==> (#[trigger] spec_rule_info(atoms.view(), rs@[j])) == Some(v@[j].view()),
        decreases rs@.len() - i,
    {
        match rule_info(atoms, &rs[i]) {
            None => return None,
            Some(ri) => v.push(ri),
        }
        i = i + 1;
    }
    assert(v@.map_values(|r: RuleInfo| r.view()) =~= Seq::new(rs@.len(), |i: int| spec_rule_info(atoms.view(), rs@[i])->0));
    Some(v)
}

/// The atoms that a table's grammars and argument types use are in the
/// atom table and read as UTF-8.
pub open spec fn names_ok(atoms: Seq<Seq<u8>>, gs: Seq<GrammarV>, ts: Seq<ArgTypeV>) -> bool {
    &&& forall|a: int| 0 <= a < atoms.len() ==> valid_utf8(#[trigger] atoms[a])
    &&& forall|k: int| 0 <= k < ts.len() ==> (#[trigger] ts[k]).name < atoms.len()
    &&& forall|g: int, s: int| 0 <= g < gs.len() && 0 <= s < gs[g].specs.len()
        ==> (#[trigger] gs[g].specs[s]).keyword < atoms.len()
    &&& forall|g: int, s: int, k: int| 0 <= g < gs.len() && 0 <= s < gs[g].specs.len() && 0 <= k < gs[g].specs[s].rules.len()
        ==> (#[trigger] gs[g].specs[s].rules[k]).keyword < atoms.len()
            && (gs[g].specs[s].rules[k].module_name matches Some(m) ==> m < atoms.len())
}

/// What looking up a statement's specification gives on a table whose
/// atoms all read as UTF-8, for names without NUL bytes: never a bad
/// argument; "not found" exactly when the grammar has no such
/// specification; else the specification's keyword, the name of its
/// argument type (none when it has none), and its rules in order, each with
/// its module, keyword and occurrence.
pub proof fn law_statement_spec_info(
    atoms: Seq<Seq<u8>>,
    gs: Seq<GrammarV>,
    ts: Seq<ArgTypeV>,
    module: Option<Seq<u8>>,
    keyword: Seq<u8>,
)
    requires
        spec_table_wf(atoms),
        atoms.len() + 2 < usize::MAX,
        names_ok(atoms, gs, ts),
        module matches Some(m) ==> !m.contains(0u8),
        !keyword.contains(0u8),
    ensures
        ({
            let r = spec_statement_spec_info(atoms, gs, ts, module, keyword);
            let a1 = match module {
                Some(m) => spec_intern(atoms, m).0,
                None => atoms,
            };
            let mn: Option<Atom> = match module {
                Some(m) => Some(spec_intern(atoms, m).1 as Atom),
                None => None,
            };
            let kw = spec_intern(a1, keyword).1 as Atom;
            let p = spec_get_statement_spec(gs, mn, kw);
            &&& r.1 is Some
            &&& (r.1 == Some(None::<SpecInfoV>) <==> p is None)
            &&& p matches Some(q) ==> {
                let sp = gs[q.0].specs[q.1];
                let info = r.1->0->0;
                &&& info.keyword == atoms[sp.keyword as int]
                &&& info.arg_type == (if 0 <= sp.arg_type_idx < ts.len() {
                    Some(atoms[ts[sp.arg_type_idx as int].name as int])
                } else {
                    None
                })
                &&& info.rules.len() == sp.rules.len()
                &&& forall|i: int| 0 <= i < sp.rules.len() ==> #[trigger] info.rules[i] == (RuleInfoV {
                    module: match sp.rules[i].module_name {
                        Some(m) => Some(atoms[m as int]),
                        None => None,
                    },
                    keyword: atoms[sp.rules[i].keyword as int],
                    occurance: spec_byte_as_char(sp.rules[i].occurance),
                })
            }
        }),
{
    let a1 = match module {
        Some(m) => spec_intern(atoms, m).0,
        None => atoms,
    };
    if let Some(m) = module {
        lemma_intern(atoms, m);
    }
    lemma_intern(a1, keyword);
    let a2 = spec_intern(a1, keyword).0;
    assert forall|x: int| 0 <= x < atoms.len() implies #[trigger] a2[x] == atoms[x] by {
        assert(a1[x] == atoms[x]);
    }
    let mn: Option<Atom> = match module {
        Some(m) => Some(spec_intern(atoms, m).1 as Atom),
        None => None,
    };
    let kw = spec_intern(a1, keyword).1 as Atom;
    crate::grammar::lemma_statement_spec_in_range(gs, mn, kw);
    if let Some(q) = spec_get_statement_spec(gs, mn, kw) {
        let sp = gs[q.0].specs[q.1];
        assert(sp.keyword < atoms.len());
        assert forall|i: int| 0 <= i < sp.rules.len() implies (#[trigger] spec_rule_info(a2, sp.rules[i])) == Some(RuleInfoV {
            module: match sp.rules[i].module_name {
                Some(m) => Some(atoms[m as int]),
                None => None,
            },
            keyword: atoms[sp.rules[i].keyword as int],
            occurance: spec_byte_as_char(sp.rules[i].occurance),
        }) by {
            assert(gs[q.0].specs[q.1].rules[i].keyword < atoms.len());
        }
        if 0 <= sp.arg_type_idx < ts.len() {
            assert(ts[sp.arg_type_idx as int].name < atoms.len());
        }
    }
}

/// Looks up the specification of statement `keyword` of module `module` (a
/// core statement for none), as the Erlang side asks for it:
/// `None` for a bad argument, `Some(None)` when there is none.
pub fn get_statement_spec(
    t: &GrammarTables,
    atoms: &mut AtomTable,
    module: Option<&[u8]>,
    keyword: &[u8],
) -> (r: Option<Option<SpecInfo>>)
    ensures
        ({
            let s = spec_statement_spec_info(old(atoms).view(), t.gv(), t.tv(), opt_bytes_of(module), keyword@);
            &&& final(atoms).view() == s.0
            &&& match r {
                None => s.1 is None,
                Some(None) => s.1 == Some(None::<SpecInfoV>),
                Some(Some(i)) => s.1 == Some(Some(i.view())),
            }
        }),
{
    let mn: Option<Atom> = match module {
        None => None,
        Some(m) => match intern_name(atoms, m) {
            None => return None,
            Some(a) => Some(a),
        },
    };
    let kw = match intern_name(atoms, keyword) {
        None => return None,
        Some(a) => a,
    };
    let (g, sidx) = match yang_get_statement_spec(t, mn, kw) {
        None => return Some(None),
        Some(p) => p,
    };
    proof {
        crate::grammar::lemma_statement_spec_in_range(t.gv(), mn, kw);
    }
    let sp = &t.grammars[g].specs[sidx];
    assert(t.gv()[g as int].specs[sidx as int] == sp.view());
    let k = match utf8_atom_text(atoms, sp.keyword) {
        None => return None,
        Some(k) => k,
    };
    let at: Option<Vec<u8>> = if sp.arg_type_idx < 0 || sp.arg_type_idx as usize >= t.types.len() {
        None
    } else {
        let i = sp.arg_type_idx as usize;
        assert(t.tv()[i as int].name == t.types@[i as int].name);
        match utf8_atom_text(atoms, t.types[i].name) {
            None => return None,
            Some(n) => Some(n),
        }
    };
    let rs = match rules_info(atoms, &sp.rules) {
        None => return None,
        Some(v) => v,
    };
    Some(Some(SpecInfo { keyword: k, arg_type: at, rules: rs }))
}

/// An optional byte slice as values.
pub open spec fn opt_bytes_of(o: Option<&[u8]>) -> Option<Seq<u8>> {
    match o {
        Some(b) => Some(b@),
        None => None,
    }
}

/// The names of the modules that have grammars, as the Erlang side receives
/// them; `None` when a name is not UTF-8.
pub open spec fn spec_module_name_texts(atoms: Seq<Seq<u8>>, names: Seq<Atom>) -> Option<Seq<Seq<u8>>> {
    if forall|i: int| 0 <= i < names.len() ==> (#[trigger] utf8_atom(atoms, names[i] as int)) is Some {
        Some(Seq::new(names.len(), |i: int| utf8_atom(atoms, names[i] as int)->0))
    } else {
        None
    }
}

/// The names of the modules that have grammars, in the order the grammars
/// were installed; `None` when a name is not UTF-8.
pub fn get_grammar_module_names(t: &GrammarTables, atoms: &AtomTable) -> (r: Option<Vec<Vec<u8>>>)
    requires
        t.grammars@.len() < i32::MAX,
    ensures
        match r {
            Some(v) => spec_module_name_texts(atoms.view(), spec_module_names(t.gv())) == Some(
                v@.map_values(|b: Vec<u8>| b@),
            ),
            None => spec_module_name_texts(atoms.view(), spec_module_names(t.gv())) is None,
        },
{
    let (n, _) = yang_get_grammar_module_names(t, 0);
    if n < 0 {
        return None;
    }
    let names: Vec<Atom> = if n == 0 {
        Vec::new()
    } else {
        let (w, names) = yang_get_grammar_module_names(t, n);
        if w < 0 {
            return None;
        }
        names
    };
    assert(names@ =~= spec_module_names(t.gv()));
    let mut out: Vec<Vec<u8>> = Vec::new();
    let mut i: usize = 0;
    while i < names.len()
        invariant
            names@ == spec_module_names(t.gv()),
            i <= names@.len(),
            out@.len() == i,
            forall|j: int| 0 <= j < i ==> (#[trigger] utf8_atom(atoms.view(), names@[j] as int)) == Some(out@[j]@),
        decreases names@.len() - i,
    {
        match utf8_atom_text(atoms, names[i]) {
            None => return None,
            Some(b) => out.push(b),
        }
        i = i + 1;
    }
    assert(out@.map_values(|b: Vec<u8>| b@) =~= Seq::new(names@.len(), |i: int| utf8_atom(atoms.view(), names@[i] as int)->0));
    Some(out)
}


/// The atom table has room for the atoms that checking `n` statements may make.
pub open spec fn check_room(atoms_len: int, n: int) -> bool {
    atoms_len < usize::MAX / 2 && n < usize::MAX / 4
}

/// Parsing the file `inp` and checking the module it holds, as the `parse`
/// request does: the errors, the atoms, and the statements of the module
/// when it parsed and no error (as opposed to a warning) was reported.  A
/// module whose check would not leave room in the atom table is not checked
/// and not given back.
pub open spec fn spec_parse_module<F: Fn(&[u8], &[u8]) -> bool>(
    inp: Inp,
    yv: Option<int>,
    gs: Seq<GrammarV>,
    ts: Seq<ArgTypeV>,
    am: KnownAtoms,
    m: F,
    canonical: bool,
    errs: Seq<ErrorRecord>,
    atoms: Seq<Seq<u8>>,
) -> (Seq<ErrorRecord>, Seq<Seq<u8>>, Option<Seq<StmtNode>>) {
    let fr = spec_yang_parse(inp, yv, errs, atoms);
    if !fr.ok {
        (fr.errs, fr.atoms, None)
    } else {
        let nodes = fr.nodes->0;
        if !check_room(fr.atoms.len() as int, nodes.len() as int) {
            (fr.errs, fr.atoms, None)
        } else {
            let env = Env { gs, ts, am, atoms: fr.atoms, filename: inp.filename, cap: inp.msg_cap };
            let cr = spec_check_module(env, m, canonical, nodes, fr.errs);
            (cr.errs, cr.atoms, if spec_has_error(cr.errs) {
                None
            } else {
                Some(cr.nodes)
            })
        }
    }
}

/// When parsing a module gives an error rather than a tree: a parse that
/// fails gives no tree and keeps the parser's errors; a tree comes back only
/// when no error (a code below 1000) has been reported; and a parse that
/// succeeds on a tree within the machine's room gives the tree exactly when
/// no error has been reported.
pub proof fn law_parse_module_error<F: Fn(&[u8], &[u8]) -> bool>(
    inp: Inp,
    yv: Option<int>,
    gs: Seq<GrammarV>,
    ts: Seq<ArgTypeV>,
    am: KnownAtoms,
    m: F,
    canonical: bool,
    errs: Seq<ErrorRecord>,
    atoms: Seq<Seq<u8>>,
)
    ensures
        ({
            let o = spec_parse_module(inp, yv, gs, ts, am, m, canonical, errs, atoms);
            let fr = spec_yang_parse(inp, yv, errs, atoms);
            &&& !fr.ok ==> o.2 is None && o.0 == fr.errs
            &&& o.2 is Some ==> fr.ok && !spec_has_error(o.0)
            &&& (fr.ok && fr.nodes is Some && check_room(fr.atoms.len() as int, fr.nodes->0.len() as int))
                ==> (o.2 is Some <==> !spec_has_error(o.0))
        }),
{
}

/// Parses the file whose contents are `data` (reading ended by
/// `read_error`, if any) and checks the module it holds against the grammar,
/// as `spec_parse_module` says.  `yv` is the parser's atom of `yang-version`.
pub fn parse_module<F: Fn(&[u8], &[u8]) -> bool>(
    t: &GrammarTables,
    atoms: &mut AtomTable,
    m: &F,
    data: &[u8],
    read_error: &Option<Vec<u8>>,
    filename: &Option<Vec<u8>>,
    canonical: bool,
    ectx: &mut YangErrorCtx,
    yv: Option<Atom>,
) -> (r: Option<YangTree>)
    requires
        matcher_ok(*m),
        data@.len() <= MAX_INPUT,
        old(ectx).msg_cap >= 1,
        old(atoms).wf(),
        old(atoms).view().len() + data@.len() + 2 <= usize::MAX,
    ensures
        ({
            let inp = Inp { data: data@, read_error: opt_view(*read_error), filename: opt_view(*filename), msg_cap: old(ectx).msg_cap };
            let o = spec_parse_module(inp, opt_int(yv), t.gv(), t.tv(), t.am, *m, canonical, old(ectx).errors(), old(atoms).view());
            &&& final(ectx).errors() == o.0
            &&& final(atoms).view() == o.1
            &&& match r {
                Some(tr) => o.2 == Some(nodes_view(tr.nodes@)) && opt_view(tr.filename) == opt_view(*filename),
                None => o.2 is None,
            }
        }),
        final(ectx).msg_cap == old(ectx).msg_cap,
{
    let (ok, tree) = yang_parse(data, read_error, filename, ectx, atoms, yv);
    if !ok {
        return None;
    }
    let mut tree = match tree {
        Some(tr) => tr,
        None => return None,
    };
    if !(atoms.len() < usize::MAX / 2 && tree.nodes.len() < usize::MAX / 4) {
        return None;
    }
    yang_grammar_check_module(t, &mut tree, atoms, m, canonical, ectx);
    if has_error(ectx) {
        None
    } else {
        Some(tree)
    }
}

} // verus!
