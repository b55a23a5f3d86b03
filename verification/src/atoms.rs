//! The atom table: byte strings interned once, so that an atom stands for its
//! text and two atoms with the same text are one and the same.
//!
//! An atom is a number.  Its text never holds a NUL byte: NUL bytes are
//! dropped when a string is interned.  Interning a string that holds a NUL
//! byte always makes a new atom, which from then on stands for its text in
//! place of any earlier atom with that text; the earlier one keeps its text
//! but is no longer current.

use vstd::prelude::*;
use crate::text::bytes_eq;

verus! {

/// An atom: an index into the table.
pub type Atom = usize;

/// The table of interned strings.
pub struct AtomTable {
    names: Vec<Vec<u8>>,
}

/// `s` without its NUL bytes.
pub open spec fn spec_clean(s: Seq<u8>) -> Seq<u8>
    decreases s.len(),
{
    if s.len() == 0 {
        s
    } else if s.last() == 0u8 {
        spec_clean(s.drop_last())
    } else {
        spec_clean(s.drop_last()).push(s.last())
    }
}

/// Atom `id` is the current atom for its text: no later atom has the same text.
pub open spec fn spec_is_current(t: Seq<Seq<u8>>, id: int) -> bool {
    &&& 0 <= id < t.len()
    &&& forall|j: int| id < j < t.len() ==> #[trigger] t[j] != t[id]
}

/// The current atom whose text is `name`, if there is one: the last one with that text.
pub open spec fn spec_lookup(t: Seq<Seq<u8>>, name: Seq<u8>) -> Option<int>
    decreases t.len(),
{
    if t.len() == 0 {
        None
    } else if t.last() == name {
        Some(t.len() - 1)
    } else {
        spec_lookup(t.drop_last(), name)
    }
}

/// Interning `b` in `t`: the table after and the atom.
pub open spec fn spec_intern(t: Seq<Seq<u8>>, b: Seq<u8>) -> (Seq<Seq<u8>>, int) {
    match spec_lookup(t, b) {
        Some(id) => (t, id),
        None => (t.push(spec_clean(b)), t.len() as int),
    }
}

/// No text in the table holds a NUL byte.
pub open spec fn spec_table_wf(t: Seq<Seq<u8>>) -> bool {
    forall|i: int| 0 <= i < t.len() ==> !(#[trigger] t[i]).contains(0u8)
}

pub(crate) proof fn lemma_lookup(t: Seq<Seq<u8>>, name: Seq<u8>)
    ensures
        match spec_lookup(t, name) {
            Some(id) => 0 <= id < t.len() && t[id] == name && spec_is_current(t, id),
            None => forall|i: int| 0 <= i < t.len() ==> #[trigger] t[i] != name,
        },
    decreases t.len(),
{
    if t.len() > 0 && t.last() != name {
        lemma_lookup(t.drop_last(), name);
        let u = t.drop_last();
        if let Some(id) = spec_lookup(u, name) {
            assert forall|j: int| id < j < t.len() implies #[trigger] t[j] != t[id] by {
                if j < t.len() - 1 {
                    assert(t[j] == u[j]);
                }
            }
        } else {
            assert forall|i: int| 0 <= i < t.len() implies #[trigger] t[i] != name by {
                if i < t.len() - 1 {
                    assert(t[i] == u[i]);
                }
            }
        }
    }
}

pub(crate) proof fn lemma_clean_no_nul(s: Seq<u8>)
    ensures
        !spec_clean(s).contains(0u8),
        !s.contains(0u8) ==> spec_clean(s) == s,
    decreases s.len(),
{
    if s.len() > 0 {
        lemma_clean_no_nul(s.drop_last());
        let c = spec_clean(s.drop_last());
        if s.last() != 0u8 {
            assert forall|i: int| 0 <= i < c.len() + 1 implies c.push(s.last())[i] != 0u8 by {
                if i < c.len() {
                    assert(c[i] != 0u8);
                }
            }
        }
        if !s.contains(0u8) {
            assert forall|i: int| 0 <= i < s.len() - 1 implies s.drop_last()[i] != 0u8 by {
                assert(s[i] != 0u8);
            }
            assert(s.last() != 0u8) by {
                assert(s[s.len() - 1] != 0u8);
            }
            assert(s.drop_last().push(s.last()) =~= s);
        }
    }
}

/// Interning keeps the table free of NUL bytes, gives back an atom whose text
/// is the string without its NUL bytes, and that atom is current.
pub proof fn lemma_intern(t: Seq<Seq<u8>>, b: Seq<u8>)
    requires
        spec_table_wf(t),
    ensures
        spec_table_wf(spec_intern(t, b).0),
        0 <= spec_intern(t, b).1 < spec_intern(t, b).0.len(),
        spec_intern(t, b).0[spec_intern(t, b).1] == spec_clean(b),
        spec_is_current(spec_intern(t, b).0, spec_intern(t, b).1),
        t.len() <= spec_intern(t, b).0.len() <= t.len() + 1,
        forall|i: int| 0 <= i < t.len() ==> #[trigger] spec_intern(t, b).0[i] == t[i],
{
    lemma_lookup(t, b);
    lemma_clean_no_nul(b);
    if let Some(id) = spec_lookup(t, b) {
        assert(!b.contains(0u8));
    }
}

impl AtomTable {
    /// The texts of the atoms, by atom.
    pub closed spec fn view(&self) -> Seq<Seq<u8>> {
        self.names@.map_values(|v: Vec<u8>| v@)
    }

    /// The table holds no NUL byte.
    pub open spec fn wf(&self) -> bool {
        spec_table_wf(self.view())
    }

    /// An empty table.
    pub fn new() -> (t: AtomTable)
        ensures
            t.view() == Seq::<Seq<u8>>::empty(),
            t.wf(),
    {
        let t = AtomTable { names: Vec::new() };
        assert(t.view() =~= Seq::<Seq<u8>>::empty());
        t
    }

    /// The number of atoms made so far.
    pub fn len(&self) -> (n: usize)
        ensures
            n == self.view().len(),
    {
        self.names.len()
    }

    /// The text of atom `id`.
    pub fn name(&self, id: Atom) -> (r: &Vec<u8>)
        requires
            id < self.view().len(),
        ensures
            r@ == self.view()[id as int],
    {
        &self.names[id]
    }

    /// Whether `id` is a current atom.
    pub fn is_current(&self, id: Atom) -> (r: bool)
        ensures
            r == spec_is_current(self.view(), id as int),
    {
        let n = self.names.len();
        if id >= n {
            return false;
        }
        let mut j = id + 1;
        while j < n
            invariant
                n == self.view().len(),
                id < n,
                id < j <= n,
                forall|k: int| id < k < j ==> #[trigger] self.view()[k] != self.view()[id as int],
            decreases n - j,
        {
            assert(self.view()[j as int] == self.names@[j as int]@);
            assert(self.view()[id as int] == self.names@[id as int]@);
            if bytes_eq(self.names[j].as_slice(), self.names[id].as_slice()) {
                return false;
            }
            j = j + 1;
        }
        true
    }

    /// The current atom whose text is `b`, if any.
    fn lookup(&self, b: &[u8]) -> (r: Option<Atom>)
        ensures
            match r {
                Some(id) => spec_lookup(self.view(), b@) == Some(id as int),
                None => spec_lookup(self.view(), b@) is None,
            },
    {
        let n = self.names.len();
        let mut i = n;
        assert(self.view().subrange(0, n as int) =~= self.view());
        while i > 0
            invariant
                n == self.view().len(),
                i <= n,
                spec_lookup(self.view(), b@) == spec_lookup(self.view().subrange(0, i as int), b@),
            decreases i,
        {
            let ghost u = self.view().subrange(0, i as int);
            assert(u.drop_last() =~= self.view().subrange(0, i - 1));
            assert(u.last() == self.names@[i - 1]@);
            if bytes_eq(self.names[i - 1].as_slice(), b) {
                return Some(i - 1);
            }
            i = i - 1;
        }
        None
    }

    /// Interns `bytes`: the current atom with that text if there is one,
    /// else a new atom for the text without NUL bytes.
    pub fn intern_bytes(&mut self, bytes: &[u8]) -> (id: Atom)
        requires
            old(self).view().len() < usize::MAX,
        ensures
            (final(self).view(), id as int) == spec_intern(old(self).view(), bytes@),
    {
        match self.lookup(bytes) {
            Some(id) => id,
            None => {
                let mut clean: Vec<u8> = Vec::new();
                let mut i: usize = 0;
                while i < bytes.len()
                    invariant
                        i <= bytes@.len(),
                        clean@ == spec_clean(bytes@.subrange(0, i as int)),
                    decreases bytes@.len() - i,
                {
                    let ghost pre = bytes@.subrange(0, i as int);
                    assert(bytes@.subrange(0, i + 1).drop_last() =~= pre);
                    if bytes[i] != 0 {
                        clean.push(bytes[i]);
                    }
                    i = i + 1;
                }
                assert(bytes@.subrange(0, bytes@.len() as int) =~= bytes@);
                let id = self.names.len();
                let ghost old_view = self.view();
                self.names.push(clean);
                assert(self.view() =~= old_view.push(spec_clean(bytes@)));
                id
            },
        }
    }

    /// The current atoms, in the order they were made.
    pub fn current_atoms(&self) -> (r: Vec<Atom>)
        ensures
            forall|i: int| 0 <= i < r@.len() ==> spec_is_current(self.view(), #[trigger] r@[i] as int),
            forall|id: int| spec_is_current(self.view(), id) ==> r@.contains(id as usize),
    {
        let mut r: Vec<Atom> = Vec::new();
        let n = self.names.len();
        let mut i: usize = 0;
        while i < n
            invariant
                n == self.view().len(),
                i <= n,
                forall|k: int| 0 <= k < r@.len() ==> spec_is_current(self.view(), #[trigger] r@[k] as int),
                forall|id: int| 0 <= id < i && spec_is_current(self.view(), id) ==> r@.contains(id as usize),
            decreases n - i,
        {
            let ghost r0 = r@;
            if self.is_current(i) {
                r.push(i);
                assert(r@[r@.len() - 1] == i);
                assert forall|id: int| 0 <= id < i && spec_is_current(self.view(), id) implies r@.contains(id as usize) by {
                    let k = choose|k: int| 0 <= k < r0.len() && r0[k] == id as usize;
                    assert(r@[k] == id as usize);
                }
            }
            i = i + 1;
        }
        r
    }
}

/// The atom for the first `len` bytes of `bytes`; none when `len` is negative.
pub fn yang_make_atom_len(table: &mut AtomTable, bytes: Option<&[u8]>, len: i32) -> (r: Option<Atom>)
    requires
        old(table).view().len() < usize::MAX,
        bytes is Some && len >= 0 ==> len <= bytes->0@.len(),
    ensures
        match r {
            None => (bytes is None || len < 0) && final(table).view() == old(table).view(),
            Some(id) => bytes is Some && len >= 0 && (final(table).view(), id as int)
                == spec_intern(old(table).view(), bytes->0@.subrange(0, len as int)),
        },
{
    match bytes {
        None => None,
        Some(b) => {
            if len < 0 {
                return None;
            }
            let n = len as usize;
            Some(table.intern_bytes(&b[0..n]))
        },
    }
}

/// The atom for a NUL-terminated string, given by its bytes before the NUL.
pub fn yang_make_atom(table: &mut AtomTable, s: Option<&[u8]>) -> (r: Option<Atom>)
    requires
        old(table).view().len() < usize::MAX,
    ensures
        match r {
            None => s is None && final(table).view() == old(table).view(),
            Some(id) => s is Some && (final(table).view(), id as int) == spec_intern(
                old(table).view(),
                s->0@,
            ),
        },
{
    match s {
        None => None,
        Some(b) => Some(table.intern_bytes(b)),
    }
}

/// Whether `a` is a current atom.
pub fn yang_is_atom_len(table: &AtomTable, a: Option<Atom>, len: i32) -> (r: bool)
    ensures
        r == match a {
            None => false,
            Some(id) => spec_is_current(table.view(), id as int),
        },
{
    match a {
        None => false,
        Some(id) => table.is_current(id),
    }
}

/// Whether `a` is a current atom.
pub fn yang_is_atom(table: &AtomTable, a: Option<Atom>) -> (r: bool)
    ensures
        r == match a {
            None => false,
            Some(id) => spec_is_current(table.view(), id as int),
        },
{
    yang_is_atom_len(table, a, 0)
}

/// Interning a string with no NUL byte a second time gives back the same atom
/// and leaves the table as the first time left it.
pub proof fn law_intern_idempotent(t: Seq<Seq<u8>>, b: Seq<u8>)
    requires
        spec_table_wf(t),
        !b.contains(0u8),
    ensures
        spec_intern(spec_intern(t, b).0, b) == spec_intern(t, b),
{
    lemma_intern(t, b);
    let t1 = spec_intern(t, b).0;
    lemma_clean_no_nul(b);
    lemma_lookup(t1, b);
    let id = spec_intern(t, b).1;
    match spec_lookup(t1, b) {
        Some(id2) => {
            if id2 != id {
                if id2 < id {
                    assert(t1[id] != t1[id2]);
                } else {
                    assert(t1[id2] != t1[id]);
                }
            }
        },
        None => {
            assert(t1[id] == b);
        },
    }
}

/// Two different current atoms have different texts.
pub proof fn law_current_atoms_distinct(t: Seq<Seq<u8>>, i: int, j: int)
    requires
        spec_is_current(t, i),
        spec_is_current(t, j),
        i != j,
    ensures
        t[i] != t[j],
{
    if i < j {
        assert(t[j] != t[i]);
    } else {
        assert(t[i] != t[j]);
    }
}

/// The atom that interning gives back stands for the string without its NUL
/// bytes, and is current.
pub proof fn law_intern_text(t: Seq<Seq<u8>>, b: Seq<u8>)
    requires
        spec_table_wf(t),
    ensures
        spec_intern(t, b).0[spec_intern(t, b).1] == spec_clean(b),
        spec_is_current(spec_intern(t, b).0, spec_intern(t, b).1),
        spec_table_wf(spec_intern(t, b).0),
{
    lemma_intern(t, b);
}

/// Which atoms `yang_is_atom` accepts: interning a text without NUL bytes
/// keeps every current atom current and makes the atom it gives back current,
/// and makes no other atom current.  So, starting from an empty table and
/// interning only such texts, the atoms accepted are exactly those given back.
pub proof fn law_is_atom_history(t: Seq<Seq<u8>>, b: Seq<u8>, id: int)
    requires
        spec_table_wf(t),
        !b.contains(0u8),
    ensures
        spec_is_current(spec_intern(t, b).0, id) <==> (spec_is_current(t, id) || id == spec_intern(t, b).1),
{
    lemma_intern(t, b);
    lemma_lookup(t, b);
    lemma_clean_no_nul(b);
    let t1 = spec_intern(t, b).0;
    if spec_lookup(t, b) is None {
        assert(t1 == t.push(b));
        if spec_is_current(t, id) {
            assert forall|j: int| id < j < t1.len() implies #[trigger] t1[j] != t1[id] by {
                if j == t.len() {
                    assert(t[id] != b);
                }
            }
        }
        if spec_is_current(t1, id) && id != t.len() {
            assert forall|j: int| id < j < t.len() implies #[trigger] t[j] != t[id] by {
                assert(t1[j] != t1[id]);
            }
        }
    }
}

} // verus!
