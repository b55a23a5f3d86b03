use yang_atom::atoms::{yang_is_atom, yang_is_atom_len, yang_make_atom, yang_make_atom_len, AtomTable};

#[test]
fn intern_gives_same_atom_twice() {
    let mut t = AtomTable::new();
    let a = yang_make_atom(&mut t, Some(b"module")).unwrap();
    let b = yang_make_atom(&mut t, Some(b"module")).unwrap();
    assert_eq!(a, b);
    assert_eq!(t.len(), 1);
    assert_eq!(t.name(a).as_slice(), b"module");
    assert!(yang_is_atom(&t, Some(a)));
}

#[test]
fn distinct_texts_give_distinct_atoms() {
    let mut t = AtomTable::new();
    let a = yang_make_atom(&mut t, Some(b"leaf")).unwrap();
    let b = yang_make_atom(&mut t, Some(b"list")).unwrap();
    assert_ne!(a, b);
    assert_eq!(t.len(), 2);
}

#[test]
fn missing_string_gives_no_atom() {
    let mut t = AtomTable::new();
    assert_eq!(yang_make_atom(&mut t, None), None);
    assert_eq!(yang_make_atom_len(&mut t, Some(b"abc"), -1), None);
    assert_eq!(t.len(), 0);
    assert!(!yang_is_atom(&t, None));
}

#[test]
fn make_atom_len_takes_a_prefix() {
    let mut t = AtomTable::new();
    let a = yang_make_atom_len(&mut t, Some(b"container"), 4).unwrap();
    assert_eq!(t.name(a).as_slice(), b"cont");
    let b = yang_make_atom(&mut t, Some(b"cont")).unwrap();
    assert_eq!(a, b);
}

#[test]
fn nul_bytes_are_dropped_and_the_old_atom_is_replaced() {
    let mut t = AtomTable::new();
    let a = yang_make_atom(&mut t, Some(b"ab")).unwrap();
    let b = yang_make_atom(&mut t, Some(b"a\0b")).unwrap();
    assert_ne!(a, b);
    assert_eq!(t.name(b).as_slice(), b"ab");
    assert!(!yang_is_atom(&t, Some(a)));
    assert!(yang_is_atom_len(&t, Some(b), 0));
    let c = yang_make_atom(&mut t, Some(b"ab")).unwrap();
    assert_eq!(c, b);
}

#[test]
fn current_atoms_are_listed_once() {
    let mut t = AtomTable::new();
    let a = yang_make_atom(&mut t, Some(b"x")).unwrap();
    let b = yang_make_atom(&mut t, Some(b"y")).unwrap();
    let _ = yang_make_atom(&mut t, Some(b"x")).unwrap();
    let cur = t.current_atoms();
    assert_eq!(cur, vec![a, b]);
}

#[test]
fn atom_out_of_table_is_not_an_atom() {
    let t = AtomTable::new();
    assert!(!yang_is_atom(&t, Some(7)));
}

#[test]
fn atoms_given_back_stay_atoms() {
    let mut t = AtomTable::new();
    let a = yang_make_atom(&mut t, Some(b"a")).unwrap();
    let b = yang_make_atom(&mut t, Some(b"b")).unwrap();
    let a2 = yang_make_atom(&mut t, Some(b"a")).unwrap();
    assert_eq!(a, a2);
    assert!(yang_is_atom(&t, Some(a)));
    assert!(yang_is_atom(&t, Some(b)));
    assert!(!yang_is_atom(&t, Some(b + 1)));
}
