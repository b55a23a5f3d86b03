use yang_atom::errors::{has_error, yang_add_err_msg_rs, yang_alloc_err_ctx, yang_free_err_ctx};

#[test]
fn errors_are_kept_in_order() {
    let mut e = yang_alloc_err_ctx(8192);
    let f = Some(b"a.yang".to_vec());
    yang_add_err_msg_rs(&mut e, 1001, &f, 3, 4, Some(b"first"));
    yang_add_err_msg_rs(&mut e, 200, &None, 5, -1, Some(b"second"));
    assert_eq!(e.err.len(), 2);
    assert_eq!(e.err[0].code, 1001);
    assert_eq!(e.err[0].msg, b"first".to_vec());
    assert_eq!(e.err[0].filename, f);
    assert_eq!(e.err[0].line, 3);
    assert_eq!(e.err[0].col, 4);
    assert_eq!(e.err[1].msg, b"second".to_vec());
    yang_free_err_ctx(e);
}

#[test]
fn long_messages_are_cut() {
    let mut e = yang_alloc_err_ctx(4);
    yang_add_err_msg_rs(&mut e, 1, &None, 0, 0, Some(b"abcdef"));
    assert_eq!(e.err[0].msg, b"abc".to_vec());
    yang_add_err_msg_rs(&mut e, 1, &None, 0, 0, None);
    assert_eq!(e.err[1].msg, Vec::<u8>::new());
}

#[test]
fn warnings_are_not_errors() {
    let mut e = yang_alloc_err_ctx(100);
    assert!(!has_error(&e));
    yang_add_err_msg_rs(&mut e, 1000, &None, 0, 0, Some(b"w"));
    assert!(!has_error(&e));
    yang_add_err_msg_rs(&mut e, 999, &None, 0, 0, Some(b"e"));
    assert!(has_error(&e));
}
