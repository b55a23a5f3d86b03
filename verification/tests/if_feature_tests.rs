use yang_atom::if_feature::{
    get_tok, get_tok_impl, is_delim, is_identifier1, is_identifier2, is_wspace, parse_x, parse_y, push_tok,
    yang_parse_if_feature_expr, Lexer, Tok,
};

#[test]
fn character_classes() {
    assert!(is_identifier1(b'a'));
    assert!(is_identifier1(b'_'));
    assert!(!is_identifier1(b'1'));
    assert!(is_identifier2(b'1'));
    assert!(is_identifier2(b'-'));
    assert!(is_identifier2(b'.'));
    assert!(!is_identifier2(b':'));
    assert!(is_wspace(b'\r'));
    assert!(!is_wspace(b'x'));
    assert!(is_delim(None));
    assert!(is_delim(Some(b'(')));
    assert!(!is_delim(Some(b'a')));
}

#[test]
fn tokens() {
    let text = b" not (a:b or c) and d";
    let mut lex = Lexer::new(text);
    let toks: Vec<Tok> = (0..9).map(|_| get_tok_impl(&mut lex)).collect();
    assert_eq!(
        toks,
        vec![Tok::Not, Tok::LParen, Tok::Identifier, Tok::Or, Tok::Identifier, Tok::RParen, Tok::And, Tok::Identifier, Tok::Eof]
    );
}

#[test]
fn keywords_need_a_delimiter() {
    let mut lex = Lexer::new(b"android");
    assert_eq!(get_tok_impl(&mut lex), Tok::Identifier);
    assert_eq!(get_tok_impl(&mut lex), Tok::Eof);
}

#[test]
fn bad_prefix_is_a_syntax_error() {
    let mut lex = Lexer::new(b"a:");
    assert_eq!(get_tok_impl(&mut lex), Tok::SyntaxError);
    let mut lex = Lexer::new(b"a:1");
    assert_eq!(get_tok_impl(&mut lex), Tok::SyntaxError);
    let mut lex = Lexer::new(b"$");
    assert_eq!(get_tok_impl(&mut lex), Tok::SyntaxError);
}

#[test]
fn pushed_token_comes_back() {
    let mut lex = Lexer::new(b"a");
    push_tok(&mut lex, Tok::RParen);
    assert_eq!(get_tok(&mut lex), Tok::RParen);
    assert_eq!(get_tok(&mut lex), Tok::Identifier);
}

#[test]
fn expressions() {
    assert!(yang_parse_if_feature_expr(b"a"));
    assert!(yang_parse_if_feature_expr(b"a or b and c"));
    assert!(yang_parse_if_feature_expr(b"not a"));
    assert!(yang_parse_if_feature_expr(b"(a or b) and not c"));
    assert!(yang_parse_if_feature_expr(b"p:a and q:b"));
    assert!(!yang_parse_if_feature_expr(b""));
    assert!(!yang_parse_if_feature_expr(b"a and"));
    assert!(!yang_parse_if_feature_expr(b"(a"));
    assert!(!yang_parse_if_feature_expr(b"a b"));
    assert!(!yang_parse_if_feature_expr(b"a)"));
}

#[test]
fn keywords_alone_are_identifiers() {
    assert!(yang_parse_if_feature_expr(b"not"));
    assert!(yang_parse_if_feature_expr(b"and"));
    assert!(yang_parse_if_feature_expr(b"or"));
    assert!(yang_parse_if_feature_expr(b"x-1.y_2"));
}

#[test]
fn primary_and_expression_steps() {
    let mut lex = Lexer::new(b"(a) rest");
    assert!(parse_y(&mut lex));
    let mut lex = Lexer::new(b"a or b");
    assert!(parse_x(&mut lex));
    assert_eq!(get_tok(&mut lex), Tok::Eof);
}
