use shell::lexer::{tokenize, Token};

#[test]
fn test_simple_word() {
    let tokens = tokenize("hello").unwrap();
    assert_eq!(tokens, vec![Token::Word("hello".to_string())]);
}

#[test]
fn test_multiple_words() {
    let tokens = tokenize("hello world").unwrap();
    assert_eq!(
        tokens,
        vec![
            Token::Word("hello".to_string()),
            Token::Word("world".to_string())
        ]
    );
}

#[test]
fn test_single_quoted() {
    let tokens = tokenize("'hello world'").unwrap();
    assert_eq!(tokens, vec![Token::SingleQuoted("hello world".to_string())]);
}

#[test]
fn test_double_quoted() {
    let tokens = tokenize("\"hello world\"").unwrap();
    assert_eq!(tokens, vec![Token::DoubleQuoted("hello world".to_string())]);
}

#[test]
fn test_pipe() {
    let tokens = tokenize("ls | cat").unwrap();
    assert_eq!(
        tokens,
        vec![
            Token::Word("ls".to_string()),
            Token::Pipe,
            Token::Word("cat".to_string())
        ]
    );
}

#[test]
fn lexer_test_and_or() {
    let tokens = tokenize("cmd1 && cmd2 || cmd3").unwrap();
    assert_eq!(
        tokens,
        vec![
            Token::Word("cmd1".to_string()),
            Token::And,
            Token::Word("cmd2".to_string()),
            Token::Or,
            Token::Word("cmd3".to_string())
        ]
    );
}

#[test]
fn lexer_test_redirect() {
    let tokens = tokenize("echo hello > file").unwrap();
    assert_eq!(
        tokens,
        vec![
            Token::Word("echo".to_string()),
            Token::Word("hello".to_string()),
            Token::RedirectOut,
            Token::Word("file".to_string())
        ]
    );
}

#[test]
fn lexer_test_env_var() {
    let tokens = tokenize("echo $HOME").unwrap();
    assert_eq!(
        tokens,
        vec![
            Token::Word("echo".to_string()),
            Token::Word("$HOME".to_string())
        ]
    );
}

#[test]
fn empty_and_blank_input_give_no_token() {
    assert_eq!(tokenize("").unwrap(), vec![]);
    assert_eq!(tokenize(" \t  ").unwrap(), vec![]);
}

#[test]
fn newlines_are_tokens() {
    assert_eq!(
        tokenize("a\n\nb").unwrap(),
        vec![
            Token::Word("a".to_string()),
            Token::Newline,
            Token::Newline,
            Token::Word("b".to_string())
        ]
    );
}

#[test]
fn longest_operators_first() {
    assert_eq!(
        tokenize("a>>b<c>d").unwrap(),
        vec![
            Token::Word("a".to_string()),
            Token::RedirectAppend,
            Token::Word("b".to_string()),
            Token::RedirectIn,
            Token::Word("c".to_string()),
            Token::RedirectOut,
            Token::Word("d".to_string())
        ]
    );
}

#[test]
fn substitution_start_breaks_a_word() {
    assert_eq!(
        tokenize("a$(ls)b").unwrap(),
        vec![
            Token::Word("a".to_string()),
            Token::SubstStart,
            Token::Word("ls".to_string()),
            Token::ParenClose,
            Token::Word("b".to_string())
        ]
    );
}

#[test]
fn double_quote_escapes() {
    let tokens = tokenize(r#""a\"b\\c\$d\ne\tf\qg""#).unwrap();
    assert_eq!(
        tokens,
        vec![Token::DoubleQuoted("a\"b\\c$d\ne\tf\\qg".to_string())]
    );
}

#[test]
fn single_quotes_keep_backslashes_and_dollars() {
    assert_eq!(
        tokenize(r"'a\n$HOME'").unwrap(),
        vec![Token::SingleQuoted(r"a\n$HOME".to_string())]
    );
    assert_eq!(tokenize("''").unwrap(), vec![Token::SingleQuoted(String::new())]);
}

#[test]
fn unterminated_double_quote_points_at_the_quote() {
    let e = tokenize("echo \"abc").unwrap_err();
    assert_eq!(e.message, "unterminated double-quoted string");
    assert_eq!(e.position, 5);
}

#[test]
fn unterminated_single_quote_is_an_error() {
    let e = tokenize("'abc").unwrap_err();
    assert_eq!(e.message, "unterminated single-quoted string");
    assert_eq!(e.position, 0);
}

#[test]
fn error_position_counts_bytes() {
    let e = tokenize("é 'x").unwrap_err();
    assert_eq!(e.position, 3);
}

#[test]
fn unexpected_characters_are_errors() {
    let e = tokenize("a ; b").unwrap_err();
    assert_eq!(e.message, "unexpected character");
    assert_eq!(e.position, 2);
    let e = tokenize("a & b").unwrap_err();
    assert_eq!(e.position, 2);
    let e = tokenize("(a)").unwrap_err();
    assert_eq!(e.position, 0);
}
