use shell::token::{Token, TokenKind};
use shell::tokenizer::Tokenizer;

fn word(s: &str) -> Token {
    Token::new(TokenKind::Word, s.to_string())
}

fn op(kind: TokenKind) -> Token {
    Token::new(kind, String::new())
}

#[test]
fn plain_words_split_on_spaces() {
    let t = Tokenizer::tokenize("echo hello world").unwrap();
    assert_eq!(t, vec![word("echo"), word("hello"), word("world")]);
}

#[test]
fn repeated_spaces_make_no_empty_words() {
    let t = Tokenizer::tokenize("  echo   a  ").unwrap();
    assert_eq!(t, vec![word("echo"), word("a")]);
}

#[test]
fn empty_input_has_no_tokens() {
    assert_eq!(Tokenizer::tokenize("").unwrap(), vec![]);
    assert_eq!(Tokenizer::tokenize("   ").unwrap(), vec![]);
}

#[test]
fn single_quotes_are_literal() {
    let t = Tokenizer::tokenize("echo 'a  \\n \"b\"'").unwrap();
    assert_eq!(t, vec![word("echo"), word("a  \\n \"b\"")]);
}

#[test]
fn empty_quotes_give_no_word() {
    assert_eq!(Tokenizer::tokenize("''").unwrap(), vec![]);
    assert_eq!(Tokenizer::tokenize("\"\"").unwrap(), vec![]);
}

#[test]
fn quotes_join_the_current_word() {
    let t = Tokenizer::tokenize("ab'c d'\"e\"f").unwrap();
    assert_eq!(t, vec![word("abc def")]);
}

#[test]
fn double_quote_escapes() {
    let t = Tokenizer::tokenize("\"a\\\"b\\\\c\\nd\"").unwrap();
    assert_eq!(t, vec![word("a\"b\\c\\nd")]);
}

#[test]
fn unquoted_backslash_escapes_any_character() {
    let t = Tokenizer::tokenize("a\\ b \\'x\\>").unwrap();
    assert_eq!(t, vec![word("a b"), word("'x>")]);
}

#[test]
fn redirect_operators() {
    let t = Tokenizer::tokenize("a > f >> g 1> h 1>> i 2> j 2>> k").unwrap();
    assert_eq!(
        t,
        vec![
            word("a"),
            op(TokenKind::RedirectOut),
            word("f"),
            op(TokenKind::RedirectAppend),
            word("g"),
            op(TokenKind::RedirectOut),
            word("h"),
            op(TokenKind::RedirectAppend),
            word("i"),
            op(TokenKind::RedirectErr),
            word("j"),
            op(TokenKind::RedirectErrAppend),
            word("k"),
        ]
    );
}

#[test]
fn redirect_without_spaces() {
    let t = Tokenizer::tokenize("ls>out 2>>err").unwrap();
    assert_eq!(
        t,
        vec![word("ls"), op(TokenKind::RedirectOut), word("out"), op(TokenKind::RedirectErrAppend), word("err")]
    );
}

#[test]
fn digit_before_redirect_ends_the_word() {
    let t = Tokenizer::tokenize("ab2>f").unwrap();
    assert_eq!(t, vec![word("ab"), op(TokenKind::RedirectErr), word("f")]);
    let t = Tokenizer::tokenize("a 12 3").unwrap();
    assert_eq!(t, vec![word("a"), word("12"), word("3")]);
}

#[test]
fn pipe_is_a_token() {
    let t = Tokenizer::tokenize("cat f|wc -l").unwrap();
    assert_eq!(t, vec![word("cat"), word("f"), op(TokenKind::Pipe), word("wc"), word("-l")]);
}

#[test]
fn unterminated_single_quote_is_an_error() {
    assert_eq!(
        Tokenizer::tokenize("echo 'abc"),
        Err("syntax error: unterminated single quote".to_string())
    );
}

#[test]
fn unterminated_double_quote_is_an_error() {
    assert_eq!(
        Tokenizer::tokenize("echo \"abc\\\""),
        Err("syntax error: unterminated double quote".to_string())
    );
}

#[test]
fn trailing_backslash_is_an_error() {
    assert_eq!(
        Tokenizer::tokenize("echo abc\\"),
        Err("syntax error: backslash at end of input".to_string())
    );
}

#[test]
fn law_tokens_well_shaped_on_examples() {
    for input in ["a >b|c 2>> d 'x y' \"\" \\z", "1>2>x", "|||", "> >> 2>"] {
        for t in Tokenizer::tokenize(input).unwrap() {
            assert_eq!(t.kind == TokenKind::Word, !t.value.is_empty());
        }
    }
}

#[test]
fn law_plain_words_round_trip_example() {
    let words = ["ls", "-la", "src/main.rs", "x=1", "a1", "2"];
    let t = Tokenizer::tokenize(&words.join(" ")).unwrap();
    assert_eq!(t, words.iter().map(|w| word(w)).collect::<Vec<_>>());
}

#[test]
fn law_single_quotes_literal_example() {
    let t = Tokenizer::tokenize("'a > b | \\c \"d\"'").unwrap();
    assert_eq!(t, vec![word("a > b | \\c \"d\"")]);
}

#[test]
fn law_double_quotes_literal_example() {
    let t = Tokenizer::tokenize("\"a > b | 'c'\"").unwrap();
    assert_eq!(t, vec![word("a > b | 'c'")]);
}

#[test]
fn law_backslash_escapes_any_example() {
    for c in [' ', '\'', '"', '\\', '|', '>', 'a', 'é'] {
        let t = Tokenizer::tokenize(&format!("\\{}", c)).unwrap();
        assert_eq!(t, vec![word(&c.to_string())]);
    }
}

#[test]
fn law_unterminated_single_quote_example() {
    assert!(Tokenizer::tokenize("'a \"b\" \\").is_err());
}

#[test]
fn non_ascii_text() {
    let t = Tokenizer::tokenize("écho 'naïve' ünïcode").unwrap();
    assert_eq!(t, vec![word("écho"), word("naïve"), word("ünïcode")]);
}

#[test]
fn law_space_joins_token_lists_example() {
    let a = "echo 'a b'\\ c";
    let b = "2>>err|x";
    let mut joined = Tokenizer::tokenize(a).unwrap();
    joined.extend(Tokenizer::tokenize(b).unwrap());
    assert_eq!(Tokenizer::tokenize(&format!("{} {}", a, b)).unwrap(), joined);
    assert_eq!(Tokenizer::tokenize(&format!(" {}", b)), Tokenizer::tokenize(b));
    assert_eq!(Tokenizer::tokenize(&format!("{} ", a)), Tokenizer::tokenize(a));
}
