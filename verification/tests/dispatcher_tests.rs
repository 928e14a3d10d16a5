use shell::command_dispatcher::{CommandDispatcher, Dispatch};
use shell::external_command::ExternalCommand;
use shell::path_resolver::PathResolver;
use shell::token::{Token, TokenKind};
use shell::tokenizer::Tokenizer;

fn dispatcher() -> CommandDispatcher {
    let resolver = PathResolver::new(vec!["/bin".to_string(), "/usr/bin/".to_string()]);
    let names = vec!["exit", "echo", "pwd", "cd", "type"].into_iter().map(String::from).collect();
    CommandDispatcher::new(names, ExternalCommand::new(resolver))
}

fn probe(path: &String) -> Option<String> {
    if path == "/usr/bin/ls" || path == "/usr/bin/cat" {
        Some(path.clone())
    } else {
        None
    }
}

#[test]
fn extract_words_skips_operators_and_targets() {
    let tokens = Tokenizer::tokenize("echo a > out b 2>> err c").unwrap();
    let words = CommandDispatcher::extract_words(&tokens);
    assert_eq!(words, vec!["echo", "a", "b", "c"]);
}

#[test]
fn extract_words_skips_the_token_after_a_pipe() {
    let tokens = Tokenizer::tokenize("a | b c").unwrap();
    assert_eq!(CommandDispatcher::extract_words(&tokens), vec!["a", "c"]);
}

#[test]
fn extract_words_trailing_operator() {
    let tokens = Tokenizer::tokenize("a >").unwrap();
    assert_eq!(CommandDispatcher::extract_words(&tokens), vec!["a"]);
}

#[test]
fn parse_redirects_reads_each_stream() {
    let tokens = Tokenizer::tokenize("cmd > out 2>> err").unwrap();
    let r = CommandDispatcher::parse_redirects(&tokens);
    assert_eq!(r.stdout_file, Some("out".to_string()));
    assert!(!r.stdout_append);
    assert_eq!(r.stderr_file, Some("err".to_string()));
    assert!(r.stderr_append);
}

#[test]
fn parse_redirects_none() {
    let tokens = Tokenizer::tokenize("cmd a b").unwrap();
    let r = CommandDispatcher::parse_redirects(&tokens);
    assert_eq!(r.stdout_file, None);
    assert_eq!(r.stderr_file, None);
    assert!(!r.stdout_append && !r.stderr_append);
}

#[test]
fn law_last_redirect_wins_example() {
    let tokens = Tokenizer::tokenize("cmd > a >> b 2> c 1> d").unwrap();
    let r = CommandDispatcher::parse_redirects(&tokens);
    assert_eq!(r.stdout_file, Some("d".to_string()));
    assert!(!r.stdout_append);
    assert_eq!(r.stderr_file, Some("c".to_string()));
    assert!(!r.stderr_append);
}

#[test]
fn redirect_target_pairs_with_a_preceding_word() {
    // a word directly followed by a word takes it as its (ignored) target
    let tokens = vec![
        Token::new(TokenKind::Word, "a".to_string()),
        Token::new(TokenKind::RedirectOut, String::new()),
        Token::new(TokenKind::RedirectOut, String::new()),
        Token::new(TokenKind::Word, "f".to_string()),
    ];
    let r = CommandDispatcher::parse_redirects(&tokens);
    assert_eq!(r.stdout_file, Some("f".to_string()));
}

#[test]
fn law_redirect_target_not_a_word_example() {
    let tokens = Tokenizer::tokenize("echo hi > out.txt").unwrap();
    assert_eq!(CommandDispatcher::extract_words(&tokens), vec!["echo", "hi"]);
}

#[test]
fn dispatch_blank_line_does_nothing() {
    assert!(matches!(dispatcher().dispatch("", probe), Dispatch::Nothing));
    assert!(matches!(dispatcher().dispatch("   ", probe), Dispatch::Nothing));
    assert!(matches!(dispatcher().dispatch("> out", probe), Dispatch::Nothing));
}

#[test]
fn dispatch_syntax_error_is_reported() {
    match dispatcher().dispatch("echo 'x", probe) {
        Dispatch::Report(m) => assert_eq!(m, "syntax error: unterminated single quote"),
        _ => panic!("expected a report"),
    }
}

#[test]
fn dispatch_builtin() {
    match dispatcher().dispatch("echo hello   world > out.txt", probe) {
        Dispatch::Builtin { name, args, redirect } => {
            assert_eq!(name, "echo");
            assert_eq!(args, vec!["hello", "world"]);
            assert_eq!(redirect.stdout_file, Some("out.txt".to_string()));
        }
        _ => panic!("expected a builtin"),
    }
}

#[test]
fn dispatch_exit() {
    match dispatcher().dispatch("exit", probe) {
        Dispatch::Builtin { name, args, .. } => {
            assert_eq!(name, "exit");
            assert!(args.is_empty());
        }
        _ => panic!("expected a builtin"),
    }
}

#[test]
fn dispatch_external() {
    match dispatcher().dispatch("ls -l 2> errs", probe) {
        Dispatch::External { command, args, redirect } => {
            assert_eq!(command, "ls");
            assert_eq!(args, vec!["-l"]);
            assert_eq!(redirect.stderr_file, Some("errs".to_string()));
            assert_eq!(redirect.stdout_file, None);
        }
        _ => panic!("expected an external command"),
    }
}

#[test]
fn dispatch_unknown_command() {
    match dispatcher().dispatch("nosuch a b", probe) {
        Dispatch::Report(m) => assert_eq!(m, "nosuch: command not found"),
        _ => panic!("expected a report"),
    }
}

#[test]
fn resolve_takes_the_first_directory_that_has_the_program() {
    let resolver = PathResolver::new(vec!["/a".to_string(), "/b".to_string(), "/c".to_string()]);
    let found = resolver.resolve(&"tool".to_string(), |p: &String| {
        if p != "/a/tool" { Some(p.clone()) } else { None }
    });
    assert_eq!(found, Some("/b/tool".to_string()));
    let none = resolver.resolve(&"tool".to_string(), |_: &String| None);
    assert_eq!(none, None);
}

#[test]
fn can_run_checks_the_search_path() {
    let external = ExternalCommand::new(PathResolver::new(vec!["/usr/bin".to_string()]));
    assert!(external.can_run(&"cat".to_string(), probe));
    assert!(!external.can_run(&"dog".to_string(), probe));
}
