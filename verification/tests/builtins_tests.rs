use shell::builtins::cd_cmd::{CdAction, CdCommand};
use shell::builtins::complete::{CompleteCommand, CompletionSpecs};
use shell::builtins::echo::EchoCommand;
use shell::builtins::exit::ExitCommand;
use shell::builtins::pwd::PwdCommand;
use shell::builtins::type_cmd::TypeCommand;
use shell::builtins::Command;
use shell::path_resolver::PathResolver;
use shell::shell::Shell;

fn args(v: &[&str]) -> Vec<String> {
    v.iter().map(|s| s.to_string()).collect()
}

fn probe(path: &String) -> Option<String> {
    if path == "/usr/bin/ls" { Some(path.clone()) } else { None }
}

#[test]
fn names_are_kept() {
    assert_eq!(ExitCommand::new("exit".to_string()).get_name_copy(), "exit");
    assert_eq!(EchoCommand::new("echo".to_string()).get_name_copy(), "echo");
    assert_eq!(PwdCommand::new("pwd".to_string()).get_name_copy(), "pwd");
    assert_eq!(CdCommand::new("cd".to_string()).get_name_copy(), "cd");
    assert_eq!(CompleteCommand::new("complete".to_string()).get_name_copy(), "complete");
}

#[test]
fn exit_stops_the_shell() {
    assert!(!ExitCommand::new("exit".to_string()).execute(&args(&["0"])));
    assert!(!ExitCommand::new("exit".to_string()).execute(&[]));
}

#[test]
fn echo_joins_and_trims() {
    let echo = EchoCommand::new("echo".to_string());
    assert_eq!(echo.execute(&args(&["hello", "world"])), "hello world");
    assert_eq!(echo.execute(&args(&["  a", "b  "])), "a b");
    assert_eq!(echo.execute(&[]), "");
}

#[test]
fn cd_home() {
    let cd = CdCommand::new("cd".to_string());
    assert!(matches!(cd.execute(&args(&["~"]), |_: &String| false), CdAction::ToHome));
}

#[test]
fn cd_to_directory() {
    let cd = CdCommand::new("cd".to_string());
    match cd.execute(&args(&["my", "dir"]), |p: &String| p == "my dir") {
        CdAction::ChangeTo(p) => assert_eq!(p, "my dir"),
        _ => panic!("expected a change"),
    }
}

#[test]
fn cd_missing_directory() {
    let cd = CdCommand::new("cd".to_string());
    match cd.execute(&args(&["/nowhere"]), |_: &String| false) {
        CdAction::Report(m) => assert_eq!(m, "cd: /nowhere: No such file or directory"),
        _ => panic!("expected a report"),
    }
}

#[test]
fn type_reports() {
    let b = Shell::build_builtins(PathResolver::new(vec!["/bin".to_string(), "/usr/bin".to_string()]));
    let t = &b.type_cmd;
    assert_eq!(t.execute(&[], probe), "type: missing argument");
    assert_eq!(t.execute(&args(&["echo"]), probe), "echo is a shell builtin");
    assert_eq!(t.execute(&args(&["type"]), probe), "type is a shell builtin");
    assert_eq!(t.execute(&args(&["ls"]), probe), "ls is /usr/bin/ls");
    assert_eq!(t.execute(&args(&["nosuch"]), probe), "nosuch: not found");
}

#[test]
fn build_builtins_names() {
    let b = Shell::build_builtins(PathResolver::new(vec![]));
    assert_eq!(b.names, vec!["exit", "echo", "pwd", "cd", "type"]);
    assert_eq!(b.type_cmd.get_name_copy(), "type");
}

#[test]
fn completion_specs_map() {
    let mut specs = CompletionSpecs::new();
    let k = "git".to_string();
    assert_eq!(specs.get(&k), None);
    specs.insert(k.clone(), "/a.sh".to_string());
    specs.insert("ls".to_string(), "/b.sh".to_string());
    assert_eq!(specs.get(&k), Some("/a.sh".to_string()));
    specs.insert(k.clone(), "/c.sh".to_string());
    assert_eq!(specs.get(&k), Some("/c.sh".to_string()));
    assert!(specs.contains_key(&"ls".to_string()));
    specs.remove(&k);
    assert_eq!(specs.get(&k), None);
    assert_eq!(specs.get(&"ls".to_string()), Some("/b.sh".to_string()));
}

#[test]
fn complete_register_print_remove() {
    let c = CompleteCommand::new("complete".to_string());
    let mut specs = CompletionSpecs::new();
    let out = c.execute(&args(&["-C", "/usr/local/bin/comp", "git"]), &mut specs);
    assert!(out.stdout.is_none() && out.stderr.is_none());
    let out = c.execute(&args(&["-p", "git"]), &mut specs);
    assert_eq!(out.stdout, Some("complete -C '/usr/local/bin/comp' git".to_string()));
    assert!(out.stderr.is_none());
    let out = c.execute(&args(&["-r", "git"]), &mut specs);
    assert!(out.stdout.is_none() && out.stderr.is_none());
    let out = c.execute(&args(&["-p", "git"]), &mut specs);
    assert_eq!(out.stderr, Some("complete: git: no completion specification".to_string()));
    assert!(out.stdout.is_none());
}

#[test]
fn complete_missing_arguments() {
    let c = CompleteCommand::new("complete".to_string());
    let mut specs = CompletionSpecs::new();
    assert_eq!(c.execute(&args(&["-p"]), &mut specs).stderr, Some("complete: -p: missing argument".to_string()));
    assert_eq!(c.execute(&args(&["-C"]), &mut specs).stderr, Some("complete: -C: missing argument".to_string()));
    assert_eq!(c.execute(&args(&["-r"]), &mut specs).stderr, Some("complete: -r: missing argument".to_string()));
    let out = c.execute(&args(&["-x", "y"]), &mut specs);
    assert!(out.stdout.is_none() && out.stderr.is_none());
    let out = c.execute(&[], &mut specs);
    assert!(out.stdout.is_none() && out.stderr.is_none());
}

#[test]
fn law_registered_script_is_shown_example() {
    let c = CompleteCommand::new("complete".to_string());
    let mut specs = CompletionSpecs::new();
    c.execute(&args(&["-C", "s1", "x"]), &mut specs);
    c.execute(&args(&["-C", "s2", "x"]), &mut specs);
    assert_eq!(c.execute(&args(&["-p", "x"]), &mut specs).stdout, Some("complete -C 's2' x".to_string()));
}

#[test]
fn law_builtin_message_only_for_builtins_example() {
    let b = Shell::build_builtins(PathResolver::new(vec!["/opt".to_string()]));
    let odd = |p: &String| if p == "/opt/odd" { Some("a shell builtin".to_string()) } else { None };
    // the one way a non-builtin reads as a builtin: its path says so
    assert_eq!(b.type_cmd.execute(&args(&["odd"]), odd), "odd is a shell builtin");
    assert_eq!(b.type_cmd.execute(&args(&["other"]), odd), "other: not found");
}
