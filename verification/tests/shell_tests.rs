use shell::shell::{LoopAction, ReadEvent, Shell};

#[test]
fn read_line_is_trimmed() {
    match Shell::on_read(ReadEvent::Line("  echo hi \t".to_string())) {
        LoopAction::Dispatch(l) => assert_eq!(l, "echo hi"),
        _ => panic!("expected a line to run"),
    }
}

#[test]
fn interrupt_and_eof_print() {
    match Shell::on_read(ReadEvent::Interrupted) {
        LoopAction::Print(p) => assert_eq!(p, "^C"),
        _ => panic!("expected a print"),
    }
    match Shell::on_read(ReadEvent::Eof) {
        LoopAction::Print(p) => assert_eq!(p, "exit"),
        _ => panic!("expected a print"),
    }
}

#[test]
fn read_error_stops() {
    match Shell::on_read(ReadEvent::Failed("Io(x)".to_string())) {
        LoopAction::Stop(m) => assert_eq!(m, "Error: Io(x)"),
        _ => panic!("expected a stop"),
    }
}

use shell::command_dispatcher::CommandDispatcher;
use shell::external_command::ExternalCommand;
use shell::path_resolver::PathResolver;

#[test]
fn law_session_ends_at_first_exit_example() {
    let b = Shell::build_builtins(PathResolver::new(vec!["/bin".to_string()]));
    let d = CommandDispatcher::new(b.names.clone(), ExternalCommand::new(PathResolver::new(vec!["/bin".to_string()])));
    let probe = |p: &String| if p == "/bin/ls" { Some(p.clone()) } else { None };
    let lines = ["echo hi", "", "'oops", "ls -l", "nosuch", "type exit", "exit 3", "echo never"];
    let mut ran = 0;
    for line in lines {
        ran += 1;
        let dispatch = d.dispatch(line, probe);
        if !Shell::keeps_running(&dispatch) {
            break;
        }
    }
    assert_eq!(ran, 7);
    assert!(!Shell::keeps_running(&d.dispatch("  exit  > f", probe)));
    assert!(Shell::keeps_running(&d.dispatch("'exit", probe)));
    assert!(Shell::keeps_running(&d.dispatch("exitt", probe)));
}
