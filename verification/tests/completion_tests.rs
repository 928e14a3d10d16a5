use shell::auto_completion::{script_output_lines, text_lines, Completion, DirListing, ListingPlan, ScriptRequest};
use shell::builtins::complete::CompletionSpecs;
use shell::string_set::StringSet;

fn strings(v: &[&str]) -> Vec<String> {
    v.iter().map(|s| s.to_string()).collect()
}

fn set(v: &[&str]) -> StringSet {
    let mut s = StringSet::new();
    for x in v {
        s.insert(x.to_string());
    }
    s
}

fn completer() -> Completion {
    Completion::new(strings(&["echo", "exit", "type"]), strings(&["ls", "less", "exit"]))
}

fn no_script(_: &ScriptRequest) -> Vec<u8> {
    vec![]
}

fn no_dir(_: &ListingPlan) -> DirListing {
    DirListing::Missing
}

#[test]
fn string_set_sorts_and_dedups() {
    let s = set(&["b", "a", "c", "a", "ab", ""]);
    assert_eq!(s.items(), &strings(&["", "a", "ab", "b", "c"]));
    assert_eq!(s.len(), 5);
}

#[test]
fn string_set_orders_by_code_point() {
    let s = set(&["é", "z", "Z"]);
    assert_eq!(s.items(), &strings(&["Z", "z", "é"]));
}

#[test]
fn command_matches_filter_and_sort() {
    let c = completer();
    assert_eq!(c.command_matches("e").items(), &strings(&["echo ", "exit "]));
    assert_eq!(c.command_matches("l").items(), &strings(&["less ", "ls "]));
    assert_eq!(c.command_matches("exi").items(), &strings(&["exit "]));
    assert_eq!(c.command_matches("zz").len(), 0);
}

#[test]
fn longest_common_prefix_quirk() {
    // the result carries the first match one character past the shared part
    let c = completer();
    assert_eq!(c.longest_common_prefix(&set(&["echo ", "exit "])), "ec");
    assert_eq!(c.longest_common_prefix(&set(&["xyz_foo ", "xyz_foo_bar "])), "xyz_foo ");
    assert_eq!(c.longest_common_prefix(&set(&["abc ", "abd "])), "abc");
    assert_eq!(c.longest_common_prefix(&set(&["only "])), "only ");
    assert_eq!(c.longest_common_prefix(&set(&[])), "");
}

#[test]
fn law_lcp_prefix_of_first_example() {
    let c = completer();
    let s = set(&["dir/a ", "dir/b/", "dir/c "]);
    let l = c.longest_common_prefix(&s);
    assert!(s.items()[0].starts_with(&l));
    assert!(!l.is_empty());
}

#[test]
fn law_no_match_rings_example() {
    let mut c = completer();
    let r = c.apply_completion_logic(&set(&[]), 3, "zz");
    assert_eq!(r.start, 3);
    assert!(r.candidates.is_empty());
    assert_eq!(r.bells, 1);
    assert!(r.listing.is_none());
}

#[test]
fn law_single_match_completes_example() {
    let mut c = completer();
    let r = c.apply_completion_logic(&set(&["exit "]), 0, "exi");
    assert_eq!(r.candidates.len(), 1);
    assert_eq!(r.candidates[0].display, "exit ");
    assert_eq!(r.candidates[0].replacement, "exit ");
    assert_eq!(r.bells, 0);
}

#[test]
fn several_matches_narrow_to_prefix() {
    let mut c = completer();
    let r = c.apply_completion_logic(&set(&["xyz_foo ", "xyz_foo_bar "]), 0, "xy");
    assert_eq!(r.candidates.len(), 1);
    assert_eq!(r.candidates[0].display, "xyz_foo");
    assert_eq!(r.candidates[0].replacement, "xyz_foo ");
}

#[test]
fn law_second_tab_lists_matches_example() {
    let mut c = completer();
    let ms = set(&["abc ", "abd "]);
    let r1 = c.apply_completion_logic(&ms, 0, "abc");
    assert_eq!(r1.bells, 1);
    assert!(r1.candidates.is_empty());
    assert!(r1.listing.is_none());
    let r2 = c.apply_completion_logic(&ms, 0, "abc");
    assert_eq!(r2.bells, 0);
    assert_eq!(r2.listing, Some("abc   abd ".to_string()));
    assert_eq!(r2.candidates.len(), 1);
    assert_eq!(r2.candidates[0].display, "abc");
    assert_eq!(r2.candidates[0].replacement, "abc");
    // afresh: the next request rings again
    let r3 = c.apply_completion_logic(&ms, 0, "abc");
    assert_eq!(r3.bells, 1);
}

#[test]
fn changing_the_word_starts_over() {
    let mut c = completer();
    let ms = set(&["abc ", "abd "]);
    let r1 = c.apply_completion_logic(&ms, 0, "abc");
    assert_eq!(r1.bells, 1);
    let r2 = c.apply_completion_logic(&ms, 0, "abc/");
    assert_eq!(r2.bells, 1);
    assert!(r2.listing.is_none());
}

#[test]
fn script_matches_trim_and_skip_blank() {
    let s = Completion::script_matches(&strings(&["  b  ", "", "a", "   ", "b"]));
    assert_eq!(s.items(), &strings(&["a ", "b "]));
}

#[test]
fn file_matches_filter_and_suffix() {
    let entries = vec![("src".to_string(), true), ("setup.py".to_string(), false), ("README".to_string(), false)];
    let s = Completion::file_matches("dir/", &Some("s".to_string()), &entries);
    assert_eq!(s.items(), &strings(&["dir/setup.py ", "dir/src/"]));
    let all = Completion::file_matches("", &None, &entries);
    assert_eq!(all.items(), &strings(&["README ", "setup.py ", "src/"]));
}

#[test]
fn analyze_finds_the_word() {
    assert!(Completion::analyze("   ", 2).is_none());
    let c = Completion::analyze("git com", 7).unwrap();
    assert_eq!(c.start, 4);
    assert_eq!(c.current_word, "com");
    assert!(!c.is_command);
    assert_eq!(c.command_name, "git");
    assert_eq!(c.previous_word, "git");
    let c = Completion::analyze("  ec", 4).unwrap();
    assert_eq!(c.start, 2);
    assert_eq!(c.current_word, "ec");
    assert!(c.is_command);
    assert_eq!(c.command_name, "ec");
    assert_eq!(c.previous_word, "");
    let c = Completion::analyze("cp a b ", 7).unwrap();
    assert_eq!(c.start, 7);
    assert_eq!(c.current_word, "");
    assert_eq!(c.command_name, "cp");
    assert_eq!(c.previous_word, "b");
}

#[test]
fn listing_plans() {
    let p = ListingPlan::for_text("src/ma");
    assert_eq!(p.dir, Some("src".to_string()));
    assert_eq!(p.prefix, "src/");
    assert_eq!(p.file_part, Some("ma".to_string()));
    let p = ListingPlan::for_text("src/");
    assert_eq!(p.dir, Some("src/".to_string()));
    assert_eq!(p.prefix, "src/");
    assert_eq!(p.file_part, None);
    let p = ListingPlan::for_text("ma");
    assert_eq!(p.dir, None);
    assert_eq!(p.prefix, "");
    assert_eq!(p.file_part, Some("ma".to_string()));
    let p = ListingPlan::for_text("/etc");
    assert_eq!(p.dir, Some("/".to_string()));
    assert_eq!(p.prefix, "/");
    assert_eq!(p.file_part, Some("etc".to_string()));
}

#[test]
fn listing_plan_from_parts() {
    let p = ListingPlan::from_parts("a/b", Some("a".to_string()), Some("b".to_string()));
    assert_eq!(p.dir, Some("a".to_string()));
    assert_eq!(p.prefix, "a/");
    let p = ListingPlan::from_parts("b", Some(String::new()), Some("b".to_string()));
    assert_eq!(p.dir, None);
    assert_eq!(p.prefix, "");
}

#[test]
fn complete_commands() {
    let mut c = completer();
    let specs = CompletionSpecs::new();
    let r = c.complete("ty", 2, &specs, no_script, no_dir);
    assert_eq!(r.start, 0);
    assert_eq!(r.candidates.len(), 1);
    assert_eq!(r.candidates[0].replacement, "type ");
    let r = c.complete("   ", 1, &specs, no_script, no_dir);
    assert!(r.candidates.is_empty());
    assert_eq!(r.bells, 0);
}

#[test]
fn complete_files_missing_directory_rings_twice() {
    let mut c = completer();
    let specs = CompletionSpecs::new();
    let r = c.complete("cat nodir/x", 11, &specs, no_script, no_dir);
    assert!(r.candidates.is_empty());
    assert_eq!(r.bells, 2);
    assert_eq!(r.start, 4);
}

#[test]
fn complete_files() {
    let mut c = completer();
    let specs = CompletionSpecs::new();
    let list = |p: &ListingPlan| {
        assert_eq!(p.dir, Some("src".to_string()));
        DirListing::Entries(vec![("main.rs".to_string(), false), ("lib.rs".to_string(), false)])
    };
    let r = c.complete("cat src/ma", 10, &specs, no_script, list);
    assert_eq!(r.candidates.len(), 1);
    assert_eq!(r.candidates[0].replacement, "src/main.rs ");
}

#[test]
fn complete_with_script() {
    let mut c = completer();
    let mut specs = CompletionSpecs::new();
    specs.insert("git".to_string(), "/comp.sh".to_string());
    let script = |q: &ScriptRequest| {
        assert_eq!(q.script, "/comp.sh");
        assert_eq!(q.command, "git");
        assert_eq!(q.word, "co");
        assert_eq!(q.previous, "git");
        assert_eq!(q.line, "git co");
        assert_eq!(q.pos, 6);
        b"commit\r\n \n".to_vec()
    };
    let r = c.complete("git co", 6, &specs, script, no_dir);
    assert_eq!(r.start, 4);
    assert_eq!(r.candidates.len(), 1);
    assert_eq!(r.candidates[0].replacement, "commit ");
}

#[test]
fn complete_script_without_output_falls_back() {
    let mut c = completer();
    let mut specs = CompletionSpecs::new();
    specs.insert("ex".to_string(), "/comp.sh".to_string());
    let r = c.complete("ex", 2, &specs, no_script, no_dir);
    assert_eq!(r.candidates.len(), 1);
    assert_eq!(r.candidates[0].display, "exit ");
}

#[test]
fn lines_split_like_str_lines() {
    let cases = ["", "a", "a\n", "a\r\nb", "\n", "a\n\nb\r", "x\ry\n"];
    for c in cases {
        let chars: Vec<char> = c.chars().collect();
        let expected: Vec<String> = c.lines().map(String::from).collect();
        assert_eq!(text_lines(&chars), expected);
    }
}

#[test]
fn script_output_is_decoded_and_split() {
    let out = script_output_lines(b"one\ntw\xffo\r\n");
    assert_eq!(out, vec!["one".to_string(), "tw\u{fffd}o".to_string()]);
}
