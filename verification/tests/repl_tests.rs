use rustxi::callgraph::GraphError;
use rustxi::repl::Command;
use rustxi::repl::ReplError;
use rustxi::repl::Visor;
use rustxi::repl::banner;
use rustxi::repl::classify_line;
use rustxi::repl::help;
use rustxi::repl::parse_snippet;
use rustxi::repl::prompt;
use rustxi::repl::render_affected;
use rustxi::repl::trim_str;
use rustxi::session::Verdict;

#[test]
fn meta_commands_are_matched_on_the_trimmed_line() {
    assert_eq!(classify_line(".q", false), Command::Quit);
    assert_eq!(classify_line("  .q \n", false), Command::Quit);
    assert_eq!(classify_line(".?", false), Command::Help);
    assert_eq!(classify_line(".h", false), Command::History);
    assert_eq!(classify_line(".c", false), Command::CorrectedHistory);
    assert_eq!(classify_line(".s", false), Command::SourceTodo);
    assert_eq!(classify_line("..", false), Command::ShellTodo);
}

#[test]
fn empty_line_continues_and_empty_line_at_eof_exits() {
    assert_eq!(classify_line("", false), Command::Empty);
    assert_eq!(classify_line("   \n", false), Command::Empty);
    assert_eq!(classify_line("", true), Command::Eof);
    assert_eq!(classify_line("  \t ", true), Command::Eof);
}

#[test]
fn anything_else_is_a_snippet() {
    assert_eq!(classify_line("x: y", false), Command::Snippet);
    assert_eq!(classify_line(".s somefile", false), Command::Snippet);
    assert_eq!(classify_line(".z", false), Command::Snippet);
    assert_eq!(classify_line("fn main() {}", true), Command::Snippet);
}

#[test]
fn trimming_strips_both_ends_only() {
    assert_eq!(trim_str("  a b \t\n"), "a b");
    assert_eq!(trim_str(""), "");
    assert_eq!(trim_str(" \t "), "");
    assert_eq!(trim_str("x"), "x");
}

#[test]
fn snippet_with_empty_dependency_list_parses_to_no_deps() {
    let (func, deps) = parse_snippet("f: ").unwrap();
    assert_eq!(func, "f");
    assert!(deps.is_empty());
    let (func, deps) = parse_snippet("f:   \t ").unwrap();
    assert_eq!(func, "f");
    assert!(deps.is_empty());
}

#[test]
fn snippet_dependencies_are_split_on_commas_and_trimmed() {
    let (func, deps) = parse_snippet("g: f").unwrap();
    assert_eq!(func, "g");
    assert_eq!(deps, vec!["f".to_string()]);
    let (func, deps) = parse_snippet("sum: a , b ,c").unwrap();
    assert_eq!(func, "sum");
    assert_eq!(deps, vec!["a".to_string(), "b".to_string(), "c".to_string()]);
}

#[test]
fn snippet_without_separator_does_not_parse() {
    assert!(parse_snippet("no separator here").is_none());
    assert!(parse_snippet("a:b").is_none());
    assert!(parse_snippet("").is_none());
}

#[test]
fn snippet_splits_at_the_first_separator() {
    let (func, deps) = parse_snippet("outer: inner: x").unwrap();
    assert_eq!(func, "outer");
    assert_eq!(deps, vec!["inner: x".to_string()]);
}

#[test]
fn committed_snippets_update_the_graph_through_the_visor() {
    let mut v = Visor::new();
    v.push_command("f: ".to_string());
    assert_eq!(v.record_reply("success"), Some(Verdict::Committed));
    assert_eq!(v.compile_and_run_code_snippet("f: "), Ok(vec![]));
    v.push_command("g: f".to_string());
    assert_eq!(v.record_reply("success"), Some(Verdict::Committed));
    assert_eq!(v.compile_and_run_code_snippet("g: f"), Ok(vec![]));
    v.push_command("f: ".to_string());
    assert_eq!(v.record_reply("success"), Some(Verdict::Committed));
    assert_eq!(v.compile_and_run_code_snippet("f: "), Ok(vec!["g".to_string()]));
}

#[test]
fn rejected_dependency_is_reported_and_graph_stays_empty() {
    let mut v = Visor::new();
    v.push_command("x: y".to_string());
    assert_eq!(v.record_reply("success"), Some(Verdict::Committed));
    let r = v.compile_and_run_code_snippet("x: y");
    assert_eq!(r, Err(ReplError::Graph(GraphError::DepNotInGraph)));
    assert_eq!(r.unwrap_err().message(), "Dependency not in graph");
    assert!(v.graph_fns().is_empty());
}

#[test]
fn snippet_without_separator_reports_a_parse_error() {
    let mut v = Visor::new();
    let r = v.compile_and_run_code_snippet("just an expression");
    assert_eq!(r, Err(ReplError::Parse));
    assert_eq!(r.unwrap_err().message(), "TRY code failure: parse error");
}

#[test]
fn a_failed_round_leaves_committed_state_usable() {
    let mut v = Visor::new();
    v.push_command("touch: ".to_string());
    assert_eq!(v.record_reply("success"), Some(Verdict::Committed));
    assert_eq!(v.compile_and_run_code_snippet("touch: "), Ok(vec![]));
    // a snippet whose execution dies: the verdict is failed and the graph
    // is not touched
    v.push_command("boom".to_string());
    assert_eq!(v.record_reply("failed"), Some(Verdict::Failed));
    // touch survived the rollback
    v.push_command("q: touch".to_string());
    assert_eq!(v.record_reply("success"), Some(Verdict::Committed));
    assert_eq!(v.compile_and_run_code_snippet("q: touch"), Ok(vec![]));
    assert!(v.graph_contains(&vec!["touch".to_string(), "q".to_string()]));
}

#[test]
fn unknown_replies_are_not_recorded() {
    let mut v = Visor::new();
    v.push_command("f: ".to_string());
    assert_eq!(v.record_reply("done"), None);
    assert_eq!(v.record_reply("success"), Some(Verdict::Committed));
}

#[test]
fn history_keeps_every_dispatched_snippet_in_order() {
    let mut v = Visor::new();
    v.push_command("f: ".to_string());
    v.record_reply("success");
    v.push_command("boom".to_string());
    v.record_reply("failed");
    assert_eq!(v.history_lines(), vec!["f: ".to_string(), "boom".to_string()]);
}

#[test]
fn corrected_history_comments_out_failed_snippets() {
    let mut v = Visor::new();
    v.push_command("f: ".to_string());
    v.record_reply("success");
    v.push_command("boom".to_string());
    v.record_reply("failed");
    v.push_command("g: f".to_string());
    v.record_reply("success");
    assert_eq!(
        v.corrected_history_lines(),
        vec!["f: ".to_string(), "//not: boom".to_string(), "g: f".to_string()]
    );
}

#[test]
fn the_user_facing_strings_are_fixed() {
    assert_eq!(
        banner(),
        "rustxi: a transactional jit-based repl; .? for help; .q or ctrl-d to exit."
    );
    assert_eq!(prompt(), "rustxi> ");
    assert!(help().contains(".q"));
    assert!(help().contains(".?"));
    assert!(help().contains(".s file"));
}

#[test]
fn affected_reports_put_a_space_after_each_name() {
    assert_eq!(render_affected(&vec![]), "");
    assert_eq!(render_affected(&vec!["g".to_string(), "h".to_string()]), "g h ");
}

#[test]
fn trimming_strips_unicode_whitespace() {
    assert_eq!(trim_str("\u{3000}\u{a0} f: x \u{2028}\u{205f}"), "f: x");
    assert_eq!(classify_line("\u{2003}.q\u{85}", false), Command::Quit);
    // the ": " separator itself is literal; only the pieces are trimmed
    let (func, deps) = parse_snippet("g: \u{a0}f\u{2009},\u{1680}h ").unwrap();
    assert_eq!(func, "g");
    assert_eq!(deps, vec!["f".to_string(), "h".to_string()]);
}
