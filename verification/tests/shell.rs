use std::io::BufRead;
use codecrafters_shell::{
    Builtin, CommandCompleterHelper, ErrTarget, History, HistoryFileRequest, Io, OutTarget,
    ParsedCommand, Redirect, RedirectMode, Token, add_history, append_history_to_file,
    build_builtins, cd_cmd, cd_failure, complete_cmd, completions, echo_cmd, find_builtin,
    get_var, history_cmd, history_failure, is_executable, is_valid_identifier, job_command_line,
    job_started_line, jobs_table, load_history_from_file, next_job_id, not_found_line,
    parse_command, parse_line, parse_usize, path_candidates, path_join, plan_pipeline, print_history,
    print_history_to_file, set_var, split_path_list, split_pipeline, tokenize, type_cmd,
    type_report, variables,
};

fn word(s: &str) -> Token {
    Token::Word(s.to_string())
}

fn toks(line: &str) -> Vec<Token> {
    tokenize(line, &variables())
}

fn command(program: &str, args: &[&str]) -> ParsedCommand {
    ParsedCommand {
        program: program.to_string(),
        args: args.iter().map(|a| a.to_string()).collect(),
        stdout_redirect: None,
        stderr_redirect: None,
        background: false,
    }
}

#[test]
fn tokenize_splits_on_blanks() {
    assert_eq!(toks("echo  hello\tworld"), vec![word("echo"), word("hello"), word("world")]);
    assert_eq!(toks(""), vec![]);
    assert_eq!(toks("   "), vec![]);
}

#[test]
fn tokenize_single_quotes_are_literal() {
    assert_eq!(toks("echo 'a  b $X \\n'"), vec![word("echo"), word("a  b $X \\n")]);
    assert_eq!(toks("''"), vec![word("")]);
    assert_eq!(toks("ab'cd'ef"), vec![word("abcdef")]);
}

#[test]
fn tokenize_double_quotes_and_escapes() {
    assert_eq!(toks("\"a 'b' c\""), vec![word("a 'b' c")]);
    assert_eq!(toks("\"x\\\"y\\\\z\\q\""), vec![word("x\"y\\z\\q")]);
    assert_eq!(toks("a\\ b \\'c"), vec![word("a b"), word("'c")]);
    assert_eq!(toks("end\\"), vec![word("end")]);
}

#[test]
fn tokenize_operators() {
    assert_eq!(
        toks("ls > out"),
        vec![word("ls"), Token::Redirect(1, RedirectMode::Truncate), word("out")]
    );
    assert_eq!(
        toks("ls 1>>out 2>err"),
        vec![
            word("ls"),
            Token::Redirect(1, RedirectMode::Append),
            word("out"),
            Token::Redirect(2, RedirectMode::Truncate),
            word("err")
        ]
    );
    assert_eq!(
        toks("a3> f"),
        vec![word("a3"), Token::Redirect(1, RedirectMode::Truncate), word("f")]
    );
    assert_eq!(
        toks("cat f|wc -l&"),
        vec![word("cat"), word("f"), Token::Pipeline, word("wc"), word("-l"), Token::Background]
    );
    assert_eq!(toks("'|' \">\""), vec![word("|"), word(">")]);
}

#[test]
fn tokenize_expands_variables() {
    let mut vars = variables();
    set_var(&mut vars, "NAME".to_string(), "World War".to_string());
    set_var(&mut vars, "EMPTY".to_string(), String::new());
    assert_eq!(tokenize("hi $NAME!", &vars), vec![word("hi"), word("World War!")]);
    assert_eq!(tokenize("x${NAME}y", &vars), vec![word("xWorld Wary")]);
    assert_eq!(tokenize("\"$NAME\"", &vars), vec![word("World War")]);
    assert_eq!(tokenize("'$NAME'", &vars), vec![word("$NAME")]);
    assert_eq!(tokenize("$UNSET $EMPTY", &vars), vec![]);
    assert_eq!(tokenize("$ $1 ${}", &vars), vec![word("$"), word("$1"), word("$")]);
    assert_eq!(tokenize("a$UNSET", &vars), vec![word("a")]);
}

#[test]
fn variables_read_what_was_set() {
    let mut vars = variables();
    assert_eq!(get_var(&vars, "A"), None);
    set_var(&mut vars, "A".to_string(), "1".to_string());
    set_var(&mut vars, "A".to_string(), "2".to_string());
    assert_eq!(get_var(&vars, "A"), Some("2".to_string()));
    assert_eq!(get_var(&vars, "B"), None);
}

#[test]
fn identifiers() {
    assert!(is_valid_identifier("_a1"));
    assert!(is_valid_identifier("Name"));
    assert!(!is_valid_identifier(""));
    assert!(!is_valid_identifier("1a"));
    assert!(!is_valid_identifier("a-b"));
}

#[test]
fn parse_command_reads_words_and_redirects() {
    let c = parse_command(toks("echo a b 2>> err > out &"));
    assert_eq!(c.program, "echo");
    assert_eq!(c.args, vec!["a".to_string(), "b".to_string()]);
    let out = c.stdout_redirect.unwrap();
    assert_eq!(out.path, "out");
    assert_eq!(out.mode, RedirectMode::Truncate);
    let err = c.stderr_redirect.unwrap();
    assert_eq!(err.path, "err");
    assert_eq!(err.mode, RedirectMode::Append);
    assert!(c.background);
}

#[test]
fn parse_command_edge_cases() {
    let c = parse_command(vec![Token::Pipeline, word("x")]);
    assert_eq!(c.program, "");
    assert_eq!(c.args, vec!["x".to_string()]);
    let c = parse_command(vec![word("ls"), Token::Redirect(1, RedirectMode::Append), Token::Background, word("y")]);
    assert!(c.stdout_redirect.is_none());
    assert!(!c.background);
    assert_eq!(c.args, vec!["y".to_string()]);
    let c = parse_command(vec![]);
    assert_eq!(c.program, "");
    assert!(c.args.is_empty());
}

#[test]
fn split_pipeline_groups() {
    let groups = split_pipeline(toks("a b | c | | d"));
    assert_eq!(groups, vec![vec![word("a"), word("b")], vec![word("c")], vec![], vec![word("d")]]);
    assert_eq!(split_pipeline(vec![]), vec![Vec::<Token>::new()]);
}

#[test]
fn echo_writes_arguments() {
    let mut io = Io::new();
    echo_cmd(&command("echo", &["a", "b  c"]), &mut io);
    echo_cmd(&command("echo", &[]), &mut io);
    assert_eq!(io.out, "a b  c\n\n");
    assert_eq!(io.err, "");
}

#[test]
fn complete_registers_shows_and_forgets() {
    let mut table = completions();
    let mut io = Io::new();
    complete_cmd(&command("complete", &["-p", "git"]), &mut table, &mut io);
    assert_eq!(io.err, "complete: git: no completion specification\n");
    complete_cmd(&command("complete", &["-C", "/bin/gc", "git"]), &mut table, &mut io);
    complete_cmd(&command("complete", &["-p", "git"]), &mut table, &mut io);
    assert_eq!(io.out, "complete -C '/bin/gc' git\n");
    complete_cmd(&command("complete", &["-r", "git"]), &mut table, &mut io);
    complete_cmd(&command("complete", &["-p", "git"]), &mut table, &mut io);
    assert_eq!(
        io.err,
        "complete: git: no completion specification\ncomplete: git: no completion specification\n"
    );
    complete_cmd(&command("complete", &["-x", "git"]), &mut table, &mut io);
    complete_cmd(&command("complete", &["-C", "only"]), &mut table, &mut io);
    assert_eq!(table.get("only"), None);
}

#[test]
fn history_lists_numbered_entries() {
    let mut h = History::new();
    for l in ["ls", "pwd", "echo hi"] {
        add_history(&mut h, l.to_string());
    }
    let mut out = String::new();
    print_history(&h, &mut out, None);
    assert_eq!(out, "   1  ls\n   2  pwd\n   3  echo hi\n");
    let mut out = String::new();
    print_history(&h, &mut out, Some(2));
    assert_eq!(out, "   2  pwd\n   3  echo hi\n");
    let mut out = String::new();
    print_history(&h, &mut out, Some(10));
    assert_eq!(out, "   1  ls\n   2  pwd\n   3  echo hi\n");
    let mut out = String::new();
    print_history(&h, &mut out, Some(0));
    assert_eq!(out, "");
}

#[test]
fn history_numbers_wider_than_four_columns() {
    let mut h = History::new();
    for i in 0..10001 {
        h.add(format!("c{}", i));
    }
    let mut out = String::new();
    h.print(&mut out, Some(2));
    assert_eq!(out, "10000  c9999\n10001  c10000\n");
}

#[test]
fn history_files_write_and_append() {
    let mut h = History::new();
    assert_eq!(append_history_to_file(&h), None);
    h.add("a".to_string());
    h.add("b".to_string());
    assert_eq!(print_history_to_file(&h), "a\nb\n");
    h.mark_saved();
    assert_eq!(append_history_to_file(&h), None);
    h.add("c".to_string());
    assert_eq!(append_history_to_file(&h), Some("c\n".to_string()));
    h.mark_saved();
    assert_eq!(append_history_to_file(&h), None);
}

#[test]
fn history_load_skips_empty_lines() {
    let mut h = History::new();
    h.add("first".to_string());
    load_history_from_file(&mut h, &vec!["x".to_string(), String::new(), "y".to_string()]);
    let mut out = String::new();
    h.print(&mut out, None);
    assert_eq!(out, "   1  first\n   2  x\n   3  y\n");
    assert_eq!(append_history_to_file(&h), Some("first\nx\ny\n".to_string()));
}

#[test]
fn history_command_requests() {
    let mut h = History::new();
    h.add("one".to_string());
    h.add("two".to_string());
    let mut io = Io::new();
    match history_cmd(&command("history", &["-w", "f"]), &h, &mut io) {
        Some(HistoryFileRequest::Write(p)) => assert_eq!(p, "f"),
        other => panic!("unexpected {:?}", other),
    }
    match history_cmd(&command("history", &["-a", "g"]), &h, &mut io) {
        Some(HistoryFileRequest::Append(p)) => assert_eq!(p, "g"),
        other => panic!("unexpected {:?}", other),
    }
    match history_cmd(&command("history", &["-r", "h"]), &h, &mut io) {
        Some(HistoryFileRequest::Read(p)) => assert_eq!(p, "h"),
        other => panic!("unexpected {:?}", other),
    }
    assert!(history_cmd(&command("history", &["-r"]), &h, &mut io).is_none());
    assert_eq!(io.out, "");
    assert!(history_cmd(&command("history", &["1"]), &h, &mut io).is_none());
    assert_eq!(io.out, "   2  two\n");
    assert!(history_cmd(&command("history", &["x"]), &h, &mut io).is_none());
    assert_eq!(io.out, "   2  two\n   1  one\n   2  two\n");
}

#[test]
fn history_failures_are_reported() {
    let mut io = Io::new();
    history_failure(&HistoryFileRequest::Read("f".to_string()), "gone", &mut io);
    history_failure(&HistoryFileRequest::Write("g".to_string()), "denied", &mut io);
    history_failure(&HistoryFileRequest::Append("h".to_string()), "full", &mut io);
    assert_eq!(io.err, "history: f gone\nhistory: g: denied\nhistory: h: full\n");
}

#[test]
fn numbers_parse_as_std_does() {
    for s in ["0", "42", "+7", "007", "18446744073709551615", "", "+", "-1", "1x", " 1", "18446744073709551616", "++1"] {
        assert_eq!(parse_usize(s), s.parse::<usize>().ok(), "{:?}", s);
    }
}

#[test]
fn builtins_are_named() {
    let all = build_builtins();
    let names: Vec<&str> = all.iter().map(|b| b.name()).collect();
    assert_eq!(names, vec!["exit", "echo", "pwd", "cd", "type", "complete", "jobs", "history"]);
    for b in all {
        assert_eq!(find_builtin(b.name()), Some(b));
    }
    assert_eq!(find_builtin("ls"), None);
    assert_eq!(find_builtin("Echo"), None);
}

#[test]
fn type_reports_builtins_and_programs() {
    let mut io = Io::new();
    assert_eq!(type_cmd(&command("type", &["echo"]), &mut io), None);
    assert_eq!(type_cmd(&command("type", &[]), &mut io), None);
    assert_eq!(type_cmd(&command("type", &["ls"]), &mut io), Some("ls".to_string()));
    type_report("ls", Some("/bin/ls".to_string()), &mut io);
    type_report("nope", None, &mut io);
    assert_eq!(io.out, "echo is a shell builtin\nls is /bin/ls\nnope: not found\n");
}

#[test]
fn cd_resolves_home() {
    let home = Some("/home/u".to_string());
    assert_eq!(cd_cmd(&command("cd", &[]), home.clone()), None);
    assert_eq!(cd_cmd(&command("cd", &["~"]), home.clone()), Some("/home/u".to_string()));
    assert_eq!(cd_cmd(&command("cd", &["~x"]), home.clone()), Some("/home/u/x".to_string()));
    assert_eq!(cd_cmd(&command("cd", &["~/d"]), home.clone()), Some("/d".to_string()));
    assert_eq!(cd_cmd(&command("cd", &["~"]), None), None);
    assert_eq!(cd_cmd(&command("cd", &["/tmp"]), None), Some("/tmp".to_string()));
    let mut io = Io::new();
    cd_failure("/nowhere", &mut io);
    assert_eq!(io.err, "cd: /nowhere: No such file or directory\n");
}

#[test]
fn paths_join_as_std_does() {
    for (d, r) in [("/usr/bin", "ls"), ("/usr/bin/", "ls"), ("", "ls"), ("/a", "/b"), ("a", "")] {
        let expected = std::path::Path::new(d).join(r);
        assert_eq!(path_join(d, r), expected.to_str().unwrap(), "{:?}", (d, r));
    }
}

#[test]
fn path_lists_split_as_std_does() {
    assert_eq!(split_path_list("/bin:/usr/bin"), vec!["/bin", "/usr/bin"]);
    assert_eq!(split_path_list(""), vec![""]);
    assert_eq!(split_path_list(":"), vec!["", ""]);
    assert_eq!(split_path_list("/a::/b:"), vec!["/a", "", "/b", ""]);
    assert_eq!(path_candidates("/bin:/usr/bin/", "ls"), vec!["/bin/ls", "/usr/bin/ls"]);
}

#[test]
fn executable_bits() {
    assert!(is_executable(0o755));
    assert!(is_executable(0o001));
    assert!(!is_executable(0o644));
}

#[test]
fn jobs_are_numbered_from_one() {
    let jobs = jobs_table();
    assert_eq!(next_job_id(&jobs), 1);
    assert_eq!(job_started_line(3, 4567), "[3] 4567");
    let mut c = command("sleep", &["10"]);
    c.background = true;
    assert_eq!(job_command_line(&c), "sleep 10");
    assert_eq!(not_found_line("nope"), "nope: command not found");
}

#[test]
fn completer_offers_matching_programs() {
    let helper = CommandCompleterHelper { programs: vec!["echo", "exit", "type"] };
    let (start, found) = helper.complete("e", 1);
    assert_eq!(start, 0);
    let shown: Vec<(String, String)> =
        found.into_iter().map(|c| (c.display, c.replacement)).collect();
    assert_eq!(
        shown,
        vec![("echo".to_string(), "echo ".to_string()), ("exit".to_string(), "exit ".to_string())]
    );
    assert!(helper.complete("ec ho", 5).1.is_empty());
    assert!(helper.complete("", 0).1.is_empty());
    assert_eq!(helper.complete("ty", 1).1.len(), 1);
    assert_eq!(helper.complete("x", 0).1.len(), 3);
}

#[test]
fn pipeline_plans() {
    let mut first = command("echo", &["x"]);
    first.stdout_redirect = Some(Redirect { path: "ignored".to_string(), mode: RedirectMode::Truncate });
    let mut last = command("wc", &[]);
    last.stdout_redirect = Some(Redirect { path: "out".to_string(), mode: RedirectMode::Append });
    last.stderr_redirect = Some(Redirect { path: "err".to_string(), mode: RedirectMode::Truncate });
    last.background = true;
    let plans = plan_pipeline(&vec![first, last]);
    assert_eq!(plans[0].builtin, Some(Builtin::Echo));
    assert!(!plans[0].stdin_from_previous);
    assert!(matches!(plans[0].stdout, OutTarget::Pipe));
    assert!(matches!(plans[0].stderr, ErrTarget::Inherit));
    assert_eq!(plans[1].builtin, None);
    assert!(plans[1].stdin_from_previous);
    assert!(matches!(&plans[1].stdout, OutTarget::File(r) if r.path == "out" && r.mode == RedirectMode::Append));
    assert!(matches!(&plans[1].stderr, ErrTarget::File(r) if r.path == "err"));
    assert!(!plans[1].background);
    let mut lone = command("sleep", &["1"]);
    lone.background = true;
    let plans = plan_pipeline(&vec![lone]);
    assert!(plans[0].background);
    assert!(matches!(plans[0].stdout, OutTarget::Inherit));
}

#[test]
fn parse_line_reads_a_pipeline() {
    let vars = variables();
    assert!(parse_line("", &vars).is_empty());
    assert!(parse_line("  \t ", &vars).is_empty());
    let cmds = parse_line("ls -l | wc > out", &vars);
    assert_eq!(cmds.len(), 2);
    assert_eq!(cmds[0].program, "ls");
    assert_eq!(cmds[0].args, vec!["-l".to_string()]);
    assert_eq!(cmds[1].program, "wc");
    assert_eq!(cmds[1].stdout_redirect.as_ref().unwrap().path, "out");
}

#[test]
fn written_history_reads_back() {
    let mut h = History::new();
    for l in ["ls -l", "echo 'a b'", "cd /"] {
        h.add(l.to_string());
    }
    let text = print_history_to_file(&h);
    let lines: Vec<String> = std::io::Cursor::new(text.into_bytes())
        .lines()
        .map(|l| l.unwrap())
        .collect();
    load_history_from_file(&mut h, &lines);
    let mut out = String::new();
    h.print(&mut out, None);
    assert_eq!(
        out,
        "   1  ls -l\n   2  echo 'a b'\n   3  cd /\n   4  ls -l\n   5  echo 'a b'\n   6  cd /\n"
    );
}

#[test]
fn job_numbers_follow_the_table() {
    let jobs = vec![codecrafters_shell::Job {
        id: 1,
        pid: 10,
        command: "sleep 1".to_string(),
        status: codecrafters_shell::JobStatus::Running,
    }];
    assert_eq!(next_job_id(&jobs), 2);
}
