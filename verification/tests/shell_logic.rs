use gash::argv::{
    has_dangling_redirection, parse_argv, redirect_kind_of, split_redirections, RedirectKind,
    Redirection,
};
use gash::shell::{
    cmd_exists, launch_mode, plan_command, plan_pipeline, Action, Invocation, Launch, Link, Shell,
};
use gash::text::{
    ends_with_char, first_piece, same_text, split_all, split_nonempty, trim_end_matching,
    trim_str,
};

fn strings(v: &[&str]) -> Vec<String> {
    v.iter().map(|s| s.to_string()).collect()
}

#[test]
fn trim_removes_surrounding_white_space() {
    assert_eq!(trim_str("  ab c \n"), "ab c");
    assert_eq!(trim_str("\u{3000}x\t\r\n"), "x");
    assert_eq!(trim_str(" \t \n"), "");
    assert_eq!(trim_str(""), "");
    assert_eq!(trim_str("a"), "a");
    // U+0085 (a control character) is not white space here
    assert_eq!(trim_str("\u{85}x\u{85}"), "\u{85}x\u{85}");
    assert_eq!(trim_str("\u{2029}x\u{202f}"), "x");
}

#[test]
fn trim_twice_is_trim_once() {
    let once = trim_str("\u{a0} gash \u{2028}");
    assert_eq!(trim_str(&once), once);
}

#[test]
fn split_nonempty_drops_empty_pieces() {
    assert_eq!(split_nonempty("a||b|", '|'), strings(&["a", "b"]));
    assert_eq!(split_nonempty("|||", '|'), strings(&[]));
    assert_eq!(split_nonempty("", '|'), strings(&[]));
    assert_eq!(split_nonempty("ls -l", '|'), strings(&["ls -l"]));
}

#[test]
fn split_nonempty_keeps_all_but_separators() {
    let pieces = split_nonempty("x|yz||w", '|');
    assert_eq!(pieces.concat(), "xyzw");
    assert!(pieces.iter().all(|p| !p.is_empty() && !p.contains('|')));
}

#[test]
fn split_all_keeps_empty_pieces() {
    assert_eq!(split_all("GET  /x", ' '), strings(&["GET", "", "/x"]));
    assert_eq!(split_all("", ' '), strings(&[""]));
    assert_eq!(split_all("a ", ' '), strings(&["a", ""]));
}

#[test]
fn small_text_helpers() {
    assert_eq!(trim_end_matching("ls &&", '&'), "ls ");
    assert_eq!(trim_end_matching("ls", '&'), "ls");
    assert!(ends_with_char("ls &", '&'));
    assert!(!ends_with_char("", '&'));
    assert_eq!(first_piece("history 3", ' '), "history");
    assert_eq!(first_piece("exit", ' '), "exit");
    assert_eq!(first_piece(" x", ' '), "");
    assert!(same_text("cd", "cd"));
    assert!(!same_text("cd", "cdx"));
}

#[test]
fn parse_argv_splits_words_and_keeps_quotes_whole() {
    assert_eq!(
        parse_argv("echo -e \"abc\nxyz\""),
        strings(&["echo", "-e", "abc\nxyz"])
    );
    assert_eq!(parse_argv("ls   -l  /tmp"), strings(&["ls", "-l", "/tmp"]));
    assert_eq!(parse_argv("grep \"a b\" c"), strings(&["grep", "a b", "c"]));
    assert_eq!(parse_argv(""), strings(&[]));
    assert_eq!(parse_argv("   "), strings(&[]));
}

#[test]
fn parse_argv_quoted_span_is_one_word() {
    assert_eq!(parse_argv("\"a b\" c"), strings(&["a b", "c"]));
    assert_eq!(parse_argv("a \"\" b"), strings(&["a", "b"]));
    assert_eq!(parse_argv("echo \"x  y\"z"), strings(&["echo", "x  y", "z"]));
    assert_eq!(parse_argv("\"\"\"q r\""), strings(&["q r"]));
    // an unclosed quote runs to the end of the line
    assert_eq!(parse_argv("say \"hi there"), strings(&["say", "hi there"]));
}

#[test]
fn parse_argv_words_are_nonempty_and_unquoted() {
    for line in ["x \"\" \"y z\" w\"", "\"\"\"", " \" a \" "] {
        for w in parse_argv(line) {
            assert!(!w.is_empty());
            assert!(!w.contains('"'));
        }
    }
}

#[test]
fn redirection_signs() {
    assert_eq!(redirect_kind_of(">"), Some(RedirectKind::Output));
    assert_eq!(redirect_kind_of("<"), Some(RedirectKind::Input));
    assert_eq!(redirect_kind_of(">>"), None);
    assert_eq!(redirect_kind_of("a"), None);
}

#[test]
fn split_redirections_takes_out_sign_and_file() {
    let (args, redirs) = split_redirections(&strings(&["cat", "<", "in", "x", ">", "out"]));
    assert_eq!(args, strings(&["cat", "x"]));
    assert_eq!(
        redirs,
        vec![
            Redirection { kind: RedirectKind::Input, target: "in".to_string() },
            Redirection { kind: RedirectKind::Output, target: "out".to_string() },
        ]
    );
}

#[test]
fn split_redirections_skips_the_word_after_a_file() {
    // after `< in` the next word is kept without being looked at
    let (args, redirs) = split_redirections(&strings(&["sort", "<", "in", ">", "out"]));
    assert_eq!(args, strings(&["sort", ">", "out"]));
    assert_eq!(
        redirs,
        vec![Redirection { kind: RedirectKind::Input, target: "in".to_string() }]
    );
}

#[test]
fn split_redirections_counts() {
    let words = strings(&["a", ">", "f", "b", "c", "<", "g"]);
    let (args, redirs) = split_redirections(&words);
    assert_eq!(args.len() + 2 * redirs.len(), words.len());
    let plain = strings(&["ls", "-l", "x"]);
    let (args, redirs) = split_redirections(&plain);
    assert_eq!(args, plain);
    assert!(redirs.is_empty());
}

#[test]
fn split_redirections_stops_at_dangling_sign() {
    let (args, redirs) = split_redirections(&strings(&["cat", "<", "in", "x", ">"]));
    assert_eq!(args, strings(&["cat", "x"]));
    assert_eq!(
        redirs,
        vec![Redirection { kind: RedirectKind::Input, target: "in".to_string() }]
    );
    let (args, redirs) = split_redirections(&strings(&["<"]));
    assert!(args.is_empty());
    assert!(redirs.is_empty());
}

#[test]
fn dangling_redirections() {
    assert!(has_dangling_redirection(&strings(&["ls", ">"])));
    assert!(!has_dangling_redirection(&strings(&["ls", ">", "f"])));
    assert!(has_dangling_redirection(&strings(&[">", "f", "x", "<"])));
    // the sign right after a file is skipped, so it dangles harmlessly
    assert!(!has_dangling_redirection(&strings(&["a", ">", "f", "<"])));
    assert!(!has_dangling_redirection(&strings(&[])));
}

#[test]
fn new_shell_is_empty() {
    let sh = Shell::new("gash> ");
    assert_eq!(sh.prompt(), "gash> ");
    assert!(sh.history().is_empty());
}

#[test]
fn handle_line_dispatches_on_first_word() {
    let mut sh = Shell::new("gash> ");
    assert_eq!(sh.handle_line("  ls -l  \n"), Action::Run("ls -l".to_string()));
    assert_eq!(sh.handle_line("   \n"), Action::Skip);
    assert_eq!(sh.handle_line("exit"), Action::Exit);
    assert_eq!(sh.handle_line("help me"), Action::Help);
    assert_eq!(sh.handle_line("exit2"), Action::Run("exit2".to_string()));
    assert_eq!(sh.handle_line("history\n"), Action::History);
    assert_eq!(
        sh.history(),
        &strings(&["ls -l", "exit", "help me", "exit2", "history"])
    );
}

#[test]
fn blank_lines_leave_history_alone() {
    let mut sh = Shell::new("");
    sh.handle_line("a");
    let before = sh.history().clone();
    assert_eq!(sh.handle_line("\t \r\n"), Action::Skip);
    assert_eq!(sh.history(), &before);
}

#[test]
fn plan_cmdline_splits_pipeline_and_background() {
    let sh = Shell::new("");
    let p = sh.plan_cmdline("ls | grep a &");
    assert_eq!(p.stages, strings(&["ls ", " grep a "]));
    assert!(p.last_in_background);
    assert!(p.runs_in_background(0));
    assert!(p.runs_in_background(1));

    let p = sh.plan_cmdline("a||b");
    assert_eq!(p.stages, strings(&["a", "b"]));
    assert!(!p.last_in_background);
    assert!(p.runs_in_background(0));
    assert!(!p.runs_in_background(1));

    let p = sh.plan_cmdline("sleep 1 &&&");
    assert_eq!(p.stages, strings(&["sleep 1 "]));
    assert!(p.last_in_background);

    let p = sh.plan_cmdline("&");
    assert!(p.stages.is_empty());
}

#[test]
fn pipeline_links() {
    let sh = Shell::new("");
    let p = sh.plan_cmdline("a | b | c");
    assert_eq!(p.links(), vec![Link::StandardInput, Link::NewPipe, Link::NewPipe, Link::StandardOutput]);
    assert_eq!(p.stage_links(0), (0, 1));
    assert_eq!(p.stage_links(2), (2, 3));
    let q = plan_pipeline("a | b");
    assert_eq!(q.links(), vec![Link::StandardInput, Link::NewPipe, Link::NewPipe]);
    let r = sh.plan_cmdline("a");
    assert_eq!(r.links(), vec![Link::StandardInput, Link::StandardOutput]);
    let t = plan_pipeline("a");
    assert_eq!(t.links(), vec![Link::StandardInput, Link::NewPipe]);
}

#[test]
fn empty_pieces_do_not_make_stages() {
    let a = plan_pipeline("ls || wc");
    let b = plan_pipeline("ls | wc");
    assert_eq!(a.stages, b.stages);
    let c = plan_pipeline("|ls | wc|");
    assert_eq!(c.stages, b.stages);
}

fn words_of_stages(line: &str) -> Vec<Vec<String>> {
    plan_pipeline(line).stages.iter().map(|s| parse_argv(s)).collect()
}

#[test]
fn edge_bars_with_spaces_keep_words() {
    assert_eq!(words_of_stages(" |  ls -l | wc"), words_of_stages("   ls -l | wc"));
    assert_eq!(words_of_stages("ls | wc -l  | \n"), words_of_stages("ls | wc -l   \n"));
    assert_eq!(words_of_stages("ls | wc -l  |"), vec![strings(&["ls"]), strings(&["wc", "-l"])]);
    // an unclosed quote keeps the spaces before the bar in its word
    assert_ne!(words_of_stages("echo \"a |"), words_of_stages("echo \"a "));
    // a tab is not a word separator, so it stays in the last word
    assert_ne!(words_of_stages("ls\t|"), words_of_stages("ls\t"));
}

#[test]
fn split_on_a_separator_splits_the_sides_apart() {
    let left = split_nonempty("a|b", '|');
    let right = split_nonempty("|c||d", '|');
    let mut both = left.clone();
    both.extend(right.clone());
    assert_eq!(split_nonempty("a|b||c||d", '|'), both);
}

#[test]
fn trailing_ampersand_keeps_stages() {
    let sh = Shell::new("");
    let fg = sh.plan_cmdline("a | b");
    let bg = sh.plan_cmdline("a | b&");
    assert_eq!(fg.stages, bg.stages);
    assert!(!fg.last_in_background);
    assert!(bg.last_in_background);
}

#[test]
fn plan_pipeline_trims_and_runs_last_in_foreground() {
    let p = plan_pipeline("echo -e \"abc\nxyz\" | grep ab");
    assert_eq!(p.stages, strings(&["echo -e \"abc\nxyz\" ", " grep ab"]));
    assert!(!p.last_in_background);
    assert!(p.runs_in_background(0));
    assert!(!p.runs_in_background(1));
    let p = plan_pipeline("  echo hi \n");
    assert_eq!(p.stages, strings(&["echo hi"]));
}

#[test]
fn plan_command_programs_and_builtins() {
    let p = plan_command("ls -l > out.txt");
    assert_eq!(
        p.redirections,
        vec![Redirection { kind: RedirectKind::Output, target: "out.txt".to_string() }]
    );
    assert_eq!(
        p.invocation,
        Invocation::Program { name: "ls".to_string(), args: strings(&["-l"]) }
    );

    let p = plan_command("cd /tmp extra");
    assert!(p.redirections.is_empty());
    assert_eq!(p.invocation, Invocation::ChangeDir(Some("/tmp".to_string())));

    assert_eq!(plan_command("cd").invocation, Invocation::ChangeDir(None));
    assert_eq!(plan_command("").invocation, Invocation::Nothing);
    assert_eq!(plan_command("   ").invocation, Invocation::Nothing);

    let p = plan_command("> f");
    assert_eq!(p.invocation, Invocation::Nothing);
    assert_eq!(p.redirections.len(), 1);

    let p = plan_command("wc \"my file\" < in");
    assert_eq!(
        p.invocation,
        Invocation::Program { name: "wc".to_string(), args: strings(&["my file"]) }
    );
    assert_eq!(
        p.redirections,
        vec![Redirection { kind: RedirectKind::Input, target: "in".to_string() }]
    );
}

#[test]
fn shell_methods_match_free_functions() {
    let mut sh = Shell::new("");
    assert_eq!(sh.parse_argv("a \"b c\""), parse_argv("a \"b c\""));
    assert!(sh.cmd_exists(Some(0)));
    assert!(!sh.cmd_exists(Some(1)));
}

#[test]
fn cmd_exists_reads_which_status() {
    assert!(cmd_exists(Some(0)));
    assert!(!cmd_exists(Some(1)));
    assert!(!cmd_exists(Some(-1)));
    assert!(!cmd_exists(None));
}

#[test]
fn launch_modes() {
    assert_eq!(launch_mode(true, Some("ls".to_string())), Launch::Usage);
    assert_eq!(launch_mode(true, None), Launch::Usage);
    assert_eq!(launch_mode(false, Some("ls".to_string())), Launch::RunOnce("ls".to_string()));
    assert_eq!(launch_mode(false, None), Launch::Interactive);
}
