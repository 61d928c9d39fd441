//! The decisions of the shell: what a line typed at the prompt asks for,
//! how a command line splits into a pipeline, and what one command of a
//! pipeline runs with which redirections.

use vstd::prelude::*;
use crate::argv::{
    lemma_parse_argv_space_prefix, lemma_parse_argv_space_suffix, parse_argv, parse_argv_spec,
    redirection_views, redirections_complete, scan_args, scan_redirections, split_redirections,
    Redirection,
};
use crate::text::{
    borders_empty_piece, ends_with_char, fields, first_piece, is_white_space,
    lemma_trimmed_fields_drop_leading_sep, lemma_trimmed_fields_drop_trailing_sep, nonempty,
    same_text, split_nonempty, split_on, texts, trim, trim_end_char, trim_end_matching, trim_str,
};

verus! {

/// What a line typed at the prompt asks the shell to do.
#[derive(Debug, PartialEq, Eq)]
pub enum Action {
    /// Nothing: the line is blank.
    Skip,
    /// Leave the shell with status 0.
    Exit,
    /// Print the help text.
    Help,
    /// Print the history, one numbered entry per line.
    History,
    /// Run the (trimmed) command line.
    Run(String),
}

/// The action that the trimmed line `t` asks for, by its first word (the
/// text up to the first space).
pub open spec fn line_action(t: Seq<char>, a: Action) -> bool {
    let program = split_on(t, ' ')[0];
    if program.len() == 0 {
        a is Skip
    } else if program == "exit"@ {
        a is Exit
    } else if program == "help"@ {
        a is Help
    } else if program == "history"@ {
        a is History
    } else {
        a matches Action::Run(c) && c@ == t
    }
}

/// A line dispatches on its first word `w` (the text before the first
/// space) alone: `exit`, `help` and `history` ask for those actions
/// whatever follows them, an empty word asks for nothing, and any other
/// word runs the whole line.
pub proof fn lemma_dispatch_by_first_word(w: Seq<char>, rest: Seq<char>, a: Action)
    requires
        !w.contains(' '),
        rest.len() == 0 || rest[0] == ' ',
        line_action(w + rest, a),
    ensures
        w.len() == 0 ==> a is Skip,
        w == seq!['e', 'x', 'i', 't'] ==> a is Exit,
        w == seq!['h', 'e', 'l', 'p'] ==> a is Help,
        w == seq!['h', 'i', 's', 't', 'o', 'r', 'y'] ==> a is History,
        w.len() > 0 && w != seq!['e', 'x', 'i', 't'] && w != seq!['h', 'e', 'l', 'p'] && w != seq![
            'h',
            'i',
            's',
            't',
            'o',
            'r',
            'y',
        ] ==> (a matches Action::Run(c) && c@ == w + rest),
{
    reveal_strlit("exit");
    reveal_strlit("help");
    reveal_strlit("history");
    assert("exit"@ =~= seq!['e', 'x', 'i', 't']);
    assert("help"@ =~= seq!['h', 'e', 'l', 'p']);
    assert("history"@ =~= seq!['h', 'i', 's', 't', 'o', 'r', 'y']);
    let t = w + rest;
    assert forall|j: int| 0 <= j < w.len() implies #[trigger] t[j] != ' ' by {
        assert(t[j] == w[j]);
        if w[j] == ' ' {
            assert(w.contains(' '));
        }
    }
    if w.len() < t.len() {
        assert(t[w.len() as int] == rest[0]);
    }
    crate::text::lemma_first_piece(t, ' ', w.len() as int);
    assert(t.take(w.len() as int) =~= w);
}

/// An interactive shell: its prompt and the lines typed so far.
pub struct Shell {
    history: Vec<String>,
    cmd_prompt: String,
}

/// A history entry is a non-empty line with no white space around it.
pub open spec fn history_entry(e: Seq<char>) -> bool {
    e.len() > 0 && trim(e) == e
}

impl Shell {
    /// The lines typed so far, oldest first.
    pub closed spec fn history_view(&self) -> Seq<Seq<char>> {
        texts(self.history@)
    }

    /// The prompt.
    pub closed spec fn prompt_view(&self) -> Seq<char> {
        self.cmd_prompt@
    }

    /// Every history entry is a non-empty trimmed line.
    pub open spec fn wf(&self) -> bool {
        forall|i: int| 0 <= i < self.history_view().len() ==> history_entry(
            #[trigger] self.history_view()[i],
        )
    }

    /// A shell with the given prompt and an empty history.
    pub fn new(prompt_str: &str) -> (sh: Shell)
        ensures
            sh.wf(),
            sh.history_view() == Seq::<Seq<char>>::empty(),
            sh.prompt_view() == prompt_str@,
    {
        let sh = Shell { history: Vec::new(), cmd_prompt: prompt_str.to_owned() };
        assert(sh.history_view() =~= Seq::<Seq<char>>::empty());
        sh
    }

    /// The prompt.
    pub fn prompt(&self) -> (p: &str)
        ensures
            p@ == self.prompt_view(),
    {
        self.cmd_prompt.as_str()
    }

    /// The lines typed so far, oldest first.
    pub fn history(&self) -> (h: &Vec<String>)
        ensures
            texts(h@) == self.history_view(),
    {
        &self.history
    }

    /// Takes one line typed at the prompt: the line, trimmed, joins the
    /// history unless it is empty, and its first word decides the action.
    pub fn handle_line(&mut self, line: &str) -> (a: Action)
        requires
            old(self).wf(),
        ensures
            final(self).wf(),
            final(self).prompt_view() == old(self).prompt_view(),
            final(self).history_view() == if trim(line@).len() > 0 {
                old(self).history_view().push(trim(line@))
            } else {
                old(self).history_view()
            },
            line_action(trim(line@), a),
    {
        let cmd_line = trim_str(line);
        proof {
            crate::text::lemma_trim_idempotent(line@);
        }
        let ghost before = self.history@;
        if cmd_line.unicode_len() > 0 {
            self.history.push(cmd_line.clone());
            assert(texts(self.history@) =~= texts(before).push(cmd_line@));
            assert forall|i: int| 0 <= i < self.history_view().len() implies history_entry(
                #[trigger] self.history_view()[i],
            ) by {
                if i < texts(before).len() {
                    assert(old(self).history_view() == texts(before));
                    assert(self.history_view()[i] == old(self).history_view()[i]);
                    assert(history_entry(old(self).history_view()[i]));
                } else {
                    assert(self.history_view()[i] == cmd_line@);
                }
            }
        }
        let program = first_piece(cmd_line.as_str(), ' ');
        if program.unicode_len() == 0 {
            Action::Skip
        } else if same_text(program.as_str(), "exit") {
            Action::Exit
        } else if same_text(program.as_str(), "help") {
            Action::Help
        } else if same_text(program.as_str(), "history") {
            Action::History
        } else {
            Action::Run(cmd_line)
        }
    }

    /// The pipeline that a command line of the interactive shell stands
    /// for: a line that ends in `&` runs its last command in the background
    /// too, with the trailing `&`s dropped; the commands are the non-empty
    /// pieces between `|`.
    pub fn plan_cmdline(&self, cmd_line: &str) -> (p: Pipeline)
        ensures
            texts(p.stages@) == fields(trim_end_char(cmd_line@, '&'), '|'),
            p.last_in_background == (cmd_line@.len() > 0 && cmd_line@.last() == '&'),
            !p.captures_output,
    {
        let bg_flag = ends_with_char(cmd_line, '&');
        let stripped = trim_end_matching(cmd_line, '&');
        let stages = split_nonempty(stripped.as_str(), '|');
        Pipeline { stages, last_in_background: bg_flag, captures_output: false }
    }

    /// Whether the command `cmd_path` exists, from the exit code of
    /// `which cmd_path` (`None` when it ended by a signal).
    pub fn cmd_exists(&mut self, which_code: Option<i32>) -> (b: bool)
        ensures
            b == (which_code == Some(0i32)),
            *final(self) == *old(self),
    {
        cmd_exists(which_code)
    }

    /// The words of a command line, program name first (see `parse_argv`).
    pub fn parse_argv(&mut self, cmd_line: &str) -> (argv: Vec<String>)
        ensures
            texts(argv@) == parse_argv_spec(cmd_line@),
            *final(self) == *old(self),
    {
        parse_argv(cmd_line)
    }
}

/// A pipeline: its commands in order; each reads what the one before it
/// writes. All but the last run in the background. The last writes to the
/// standard output, or to a new pipe whose end the caller reads when
/// `captures_output` holds.
pub struct Pipeline {
    pub stages: Vec<String>,
    pub last_in_background: bool,
    pub captures_output: bool,
}

/// A link of a pipeline: what joins two neighbouring commands, or the first
/// command to its input, or the last to its output.
#[derive(Clone, Copy, Debug, PartialEq, Eq, Structural)]
pub enum Link {
    /// The shell's standard input.
    StandardInput,
    /// The shell's standard output.
    StandardOutput,
    /// A new pipe.
    NewPipe,
}

impl Pipeline {
    /// Link `k` of the pipeline: link 0 is the standard input, link `n`
    /// (after the last of the `n` commands) is the standard output unless
    /// the output is captured, and every other link is a new pipe.
    pub open spec fn link_spec(&self, k: int) -> Link {
        if k == 0 {
            Link::StandardInput
        } else if k == self.stages@.len() && !self.captures_output {
            Link::StandardOutput
        } else {
            Link::NewPipe
        }
    }

    /// Commands are joined by new pipes: the first reads the standard
    /// input, every link between two commands is a new pipe, and the last
    /// writes to the standard output or, when the output is captured, to a
    /// new pipe.
    pub proof fn lemma_links_join_commands(&self)
        requires
            self.stages@.len() > 0,
        ensures
            self.link_spec(0) == Link::StandardInput,
            forall|k: int| 0 < k < self.stages@.len() ==> #[trigger] self.link_spec(k) == Link::NewPipe,
            self.link_spec(self.stages@.len() as int) == if self.captures_output {
                Link::NewPipe
            } else {
                Link::StandardOutput
            },
    {
    }

    /// The links of the pipeline, in order: one more than it has commands.
    pub fn links(&self) -> (v: Vec<Link>)
        requires
            self.stages@.len() > 0,
        ensures
            v@.len() == self.stages@.len() + 1,
            forall|k: int| 0 <= k < v@.len() ==> v@[k] == self.link_spec(k),
            v@[0] == Link::StandardInput,
            forall|k: int| 0 < k < self.stages@.len() ==> v@[k] == Link::NewPipe,
            v@[self.stages@.len() as int] == if self.captures_output {
                Link::NewPipe
            } else {
                Link::StandardOutput
            },
    {
        let n = self.stages.len();
        let mut v: Vec<Link> = Vec::new();
        v.push(Link::StandardInput);
        for k in 1..n
            invariant
                n == self.stages@.len(),
                v@.len() == k,
                forall|j: int| 0 <= j < k ==> v@[j] == self.link_spec(j),
        {
            v.push(Link::NewPipe);
        }
        if self.captures_output {
            v.push(Link::NewPipe);
        } else {
            v.push(Link::StandardOutput);
        }
        proof {
            self.lemma_links_join_commands();
            assert(v@[0] == self.link_spec(0));
            assert(v@[n as int] == self.link_spec(n as int));
            assert forall|k: int| 0 < k < self.stages@.len() implies v@[k] == Link::NewPipe by {
                assert(v@[k] == self.link_spec(k));
            }
        }
        v
    }

    /// The links that the command at `i` reads and writes: it reads link
    /// `i` and writes link `i + 1`.
    pub fn stage_links(&self, i: usize) -> (ends: (usize, usize))
        requires
            i < self.stages@.len(),
        ensures
            ends == (i, (i + 1) as usize),
    {
        let n = self.stages.len();
        assert(i + 1 <= n);
        (i, i + 1)
    }

    /// Whether the command at `i` runs in the background: every command
    /// but the last does, the last as the command line says.
    pub fn runs_in_background(&self, i: usize) -> (bg: bool)
        requires
            i < self.stages@.len(),
        ensures
            bg == (i + 1 < self.stages@.len() || self.last_in_background),
    {
        i < self.stages.len() - 1 || self.last_in_background
    }
}

/// The pipeline of a command line whose output is read back: the line is
/// trimmed, its commands are the non-empty pieces between `|`, and the
/// last command runs in the foreground.
pub fn plan_pipeline(cmd_line: &str) -> (p: Pipeline)
    ensures
        texts(p.stages@) == fields(trim(cmd_line@), '|'),
        !p.last_in_background,
        p.captures_output,
{
    let cmd_line = trim_str(cmd_line);
    let stages = split_nonempty(cmd_line.as_str(), '|');
    Pipeline { stages, last_in_background: false, captures_output: true }
}

/// Whether a command exists, from the exit code of `which` run on it:
/// it exists when `which` ended normally with code 0.
pub fn cmd_exists(which_code: Option<i32>) -> (b: bool)
    ensures
        b == (which_code == Some(0i32)),
{
    match which_code {
        Some(code) => code == 0,
        None => false,
    }
}

/// What one command of a pipeline runs, once its redirections are out.
#[derive(Debug, PartialEq, Eq)]
pub enum Invocation {
    /// No command: the line held no word, or only redirections.
    Nothing,
    /// The built-in `cd`, with the directory if one was given.
    ChangeDir(Option<String>),
    /// A program, with its arguments.
    Program { name: String, args: Vec<String> },
}

/// One command of a pipeline: the redirections to open, in order (the last
/// of each kind wins), and what to run.
pub struct CommandPlan {
    pub redirections: Vec<Redirection>,
    pub invocation: Invocation,
}

/// `plan` is what the words `argv` ask for: the scan's redirections, and
/// the first kept word decides the invocation.
pub open spec fn plan_of(argv: Seq<Seq<char>>, plan: CommandPlan) -> bool {
    let args = scan_args(argv);
    &&& redirection_views(plan.redirections@) == scan_redirections(argv)
    &&& if args.len() == 0 {
        plan.invocation is Nothing
    } else if args[0] == "cd"@ {
        plan.invocation matches Invocation::ChangeDir(dir) && if args.len() > 1 {
            dir matches Some(d) && d@ == args[1]
        } else {
            dir is None
        }
    } else {
        plan.invocation matches Invocation::Program { name, args: rest } && name@ == args[0]
            && texts(rest@) == args.skip(1)
    }
}

/// Every word is accounted for: a program gets, as its arguments, every
/// word that is neither its name nor a redirection sign or file, so it
/// has as many arguments as the words less one, less two per redirection.
pub proof fn lemma_program_keeps_every_argument(argv: Seq<Seq<char>>, plan: CommandPlan)
    requires
        redirections_complete(argv),
        plan_of(argv, plan),
        plan.invocation is Program,
    ensures
        plan.invocation matches Invocation::Program { name, args } && args@.len() + 1 + 2
            * plan.redirections@.len() == argv.len(),
{
    crate::argv::lemma_scan_counts(argv);
    assert(redirection_views(plan.redirections@).len() == plan.redirections@.len());
    if let Invocation::Program { name, args } = plan.invocation {
        assert(texts(args@).len() == args@.len());
    }
}

/// Words with no `<` or `>` among them: the first names the program (or is
/// `cd`), and all the others, in order, are its arguments (or the first of
/// them is the directory).
pub proof fn lemma_plan_without_redirections(argv: Seq<Seq<char>>, plan: CommandPlan)
    requires
        forall|i: int|
            0 <= i < argv.len() ==> #[trigger] argv[i] != seq!['>'] && argv[i] != seq!['<'],
        plan_of(argv, plan),
    ensures
        plan.redirections@.len() == 0,
        argv.len() == 0 ==> plan.invocation is Nothing,
        argv.len() > 0 && argv[0] == seq!['c', 'd'] ==> (plan.invocation matches Invocation::ChangeDir(
            dir,
        ) && (argv.len() > 1 ==> (dir matches Some(d) && d@ == argv[1])) && (argv.len() <= 1
            ==> dir is None)),
        argv.len() > 0 && argv[0] != seq!['c', 'd'] ==> (plan.invocation matches Invocation::Program {
            name,
            args,
        } && name@ == argv[0] && args@.len() == argv.len() - 1 && forall|j: int|
            0 <= j < args@.len() ==> #[trigger] args@[j]@ == argv[j + 1]),
{
    reveal_strlit("cd");
    assert("cd"@ =~= seq!['c', 'd']);
    assert forall|i: int| 0 <= i < argv.len() implies crate::argv::redirect_kind(
        #[trigger] argv[i],
    ) is None by {
        assert(argv[i] != seq!['>'] && argv[i] != seq!['<']);
    }
    crate::argv::lemma_scan_without_signs(argv);
    assert(redirection_views(plan.redirections@).len() == plan.redirections@.len());
    if argv.len() > 0 && argv[0] != seq!['c', 'd'] {
        if let Invocation::Program { name, args } = plan.invocation {
            assert(texts(args@).len() == args@.len());
            assert forall|j: int| 0 <= j < args@.len() implies #[trigger] args@[j]@ == argv[j + 1] by {
                assert(texts(args@)[j] == args@[j]@);
                assert(argv.skip(1)[j] == argv[j + 1]);
            }
        }
    }
}

/// The plan of one command of a pipeline: its words, the redirections
/// taken out of them, and the program or built-in that the first remaining
/// word names.
pub fn plan_command(cmd_line: &str) -> (plan: CommandPlan)
    requires
        redirections_complete(parse_argv_spec(cmd_line@)),
    ensures
        plan_of(parse_argv_spec(cmd_line@), plan),
{
    let argv = parse_argv(cmd_line);
    let (mut args, redirections) = split_redirections(&argv);
    let ghost kept = args@;
    if args.len() == 0 {
        return CommandPlan { redirections, invocation: Invocation::Nothing };
    }
    let program = args.remove(0);
    assert(texts(args@) =~= texts(kept).skip(1));
    let invocation = if same_text(program.as_str(), "cd") {
        if args.len() > 0 {
            let dir = args.remove(0);
            Invocation::ChangeDir(Some(dir))
        } else {
            Invocation::ChangeDir(None)
        }
    } else {
        Invocation::Program { name: program, args }
    };
    CommandPlan { redirections, invocation }
}


/// Dropping the `&`s that end a command line, then splitting it at `|`,
/// gives the same commands whether or not one more `&` ends the line: `&`
/// only moves the last command to the background.
pub proof fn lemma_background_keeps_stages(cmd_line: Seq<char>)
    ensures
        fields(trim_end_char(cmd_line.push('&'), '&'), '|') == fields(
            trim_end_char(cmd_line, '&'),
            '|',
        ),
{
    assert(cmd_line.push('&').drop_last() =~= cmd_line);
}

/// Empty pieces between `|` make no command: taking out of a command line
/// a `|` that borders an empty piece (see `borders_empty_piece`) leaves the
/// commands of its pipeline (see `plan_pipeline`) exactly as they were;
/// `ls || wc`, `|ls | wc` and `ls | wc|` run what `ls | wc` runs.
pub proof fn lemma_pipeline_ignores_empty_pieces(cmd_line: Seq<char>, i: int)
    requires
        borders_empty_piece(cmd_line, '|', i),
    ensures
        fields(trim(cmd_line.remove(i)), '|') == fields(trim(cmd_line), '|'),
{
    crate::text::lemma_trimmed_fields_drop_empty_piece(cmd_line, '|', i);
}

/// The words of each command of the pipeline of `cmd_line` (see
/// `plan_pipeline` and `parse_argv`).
pub open spec fn stage_words(cmd_line: Seq<char>) -> Seq<Seq<Seq<char>>> {
    fields(trim(cmd_line), '|').map_values(|stage: Seq<char>| parse_argv_spec(stage))
}

/// A `|` that starts a command line (after white space) and is followed by
/// spaces and then a command makes an empty piece: taking it out leaves the
/// words of every command as they were (` | ls | wc` runs `ls | wc`).
pub proof fn lemma_pipeline_words_ignore_leading_bar(cmd_line: Seq<char>, i: int, k: int)
    requires
        0 <= i < k < cmd_line.len(),
        cmd_line[i] == '|',
        forall|j: int| 0 <= j < i ==> is_white_space(#[trigger] cmd_line[j]),
        forall|j: int| i < j < k ==> #[trigger] cmd_line[j] == ' ',
        !is_white_space(cmd_line[k]),
        cmd_line[k] != '|',
    ensures
        stage_words(cmd_line.remove(i)) == stage_words(cmd_line),
{
    lemma_trimmed_fields_drop_leading_sep(cmd_line, '|', i, k);
    let f2 = fields(trim(cmd_line.remove(i)), '|');
    let p = cmd_line.subrange(i + 1, k);
    assert forall|j: int| 0 <= j < p.len() implies #[trigger] p[j] == ' ' by {
        assert(p[j] == cmd_line[i + 1 + j]);
    }
    lemma_parse_argv_space_prefix(p, f2[0]);
    let g = |stage: Seq<char>| parse_argv_spec(stage);
    assert(f2.update(0, p + f2[0]).map_values(g) =~= f2.map_values(g));
}

/// A `|` that ends a command line (before white space), after spaces that
/// follow a command whose quotes are balanced, makes an empty piece: taking
/// it out leaves the words of every command as they were (`ls | wc | `
/// runs `ls | wc`).
pub proof fn lemma_pipeline_words_ignore_trailing_bar(cmd_line: Seq<char>, i: int, k: int)
    requires
        0 <= k < i < cmd_line.len(),
        cmd_line[i] == '|',
        forall|j: int| i < j < cmd_line.len() ==> is_white_space(#[trigger] cmd_line[j]),
        forall|j: int| k < j < i ==> #[trigger] cmd_line[j] == ' ',
        !is_white_space(cmd_line[k]),
        cmd_line[k] != '|',
        split_on(fields(trim(cmd_line.remove(i)), '|').last(), '"').len() % 2 == 1,
    ensures
        stage_words(cmd_line.remove(i)) == stage_words(cmd_line),
{
    lemma_trimmed_fields_drop_trailing_sep(cmd_line, '|', i, k);
    let f2 = fields(trim(cmd_line.remove(i)), '|');
    let p = cmd_line.subrange(k + 1, i);
    assert forall|j: int| 0 <= j < p.len() implies #[trigger] p[j] == ' ' by {
        assert(p[j] == cmd_line[k + 1 + j]);
    }
    lemma_parse_argv_space_suffix(f2.last(), p);
    let g = |stage: Seq<char>| parse_argv_spec(stage);
    assert(f2.update(f2.len() - 1, f2.last() + p).map_values(g) =~= f2.map_values(g));
}

/// Any number of `&`s at the end of a line put the last command in the
/// background and change none of the commands; with none, it runs in the
/// foreground.
pub proof fn lemma_trailing_ampersands(cmd_line: Seq<char>, amps: Seq<char>)
    requires
        forall|j: int| 0 <= j < amps.len() ==> #[trigger] amps[j] == '&',
        cmd_line.len() == 0 || cmd_line.last() != '&',
    ensures
        fields(trim_end_char(cmd_line + amps, '&'), '|') == fields(cmd_line, '|'),
        ((cmd_line + amps).len() > 0 && (cmd_line + amps).last() == '&') == (amps.len() > 0),
{
    crate::text::lemma_trim_end_char_drops_run(cmd_line, amps, '&');
    if amps.len() > 0 {
        assert((cmd_line + amps).last() == amps[amps.len() - 1]);
    } else {
        assert(cmd_line + amps =~= cmd_line);
        if cmd_line.len() > 0 {
            assert(cmd_line.last() == cmd_line[cmd_line.len() - 1]);
        }
    }
}

/// The history that the lines `lines`, typed in order, leave: each line
/// trimmed, the blank ones left out.
pub open spec fn typed_history(lines: Seq<Seq<char>>) -> Seq<Seq<char>> {
    lines.map_values(|l: Seq<char>| trim(l)).filter(nonempty())
}

/// One more line adds its trimmed text to the history, unless it is
/// blank; so a shell that took `lines` from a new start holds
/// `typed_history(lines)` (see `Shell::handle_line`).
pub proof fn lemma_typed_history_push(lines: Seq<Seq<char>>, line: Seq<char>)
    ensures
        typed_history(lines.push(line)) == if trim(line).len() > 0 {
            typed_history(lines).push(trim(line))
        } else {
            typed_history(lines)
        },
{
    let f = |l: Seq<char>| trim(l);
    assert(lines.push(line).map_values(f) =~= lines.map_values(f).push(trim(line)));
    lines.map_values(f).lemma_filter_push(trim(line), nonempty());
}

/// How the program starts, from its options.
#[derive(Debug, PartialEq, Eq)]
pub enum Launch {
    /// Print the usage and stop with status 1.
    Usage,
    /// Run the given command line once, with an empty prompt.
    RunOnce(String),
    /// Read command lines at the prompt.
    Interactive,
}

/// How the program starts: `-h` or `--help` asks for the usage; otherwise
/// `-c` with a command line runs it once; with neither, the shell reads
/// lines at its prompt.
pub fn launch_mode(help: bool, command: Option<String>) -> (l: Launch)
    ensures
        help ==> l is Usage,
        !help && command is None ==> l is Interactive,
        !help && command is Some ==> l == Launch::RunOnce(command->0),
{
    if help {
        Launch::Usage
    } else {
        match command {
            Some(c) => Launch::RunOnce(c),
            None => Launch::Interactive,
        }
    }
}

} // verus!
