//! From tokens to commands, and the builtin commands.

use vstd::prelude::*;

use crate::completion::Completions;
use crate::history::{History, listing, listing_start};
use crate::paths::{path_join, path_join_spec};
use crate::text::{joined, parse_usize, parse_usize_spec, str_chars, views};
use crate::declare::Variables;
use crate::tokenizer::{RedirectMode, SpecToken, Token, token_views, tokenize, tokenize_spec};

verus! {

/// What a builtin writes: the text for its standard output and for its
/// standard error, in the order it wrote them.
pub struct Io {
    pub out: String,
    pub err: String,
}

impl Io {
    /// Streams that nothing was written to yet.
    pub fn new() -> (io: Io)
        ensures
            io.out@ == Seq::<char>::empty(),
            io.err@ == Seq::<char>::empty(),
    {
        Io { out: String::new(), err: String::new() }
    }
}

/// A stream sent to a file.
pub struct Redirect {
    pub path: String,
    pub mode: RedirectMode,
}

impl View for Redirect {
    type V = (Seq<char>, RedirectMode);

    open spec fn view(&self) -> (Seq<char>, RedirectMode) {
        (self.path@, self.mode)
    }
}

/// One command of a line: the program, its arguments, where its streams go,
/// and whether it runs in the background.
pub struct ParsedCommand {
    pub program: String,
    pub args: Vec<String>,
    pub stdout_redirect: Option<Redirect>,
    pub stderr_redirect: Option<Redirect>,
    pub background: bool,
}

/// A command as a mathematical value.
pub struct SpecCommand {
    pub program: Seq<char>,
    pub args: Seq<Seq<char>>,
    pub stdout_redirect: Option<(Seq<char>, RedirectMode)>,
    pub stderr_redirect: Option<(Seq<char>, RedirectMode)>,
    pub background: bool,
}

/// The view of an optional redirect.
pub open spec fn redirect_view(r: Option<Redirect>) -> Option<(Seq<char>, RedirectMode)> {
    match r {
        Some(x) => Some(x@),
        None => None,
    }
}

impl View for ParsedCommand {
    type V = SpecCommand;

    open spec fn view(&self) -> SpecCommand {
        SpecCommand {
            program: self.program@,
            args: views(self.args@),
            stdout_redirect: redirect_view(self.stdout_redirect),
            stderr_redirect: redirect_view(self.stderr_redirect),
            background: self.background,
        }
    }
}

/// The command that the tokens after the first give, starting from `acc`:
/// a word is an argument; a redirect takes the word after it as its file
/// (stream 2 for stderr, any other for stdout), and when no word follows it
/// the redirect and the token after it are dropped; `|` is ignored and `&`
/// sets the command in the background.
pub open spec fn parse_rest(ts: Seq<SpecToken>, i: int, acc: SpecCommand) -> SpecCommand
    decreases ts.len() - i,
{
    if i < 0 || i >= ts.len() {
        acc
    } else {
        match ts[i] {
            SpecToken::Word(w) => parse_rest(
                ts,
                i + 1,
                SpecCommand { args: acc.args.push(w), ..acc },
            ),
            SpecToken::Redirect(fd, mode) => {
                let acc2 = if i + 1 < ts.len() && ts[i + 1] is Word {
                    let w = ts[i + 1]->Word_0;
                    if fd == 2 {
                        SpecCommand { stderr_redirect: Some((w, mode)), ..acc }
                    } else {
                        SpecCommand { stdout_redirect: Some((w, mode)), ..acc }
                    }
                } else {
                    acc
                };
                if i + 2 <= ts.len() {
                    parse_rest(ts, i + 2, acc2)
                } else {
                    acc2
                }
            },
            SpecToken::Pipeline => parse_rest(ts, i + 1, acc),
            SpecToken::Background => parse_rest(
                ts,
                i + 1,
                SpecCommand { background: true, ..acc },
            ),
        }
    }
}

/// The command that a list of tokens gives: its first token names the program
/// when it is a word (the program is empty otherwise), and the others are
/// read by `parse_rest`.
pub open spec fn parse_spec(ts: Seq<SpecToken>) -> SpecCommand {
    let program = if ts.len() > 0 && ts[0] is Word {
        ts[0]->Word_0
    } else {
        Seq::empty()
    };
    parse_rest(
        ts,
        1,
        SpecCommand {
            program,
            args: Seq::empty(),
            stdout_redirect: None,
            stderr_redirect: None,
            background: false,
        },
    )
}

/// A copy of a token.
pub fn copy_token(t: &Token) -> (r: Token)
    ensures
        r@ == t@,
{
    match t {
        Token::Word(w) => Token::Word(w.clone()),
        Token::Redirect(fd, mode) => Token::Redirect(*fd, *mode),
        Token::Pipeline => Token::Pipeline,
        Token::Background => Token::Background,
    }
}

/// Reads one command out of its tokens.
pub fn parse_command(tokens: Vec<Token>) -> (c: ParsedCommand)
    ensures
        c@ == parse_spec(token_views(tokens@)),
{
    let ghost ts = token_views(tokens@);
    let program = if tokens.len() > 0 {
        match &tokens[0] {
            Token::Word(p) => p.clone(),
            _ => String::new(),
        }
    } else {
        String::new()
    };
    let mut args: Vec<String> = Vec::new();
    let mut stdout_redirect: Option<Redirect> = None;
    let mut stderr_redirect: Option<Redirect> = None;
    let mut background = false;
    let mut i: usize = 1;
    let ghost init = parse_spec(ts);
    proof {
        let start = SpecCommand {
            program: program@,
            args: Seq::empty(),
            stdout_redirect: None,
            stderr_redirect: None,
            background: false,
        };
        assert(views(args@) =~= Seq::<Seq<char>>::empty());
        assert(parse_spec(ts) == parse_rest(ts, 1, start));
    }
    while i < tokens.len()
        invariant
            1 <= i <= tokens.len() || (i == 1 && tokens.len() == 0),
            ts == token_views(tokens@),
            parse_rest(
                ts,
                i as int,
                SpecCommand {
                    program: program@,
                    args: views(args@),
                    stdout_redirect: redirect_view(stdout_redirect),
                    stderr_redirect: redirect_view(stderr_redirect),
                    background,
                },
            ) == parse_spec(ts),
        decreases tokens.len() - i,
    {
        match &tokens[i] {
            Token::Word(w) => {
                let ghost before = args@;
                args.push(w.clone());
                assert(views(args@) =~= views(before).push(w@)) by {
                    assert(views(args@).len() == views(before).len() + 1);
                }
                i = i + 1;
            },
            Token::Redirect(fd, mode) => {
                if i + 1 < tokens.len() {
                    match &tokens[i + 1] {
                        Token::Word(w) => {
                            if *fd == 2 {
                                stderr_redirect = Some(Redirect { path: w.clone(), mode: *mode });
                            } else {
                                stdout_redirect = Some(Redirect { path: w.clone(), mode: *mode });
                            }
                        },
                        _ => {},
                    }
                    i = i + 2;
                } else {
                    i = tokens.len();
                }
            },
            Token::Pipeline => {
                i = i + 1;
            },
            Token::Background => {
                background = true;
                i = i + 1;
            },
        }
    }
    ParsedCommand { program, args, stdout_redirect, stderr_redirect, background }
}

/// The groups of tokens between the `|` operators, in order; there is always
/// at least one group, and the `|` tokens themselves are dropped.
pub open spec fn split_spec(ts: Seq<SpecToken>) -> Seq<Seq<SpecToken>>
    decreases ts.len(),
{
    if ts.len() == 0 {
        seq![Seq::empty()]
    } else {
        let g = split_spec(ts.drop_last());
        if ts.last() is Pipeline {
            g.push(Seq::empty())
        } else {
            g.update(g.len() - 1, g.last().push(ts.last()))
        }
    }
}

/// The views of a list of token groups.
pub open spec fn group_views(gs: Seq<Vec<Token>>) -> Seq<Seq<SpecToken>> {
    gs.map_values(|g: Vec<Token>| token_views(g@))
}

proof fn lemma_split_nonempty(ts: Seq<SpecToken>)
    ensures
        split_spec(ts).len() >= 1,
    decreases ts.len(),
{
    if ts.len() > 0 {
        lemma_split_nonempty(ts.drop_last());
    }
}

/// Splits the tokens of a line into the commands of its pipeline.
pub fn split_pipeline(tokens: Vec<Token>) -> (groups: Vec<Vec<Token>>)
    ensures
        group_views(groups@) == split_spec(token_views(tokens@)),
{
    let ghost ts = token_views(tokens@);
    let mut done: Vec<Vec<Token>> = Vec::new();
    let mut current: Vec<Token> = Vec::new();
    let mut i: usize = 0;
    assert(ts.take(0) =~= Seq::<SpecToken>::empty());
    assert(token_views(current@) =~= Seq::<SpecToken>::empty());
    assert(group_views(done@) =~= Seq::<Seq<SpecToken>>::empty());
    assert(group_views(done@).push(token_views(current@)) =~= split_spec(ts.take(0)));
    while i < tokens.len()
        invariant
            i <= tokens.len(),
            ts == token_views(tokens@),
            group_views(done@).push(token_views(current@)) == split_spec(ts.take(i as int)),
        decreases tokens.len() - i,
    {
        let ghost prev = ts.take(i as int);
        proof {
            lemma_split_nonempty(prev);
        }
        assert(ts.take(i + 1).drop_last() =~= prev);
        match &tokens[i] {
            Token::Pipeline => {
                let ghost before_done = done@;
                let ghost before_cur = current@;
                let g = current;
                done.push(g);
                current = Vec::new();
                assert(group_views(done@) =~= group_views(before_done).push(token_views(before_cur)));
                assert(token_views(current@) =~= Seq::<SpecToken>::empty());
                assert(group_views(done@).push(token_views(current@)) =~= split_spec(prev).push(
                    Seq::empty(),
                ));
            },
            t => {
                let c = copy_token(t);
                let ghost before = current@;
                current.push(c);
                assert(token_views(current@) =~= token_views(before).push(t@)) by {
                    assert(token_views(current@).len() == token_views(before).len() + 1);
                }
                let ghost g = split_spec(prev);
                assert(group_views(done@).push(token_views(current@)) =~= g.update(
                    g.len() - 1,
                    g.last().push(ts[i as int]),
                ));
            },
        }
        i = i + 1;
    }
    assert(ts.take(i as int) =~= ts);
    done.push(current);
    done
}


/// Whether two character sequences are the same.
pub fn chars_eq(a: &Vec<char>, b: &Vec<char>) -> (r: bool)
    ensures
        r == (a@ == b@),
{
    if a.len() != b.len() {
        return false;
    }
    let mut i: usize = 0;
    while i < a.len()
        invariant
            i <= a.len() == b.len(),
            a@.take(i as int) == b@.take(i as int),
        decreases a.len() - i,
    {
        if a[i] != b[i] {
            assert(a@[i as int] != b@[i as int]);
            return false;
        }
        assert(a@.take(i + 1) =~= a@.take(i as int).push(a@[i as int]));
        assert(b@.take(i + 1) =~= b@.take(i as int).push(b@[i as int]));
        i = i + 1;
    }
    assert(a@.take(i as int) =~= a@);
    assert(b@.take(i as int) =~= b@);
    true
}

/// Whether `s` is the option `-c`.
pub fn is_flag(s: &String, c: char) -> (r: bool)
    ensures
        r == (s@ == seq!['-', c]),
{
    let cs = str_chars(s.as_str());
    let r = cs.len() == 2 && cs[0] == '-' && cs[1] == c;
    assert(r ==> cs@ =~= seq!['-', c]);
    r
}

/// Whether the arguments start with the option `-c`.
pub open spec fn first_is(args: Seq<Seq<char>>, c: char) -> bool {
    args.len() > 0 && args[0] == seq!['-', c]
}

/// The commands that the shell runs itself.
#[derive(Debug, PartialEq, Eq, Structural, Clone, Copy)]
pub enum Builtin {
    Exit,
    Echo,
    Pwd,
    Cd,
    Type,
    Complete,
    Jobs,
    History,
}

/// The name that runs a builtin.
pub open spec fn builtin_name(b: Builtin) -> Seq<char> {
    match b {
        Builtin::Exit => "exit"@,
        Builtin::Echo => "echo"@,
        Builtin::Pwd => "pwd"@,
        Builtin::Cd => "cd"@,
        Builtin::Type => "type"@,
        Builtin::Complete => "complete"@,
        Builtin::Jobs => "jobs"@,
        Builtin::History => "history"@,
    }
}

/// The builtin that `name` runs, if any.
pub open spec fn builtin_named(name: Seq<char>) -> Option<Builtin> {
    if name == "exit"@ {
        Some(Builtin::Exit)
    } else if name == "echo"@ {
        Some(Builtin::Echo)
    } else if name == "pwd"@ {
        Some(Builtin::Pwd)
    } else if name == "cd"@ {
        Some(Builtin::Cd)
    } else if name == "type"@ {
        Some(Builtin::Type)
    } else if name == "complete"@ {
        Some(Builtin::Complete)
    } else if name == "jobs"@ {
        Some(Builtin::Jobs)
    } else if name == "history"@ {
        Some(Builtin::History)
    } else {
        None
    }
}

impl Builtin {
    /// The name that runs this builtin.
    pub fn name(&self) -> (r: &'static str)
        ensures
            r@ == builtin_name(*self),
    {
        match self {
            Builtin::Exit => "exit",
            Builtin::Echo => "echo",
            Builtin::Pwd => "pwd",
            Builtin::Cd => "cd",
            Builtin::Type => "type",
            Builtin::Complete => "complete",
            Builtin::Jobs => "jobs",
            Builtin::History => "history",
        }
    }
}

/// Every builtin the shell has.
pub fn build_builtins() -> (r: Vec<Builtin>)
    ensures
        r@ == seq![
            Builtin::Exit,
            Builtin::Echo,
            Builtin::Pwd,
            Builtin::Cd,
            Builtin::Type,
            Builtin::Complete,
            Builtin::Jobs,
            Builtin::History,
        ],
{
    let mut r: Vec<Builtin> = Vec::new();
    r.push(Builtin::Exit);
    r.push(Builtin::Echo);
    r.push(Builtin::Pwd);
    r.push(Builtin::Cd);
    r.push(Builtin::Type);
    r.push(Builtin::Complete);
    r.push(Builtin::Jobs);
    r.push(Builtin::History);
    assert(r@ =~= seq![
        Builtin::Exit,
        Builtin::Echo,
        Builtin::Pwd,
        Builtin::Cd,
        Builtin::Type,
        Builtin::Complete,
        Builtin::Jobs,
        Builtin::History,
    ]);
    r
}

/// The builtin that `name` runs, if any.
pub fn find_builtin(name: &str) -> (r: Option<Builtin>)
    ensures
        r == builtin_named(name@),
{
    let n = str_chars(name);
    if chars_eq(&n, &str_chars("exit")) {
        Some(Builtin::Exit)
    } else if chars_eq(&n, &str_chars("echo")) {
        Some(Builtin::Echo)
    } else if chars_eq(&n, &str_chars("pwd")) {
        Some(Builtin::Pwd)
    } else if chars_eq(&n, &str_chars("cd")) {
        Some(Builtin::Cd)
    } else if chars_eq(&n, &str_chars("type")) {
        Some(Builtin::Type)
    } else if chars_eq(&n, &str_chars("complete")) {
        Some(Builtin::Complete)
    } else if chars_eq(&n, &str_chars("jobs")) {
        Some(Builtin::Jobs)
    } else if chars_eq(&n, &str_chars("history")) {
        Some(Builtin::History)
    } else {
        None
    }
}

/// `echo`: writes its arguments, separated by single spaces, and a newline.
pub fn echo_cmd(command: &ParsedCommand, io: &mut Io)
    ensures
        final(io).out@ == old(io).out@ + joined(command@.args, " "@) + "\n"@,
        final(io).err@ == old(io).err@,
{
    let line = crate::text::join_strings(&command.args, " ");
    io.out.append(line.as_str());
    io.out.append("\n");
}

/// What `complete` does to the table and the streams, given its arguments:
/// `-p NAME` shows the completer of NAME (or says there is none), `-C PATH
/// NAME` registers PATH for NAME, `-r NAME` forgets it; anything else, or a
/// missing operand, does nothing.
pub open spec fn complete_effect(
    args: Seq<Seq<char>>,
    table: Map<Seq<char>, Seq<char>>,
    out: Seq<char>,
    err: Seq<char>,
) -> (Map<Seq<char>, Seq<char>>, Seq<char>, Seq<char>) {
    if first_is(args, 'p') {
        if args.len() >= 2 {
            let name = args[1];
            if table.contains_key(name) {
                (table, out + "complete -C '"@ + table[name] + "' "@ + name + "\n"@, err)
            } else {
                (table, out, err + "complete: "@ + name + ": no completion specification\n"@)
            }
        } else {
            (table, out, err)
        }
    } else if first_is(args, 'C') {
        if args.len() >= 3 {
            (table.insert(args[2], args[1]), out, err)
        } else {
            (table, out, err)
        }
    } else if first_is(args, 'r') {
        if args.len() >= 2 {
            (table.remove(args[1]), out, err)
        } else {
            (table, out, err)
        }
    } else {
        (table, out, err)
    }
}

/// `complete`: shows, registers and forgets completion commands.
pub fn complete_cmd(command: &ParsedCommand, table: &mut Completions, io: &mut Io)
    ensures
        (final(table)@, final(io).out@, final(io).err@) == complete_effect(
            command@.args,
            old(table)@,
            old(io).out@,
            old(io).err@,
        ),
{
    let args = &command.args;
    if args.len() == 0 {
        return;
    }
    if is_flag(&args[0], 'p') {
        if args.len() >= 2 {
            let name = &args[1];
            match table.get(name.as_str()) {
                Some(path) => {
                    io.out.append("complete -C '");
                    io.out.append(path.as_str());
                    io.out.append("' ");
                    io.out.append(name.as_str());
                    io.out.append("\n");
                },
                None => {
                    io.err.append("complete: ");
                    io.err.append(name.as_str());
                    io.err.append(": no completion specification\n");
                },
            }
        }
    } else if is_flag(&args[0], 'C') {
        if args.len() >= 3 {
            table.insert(args[2].clone(), args[1].clone());
        }
    } else if is_flag(&args[0], 'r') {
        if args.len() >= 2 {
            table.remove(args[1].as_str());
        }
    }
}

/// A history file operation that `history` asks for.
#[derive(Debug)]
pub enum HistoryFileRequest {
    /// `-a PATH`: append the entries not yet saved.
    Append(String),
    /// `-r PATH`: read the file's lines into the history.
    Read(String),
    /// `-w PATH`: write the whole history.
    Write(String),
}

/// A file request as a value: which option, and the path.
pub open spec fn request_view(r: Option<HistoryFileRequest>) -> Option<(char, Seq<char>)> {
    match r {
        Some(HistoryFileRequest::Append(p)) => Some(('a', p@)),
        Some(HistoryFileRequest::Read(p)) => Some(('r', p@)),
        Some(HistoryFileRequest::Write(p)) => Some(('w', p@)),
        None => None,
    }
}

/// The file operation that `history` with these arguments asks for.
pub open spec fn history_request(args: Seq<Seq<char>>) -> Option<(char, Seq<char>)> {
    if first_is(args, 'a') || first_is(args, 'r') || first_is(args, 'w') {
        if args.len() >= 2 {
            Some((args[0][1], args[1]))
        } else {
            None
        }
    } else {
        None
    }
}

/// Whether `history` with these arguments lists the history.
pub open spec fn history_lists(args: Seq<Seq<char>>) -> bool {
    !(first_is(args, 'a') || first_is(args, 'r') || first_is(args, 'w'))
}

/// The limit of a listing: the first argument read as a number, if it is one.
pub open spec fn history_limit(args: Seq<Seq<char>>) -> Option<usize> {
    if args.len() > 0 {
        parse_usize_spec(args[0])
    } else {
        None
    }
}

/// `history`: with `-a`, `-r` or `-w` and a path, asks for that file
/// operation (and does nothing without a path); otherwise lists the history,
/// only the last N entries when the first argument is a number N.
pub fn history_cmd(command: &ParsedCommand, history: &History, io: &mut Io) -> (r: Option<
    HistoryFileRequest,
>)
    ensures
        request_view(r) == history_request(command@.args),
        final(io).err@ == old(io).err@,
        final(io).out@ == if history_lists(command@.args) {
            old(io).out@ + listing(
                history@.entries,
                listing_start(history@.entries.len(), history_limit(command@.args)),
                history@.entries.len() as int,
            )
        } else {
            old(io).out@
        },
{
    let args = &command.args;
    if args.len() > 0 && is_flag(&args[0], 'a') {
        if args.len() >= 2 {
            return Some(HistoryFileRequest::Append(args[1].clone()));
        }
        return None;
    }
    if args.len() > 0 && is_flag(&args[0], 'r') {
        if args.len() >= 2 {
            return Some(HistoryFileRequest::Read(args[1].clone()));
        }
        return None;
    }
    if args.len() > 0 && is_flag(&args[0], 'w') {
        if args.len() >= 2 {
            return Some(HistoryFileRequest::Write(args[1].clone()));
        }
        return None;
    }
    let limit = if args.len() > 0 {
        parse_usize(args[0].as_str())
    } else {
        None
    };
    history.print(&mut io.out, limit);
    None
}

/// The report of a failed history file operation: the path and the error,
/// with a colon between them except after a failed read.
pub open spec fn history_failure_text(req: (char, Seq<char>), error: Seq<char>) -> Seq<char> {
    if req.0 == 'r' {
        "history: "@ + req.1 + " "@ + error + "\n"@
    } else {
        "history: "@ + req.1 + ": "@ + error + "\n"@
    }
}

/// Reports that the file operation `req` failed with `error`.
pub fn history_failure(req: &HistoryFileRequest, error: &str, io: &mut Io)
    ensures
        final(io).err@ == old(io).err@ + history_failure_text(
            request_view(Some(*req))->0,
            error@,
        ),
        final(io).out@ == old(io).out@,
{
    match req {
        HistoryFileRequest::Read(path) => {
            io.err.append("history: ");
            io.err.append(path.as_str());
            io.err.append(" ");
        },
        HistoryFileRequest::Append(path) | HistoryFileRequest::Write(path) => {
            io.err.append("history: ");
            io.err.append(path.as_str());
            io.err.append(": ");
        },
    }
    io.err.append(error);
    io.err.append("\n");
}

/// `type`: says that its first argument is a builtin; for any other name it
/// gives the name back, to be looked up in `PATH` and reported with
/// `type_report`. Without arguments it does nothing.
pub fn type_cmd(command: &ParsedCommand, io: &mut Io) -> (lookup: Option<String>)
    ensures
        final(io).err@ == old(io).err@,
        command@.args.len() == 0 ==> lookup is None && final(io).out@ == old(io).out@,
        command@.args.len() > 0 && builtin_named(command@.args[0]) is Some ==> lookup is None
            && final(io).out@ == old(io).out@ + command@.args[0] + " is a shell builtin\n"@,
        command@.args.len() > 0 && builtin_named(command@.args[0]) is None ==> lookup is Some
            && lookup->0@ == command@.args[0] && final(io).out@ == old(io).out@,
{
    if command.args.len() == 0 {
        return None;
    }
    let target = &command.args[0];
    if find_builtin(target.as_str()).is_some() {
        io.out.append(target.as_str());
        io.out.append(" is a shell builtin\n");
        return None;
    }
    Some(target.clone())
}

/// Reports where `type` found `target` in `PATH`, or that it did not.
pub fn type_report(target: &str, found: Option<String>, io: &mut Io)
    ensures
        final(io).err@ == old(io).err@,
        final(io).out@ == old(io).out@ + match found {
            Some(path) => target@ + " is "@ + path@ + "\n"@,
            None => target@ + ": not found\n"@,
        },
{
    match found {
        Some(path) => {
            io.out.append(target);
            io.out.append(" is ");
            io.out.append(path.as_str());
            io.out.append("\n");
        },
        None => {
            io.out.append(target);
            io.out.append(": not found\n");
        },
    }
}


/// The directory that `cd` with these arguments changes to, given the home
/// directory: none without arguments; `~` is home, `~REST` is REST joined to
/// home, and both need a home; any other argument stands for itself.
pub open spec fn cd_destination(args: Seq<Seq<char>>, home: Option<Seq<char>>) -> Option<Seq<char>> {
    if args.len() == 0 {
        None
    } else if args[0] == seq!['~'] {
        home
    } else if args[0].len() > 0 && args[0][0] == '~' {
        match home {
            Some(h) => Some(path_join_spec(h, args[0].drop_first())),
            None => None,
        }
    } else {
        Some(args[0])
    }
}

/// `cd`: the directory to change to, given the home directory (`None`
/// when there is nothing to do).
pub fn cd_cmd(command: &ParsedCommand, home: Option<String>) -> (r: Option<String>)
    ensures
        match r {
            Some(d) => cd_destination(command@.args, match home {
                Some(h) => Some(h@),
                None => None,
            }) == Some(d@),
            None => cd_destination(command@.args, match home {
                Some(h) => Some(h@),
                None => None,
            }) is None,
        },
{
    if command.args.len() == 0 {
        return None;
    }
    let target = &command.args[0];
    let tc = str_chars(target.as_str());
    if tc.len() == 1 && tc[0] == '~' {
        assert(tc@ =~= seq!['~']);
        return home;
    }
    assert(target@ == seq!['~'] ==> tc@.len() == 1 && tc@[0] == '~');
    if tc.len() > 0 && tc[0] == '~' {
        match home {
            Some(h) => {
                let mut rest: Vec<char> = Vec::new();
                let mut i: usize = 1;
                while i < tc.len()
                    invariant
                        1 <= i <= tc.len(),
                        rest@ == tc@.subrange(1, i as int),
                    decreases tc.len() - i,
                {
                    rest.push(tc[i]);
                    i = i + 1;
                    assert(rest@ =~= tc@.subrange(1, i as int));
                }
                assert(rest@ =~= tc@.drop_first());
                let rs = crate::text::string_of(&rest);
                Some(path_join(h.as_str(), rs.as_str()))
            },
            None => None,
        }
    } else {
        Some(target.clone())
    }
}

/// Reports that `cd` could not change to `target`.
pub fn cd_failure(target: &str, io: &mut Io)
    ensures
        final(io).err@ == old(io).err@ + "cd: "@ + target@ + ": No such file or directory\n"@,
        final(io).out@ == old(io).out@,
{
    io.err.append("cd: ");
    io.err.append(target);
    io.err.append(": No such file or directory\n");
}


/// A copy of a list of tokens.
pub fn copy_tokens(ts: &Vec<Token>) -> (r: Vec<Token>)
    ensures
        token_views(r@) == token_views(ts@),
{
    let mut r: Vec<Token> = Vec::new();
    let mut i: usize = 0;
    while i < ts.len()
        invariant
            i <= ts.len(),
            token_views(r@) == token_views(ts@).take(i as int),
        decreases ts.len() - i,
    {
        let ghost before = r@;
        r.push(copy_token(&ts[i]));
        i = i + 1;
        assert(token_views(r@) =~= token_views(before).push(ts@[i - 1]@));
        assert(token_views(ts@).take(i as int) =~= token_views(ts@).take(i - 1).push(ts@[i - 1]@));
    }
    assert(token_views(ts@).take(i as int) =~= token_views(ts@));
    r
}

/// The commands of a line: none when it has no tokens, and otherwise one per
/// part of its pipeline, each read from that part's tokens.
pub open spec fn line_commands(line: Seq<char>, vars: Map<Seq<char>, Seq<char>>) -> Seq<SpecCommand> {
    let ts = tokenize_spec(line, vars);
    if ts.len() == 0 {
        Seq::empty()
    } else {
        split_spec(ts).map_values(|g: Seq<SpecToken>| parse_spec(g))
    }
}

/// The views of a list of commands.
pub open spec fn command_views(cs: Seq<ParsedCommand>) -> Seq<SpecCommand> {
    cs.map_values(|c: ParsedCommand| c@)
}

/// Reads a line into the commands of its pipeline, expanding variables from
/// `vars`; a line with no tokens gives no commands.
pub fn parse_line(line: &str, vars: &Variables) -> (cmds: Vec<ParsedCommand>)
    ensures
        command_views(cmds@) == line_commands(line@, vars@),
{
    let tokens = tokenize(line, vars);
    if tokens.len() == 0 {
        let cmds: Vec<ParsedCommand> = Vec::new();
        assert(command_views(cmds@) =~= line_commands(line@, vars@));
        return cmds;
    }
    let ghost ts = token_views(tokens@);
    let groups = split_pipeline(tokens);
    let ghost want = split_spec(ts).map_values(|g: Seq<SpecToken>| parse_spec(g));
    let mut cmds: Vec<ParsedCommand> = Vec::new();
    let mut i: usize = 0;
    while i < groups.len()
        invariant
            i <= groups.len(),
            group_views(groups@) == split_spec(ts),
            want == split_spec(ts).map_values(|g: Seq<SpecToken>| parse_spec(g)),
            command_views(cmds@) == want.take(i as int),
        decreases groups.len() - i,
    {
        let ghost before = cmds@;
        let g = copy_tokens(&groups[i]);
        assert(token_views(g@) == group_views(groups@)[i as int]);
        cmds.push(parse_command(g));
        i = i + 1;
        assert(command_views(cmds@) =~= command_views(before).push(want[i - 1]));
        assert(want.take(i as int) =~= want.take(i - 1).push(want[i - 1]));
    }
    assert(want.take(i as int) =~= want);
    cmds
}

/// The groups written one after the other.
pub open spec fn concat_groups(gs: Seq<Seq<SpecToken>>) -> Seq<SpecToken>
    decreases gs.len(),
{
    if gs.len() == 0 {
        Seq::empty()
    } else {
        concat_groups(gs.drop_last()) + gs.last()
    }
}

/// The tokens without the `|` operators.
pub open spec fn without_pipes(ts: Seq<SpecToken>) -> Seq<SpecToken>
    decreases ts.len(),
{
    if ts.len() == 0 {
        Seq::empty()
    } else if ts.last() is Pipeline {
        without_pipes(ts.drop_last())
    } else {
        without_pipes(ts.drop_last()).push(ts.last())
    }
}

/// How many `|` operators the tokens hold.
pub open spec fn count_pipes(ts: Seq<SpecToken>) -> nat
    decreases ts.len(),
{
    if ts.len() == 0 {
        0
    } else if ts.last() is Pipeline {
        count_pipes(ts.drop_last()) + 1
    } else {
        count_pipes(ts.drop_last())
    }
}

/// Splitting at `|` loses nothing else and keeps the order: the groups,
/// written one after the other, are the tokens without the `|` operators,
/// and there is one group more than there are `|` operators.
pub proof fn law_pipeline_split_keeps_tokens(ts: Seq<SpecToken>)
    ensures
        concat_groups(split_spec(ts)) == without_pipes(ts),
        split_spec(ts).len() == count_pipes(ts) + 1,
    decreases ts.len(),
{
    if ts.len() == 0 {
        let g = seq![Seq::<SpecToken>::empty()];
        assert(g.drop_last() =~= Seq::<Seq<SpecToken>>::empty());
        assert(concat_groups(g.drop_last()) == Seq::<SpecToken>::empty());
        assert(concat_groups(g) == concat_groups(g.drop_last()) + g.last());
        assert(concat_groups(g) =~= Seq::<SpecToken>::empty());
    } else {
        let p = ts.drop_last();
        law_pipeline_split_keeps_tokens(p);
        let g = split_spec(p);
        lemma_split_nonempty(p);
        if ts.last() is Pipeline {
            let g2 = g.push(Seq::<SpecToken>::empty());
            assert(g2.drop_last() =~= g);
            assert(concat_groups(g2) =~= concat_groups(g));
        } else {
            let g2 = g.update(g.len() - 1, g.last().push(ts.last()));
            assert(g2.drop_last() =~= g.drop_last());
            assert(concat_groups(g) == concat_groups(g.drop_last()) + g.last());
            assert(concat_groups(g2) =~= concat_groups(g).push(ts.last()));
        }
    }
}

/// The command that words alone give, from token `i` on.
proof fn lemma_parse_words(ws: Seq<Seq<char>>, i: int, acc: SpecCommand)
    requires
        1 <= i <= ws.len(),
    ensures
        parse_rest(ws.map_values(|w: Seq<char>| SpecToken::Word(w)), i, acc) == (SpecCommand {
            args: acc.args + ws.subrange(i, ws.len() as int),
            ..acc
        }),
    decreases ws.len() - i,
{
    let ts = ws.map_values(|w: Seq<char>| SpecToken::Word(w));
    if i < ws.len() {
        assert(ts[i] == SpecToken::Word(ws[i]));
        let acc2 = SpecCommand { args: acc.args.push(ws[i]), ..acc };
        lemma_parse_words(ws, i + 1, acc2);
        assert(acc2.args + ws.subrange(i + 1, ws.len() as int) =~= acc.args + ws.subrange(
            i,
            ws.len() as int,
        ));
    } else {
        assert(acc.args + ws.subrange(i, ws.len() as int) =~= acc.args);
    }
}

/// A command made of words only runs its first word with the others as its
/// arguments, with no redirects, in the foreground.
pub proof fn law_words_are_program_and_args(words: Seq<Seq<char>>)
    requires
        words.len() > 0,
    ensures
        parse_spec(words.map_values(|w: Seq<char>| SpecToken::Word(w))) == (SpecCommand {
            program: words[0],
            args: words.drop_first(),
            stdout_redirect: None,
            stderr_redirect: None,
            background: false,
        }),
{
    let ts = words.map_values(|w: Seq<char>| SpecToken::Word(w));
    assert(ts[0] == SpecToken::Word(words[0]));
    let acc = SpecCommand {
        program: words[0],
        args: Seq::empty(),
        stdout_redirect: None,
        stderr_redirect: None,
        background: false,
    };
    lemma_parse_words(words, 1, acc);
    assert(Seq::<Seq<char>>::empty() + words.subrange(1, words.len() as int) =~= words.drop_first());
}

/// After `complete -C PATH NAME`, `complete -p NAME` shows that command:
/// `complete -C 'PATH' NAME`.
pub proof fn law_complete_shows_what_was_registered(
    path: Seq<char>,
    name: Seq<char>,
    table: Map<Seq<char>, Seq<char>>,
    out: Seq<char>,
    err: Seq<char>,
)
    ensures
        ({
            let (t1, o1, e1) = complete_effect(seq![seq!['-', 'C'], path, name], table, out, err);
            complete_effect(seq![seq!['-', 'p'], name], t1, o1, e1) == (
                table.insert(name, path),
                out + "complete -C '"@ + path + "' "@ + name + "\n"@,
                err,
            )
        }),
{
    let a1 = seq![seq!['-', 'C'], path, name];
    let a2 = seq![seq!['-', 'p'], name];
    assert(first_is(a1, 'C') && !first_is(a1, 'p'));
    assert(first_is(a2, 'p'));
    assert(table.insert(name, path)[name] == path);
}

/// After `complete -r NAME`, `complete -p NAME` reports that NAME has no
/// completion command.
pub proof fn law_complete_forgets_what_was_removed(
    name: Seq<char>,
    table: Map<Seq<char>, Seq<char>>,
    out: Seq<char>,
    err: Seq<char>,
)
    ensures
        ({
            let (t1, o1, e1) = complete_effect(seq![seq!['-', 'r'], name], table, out, err);
            complete_effect(seq![seq!['-', 'p'], name], t1, o1, e1) == (
                table.remove(name),
                out,
                err + "complete: "@ + name + ": no completion specification\n"@,
            )
        }),
{
    let a1 = seq![seq!['-', 'r'], name];
    let a2 = seq![seq!['-', 'p'], name];
    assert(first_is(a1, 'r') && !first_is(a1, 'p') && !first_is(a1, 'C'));
    assert(first_is(a2, 'p'));
}

/// The words of a run of word tokens.
pub open spec fn word_texts(ts: Seq<SpecToken>) -> Seq<Seq<char>> {
    ts.map_values(|t: SpecToken| t->Word_0)
}

proof fn lemma_parse_word_run(ts: Seq<SpecToken>, i: int, j: int, acc: SpecCommand)
    requires
        1 <= i <= j <= ts.len(),
        forall|k: int| i <= k < j ==> (#[trigger] ts[k]) is Word,
    ensures
        parse_rest(ts, i, acc) == parse_rest(
            ts,
            j,
            SpecCommand { args: acc.args + word_texts(ts.subrange(i, j)), ..acc },
        ),
    decreases j - i,
{
    if i < j {
        assert(ts[i] is Word);
        let acc2 = SpecCommand { args: acc.args.push(ts[i]->Word_0), ..acc };
        lemma_parse_word_run(ts, i + 1, j, acc2);
        assert(acc2.args + word_texts(ts.subrange(i + 1, j)) =~= acc.args + word_texts(
            ts.subrange(i, j),
        ));
    } else {
        assert(acc.args + word_texts(ts.subrange(i, j)) =~= acc.args);
        assert(acc == SpecCommand { args: acc.args + word_texts(ts.subrange(i, j)), ..acc });
    }
}

/// A redirect sends its stream to the word after it, in the redirect's own
/// mode: for the tokens of `P ARGS... N>[>] F`, the program is P, the
/// arguments are ARGS, and stream 2 (when N is 2) or else standard output
/// goes to F, truncating or appending as the token says; the other stream
/// is not redirected and the command runs in the foreground.
pub proof fn law_redirect_keeps_file_and_mode(
    program: Seq<char>,
    args: Seq<Seq<char>>,
    fd: u8,
    mode: RedirectMode,
    file: Seq<char>,
)
    ensures
        ({
            let ts = seq![SpecToken::Word(program)] + args.map_values(
                |w: Seq<char>| SpecToken::Word(w),
            ) + seq![SpecToken::Redirect(fd, mode), SpecToken::Word(file)];
            let c = parse_spec(ts);
            &&& c.program == program
            &&& c.args == args
            &&& c.background == false
            &&& if fd == 2 {
                c.stderr_redirect == Some((file, mode)) && c.stdout_redirect is None
            } else {
                c.stdout_redirect == Some((file, mode)) && c.stderr_redirect is None
            }
        }),
{
    let ws = args.map_values(|w: Seq<char>| SpecToken::Word(w));
    let ts = seq![SpecToken::Word(program)] + ws + seq![
        SpecToken::Redirect(fd, mode),
        SpecToken::Word(file),
    ];
    let r: int = args.len() + 1int;
    assert(ts[0] == SpecToken::Word(program));
    let acc = SpecCommand {
        program,
        args: Seq::empty(),
        stdout_redirect: None,
        stderr_redirect: None,
        background: false,
    };
    assert forall|k: int| 1 <= k < r implies (#[trigger] ts[k]) is Word by {
        assert(ts[k] == ws[k - 1]);
    }
    lemma_parse_word_run(ts, 1, r, acc);
    assert(word_texts(ts.subrange(1, r)) =~= args) by {
        assert forall|k: int| 0 <= k < args.len() implies word_texts(ts.subrange(1, r))[k]
            == args[k] by {
            assert(ts.subrange(1, r)[k] == ts[k + 1]);
            assert(ts[k + 1] == ws[k]);
        }
    }
    let acc1 = SpecCommand { args: Seq::<Seq<char>>::empty() + args, ..acc };
    assert(Seq::<Seq<char>>::empty() + args =~= args);
    assert(ts[r] == SpecToken::Redirect(fd, mode));
    assert(ts[r + 1] == SpecToken::Word(file));
    assert(ts.len() == r + 2);
    let acc2 = if fd == 2 {
        SpecCommand { stderr_redirect: Some((file, mode)), ..acc1 }
    } else {
        SpecCommand { stdout_redirect: Some((file, mode)), ..acc1 }
    };
    assert(parse_rest(ts, r, acc1) == parse_rest(ts, r + 2, acc2));
    assert(parse_rest(ts, r + 2, acc2) == acc2);
}

/// `cd DIR`, where DIR does not start with `~`, changes to DIR itself (a
/// relative DIR stays relative to the current directory), whatever the home
/// directory is; `cd ~` changes to the home directory; `cd ~/DIR` changes
/// to `/DIR`, because the part after `~` is absolute; `cd ~NAME`, with NAME
/// not starting with `/`, changes to NAME inside the home directory.
pub proof fn law_cd_destination(
    args: Seq<Seq<char>>,
    home: Option<Seq<char>>,
    name: Seq<char>,
    dir: Seq<char>,
    h: Seq<char>,
)
    requires
        h.len() > 0,
        h.last() != '/',
        name.len() > 0,
        name[0] != '/',
    ensures
        args.len() > 0 && (args[0].len() == 0 || args[0][0] != '~') ==> cd_destination(args, home)
            == Some(args[0]),
        cd_destination(seq![seq!['~']], home) == home,
        cd_destination(seq![seq!['~', '/'] + dir], Some(h)) == Some(seq!['/'] + dir),
        cd_destination(seq![seq!['~'] + name], Some(h)) == Some(h + seq!['/'] + name),
        cd_destination(Seq::empty(), home) is None,
{
    let a1 = seq![seq!['~', '/'] + dir];
    assert(a1[0] != seq!['~']) by {
        assert(a1[0].len() != 1);
    }
    assert(a1[0].drop_first() =~= seq!['/'] + dir);
    let a2 = seq![seq!['~'] + name];
    assert(a2[0] != seq!['~']) by {
        assert(a2[0].len() != 1);
    }
    assert(a2[0].drop_first() =~= name);
    assert(a2[0][0] == '~');
    assert(a1[0][0] == '~');
}

/// A trailing `&` puts the command in the background and is no argument:
/// for the tokens of `P ARGS... &`, the program is P, the arguments are
/// ARGS, nothing is redirected, and the command runs in the background.
pub proof fn law_ampersand_runs_in_background(program: Seq<char>, args: Seq<Seq<char>>)
    ensures
        ({
            let ts = seq![SpecToken::Word(program)] + args.map_values(
                |w: Seq<char>| SpecToken::Word(w),
            ) + seq![SpecToken::Background];
            parse_spec(ts) == (SpecCommand {
                program,
                args,
                stdout_redirect: None,
                stderr_redirect: None,
                background: true,
            })
        }),
{
    let ws = args.map_values(|w: Seq<char>| SpecToken::Word(w));
    let ts = seq![SpecToken::Word(program)] + ws + seq![SpecToken::Background];
    let r: int = args.len() + 1int;
    assert(ts[0] == SpecToken::Word(program));
    let acc = SpecCommand {
        program,
        args: Seq::empty(),
        stdout_redirect: None,
        stderr_redirect: None,
        background: false,
    };
    assert forall|k: int| 1 <= k < r implies (#[trigger] ts[k]) is Word by {
        assert(ts[k] == ws[k - 1]);
    }
    lemma_parse_word_run(ts, 1, r, acc);
    assert(word_texts(ts.subrange(1, r)) =~= args) by {
        assert forall|k: int| 0 <= k < args.len() implies word_texts(ts.subrange(1, r))[k]
            == args[k] by {
            assert(ts.subrange(1, r)[k] == ts[k + 1]);
            assert(ts[k + 1] == ws[k]);
        }
    }
    assert(Seq::<Seq<char>>::empty() + args =~= args);
    let acc1 = SpecCommand { args: Seq::<Seq<char>>::empty() + args, ..acc };
    assert(ts[r] == SpecToken::Background);
    assert(ts.len() == r + 1);
    let acc2 = SpecCommand { background: true, ..acc1 };
    assert(parse_rest(ts, r, acc1) == parse_rest(ts, r + 1, acc2));
}

} // verus!
