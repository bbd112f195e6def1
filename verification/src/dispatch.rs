//! How a line's commands are run: for each command of a pipeline, whether the
//! shell runs it itself, where its input comes from and where its output and
//! errors go; and the lines the shell prints about what it started.

use vstd::prelude::*;

use crate::commands::{Builtin, ParsedCommand, Redirect, builtin_named, find_builtin};
use crate::text::{joined, push_decimal, decimal, string_of, views};

verus! {

/// Where a command's standard output goes.
pub enum OutTarget {
    /// The shell's own standard output.
    Inherit,
    /// A pipe to the next command.
    Pipe,
    /// A file.
    File(Redirect),
}

/// Where a command's standard error goes.
pub enum ErrTarget {
    /// The shell's own standard error.
    Inherit,
    /// A file.
    File(Redirect),
}

/// How one command of a pipeline runs.
pub struct StagePlan {
    /// The builtin that runs it, or `None` for a program found in `PATH`.
    pub builtin: Option<Builtin>,
    /// Whether a program reads the output of the command before it.
    pub stdin_from_previous: bool,
    pub stdout: OutTarget,
    pub stderr: ErrTarget,
    /// Whether it is started in the background (only a lone command can be).
    pub background: bool,
}

/// A target as a value: `None` for the shell's own stream, `Some(None)` for
/// a pipe, `Some(Some(file))` for a file.
pub open spec fn out_view(t: OutTarget) -> Option<Option<(Seq<char>, crate::tokenizer::RedirectMode)>> {
    match t {
        OutTarget::Inherit => None,
        OutTarget::Pipe => Some(None),
        OutTarget::File(r) => Some(Some(r@)),
    }
}

/// An error target as a value: `None` for the shell's own stream.
pub open spec fn err_view(t: ErrTarget) -> Option<(Seq<char>, crate::tokenizer::RedirectMode)> {
    match t {
        ErrTarget::Inherit => None,
        ErrTarget::File(r) => Some(r@),
    }
}

/// Whether `p` is how command `index` of `count` runs: a builtin when its
/// program names one; a program reads from a pipe unless it comes first;
/// output goes to the next command's pipe, except from the last command,
/// whose output goes to its redirect or the terminal; errors go to the
/// redirect or the terminal; only a lone command goes to the background.
pub open spec fn stage_plan_spec(c: crate::commands::SpecCommand, index: int, count: int, p: StagePlan) -> bool {
    &&& p.builtin == builtin_named(c.program)
    &&& p.stdin_from_previous == (index > 0 && p.builtin is None)
    &&& out_view(p.stdout) == if index == count - 1 {
        match c.stdout_redirect {
            Some(r) => Some(Some(r)),
            None => None,
        }
    } else {
        Some(None)
    }
    &&& err_view(p.stderr) == c.stderr_redirect
    &&& p.background == (count == 1 && c.background)
}

fn copy_redirect(r: &Redirect) -> (c: Redirect)
    ensures
        c@ == r@,
{
    Redirect { path: r.path.clone(), mode: r.mode }
}

/// How command `index` of a pipeline of `count` commands runs.
pub fn plan_stage(command: &ParsedCommand, index: usize, count: usize) -> (p: StagePlan)
    requires
        index < count,
    ensures
        stage_plan_spec(command@, index as int, count as int, p),
{
    let builtin = find_builtin(command.program.as_str());
    let stdout = if index + 1 == count {
        match &command.stdout_redirect {
            Some(r) => OutTarget::File(copy_redirect(r)),
            None => OutTarget::Inherit,
        }
    } else {
        OutTarget::Pipe
    };
    let stderr = match &command.stderr_redirect {
        Some(r) => ErrTarget::File(copy_redirect(r)),
        None => ErrTarget::Inherit,
    };
    StagePlan {
        builtin,
        stdin_from_previous: index > 0 && builtin.is_none(),
        stdout,
        stderr,
        background: count == 1 && command.background,
    }
}

/// How each command of a pipeline runs, in order.
pub fn plan_pipeline(commands: &Vec<ParsedCommand>) -> (plans: Vec<StagePlan>)
    ensures
        plans@.len() == commands@.len(),
        forall|i: int|
            0 <= i < commands@.len() ==> stage_plan_spec(
                commands@[i]@,
                i,
                commands@.len() as int,
                #[trigger] plans@[i],
            ),
{
    let mut plans: Vec<StagePlan> = Vec::new();
    let mut i: usize = 0;
    while i < commands.len()
        invariant
            i <= commands.len(),
            plans@.len() == i,
            forall|j: int|
                0 <= j < i ==> stage_plan_spec(
                    commands@[j]@,
                    j,
                    commands@.len() as int,
                    #[trigger] plans@[j],
                ),
        decreases commands.len() - i,
    {
        plans.push(plan_stage(&commands[i], i, commands.len()));
        i = i + 1;
    }
    plans
}

/// The command line of a job: the program and its arguments, separated by
/// single spaces.
pub fn job_command_line(command: &ParsedCommand) -> (s: String)
    ensures
        s@ == joined(seq![command@.program] + command@.args, " "@),
{
    let mut words: Vec<String> = Vec::new();
    words.push(command.program.clone());
    let mut i: usize = 0;
    while i < command.args.len()
        invariant
            i <= command.args.len(),
            views(words@) == seq![command.program@] + views(command.args@).take(i as int),
        decreases command.args.len() - i,
    {
        let ghost before = words@;
        words.push(command.args[i].clone());
        i = i + 1;
        assert(views(words@) =~= views(before).push(command.args@[i - 1]@));
        assert(views(command.args@).take(i as int) =~= views(command.args@).take(i - 1).push(
            command.args@[i - 1]@,
        ));
        assert(views(words@) =~= seq![command.program@] + views(command.args@).take(i as int));
    }
    assert(views(command.args@).take(i as int) =~= views(command.args@));
    crate::text::join_strings(&words, " ")
}

/// The line printed when a background job starts: `[id] pid`.
pub fn job_started_line(id: u32, pid: u32) -> (s: String)
    ensures
        s@ == seq!['['] + decimal(id as nat) + seq![']', ' '] + decimal(pid as nat),
{
    let mut cs: Vec<char> = Vec::new();
    cs.push('[');
    push_decimal(&mut cs, id as usize);
    cs.push(']');
    cs.push(' ');
    push_decimal(&mut cs, pid as usize);
    assert(cs@ =~= seq!['['] + decimal(id as nat) + seq![']', ' '] + decimal(pid as nat));
    string_of(&cs)
}

/// The line printed when a program is neither a builtin nor found in `PATH`.
pub fn not_found_line(program: &str) -> (s: String)
    ensures
        s@ == program@ + ": command not found"@,
{
    let mut s = String::new();
    s.append(program);
    s.append(": command not found");
    s
}

/// The commands of a pipeline are chained: every command but the last writes
/// into a pipe, every program after the first reads from the command before
/// it, the first command and the builtins read nothing from a pipe, and the
/// last command writes to its redirect file or to the terminal.
pub proof fn law_pipeline_stages_are_chained(
    cmds: Seq<crate::commands::SpecCommand>,
    plans: Seq<StagePlan>,
)
    requires
        plans.len() == cmds.len(),
        forall|i: int|
            0 <= i < cmds.len() ==> stage_plan_spec(cmds[i], i, cmds.len() as int, #[trigger] plans[i]),
    ensures
        forall|i: int|
            0 < i < cmds.len() && builtin_named(cmds[i].program) is None ==> (#[trigger] plans[i]).stdin_from_previous,
        forall|i: int|
            0 <= i < cmds.len() && builtin_named(cmds[i].program) is Some ==> !(#[trigger] plans[i]).stdin_from_previous,
        cmds.len() > 0 ==> !plans[0].stdin_from_previous,
        forall|i: int| 0 <= i < cmds.len() - 1 ==> (#[trigger] plans[i]).stdout is Pipe,
        cmds.len() > 0 ==> match cmds[cmds.len() - 1].stdout_redirect {
            Some(r) => plans[cmds.len() - 1].stdout matches OutTarget::File(f) && f@ == r,
            None => plans[cmds.len() - 1].stdout is Inherit,
        },
{
    assert forall|i: int| 0 <= i < cmds.len() - 1 implies (#[trigger] plans[i]).stdout is Pipe by {
        assert(stage_plan_spec(cmds[i], i, cmds.len() as int, plans[i]));
    }
    if cmds.len() > 0 {
        assert(stage_plan_spec(cmds[0], 0, cmds.len() as int, plans[0]));
        let l = cmds.len() - 1;
        assert(stage_plan_spec(cmds[l], l, cmds.len() as int, plans[l]));
    }
}

} // verus!
