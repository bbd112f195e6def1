//! A small interactive shell: tokenizing, parsing and the builtin commands,
//! with the state they keep (variables, history, completions, jobs).

pub mod text;
pub mod declare;
pub mod tokenizer;
pub mod commands;
pub mod history;
pub mod completion;
pub mod paths;
pub mod jobs;
pub mod dispatch;

pub use text::{join_strings, parse_usize, push_char, push_decimal, str_chars, string_of};
pub use declare::{Variables, get_var, is_valid_identifier, set_var, variables};
pub use tokenizer::{QuoteState, RedirectMode, Token, tokenize};
pub use commands::{
    Builtin, HistoryFileRequest, Io, ParsedCommand, Redirect, build_builtins, cd_cmd, cd_failure,
    complete_cmd, echo_cmd, find_builtin, history_cmd, history_failure, parse_command, parse_line,
    split_pipeline, type_cmd, type_report,
};
pub use history::{
    History, add_history, append_history_to_file, load_history_from_file, print_history,
    print_history_to_file,
};
pub use completion::{Candidate, CommandCompleterHelper, Completions, completions};
pub use paths::{is_executable, path_candidates, path_join, split_path_list};
pub use jobs::{Job, JobStatus, jobs_table, next_job_id};
pub use dispatch::{
    ErrTarget, OutTarget, StagePlan, job_command_line, job_started_line, not_found_line, plan_pipeline,
    plan_stage,
};
