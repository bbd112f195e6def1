//! Paths: joining a directory and a name, and the places `PATH` names.

use vstd::prelude::*;

use crate::text::{push_char, str_chars, string_of, views};

verus! {

/// `rel` taken relative to `dir`: an absolute `rel` stands for itself;
/// otherwise it follows `dir`, with a `/` between them unless `dir` is empty
/// or already ends in one.
pub open spec fn path_join_spec(dir: Seq<char>, rel: Seq<char>) -> Seq<char> {
    if rel.len() > 0 && rel[0] == '/' {
        rel
    } else if dir.len() == 0 || dir.last() == '/' {
        dir + rel
    } else {
        dir + seq!['/'] + rel
    }
}

/// Joins `rel` to `dir` as std's `Path::join` does on Unix.
pub fn path_join(dir: &str, rel: &str) -> (r: String)
    ensures
        r@ == path_join_spec(dir@, rel@),
{
    let rc = str_chars(rel);
    if rc.len() > 0 && rc[0] == '/' {
        return string_of(&rc);
    }
    let dc = str_chars(dir);
    let mut s = string_of(&dc);
    if dc.len() > 0 && dc[dc.len() - 1] != '/' {
        push_char(&mut s, '/');
    }
    s.append(rel);
    s
}

/// The parts of `s` between its `:` separators, in order; an empty part
/// stays, and there is always at least one part.
pub open spec fn split_colons(s: Seq<char>) -> Seq<Seq<char>>
    decreases s.len(),
{
    if s.len() == 0 {
        seq![Seq::empty()]
    } else {
        let g = split_colons(s.drop_last());
        if s.last() == ':' {
            g.push(Seq::empty())
        } else {
            g.update(g.len() - 1, g.last().push(s.last()))
        }
    }
}

proof fn lemma_split_colons_nonempty(s: Seq<char>)
    ensures
        split_colons(s).len() >= 1,
    decreases s.len(),
{
    if s.len() > 0 {
        lemma_split_colons_nonempty(s.drop_last());
    }
}

/// The directories that a `PATH` value lists, as std's `env::split_paths`
/// reads it on Unix.
pub fn split_path_list(path_var: &str) -> (dirs: Vec<String>)
    ensures
        views(dirs@) == split_colons(path_var@),
{
    let cs = str_chars(path_var);
    let mut done: Vec<String> = Vec::new();
    let mut current: Vec<char> = Vec::new();
    let mut i: usize = 0;
    assert(cs@.take(0) =~= Seq::<char>::empty());
    assert(views(done@).push(current@) =~= split_colons(cs@.take(0)));
    while i < cs.len()
        invariant
            i <= cs.len(),
            cs@ == path_var@,
            views(done@).push(current@) == split_colons(cs@.take(i as int)),
        decreases cs.len() - i,
    {
        let ghost prev = cs@.take(i as int);
        proof {
            lemma_split_colons_nonempty(prev);
        }
        assert(cs@.take(i + 1).drop_last() =~= prev);
        let ghost before_done = done@;
        let ghost before_cur = current@;
        if cs[i] == ':' {
            done.push(string_of(&current));
            current = Vec::new();
            assert(views(done@) =~= views(before_done).push(before_cur));
            assert(views(done@).push(current@) =~= split_colons(prev).push(Seq::empty()));
        } else {
            current.push(cs[i]);
            let ghost g = split_colons(prev);
            assert(views(done@).push(current@) =~= g.update(g.len() - 1, g.last().push(cs@[i as int])));
        }
        i = i + 1;
    }
    assert(cs@.take(i as int) =~= cs@);
    let ghost before_done = done@;
    done.push(string_of(&current));
    assert(views(done@) =~= views(before_done).push(current@));
    done
}

/// The paths where a program is looked for: the program joined to each
/// directory of `PATH`, in order.
pub open spec fn candidate_paths(path_var: Seq<char>, program: Seq<char>) -> Seq<Seq<char>> {
    split_colons(path_var).map_values(|d: Seq<char>| path_join_spec(d, program))
}

/// The paths where `program` is looked for, in the order they are tried.
pub fn path_candidates(path_var: &str, program: &str) -> (r: Vec<String>)
    ensures
        views(r@) == candidate_paths(path_var@, program@),
{
    let dirs = split_path_list(path_var);
    let mut r: Vec<String> = Vec::new();
    let mut i: usize = 0;
    while i < dirs.len()
        invariant
            i <= dirs.len(),
            views(dirs@) == split_colons(path_var@),
            views(r@) == candidate_paths(path_var@, program@).take(i as int),
        decreases dirs.len() - i,
    {
        let ghost before = r@;
        r.push(path_join(dirs[i].as_str(), program));
        i = i + 1;
        assert(views(r@) =~= candidate_paths(path_var@, program@).take(i as int)) by {
            assert(views(before) =~= candidate_paths(path_var@, program@).take(i - 1));
        }
    }
    assert(candidate_paths(path_var@, program@).take(i as int) =~= candidate_paths(
        path_var@,
        program@,
    ));
    r
}

/// Whether a file's permission bits let someone execute it.
pub fn is_executable(mode: u32) -> (b: bool)
    ensures
        b == (mode & 0o111u32 != 0),
{
    mode & 0o111u32 != 0
}

} // verus!
