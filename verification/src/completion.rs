//! Completion: the programs offered for the word being typed, and the table
//! of completion commands that `complete` keeps.

use vstd::hash_map::StringHashMap;
use vstd::prelude::*;
use vstd::string::StringSliceAdditionalSpecFns;
use vstd::utf8::is_char_boundary;

use crate::text::push_char;

verus! {

/// The completion commands registered with `complete -C`: for each command
/// name, the path of the program that completes it.
pub struct Completions {
    table: StringHashMap<String>,
}

impl View for Completions {
    type V = Map<Seq<char>, Seq<char>>;

    closed spec fn view(&self) -> Map<Seq<char>, Seq<char>> {
        self.table@.map_values(|v: String| v@)
    }
}

/// The table as the shell starts: empty.
pub fn completions() -> (c: Completions)
    ensures
        c@ == Map::<Seq<char>, Seq<char>>::empty(),
{
    let c = Completions { table: StringHashMap::new() };
    assert(c@ =~= Map::<Seq<char>, Seq<char>>::empty());
    c
}

impl Completions {
    /// The completer registered for `name`, if any.
    pub fn get(&self, name: &str) -> (r: Option<String>)
        ensures
            match r {
                Some(p) => self@.contains_key(name@) && p@ == self@[name@],
                None => !self@.contains_key(name@),
            },
    {
        match self.table.get(name) {
            Some(p) => Some(p.clone()),
            None => None,
        }
    }

    /// Registers `path` as the completer of `name`, replacing any earlier one.
    pub fn insert(&mut self, name: String, path: String)
        ensures
            final(self)@ == old(self)@.insert(name@, path@),
    {
        let ghost n = name@;
        let ghost p = path@;
        self.table.insert(name, path);
        assert(self@ =~= old(self)@.insert(n, p));
    }

    /// Forgets the completer of `name`.
    pub fn remove(&mut self, name: &str)
        ensures
            final(self)@ == old(self)@.remove(name@),
    {
        self.table.remove(name);
        assert(self@ =~= old(self)@.remove(name@));
    }
}

/// One completion offered: what the list shows, and what replaces the word.
pub struct Candidate {
    pub display: String,
    pub replacement: String,
}

impl View for Candidate {
    type V = (Seq<char>, Seq<char>);

    open spec fn view(&self) -> (Seq<char>, Seq<char>) {
        (self.display@, self.replacement@)
    }
}

/// Completes the name of the program at the start of the line.
pub struct CommandCompleterHelper {
    pub programs: Vec<&'static str>,
}

/// Whether `pre` is a prefix of `s`.
pub open spec fn byte_prefix(pre: Seq<u8>, s: Seq<u8>) -> bool {
    pre.len() <= s.len() && s.take(pre.len() as int) == pre
}

/// The candidates for the typed bytes `pre`: each program that begins with
/// them, in order, shown as itself and completed with a space after it.
pub open spec fn candidates_for(ps: Seq<&'static str>, pre: Seq<u8>) -> Seq<(Seq<char>, Seq<char>)>
    decreases ps.len(),
{
    if ps.len() == 0 {
        Seq::empty()
    } else {
        let rest = candidates_for(ps.drop_last(), pre);
        if byte_prefix(pre, ps.last().spec_bytes()) {
            rest.push((ps.last()@, ps.last()@.push(' ')))
        } else {
            rest
        }
    }
}

/// The views of a list of candidates.
pub open spec fn candidate_views(cs: Seq<Candidate>) -> Seq<(Seq<char>, Seq<char>)> {
    cs.map_values(|c: Candidate| c@)
}

/// What completing at byte `pos` of `line` offers: nothing when the line is
/// empty or a space comes before `pos` (only the first word is completed),
/// and otherwise the programs that begin with the bytes before `pos`; the
/// word to replace always starts at 0.
pub open spec fn complete_spec(ps: Seq<&'static str>, line: &str, pos: int) -> (
    int,
    Seq<(Seq<char>, Seq<char>)>,
) {
    let pre = line.spec_bytes().take(pos);
    if pre.contains(32u8) || line@.len() == 0 {
        (0, Seq::empty())
    } else {
        (0, candidates_for(ps, pre))
    }
}

impl CommandCompleterHelper {
    /// The completions for the line being edited, with the cursor at byte
    /// `pos` (which must fall between two characters).
    pub fn complete(&self, line: &str, pos: usize) -> (r: (usize, Vec<Candidate>))
        requires
            pos <= line.spec_bytes().len(),
            is_char_boundary(line.spec_bytes(), pos as int),
        ensures
            (r.0 as int, candidate_views(r.1@)) == complete_spec(self.programs@, line, pos as int),
    {
        let bytes = line.as_bytes();
        let ghost pre = line.spec_bytes().take(pos as int);
        let mut k: usize = 0;
        let mut space = false;
        while k < pos
            invariant
                k <= pos <= bytes@.len(),
                bytes@ == line.spec_bytes(),
                pre == bytes@.take(pos as int),
                space == pre.take(k as int).contains(32u8),
            decreases pos - k,
        {
            if bytes[k] == 32u8 {
                space = true;
            }
            let ghost t = pre.take(k as int);
            assert(pre.take(k + 1) =~= t.push(bytes@[k as int]));
            k = k + 1;
            proof {
                if pre.take(k as int).contains(32u8) && !t.contains(32u8) {
                    let j = choose|j: int| 0 <= j < k && pre.take(k as int)[j] == 32u8;
                    if j < k - 1 {
                        assert(t[j] == 32u8);
                    }
                }
                if t.contains(32u8) {
                    let j = choose|j: int| 0 <= j < t.len() && t[j] == 32u8;
                    assert(pre.take(k as int)[j] == 32u8);
                }
                if bytes@[k - 1] == 32u8 {
                    assert(pre.take(k as int)[k - 1] == 32u8);
                }
            }
        }
        assert(pre.take(pos as int) =~= pre);
        if space || line.is_empty() {
            return (0, Vec::new());
        }
        let mut found: Vec<Candidate> = Vec::new();
        let mut i: usize = 0;
        while i < self.programs.len()
            invariant
                i <= self.programs.len(),
                pos <= bytes@.len(),
                pre == bytes@.take(pos as int),
                candidate_views(found@) == candidates_for(self.programs@.take(i as int), pre),
            decreases self.programs.len() - i,
        {
            let p: &'static str = self.programs[i];
            let pb = p.as_bytes();
            let mut matches = pb.len() >= pos;
            let mut j: usize = 0;
            while matches && j < pos
                invariant
                    j <= pos <= bytes@.len(),
                    pre == bytes@.take(pos as int),
                    pb@ == p.spec_bytes(),
                    matches ==> pos <= pb@.len(),
                    matches ==> pb@.take(j as int) == pre.take(j as int),
                    !matches ==> !byte_prefix(pre, pb@),
                decreases pos - j,
            {
                if pb[j] != bytes[j] {
                    matches = false;
                    assert(pb@.take(pos as int)[j as int] != pre[j as int]);
                } else {
                    assert(pb@.take(j + 1) =~= pb@.take(j as int).push(pb@[j as int]));
                    assert(pre.take(j + 1) =~= pre.take(j as int).push(pre[j as int]));
                }
                j = j + 1;
            }
            assert(matches ==> pre.take(pos as int) =~= pre);
            let ghost before = found@;
            let ghost ps = self.programs@.take(i + 1);
            assert(ps.drop_last() =~= self.programs@.take(i as int));
            if matches {
                let display = p.to_owned();
                let mut replacement = p.to_owned();
                push_char(&mut replacement, ' ');
                found.push(Candidate { display, replacement });
                assert(candidate_views(found@) =~= candidate_views(before).push((p@, p@.push(' '))));
            } else {
                assert(candidate_views(found@) =~= candidate_views(before));
            }
            i = i + 1;
        }
        assert(self.programs@.take(i as int) =~= self.programs@);
        (0, found)
    }
}

/// Whether program `j` begins with the typed bytes `pre` (or equals them)
/// and `x` is its offer: the program shown as itself and completed with a
/// space.
pub open spec fn offers_program(ps: Seq<&'static str>, pre: Seq<u8>, j: int, x: (Seq<char>, Seq<char>)) -> bool {
    &&& 0 <= j < ps.len()
    &&& pre.len() <= ps[j].spec_bytes().len()
    &&& ps[j].spec_bytes().take(pre.len() as int) == pre
    &&& x == (ps[j]@, ps[j]@.push(' '))
}

/// Whether `x` is the offer of some program that begins with `pre`.
pub open spec fn offered(ps: Seq<&'static str>, pre: Seq<u8>, x: (Seq<char>, Seq<char>)) -> bool {
    exists|j: int| #[trigger] offers_program(ps, pre, j, x)
}

/// The completions offered are exactly the programs whose bytes begin with
/// the typed bytes (a program equal to them included), each shown as itself
/// and completed with a space: every such program is offered, and every
/// offer is such a program.
pub proof fn law_candidates_are_the_matching_programs(ps: Seq<&'static str>, pre: Seq<u8>)
    ensures
        forall|j: int|
            0 <= j < ps.len() && pre.len() <= (#[trigger] ps[j]).spec_bytes().len()
                && ps[j].spec_bytes().take(pre.len() as int) == pre ==> candidates_for(
                ps,
                pre,
            ).contains((ps[j]@, ps[j]@.push(' '))),
        forall|k: int|
            0 <= k < candidates_for(ps, pre).len() ==> offered(
                ps,
                pre,
                #[trigger] candidates_for(ps, pre)[k],
            ),
        candidates_for(ps, pre).len() <= ps.len(),
    decreases ps.len(),
{
    if ps.len() > 0 {
        let d = ps.drop_last();
        law_candidates_are_the_matching_programs(d, pre);
        let rest = candidates_for(d, pre);
        let last = ps.last();
        let c = candidates_for(ps, pre);
        assert forall|j: int|
            0 <= j < ps.len() && pre.len() <= (#[trigger] ps[j]).spec_bytes().len()
                && ps[j].spec_bytes().take(pre.len() as int) == pre implies c.contains(
            (ps[j]@, ps[j]@.push(' ')),
        ) by {
            if j < ps.len() - 1 {
                assert(d[j] == ps[j]);
                assert(rest.contains((ps[j]@, ps[j]@.push(' '))));
                let m = choose|m: int| 0 <= m < rest.len() && rest[m] == (ps[j]@, ps[j]@.push(' '));
                if byte_prefix(pre, last.spec_bytes()) {
                    assert(c[m] == rest[m]);
                }
            } else {
                assert(byte_prefix(pre, last.spec_bytes()));
                assert(c[c.len() - 1] == (ps[j]@, ps[j]@.push(' ')));
            }
        }
        assert forall|k: int| 0 <= k < c.len() implies offered(ps, pre, #[trigger] c[k]) by {
            if k < rest.len() {
                assert(offered(d, pre, rest[k]));
                let j = choose|j: int| offers_program(d, pre, j, rest[k]);
                assert(d[j] == ps[j]);
                assert(c[k] == rest[k]);
                assert(offers_program(ps, pre, j, c[k]));
            } else {
                assert(byte_prefix(pre, last.spec_bytes()));
                assert(offers_program(ps, pre, ps.len() - 1, c[k]));
            }
        }
    } else {
        assert(candidates_for(ps, pre).len() == 0);
    }
}

/// A fully typed program name is completed to itself: on a line that is just
/// the (non-empty, space-free) name of one of the programs, with the cursor
/// at its end, that program is among the completions, followed by a space.
pub proof fn law_full_name_completes_to_itself(ps: Seq<&'static str>, i: int)
    requires
        0 <= i < ps.len(),
        ps[i]@.len() > 0,
        !ps[i].spec_bytes().contains(32u8),
    ensures
        complete_spec(ps, ps[i], ps[i].spec_bytes().len() as int).1.contains(
            (ps[i]@, ps[i]@.push(' ')),
        ),
{
    let b = ps[i].spec_bytes();
    assert(b.take(b.len() as int) =~= b);
    law_candidates_are_the_matching_programs(ps, b);
}

} // verus!
