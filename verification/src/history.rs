//! The command history: the lines entered, and how much of it a history
//! file already holds.

use vstd::prelude::*;

use crate::text::{decimal, extend_chars, pad_left, push_decimal, string_of, views};

verus! {

/// The entered lines, oldest first, and how many of them were last saved to
/// a file (a later append writes only those after).
pub struct History {
    entries: Vec<String>,
    append_cursor: usize,
}

/// A history as a mathematical value.
pub struct HistoryView {
    pub entries: Seq<Seq<char>>,
    pub saved: nat,
}

impl View for History {
    type V = HistoryView;

    closed spec fn view(&self) -> HistoryView {
        HistoryView { entries: views(self.entries@), saved: self.append_cursor as nat }
    }
}

/// The line that lists entry number `n` (counting from 1): the number
/// right-aligned in four columns, two spaces, the entry.
pub open spec fn entry_line(n: nat, e: Seq<char>) -> Seq<char> {
    pad_left(decimal(n), 4) + seq![' ', ' '] + e + seq!['\n']
}

/// The listing of the entries at positions `from` to `to` (not included),
/// numbered by their place in the whole history.
pub open spec fn listing(es: Seq<Seq<char>>, from: int, to: int) -> Seq<char>
    decreases to - from,
{
    if to <= from {
        Seq::empty()
    } else {
        listing(es, from, to - 1) + entry_line(to as nat, es[to - 1])
    }
}

/// Where a listing with an optional limit starts: only the last `n` entries
/// are listed when a limit `n` is given.
pub open spec fn listing_start(len: nat, limit: Option<usize>) -> int {
    match limit {
        Some(n) => if len >= n {
            len - n
        } else {
            0
        },
        None => 0,
    }
}

/// The text of a history file holding `es`: each entry on a line of its own.
pub open spec fn file_text(es: Seq<Seq<char>>) -> Seq<char>
    decreases es.len(),
{
    if es.len() == 0 {
        Seq::empty()
    } else {
        file_text(es.drop_last()) + es.last() + seq!['\n']
    }
}

/// The lines of a file that become entries: the non-empty ones, in order.
pub open spec fn loaded(lines: Seq<Seq<char>>) -> Seq<Seq<char>>
    decreases lines.len(),
{
    if lines.len() == 0 {
        Seq::empty()
    } else if lines.last().len() == 0 {
        loaded(lines.drop_last())
    } else {
        loaded(lines.drop_last()).push(lines.last())
    }
}

impl History {
    /// An empty history, nothing saved.
    pub fn new() -> (h: History)
        ensures
            h@.entries == Seq::<Seq<char>>::empty(),
            h@.saved == 0,
    {
        let h = History { entries: Vec::new(), append_cursor: 0 };
        assert(h@.entries =~= Seq::<Seq<char>>::empty());
        h
    }

    /// Records a line at the end.
    pub fn add(&mut self, line: String)
        ensures
            final(self)@.entries == old(self)@.entries.push(line@),
            final(self)@.saved == old(self)@.saved,
    {
        let ghost l = line@;
        self.entries.push(line);
        assert(self@.entries =~= old(self)@.entries.push(l));
    }

    /// Appends the listing to `out`: every entry, or the last `limit` ones,
    /// each numbered by its place in the history.
    pub fn print(&self, out: &mut String, limit: Option<usize>)
        ensures
            final(out)@ == old(out)@ + listing(
                self@.entries,
                listing_start(self@.entries.len(), limit),
                self@.entries.len() as int,
            ),
    {
        let len = self.entries.len();
        let start: usize = match limit {
            Some(n) => if len >= n {
                len - n
            } else {
                0
            },
            None => 0,
        };
        let ghost es = self@.entries;
        let mut i: usize = start;
        while i < len
            invariant
                start <= i <= len,
                len == self.entries.len(),
                es == views(self.entries@),
                out@ == old(out)@ + listing(es, start as int, i as int),
            decreases len - i,
        {
            let mut digits: Vec<char> = Vec::new();
            push_decimal(&mut digits, i + 1);
            assert(digits@ =~= decimal((i + 1) as nat));
            let mut line: Vec<char> = Vec::new();
            let mut k: usize = digits.len();
            while k < 4
                invariant
                    digits.len() <= k <= 4 || (digits.len() > 4 && k == digits.len()),
                    line@ =~= Seq::new((k - digits.len()) as nat, |j: int| ' '),
                decreases 4 - k,
            {
                line.push(' ');
                k = k + 1;
            }
            let mut d: usize = 0;
            let ghost pad = line@;
            while d < digits.len()
                invariant
                    d <= digits.len(),
                    line@ == pad + digits@.take(d as int),
                decreases digits.len() - d,
            {
                line.push(digits[d]);
                d = d + 1;
                assert(line@ =~= pad + digits@.take(d as int));
            }
            assert(digits@.take(d as int) =~= digits@);
            assert(line@ =~= pad_left(decimal((i + 1) as nat), 4));
            line.push(' ');
            line.push(' ');
            extend_chars(&mut line, self.entries[i].as_str());
            line.push('\n');
            assert(line@ =~= entry_line((i + 1) as nat, es[i as int]));
            let s = string_of(&line);
            out.append(s.as_str());
            i = i + 1;
            assert(out@ =~= old(out)@ + listing(es, start as int, i as int));
        }
    }

    /// Records the lines read from a history file: each non-empty one, in order.
    pub fn load_lines(&mut self, lines: &Vec<String>)
        ensures
            final(self)@.entries == old(self)@.entries + loaded(views(lines@)),
            final(self)@.saved == old(self)@.saved,
    {
        let mut i: usize = 0;
        while i < lines.len()
            invariant
                i <= lines.len(),
                self@.entries == old(self)@.entries + loaded(views(lines@).take(i as int)),
                self@.saved == old(self)@.saved,
            decreases lines.len() - i,
        {
            let ghost before = views(lines@).take(i as int);
            assert(views(lines@).take(i + 1).drop_last() =~= before);
            if !lines[i].as_str().is_empty() {
                self.add(lines[i].clone());
            }
            i = i + 1;
            assert(self@.entries =~= old(self)@.entries + loaded(views(lines@).take(i as int)));
        }
        assert(views(lines@).take(i as int) =~= views(lines@));
    }

    /// The text a history file gets when the whole history is written to it.
    pub fn file_contents(&self) -> (s: String)
        ensures
            s@ == file_text(self@.entries),
    {
        let s = self.text_from(0);
        assert(self@.entries.skip(0) =~= self@.entries);
        s
    }

    /// The text of the entries that are not yet in the file, or `None` when
    /// every entry is (and nothing is to be appended).
    pub fn unsaved_contents(&self) -> (r: Option<String>)
        ensures
            match r {
                Some(s) => self@.saved < self@.entries.len() && s@ == file_text(
                    self@.entries.skip(self@.saved as int),
                ),
                None => self@.saved >= self@.entries.len(),
            },
    {
        if self.append_cursor >= self.entries.len() {
            None
        } else {
            Some(self.text_from(self.append_cursor))
        }
    }

    /// Notes that the file now holds every entry.
    pub fn mark_saved(&mut self)
        ensures
            final(self)@.entries == old(self)@.entries,
            final(self)@.saved == old(self)@.entries.len(),
    {
        self.append_cursor = self.entries.len();
    }

    fn text_from(&self, from: usize) -> (s: String)
        requires
            from <= self.entries.len(),
        ensures
            s@ == file_text(self@.entries.skip(from as int)),
    {
        let ghost es = self@.entries.skip(from as int);
        let mut s = String::new();
        let mut i: usize = from;
        assert(es.take(0) =~= Seq::<Seq<char>>::empty());
        while i < self.entries.len()
            invariant
                from <= i <= self.entries.len(),
                es == views(self.entries@).skip(from as int),
                s@ == file_text(es.take(i - from)),
            decreases self.entries.len() - i,
        {
            let ghost before = es.take(i - from);
            assert(es.take(i + 1 - from).drop_last() =~= before);
            s.append(self.entries[i].as_str());
            s.append("\n");
            proof {
                reveal_strlit("\n");
            }
            i = i + 1;
            assert(s@ =~= file_text(es.take(i - from)));
        }
        assert(es.take(i - from) =~= es);
        s
    }
}

/// Records a line at the end of `history`.
pub fn add_history(history: &mut History, line: String)
    ensures
        final(history)@.entries == old(history)@.entries.push(line@),
        final(history)@.saved == old(history)@.saved,
{
    history.add(line);
}

/// Appends the listing of `history` to `out`, every entry or the last `limit`.
pub fn print_history(history: &History, out: &mut String, limit: Option<usize>)
    ensures
        final(out)@ == old(out)@ + listing(
            history@.entries,
            listing_start(history@.entries.len(), limit),
            history@.entries.len() as int,
        ),
{
    history.print(out, limit);
}

/// Records the lines read from a history file: each non-empty one, in order.
pub fn load_history_from_file(history: &mut History, lines: &Vec<String>)
    ensures
        final(history)@.entries == old(history)@.entries + loaded(views(lines@)),
        final(history)@.saved == old(history)@.saved,
{
    history.load_lines(lines);
}

/// The text that writing the whole history to a file puts there; once it is
/// written, `mark_saved` records it.
pub fn print_history_to_file(history: &History) -> (s: String)
    ensures
        s@ == file_text(history@.entries),
{
    history.file_contents()
}

/// The text that appending to a history file adds: the entries added since
/// the history was last saved, or `None` when there are none (the file is
/// then left alone). Once it is written, `mark_saved` records it.
pub fn append_history_to_file(history: &History) -> (r: Option<String>)
    ensures
        match r {
            Some(s) => history@.saved < history@.entries.len() && s@ == file_text(
                history@.entries.skip(history@.saved as int),
            ),
            None => history@.saved >= history@.entries.len(),
        },
{
    history.unsaved_contents()
}


/// A listing splits where any of its entries begins.
proof fn lemma_listing_split(es: Seq<Seq<char>>, a: int, b: int, c: int)
    requires
        a <= b <= c,
    ensures
        listing(es, a, c) == listing(es, a, b) + listing(es, b, c),
    decreases c - b,
{
    if b < c {
        lemma_listing_split(es, a, b, c - 1);
        assert(listing(es, a, c) =~= listing(es, a, b) + listing(es, b, c));
    } else {
        assert(listing(es, a, b) + Seq::<char>::empty() =~= listing(es, a, b));
    }
}

/// `history N` shows the end of what `history` shows: the full listing is
/// the lines before the last N entries followed by the limited listing.
pub proof fn law_limited_listing_is_a_suffix(es: Seq<Seq<char>>, n: usize)
    ensures
        listing(es, 0, es.len() as int) == listing(es, 0, listing_start(es.len(), Some(n)))
            + listing(es, listing_start(es.len(), Some(n)), es.len() as int),
{
    lemma_listing_split(es, 0, listing_start(es.len(), Some(n)), es.len() as int);
}

/// The file text of entries splits between any two of them.
proof fn lemma_file_text_split(a: Seq<Seq<char>>, b: Seq<Seq<char>>)
    ensures
        file_text(a + b) == file_text(a) + file_text(b),
    decreases b.len(),
{
    if b.len() == 0 {
        assert(a + b =~= a);
        assert(file_text(a) + Seq::<char>::empty() =~= file_text(a));
    } else {
        lemma_file_text_split(a, b.drop_last());
        assert((a + b).drop_last() =~= a + b.drop_last());
        assert((a + b).last() == b.last());
        assert(file_text(a + b) =~= file_text(a) + file_text(b));
    }
}

/// Writing the history to a file and later appending to it leaves the file
/// holding the whole history: the text written when the history held
/// `saved`, followed by what appending adds once `added` were entered, is
/// the text of all the entries.
pub proof fn law_append_completes_the_file(saved: Seq<Seq<char>>, added: Seq<Seq<char>>)
    ensures
        file_text(saved) + file_text((saved + added).skip(saved.len() as int)) == file_text(
            saved + added,
        ),
{
    assert((saved + added).skip(saved.len() as int) =~= added);
    lemma_file_text_split(saved, added);
}

/// Reading lines into the history keeps each non-empty line, in order: the
/// entries of a history file that has no empty line come back as they were.
pub proof fn law_loading_keeps_nonempty_lines(lines: Seq<Seq<char>>)
    requires
        forall|i: int| 0 <= i < lines.len() ==> (#[trigger] lines[i]).len() > 0,
    ensures
        loaded(lines) == lines,
    decreases lines.len(),
{
    if lines.len() > 0 {
        law_loading_keeps_nonempty_lines(lines.drop_last());
        assert(lines.drop_last().push(lines.last()) =~= lines);
    }
}

/// The first `\n` at or after `j`, or the end of the text.
pub open spec fn newline_from(t: Seq<char>, j: int) -> int
    decreases t.len() - j,
{
    if j < 0 || j >= t.len() {
        t.len() as int
    } else if t[j] == '\n' {
        j
    } else {
        newline_from(t, j + 1)
    }
}

/// A line without the `\r` of a `\r\n` ending.
pub open spec fn strip_cr(l: Seq<char>) -> Seq<char> {
    if l.len() > 0 && l.last() == '\r' {
        l.drop_last()
    } else {
        l
    }
}

/// The lines of a text as std's `BufRead::lines` reads them: each line ends
/// at a `\n`, which is dropped together with a `\r` just before it; a last
/// line without `\n` is kept as it is, and an empty text has no lines.
pub open spec fn text_lines(t: Seq<char>) -> Seq<Seq<char>>
    decreases t.len(),
{
    if t.len() == 0 {
        Seq::empty()
    } else {
        let k = newline_from(t, 0);
        if 0 <= k < t.len() {
            seq![strip_cr(t.take(k))] + text_lines(t.skip(k + 1))
        } else {
            seq![t]
        }
    }
}

/// An entry that a history file holds on one line and gives back: not empty,
/// with no `\n`, and not ending in `\r`.
pub open spec fn single_line_entry(e: Seq<char>) -> bool {
    &&& e.len() > 0
    &&& !e.contains('\n')
    &&& e.last() != '\r'
}

proof fn lemma_newline_after_line(e: Seq<char>, rest: Seq<char>, j: int)
    requires
        0 <= j <= e.len(),
        !e.contains('\n'),
    ensures
        newline_from(e + seq!['\n'] + rest, j) == e.len(),
    decreases e.len() - j,
{
    let t = e + seq!['\n'] + rest;
    if j < e.len() {
        assert(t[j] == e[j]);
        lemma_newline_after_line(e, rest, j + 1);
    } else {
        assert(t[j] == '\n');
    }
}

/// The lines of a written history file are its entries.
proof fn lemma_text_lines_of_file(es: Seq<Seq<char>>)
    requires
        forall|i: int| 0 <= i < es.len() ==> single_line_entry(#[trigger] es[i]),
    ensures
        text_lines(file_text(es)) == es,
    decreases es.len(),
{
    if es.len() > 0 {
        let e = es[0];
        let rest = es.drop_first();
        assert(single_line_entry(es[0]));
        lemma_file_text_split(seq![e], rest);
        assert(seq![e] + rest =~= es);
        assert(seq![e].drop_last() =~= Seq::<Seq<char>>::empty());
        assert(file_text(seq![e].drop_last()) == Seq::<char>::empty());
        assert(file_text(seq![e]) == file_text(seq![e].drop_last()) + seq![e].last() + seq!['\n']);
        assert(file_text(seq![e]) =~= e + seq!['\n']);
        let t = file_text(es);
        let r = file_text(rest);
        assert(t == e + seq!['\n'] + r);
        lemma_newline_after_line(e, r, 0);
        assert(t.take(e.len() as int) =~= e);
        assert(t.skip(e.len() + 1int) =~= r);
        assert(strip_cr(e) == e);
        assert forall|i: int| 0 <= i < rest.len() implies single_line_entry(#[trigger] rest[i]) by {
            assert(rest[i] == es[i + 1]);
        }
        lemma_text_lines_of_file(rest);
        assert(seq![e] + rest =~= es);
    }
}

/// A history written to a file reads back as the same entries: the lines
/// of the text that `print_history_to_file` gives are the entries, and
/// `load_history_from_file` of those lines adds every one of them, in order,
/// after the entries already there (when no entry is empty, holds `\n` or
/// ends in `\r`).
pub proof fn law_written_history_reads_back(prior: Seq<Seq<char>>, es: Seq<Seq<char>>)
    requires
        forall|i: int| 0 <= i < es.len() ==> single_line_entry(#[trigger] es[i]),
    ensures
        text_lines(file_text(es)) == es,
        prior + loaded(text_lines(file_text(es))) == prior + es,
{
    lemma_text_lines_of_file(es);
    assert forall|i: int| 0 <= i < es.len() implies (#[trigger] es[i]).len() > 0 by {
        assert(single_line_entry(es[i]));
    }
    law_loading_keeps_nonempty_lines(es);
}

} // verus!
