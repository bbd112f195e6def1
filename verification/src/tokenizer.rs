//! Splitting a command line into words and operators, with quoting,
//! backslash escapes and `$name` expansion.

use vstd::prelude::*;

use crate::declare::{Variables, get_var, valid_identifier};
use crate::text::{
    ascii_alnum, ascii_alpha, extend_chars, is_ascii_alnum, is_ascii_alpha, joined, str_chars,
    string_of,
};

verus! {

/// How a redirected stream opens its file.
#[derive(Debug, PartialEq, Eq, Structural, Clone, Copy)]
pub enum RedirectMode {
    /// `>`: the file is emptied first.
    Truncate,
    /// `>>`: output goes after what the file holds.
    Append,
}

/// One piece of a command line.
#[derive(Debug, PartialEq)]
pub enum Token {
    /// A word, after quotes, escapes and expansions are resolved.
    Word(String),
    /// A redirection of a stream (1 for stdout, 2 for stderr) to the next word.
    Redirect(u8, RedirectMode),
    /// `|`
    Pipeline,
    /// `&`
    Background,
}

/// Which quotes the scanner is inside.
#[derive(Debug, PartialEq, Eq, Structural, Clone, Copy)]
pub enum QuoteState {
    Unquoted,
    Single,
    Double,
}

/// A token as a mathematical value.
pub enum SpecToken {
    Word(Seq<char>),
    Redirect(u8, RedirectMode),
    Pipeline,
    Background,
}

impl View for Token {
    type V = SpecToken;

    open spec fn view(&self) -> SpecToken {
        match self {
            Token::Word(w) => SpecToken::Word(w@),
            Token::Redirect(fd, mode) => SpecToken::Redirect(*fd, *mode),
            Token::Pipeline => SpecToken::Pipeline,
            Token::Background => SpecToken::Background,
        }
    }
}

/// The views of a sequence of tokens.
pub open spec fn token_views(ts: Seq<Token>) -> Seq<SpecToken> {
    ts.map_values(|t: Token| t@)
}

/// Where the scanner stands between two characters: the tokens found so far,
/// the word being built, the quotes it is in, and whether a word is open
/// (a word may be open and still empty, as after `''`).
#[verifier::ext_equal]
pub struct ScanState {
    pub out: Seq<SpecToken>,
    pub buf: Seq<char>,
    pub quote: QuoteState,
    pub in_token: bool,
}

/// The state before the first character.
pub open spec fn scan_start() -> ScanState {
    ScanState { out: Seq::empty(), buf: Seq::empty(), quote: QuoteState::Unquoted, in_token: false }
}

/// Closes the open word, if any, and emits it.
pub open spec fn flush(st: ScanState) -> ScanState {
    if st.in_token {
        ScanState {
            out: st.out.push(SpecToken::Word(st.buf)),
            buf: Seq::empty(),
            quote: st.quote,
            in_token: false,
        }
    } else {
        st
    }
}

/// Emits `t` after closing the open word.
pub open spec fn flush_then(st: ScanState, t: SpecToken) -> ScanState {
    let f = flush(st);
    ScanState { out: f.out.push(t), buf: f.buf, quote: f.quote, in_token: f.in_token }
}

/// Adds `more` to the word, which is then open.
pub open spec fn extend_word(st: ScanState, more: Seq<char>) -> ScanState {
    ScanState { out: st.out, buf: st.buf + more, quote: st.quote, in_token: true }
}

/// Sets the quotes, and opens the word.
pub open spec fn with_quote(st: ScanState, q: QuoteState) -> ScanState {
    ScanState { out: st.out, buf: st.buf, quote: q, in_token: true }
}

/// The character at `i`, if there is one.
pub open spec fn char_at(cs: Seq<char>, i: int) -> Option<char> {
    if 0 <= i < cs.len() {
        Some(cs[i])
    } else {
        None
    }
}

/// The characters that a backslash escapes inside double quotes.
pub open spec fn escapable_in_double(c: char) -> bool {
    c == '"' || c == '\\' || c == '$' || c == '`' || c == '\n'
}

/// The first `}` at or after `j`, or the end.
pub open spec fn brace_end(cs: Seq<char>, j: int) -> int
    decreases cs.len() - j,
{
    if j < 0 || j >= cs.len() {
        cs.len() as int
    } else if cs[j] == '}' {
        j
    } else {
        brace_end(cs, j + 1)
    }
}

/// The end of the run of ASCII letters, digits and `_` that starts at `j`.
pub open spec fn ident_end(cs: Seq<char>, j: int) -> int
    decreases cs.len() - j,
{
    if j < 0 || j >= cs.len() {
        cs.len() as int
    } else if is_ascii_alnum(cs[j]) || cs[j] == '_' {
        ident_end(cs, j + 1)
    } else {
        j
    }
}

/// For a `$` at `i`: the variable name it introduces and where scanning goes on.
/// `${name}` takes everything up to the closing brace (or the end); `$name`
/// takes a letter or `_` and the letters, digits and `_` after it; otherwise
/// the name is empty.
pub open spec fn dollar_name(cs: Seq<char>, i: int) -> (Seq<char>, int) {
    if char_at(cs, i + 1) == Some('{') {
        let e = brace_end(cs, i + 2);
        (cs.subrange(i + 2, e), if e < cs.len() { e + 1 } else { e })
    } else if i + 1 < cs.len() && (is_ascii_alpha(cs[i + 1]) || cs[i + 1] == '_') {
        let e = ident_end(cs, i + 1);
        (cs.subrange(i + 1, e), e)
    } else {
        (Seq::empty(), i + 1)
    }
}

/// What the character at `i` does to the state, and where scanning goes on.
pub open spec fn scan_step(
    cs: Seq<char>,
    i: int,
    st: ScanState,
    vars: Map<Seq<char>, Seq<char>>,
) -> (ScanState, int) {
    let c = cs[i];
    if c == '>' && st.quote == QuoteState::Unquoted {
        let mode = if char_at(cs, i + 1) == Some('>') {
            RedirectMode::Append
        } else {
            RedirectMode::Truncate
        };
        let next = if char_at(cs, i + 1) == Some('>') {
            i + 2
        } else {
            i + 1
        };
        if st.in_token && (st.buf == seq!['1'] || st.buf == seq!['2']) {
            let fd: u8 = if st.buf == seq!['1'] {
                1
            } else {
                2
            };
            (
                ScanState {
                    out: st.out.push(SpecToken::Redirect(fd, mode)),
                    buf: Seq::empty(),
                    quote: st.quote,
                    in_token: false,
                },
                next,
            )
        } else {
            (flush_then(st, SpecToken::Redirect(1, mode)), next)
        }
    } else if c == '\\' && st.quote == QuoteState::Unquoted {
        if i + 1 < cs.len() {
            (extend_word(st, seq![cs[i + 1]]), i + 2)
        } else {
            (extend_word(st, Seq::empty()), i + 1)
        }
    } else if c == '\\' && st.quote == QuoteState::Double {
        if i + 1 < cs.len() && escapable_in_double(cs[i + 1]) {
            (extend_word(st, seq![cs[i + 1]]), i + 2)
        } else {
            (extend_word(st, seq!['\\']), i + 1)
        }
    } else if c == '$' && st.quote != QuoteState::Single {
        let (name, next) = dollar_name(cs, i);
        if name.len() == 0 {
            (extend_word(st, seq!['$']), next)
        } else if vars.contains_key(name) && vars[name].len() > 0 {
            (extend_word(st, vars[name]), next)
        } else {
            (st, next)
        }
    } else if c == '\'' && st.quote != QuoteState::Double {
        (
            with_quote(
                st,
                if st.quote == QuoteState::Single {
                    QuoteState::Unquoted
                } else {
                    QuoteState::Single
                },
            ),
            i + 1,
        )
    } else if c == '"' && st.quote != QuoteState::Single {
        (
            with_quote(
                st,
                if st.quote == QuoteState::Double {
                    QuoteState::Unquoted
                } else {
                    QuoteState::Double
                },
            ),
            i + 1,
        )
    } else if c == '&' && st.quote == QuoteState::Unquoted {
        (flush_then(st, SpecToken::Background), i + 1)
    } else if c == '|' && st.quote == QuoteState::Unquoted {
        (flush_then(st, SpecToken::Pipeline), i + 1)
    } else if (c == ' ' || c == '\t') && st.quote == QuoteState::Unquoted {
        (flush(st), i + 1)
    } else {
        (extend_word(st, seq![c]), i + 1)
    }
}

/// The tokens at the end of the line: an open word is emitted.
pub open spec fn scan_finish(st: ScanState) -> Seq<SpecToken> {
    flush(st).out
}

/// The tokens of `cs` scanned from `i` on, in state `st`.
pub open spec fn scan(
    cs: Seq<char>,
    i: int,
    st: ScanState,
    vars: Map<Seq<char>, Seq<char>>,
) -> Seq<SpecToken>
    decreases cs.len() - i,
{
    if i < 0 || i >= cs.len() {
        scan_finish(st)
    } else {
        let (st2, j) = scan_step(cs, i, st, vars);
        if i < j <= cs.len() {
            scan(cs, j, st2, vars)
        } else {
            scan_finish(st2)
        }
    }
}

/// The tokens of a whole line, with `vars` for the expansions.
pub open spec fn tokenize_spec(cs: Seq<char>, vars: Map<Seq<char>, Seq<char>>) -> Seq<SpecToken> {
    scan(cs, 0, scan_start(), vars)
}

/// The scanner's state as a value.
pub open spec fn state_of(out: Seq<Token>, buf: Seq<char>, quote: QuoteState, in_token: bool) -> ScanState {
    ScanState { out: token_views(out), buf, quote, in_token }
}

proof fn lemma_brace_end_bounds(cs: Seq<char>, j: int)
    requires
        0 <= j <= cs.len(),
    ensures
        j <= brace_end(cs, j) <= cs.len(),
        brace_end(cs, j) < cs.len() ==> cs[brace_end(cs, j)] == '}',
        forall|k: int| j <= k < brace_end(cs, j) ==> cs[k] != '}',
    decreases cs.len() - j,
{
    if j < cs.len() && cs[j] != '}' {
        lemma_brace_end_bounds(cs, j + 1);
    }
}

proof fn lemma_ident_end_bounds(cs: Seq<char>, j: int)
    requires
        0 <= j <= cs.len(),
    ensures
        j <= ident_end(cs, j) <= cs.len(),
    decreases cs.len() - j,
{
    if j < cs.len() && (is_ascii_alnum(cs[j]) || cs[j] == '_') {
        lemma_ident_end_bounds(cs, j + 1);
    }
}

/// The name after a `$` at `i`, and the position after it.
fn scan_dollar(cs: &Vec<char>, i: usize) -> (r: (Vec<char>, usize))
    requires
        i < cs.len(),
    ensures
        (r.0@, r.1 as int) == dollar_name(cs@, i as int),
        i < r.1 <= cs.len(),
{
    let mut name: Vec<char> = Vec::new();
    if i + 1 < cs.len() && cs[i + 1] == '{' {
        let mut j: usize = i + 2;
        while j < cs.len() && cs[j] != '}'
            invariant
                i + 2 <= j <= cs.len(),
                brace_end(cs@, i + 2) == brace_end(cs@, j as int),
                name@ == cs@.subrange(i + 2, j as int),
            decreases cs.len() - j,
        {
            name.push(cs[j]);
            j = j + 1;
            assert(name@ =~= cs@.subrange(i + 2, j as int));
        }
        assert(brace_end(cs@, j as int) == j);
        if j < cs.len() {
            (name, j + 1)
        } else {
            (name, j)
        }
    } else if i + 1 < cs.len() && (ascii_alpha(cs[i + 1]) || cs[i + 1] == '_') {
        let mut j: usize = i + 1;
        while j < cs.len() && (ascii_alnum(cs[j]) || cs[j] == '_')
            invariant
                i + 1 <= j <= cs.len(),
                ident_end(cs@, i + 1) == ident_end(cs@, j as int),
                name@ == cs@.subrange(i + 1, j as int),
            decreases cs.len() - j,
        {
            name.push(cs[j]);
            j = j + 1;
            assert(name@ =~= cs@.subrange(i + 1, j as int));
        }
        assert(ident_end(cs@, j as int) == j);
        (name, j)
    } else {
        assert(name@ =~= Seq::<char>::empty());
        (name, i + 1)
    }
}

/// Closes the open word, if any, and emits it.
fn flush_word(out: &mut Vec<Token>, buf: &mut Vec<char>, quote: QuoteState, in_token: &mut bool)
    ensures
        state_of(final(out)@, final(buf)@, quote, *final(in_token)) == flush(
            state_of(old(out)@, old(buf)@, quote, *old(in_token)),
        ),
{
    if *in_token {
        let w = string_of(buf);
        out.push(Token::Word(w));
        *buf = Vec::new();
        *in_token = false;
        assert(token_views(out@) =~= token_views(old(out)@).push(SpecToken::Word(old(buf)@)));
    }
}

/// Splits a command line into tokens. Quotes group characters into one word
/// and are dropped; a backslash outside quotes takes the next character
/// literally; `$name` and `${name}` outside single quotes expand to the
/// variable's value in `vars`; unquoted blanks separate words; `>`, `>>`,
/// `1>`, `2>`, `2>>`, `|` and `&` are operators.
pub fn tokenize(input: &str, vars: &Variables) -> (tokens: Vec<Token>)
    ensures
        token_views(tokens@) == tokenize_spec(input@, vars@),
{
    let cs = str_chars(input);
    let mut out: Vec<Token> = Vec::new();
    let mut buf: Vec<char> = Vec::new();
    let mut quote = QuoteState::Unquoted;
    let mut in_token = false;
    let mut i: usize = 0;
    assert(state_of(out@, buf@, quote, in_token) =~= scan_start());
    while i < cs.len()
        invariant
            i <= cs.len(),
            cs@ == input@,
            scan(cs@, i as int, state_of(out@, buf@, quote, in_token), vars@) == tokenize_spec(
                input@,
                vars@,
            ),
        decreases cs.len() - i,
    {
        let ghost st = state_of(out@, buf@, quote, in_token);
        let ghost expect = scan_step(cs@, i as int, st, vars@);
        let c = cs[i];
        let next: usize;
        if c == '>' && quote == QuoteState::Unquoted {
            let append = i + 1 < cs.len() && cs[i + 1] == '>';
            let mode = if append {
                RedirectMode::Append
            } else {
                RedirectMode::Truncate
            };
            next = if append {
                i + 2
            } else {
                i + 1
            };
            let one = in_token && buf.len() == 1 && buf[0] == '1';
            let two = in_token && buf.len() == 1 && buf[0] == '2';
            proof {
                if in_token && buf@.len() == 1 {
                    if buf@[0] == '1' {
                        assert(buf@ =~= seq!['1']);
                    }
                    if buf@[0] == '2' {
                        assert(buf@ =~= seq!['2']);
                    }
                }
                assert(buf@ == seq!['1'] ==> buf@.len() == 1 && buf@[0] == '1');
                assert(buf@ == seq!['2'] ==> buf@.len() == 1 && buf@[0] == '2');
            }
            if one || two {
                let fd: u8 = if one {
                    1
                } else {
                    2
                };
                buf = Vec::new();
                in_token = false;
                out.push(Token::Redirect(fd, mode));
            } else {
                flush_word(&mut out, &mut buf, quote, &mut in_token);
                out.push(Token::Redirect(1, mode));
            }
        } else if c == '\\' && quote == QuoteState::Unquoted {
            if i + 1 < cs.len() {
                buf.push(cs[i + 1]);
                next = i + 2;
            } else {
                next = i + 1;
            }
            in_token = true;
        } else if c == '\\' && quote == QuoteState::Double {
            let n = if i + 1 < cs.len() {
                cs[i + 1]
            } else {
                ' '
            };
            if i + 1 < cs.len() && (n == '"' || n == '\\' || n == '$' || n == '`' || n == '\n') {
                buf.push(n);
                next = i + 2;
            } else {
                buf.push('\\');
                next = i + 1;
            }
            in_token = true;
        } else if c == '$' && quote != QuoteState::Single {
            let (name, after) = scan_dollar(&cs, i);
            next = after;
            if name.len() == 0 {
                buf.push('$');
                in_token = true;
            } else {
                let key = string_of(&name);
                match get_var(vars, key.as_str()) {
                    Some(val) => {
                        let vcs = str_chars(val.as_str());
                        if vcs.len() > 0 {
                            extend_chars(&mut buf, val.as_str());
                            in_token = true;
                        }
                    },
                    None => {},
                }
            }
        } else if c == '\'' && quote != QuoteState::Double {
            quote =
            if quote == QuoteState::Single {
                QuoteState::Unquoted
            } else {
                QuoteState::Single
            };
            in_token = true;
            next = i + 1;
        } else if c == '"' && quote != QuoteState::Single {
            quote =
            if quote == QuoteState::Double {
                QuoteState::Unquoted
            } else {
                QuoteState::Double
            };
            in_token = true;
            next = i + 1;
        } else if c == '&' && quote == QuoteState::Unquoted {
            flush_word(&mut out, &mut buf, quote, &mut in_token);
            out.push(Token::Background);
            next = i + 1;
        } else if c == '|' && quote == QuoteState::Unquoted {
            flush_word(&mut out, &mut buf, quote, &mut in_token);
            out.push(Token::Pipeline);
            next = i + 1;
        } else if (c == ' ' || c == '\t') && quote == QuoteState::Unquoted {
            flush_word(&mut out, &mut buf, quote, &mut in_token);
            next = i + 1;
        } else {
            buf.push(c);
            in_token = true;
            next = i + 1;
        }
        assert(state_of(out@, buf@, quote, in_token) =~= expect.0);
        assert(next as int == expect.1);
        i = next;
    }
    flush_word(&mut out, &mut buf, quote, &mut in_token);
    out
}


/// Inside single quotes every character but `'` joins the word as it is.
proof fn lemma_single_quoted_run(
    cs: Seq<char>,
    i: int,
    j: int,
    st: ScanState,
    vars: Map<Seq<char>, Seq<char>>,
)
    requires
        0 <= i <= j <= cs.len(),
        st.quote == QuoteState::Single,
        forall|k: int| i <= k < j ==> cs[k] != '\'',
    ensures
        scan(cs, i, st, vars) == scan(
            cs,
            j,
            ScanState {
                out: st.out,
                buf: st.buf + cs.subrange(i, j),
                quote: QuoteState::Single,
                in_token: st.in_token || i < j,
            },
            vars,
        ),
    decreases j - i,
{
    if i < j {
        let next = extend_word(st, seq![cs[i]]);
        assert(scan_step(cs, i, st, vars) == (next, i + 1));
        lemma_single_quoted_run(cs, i + 1, j, next, vars);
        assert(next.buf + cs.subrange(i + 1, j) =~= st.buf + cs.subrange(i, j));
    } else {
        assert(st.buf + cs.subrange(i, j) =~= st.buf);
    }
}

/// Single quotes keep what they enclose literally: `'TEXT'`, where TEXT has
/// no `'`, is the one word TEXT, whatever blanks, operators, backslashes or
/// `$` it holds.
pub proof fn law_single_quotes_are_literal(text: Seq<char>, vars: Map<Seq<char>, Seq<char>>)
    requires
        !text.contains('\''),
    ensures
        tokenize_spec(seq!['\''] + text + seq!['\''], vars) == seq![SpecToken::Word(text)],
{
    let cs = seq!['\''] + text + seq!['\''];
    let n = cs.len() as int;
    let st0 = scan_start();
    let st1 = with_quote(st0, QuoteState::Single);
    assert(cs[0] == '\'');
    assert(scan_step(cs, 0, st0, vars) == (st1, 1int));
    assert forall|k: int| 1 <= k < n - 1 implies cs[k] != '\'' by {
        assert(cs[k] == text[k - 1]);
    }
    lemma_single_quoted_run(cs, 1, n - 1, st1, vars);
    assert(cs.subrange(1, n - 1) =~= text);
    let st2 = ScanState { out: st0.out, buf: text, quote: QuoteState::Single, in_token: true };
    let st3 = with_quote(st2, QuoteState::Unquoted);
    assert(cs[n - 1] == '\'');
    assert(scan_step(cs, n - 1, st2, vars) == (st3, n));
    assert(scan(cs, n - 1, st2, vars) == scan(cs, n, st3, vars));
    assert(scan_finish(st3) =~= seq![SpecToken::Word(text)]);
}

/// Inside double quotes every character but `"`, `\` and `$` joins the word
/// as it is.
proof fn lemma_double_quoted_run(
    cs: Seq<char>,
    i: int,
    j: int,
    st: ScanState,
    vars: Map<Seq<char>, Seq<char>>,
)
    requires
        0 <= i <= j <= cs.len(),
        st.quote == QuoteState::Double,
        forall|k: int| i <= k < j ==> cs[k] != '"' && cs[k] != '\\' && cs[k] != '$',
    ensures
        scan(cs, i, st, vars) == scan(
            cs,
            j,
            ScanState {
                out: st.out,
                buf: st.buf + cs.subrange(i, j),
                quote: QuoteState::Double,
                in_token: st.in_token || i < j,
            },
            vars,
        ),
    decreases j - i,
{
    if i < j {
        let next = extend_word(st, seq![cs[i]]);
        assert(scan_step(cs, i, st, vars) == (next, i + 1));
        lemma_double_quoted_run(cs, i + 1, j, next, vars);
        assert(next.buf + cs.subrange(i + 1, j) =~= st.buf + cs.subrange(i, j));
    } else {
        assert(st.buf + cs.subrange(i, j) =~= st.buf);
    }
}

/// Double quotes group what they enclose into one word: `"TEXT"`, where TEXT
/// has no `"`, `\` or `$`, is the one word TEXT, blanks, operators and single
/// quotes included.
pub proof fn law_double_quotes_group_a_word(text: Seq<char>, vars: Map<Seq<char>, Seq<char>>)
    requires
        !text.contains('"'),
        !text.contains('\\'),
        !text.contains('$'),
    ensures
        tokenize_spec(seq!['"'] + text + seq!['"'], vars) == seq![SpecToken::Word(text)],
{
    let cs = seq!['"'] + text + seq!['"'];
    let n = cs.len() as int;
    let st0 = scan_start();
    let st1 = with_quote(st0, QuoteState::Double);
    assert(cs[0] == '"');
    assert(scan_step(cs, 0, st0, vars) == (st1, 1int));
    assert forall|k: int| 1 <= k < n - 1 implies cs[k] != '"' && cs[k] != '\\' && cs[k] != '$' by {
        assert(cs[k] == text[k - 1]);
    }
    lemma_double_quoted_run(cs, 1, n - 1, st1, vars);
    assert(cs.subrange(1, n - 1) =~= text);
    let st2 = ScanState { out: st0.out, buf: text, quote: QuoteState::Double, in_token: true };
    let st3 = with_quote(st2, QuoteState::Unquoted);
    assert(cs[n - 1] == '"');
    assert(scan_step(cs, n - 1, st2, vars) == (st3, n));
    assert(scan(cs, n - 1, st2, vars) == scan(cs, n, st3, vars));
    assert(scan_finish(st3) =~= seq![SpecToken::Word(text)]);
}

/// Outside quotes a backslash takes the next character literally: `\C` is the
/// word C, whatever C is.
pub proof fn law_backslash_escapes_one_character(c: char, vars: Map<Seq<char>, Seq<char>>)
    ensures
        tokenize_spec(seq!['\\', c], vars) == seq![SpecToken::Word(seq![c])],
{
    let cs = seq!['\\', c];
    let st0 = scan_start();
    let st1 = extend_word(st0, seq![c]);
    assert(scan_step(cs, 0, st0, vars) == (st1, 2int));
    assert(tokenize_spec(cs, vars) == scan(cs, 2, st1, vars));
    assert(Seq::<char>::empty() + seq![c] =~= seq![c]);
    assert(scan_finish(st1) =~= seq![SpecToken::Word(seq![c])]);
}

/// A character with no meaning to the scanner outside quotes.
pub open spec fn is_plain(c: char) -> bool {
    c != '\'' && c != '"' && c != '\\' && c != '$' && c != '>' && c != '|' && c != '&' && c
        != ' ' && c != '\t'
}

/// A word of plain characters, at least one.
pub open spec fn plain_word(w: Seq<char>) -> bool {
    w.len() > 0 && forall|k: int| 0 <= k < w.len() ==> is_plain(#[trigger] w[k])
}

/// Outside quotes, plain characters join the word as they are.
proof fn lemma_plain_run(
    cs: Seq<char>,
    i: int,
    j: int,
    st: ScanState,
    vars: Map<Seq<char>, Seq<char>>,
)
    requires
        0 <= i <= j <= cs.len(),
        st.quote == QuoteState::Unquoted,
        forall|k: int| i <= k < j ==> is_plain(cs[k]),
    ensures
        scan(cs, i, st, vars) == scan(
            cs,
            j,
            ScanState {
                out: st.out,
                buf: st.buf + cs.subrange(i, j),
                quote: QuoteState::Unquoted,
                in_token: st.in_token || i < j,
            },
            vars,
        ),
    decreases j - i,
{
    if i < j {
        let next = extend_word(st, seq![cs[i]]);
        assert(is_plain(cs[i]));
        assert(scan_step(cs, i, st, vars) == (next, i + 1));
        lemma_plain_run(cs, i + 1, j, next, vars);
        assert(next.buf + cs.subrange(i + 1, j) =~= st.buf + cs.subrange(i, j));
    } else {
        assert(st.buf + cs.subrange(i, j) =~= st.buf);
    }
}

/// Joining splits off its first part.
proof fn lemma_joined_first(parts: Seq<Seq<char>>, sep: Seq<char>)
    requires
        parts.len() >= 2,
    ensures
        joined(parts, sep) == parts[0] + sep + joined(parts.drop_first(), sep),
    decreases parts.len(),
{
    let d = parts.drop_first();
    if parts.len() > 2 {
        lemma_joined_first(parts.drop_last(), sep);
        assert(parts.drop_last().drop_first() =~= d.drop_last());
        assert(joined(parts, sep) == joined(parts.drop_last(), sep) + sep + parts.last());
        assert(joined(d, sep) == joined(d.drop_last(), sep) + sep + d.last());
        assert(d.last() == parts.last());
        assert(parts.drop_last()[0] == parts[0]);
        assert(joined(parts, sep) =~= parts[0] + sep + joined(d, sep));
    } else {
        assert(d.len() == 1);
        assert(joined(d, sep) == d[0]);
        assert(parts.drop_last().len() == 1);
        assert(joined(parts.drop_last(), sep) == parts[0]);
        assert(joined(parts, sep) == joined(parts.drop_last(), sep) + sep + parts.last());
    }
}

/// The words of a line of plain words with single blanks between them, from
/// the position where they begin, after the tokens `out` already found.
proof fn lemma_plain_words(
    cs: Seq<char>,
    i: int,
    ws: Seq<Seq<char>>,
    out: Seq<SpecToken>,
    vars: Map<Seq<char>, Seq<char>>,
)
    requires
        0 <= i <= cs.len(),
        ws.len() > 0,
        forall|k: int| 0 <= k < ws.len() ==> plain_word(#[trigger] ws[k]),
        cs.skip(i) == joined(ws, seq![' ']),
    ensures
        scan(
            cs,
            i,
            ScanState { out, buf: Seq::empty(), quote: QuoteState::Unquoted, in_token: false },
            vars,
        ) == out + ws.map_values(|w: Seq<char>| SpecToken::Word(w)),
    decreases ws.len(),
{
    let w = ws[0];
    let st = ScanState { out, buf: Seq::empty(), quote: QuoteState::Unquoted, in_token: false };
    let e = i + w.len();
    assert(plain_word(ws[0]));
    if ws.len() == 1 {
        assert(joined(ws, seq![' ']) == w);
        assert(e == cs.len());
        assert forall|k: int| i <= k < e implies is_plain(cs[k]) by {
            assert(cs[k] == cs.skip(i)[k - i]);
        }
        lemma_plain_run(cs, i, e, st, vars);
        assert(cs.subrange(i, e) =~= w);
        assert(Seq::<char>::empty() + w =~= w);
        assert(ws.map_values(|w: Seq<char>| SpecToken::Word(w)) =~= seq![SpecToken::Word(w)]);
    } else {
        lemma_joined_first(ws, seq![' ']);
        let rest = ws.drop_first();
        assert(cs.skip(i) == w + seq![' '] + joined(rest, seq![' ']));
        assert forall|k: int| i <= k < e implies is_plain(cs[k]) by {
            assert(cs[k] == cs.skip(i)[k - i]);
        }
        lemma_plain_run(cs, i, e, st, vars);
        assert(cs.subrange(i, e) =~= w);
        let st2 = ScanState { out, buf: w, quote: QuoteState::Unquoted, in_token: true };
        assert(Seq::<char>::empty() + cs.subrange(i, e) =~= w);
        assert(cs[e] == cs.skip(i)[w.len() as int]);
        assert(cs[e] == ' ');
        let st3 = flush(st2);
        assert(scan_step(cs, e, st2, vars) == (st3, e + 1));
        assert(cs.skip(e + 1) =~= cs.skip(i).skip(w.len() + 1int));
        assert((w + seq![' '] + joined(rest, seq![' '])).skip(w.len() + 1int) =~= joined(
            rest,
            seq![' '],
        ));
        assert(cs.skip(e + 1) =~= joined(rest, seq![' ']));
        assert forall|k: int| 0 <= k < rest.len() implies plain_word(#[trigger] rest[k]) by {
            assert(rest[k] == ws[k + 1]);
        }
        lemma_plain_words(cs, e + 1, rest, out.push(SpecToken::Word(w)), vars);
        assert(out.push(SpecToken::Word(w)) + rest.map_values(|w: Seq<char>| SpecToken::Word(w))
            =~= out + ws.map_values(|w: Seq<char>| SpecToken::Word(w)));
    }
}

/// A line of plain words separated by single blanks is those words, in order.
pub proof fn law_plain_words_split_on_blanks(
    words: Seq<Seq<char>>,
    vars: Map<Seq<char>, Seq<char>>,
)
    requires
        words.len() > 0,
        forall|k: int| 0 <= k < words.len() ==> plain_word(#[trigger] words[k]),
    ensures
        tokenize_spec(joined(words, seq![' ']), vars) == words.map_values(
            |w: Seq<char>| SpecToken::Word(w),
        ),
{
    let cs = joined(words, seq![' ']);
    assert(cs.skip(0) =~= cs);
    lemma_plain_words(cs, 0, words, Seq::empty(), vars);
    assert(scan_start() == ScanState {
        out: Seq::<SpecToken>::empty(),
        buf: Seq::empty(),
        quote: QuoteState::Unquoted,
        in_token: false,
    });
    assert(Seq::<SpecToken>::empty() + words.map_values(|w: Seq<char>| SpecToken::Word(w))
        =~= words.map_values(|w: Seq<char>| SpecToken::Word(w)));
}

proof fn lemma_ident_end_of_identifier(cs: Seq<char>, j: int)
    requires
        1 <= j <= cs.len(),
        forall|k: int| 1 <= k < cs.len() ==> is_ascii_alnum(#[trigger] cs[k]) || cs[k] == '_',
    ensures
        ident_end(cs, j) == cs.len(),
    decreases cs.len() - j,
{
    if j < cs.len() {
        lemma_ident_end_of_identifier(cs, j + 1);
    }
}

/// `$NAME`, for a valid name, is the value of the variable, as one word taken
/// literally; an unset or empty variable gives no word at all.
pub proof fn law_variable_expansion(name: Seq<char>, vars: Map<Seq<char>, Seq<char>>)
    requires
        valid_identifier(name),
    ensures
        tokenize_spec(seq!['$'] + name, vars) == if vars.contains_key(name) && vars[name].len()
            > 0 {
            seq![SpecToken::Word(vars[name])]
        } else {
            Seq::<SpecToken>::empty()
        },
{
    let cs = seq!['$'] + name;
    let n = cs.len() as int;
    let st0 = scan_start();
    assert(cs[0] == '$');
    assert(cs[1] == name[0]);
    assert(is_ascii_alpha(cs[1]) || cs[1] == '_');
    assert forall|k: int| 1 <= k < n implies is_ascii_alnum(#[trigger] cs[k]) || cs[k] == '_' by {
        assert(cs[k] == name[k - 1]);
        if k > 1 {
            assert(is_ascii_alnum(name[k - 1]) || name[k - 1] == '_');
        }
    }
    lemma_ident_end_of_identifier(cs, 1);
    assert(cs.subrange(1, n) =~= name);
    assert(dollar_name(cs, 0) == (name, n));
    let (st1, j) = scan_step(cs, 0, st0, vars);
    assert(j == n);
    assert(tokenize_spec(cs, vars) == scan(cs, n, st1, vars));
    if vars.contains_key(name) && vars[name].len() > 0 {
        assert(st1 == extend_word(st0, vars[name]));
        assert(Seq::<char>::empty() + vars[name] =~= vars[name]);
        assert(scan_finish(st1) =~= seq![SpecToken::Word(vars[name])]);
    } else {
        assert(st1 == st0);
    }
}


/// Every redirect among the tokens names stream 1 or stream 2.
pub open spec fn redirects_name_stdout_or_stderr(ts: Seq<SpecToken>) -> bool {
    forall|k: int|
        0 <= k < ts.len() ==> (#[trigger] ts[k] matches SpecToken::Redirect(fd, _) ==> fd == 1
            || fd == 2)
}

proof fn lemma_scan_redirect_fds(
    cs: Seq<char>,
    i: int,
    st: ScanState,
    vars: Map<Seq<char>, Seq<char>>,
)
    requires
        redirects_name_stdout_or_stderr(st.out),
    ensures
        redirects_name_stdout_or_stderr(scan(cs, i, st, vars)),
    decreases cs.len() - i,
{
    if i < 0 || i >= cs.len() {
        assert(redirects_name_stdout_or_stderr(scan_finish(st)));
    } else {
        let (st2, j) = scan_step(cs, i, st, vars);
        assert(redirects_name_stdout_or_stderr(st2.out));
        if i < j <= cs.len() {
            lemma_scan_redirect_fds(cs, j, st2, vars);
        } else {
            assert(redirects_name_stdout_or_stderr(scan_finish(st2)));
        }
    }
}

/// A redirect always names standard output (1) or standard error (2):
/// `>` alone means 1, and only a word `1` or `2` just before it changes that.
pub proof fn law_redirects_name_stdout_or_stderr(
    cs: Seq<char>,
    vars: Map<Seq<char>, Seq<char>>,
)
    ensures
        redirects_name_stdout_or_stderr(tokenize_spec(cs, vars)),
{
    lemma_scan_redirect_fds(cs, 0, scan_start(), vars);
}

/// The redirect operator written with an optional stream digit and one or
/// two `>`.
pub open spec fn redirect_operator(digit: Seq<char>, append: bool) -> Seq<char> {
    digit + if append {
        seq!['>', '>']
    } else {
        seq!['>']
    }
}

/// `W > F` sends standard output to F, emptying it; `W >> F` sends it to the
/// end of F; `1>`/`1>>` are the same, and `2>`/`2>>` do the same for standard
/// error. For plain words W and F, the line `W OP F` is the word W, a redirect
/// of stream 2 when OP starts with `2` and of stream 1 otherwise, in append
/// mode exactly when OP has two `>`, and the word F.
pub proof fn law_redirect_operators(
    w: Seq<char>,
    digit: Seq<char>,
    append: bool,
    f: Seq<char>,
    vars: Map<Seq<char>, Seq<char>>,
)
    requires
        plain_word(w),
        plain_word(f),
        digit == Seq::<char>::empty() || digit == seq!['1'] || digit == seq!['2'],
    ensures
        tokenize_spec(w + seq![' '] + redirect_operator(digit, append) + seq![' '] + f, vars)
            == seq![
            SpecToken::Word(w),
            SpecToken::Redirect(
                if digit == seq!['2'] {
                    2u8
                } else {
                    1u8
                },
                if append {
                    RedirectMode::Append
                } else {
                    RedirectMode::Truncate
                },
            ),
            SpecToken::Word(f),
        ],
{
    let op = redirect_operator(digit, append);
    let cs = w + seq![' '] + op + seq![' '] + f;
    let wl = w.len() as int;
    let a = wl + 1;
    let g = a + digit.len();
    let e = a + op.len();
    let n = cs.len() as int;
    let fd: u8 = if digit == seq!['2'] {
        2
    } else {
        1
    };
    let mode = if append {
        RedirectMode::Append
    } else {
        RedirectMode::Truncate
    };
    assert(n == e + 1 + f.len());
    assert forall|k: int| 0 <= k < wl implies is_plain(cs[k]) by {
        assert(cs[k] == w[k]);
        assert(is_plain(w[k]));
    }
    let st0 = scan_start();
    lemma_plain_run(cs, 0, wl, st0, vars);
    assert(cs.subrange(0, wl) =~= w);
    assert(Seq::<char>::empty() + w =~= w);
    let st1 = ScanState { out: Seq::empty(), buf: w, quote: QuoteState::Unquoted, in_token: true };
    assert(cs[wl] == ' ');
    let st2 = flush(st1);
    assert(scan_step(cs, wl, st1, vars) == (st2, a));
    assert(scan(cs, wl, st1, vars) == scan(cs, a, st2, vars));
    // the operator
    assert(cs[g] == '>');
    if append {
        assert(cs[g + 1] == '>');
    } else {
        assert(cs[g + 1] == ' ');
    }
    let st4 = ScanState {
        out: seq![SpecToken::Word(w), SpecToken::Redirect(fd, mode)],
        buf: Seq::empty(),
        quote: QuoteState::Unquoted,
        in_token: false,
    };
    if digit.len() == 1 {
        assert(cs[a] == digit[0]);
        let st3 = extend_word(st2, digit);
        assert(scan_step(cs, a, st2, vars) == (st3, g));
        assert(scan(cs, a, st2, vars) == scan(cs, g, st3, vars));
        assert(st3.buf =~= digit);
        let (s4, nx) = scan_step(cs, g, st3, vars);
        assert(nx == e);
        assert(s4.out =~= st4.out);
        assert(s4 =~= st4);
        assert(scan(cs, g, st3, vars) == scan(cs, e, st4, vars));
    } else {
        assert(digit =~= Seq::<char>::empty());
        assert(g == a);
        let (s4, nx) = scan_step(cs, g, st2, vars);
        assert(nx == e);
        assert(s4.out =~= st4.out);
        assert(s4 =~= st4);
        assert(scan(cs, g, st2, vars) == scan(cs, e, st4, vars));
    }
    assert(cs[e] == ' ');
    assert(scan_step(cs, e, st4, vars) == (st4, e + 1));
    assert(scan(cs, e, st4, vars) == scan(cs, e + 1, st4, vars));
    assert forall|k: int| e + 1 <= k < n implies is_plain(cs[k]) by {
        assert(cs[k] == f[k - e - 1]);
        assert(is_plain(f[k - e - 1]));
    }
    lemma_plain_run(cs, e + 1, n, st4, vars);
    assert(cs.subrange(e + 1, n) =~= f);
    assert(Seq::<char>::empty() + f =~= f);
    let st5 = ScanState { out: st4.out, buf: f, quote: QuoteState::Unquoted, in_token: true };
    assert(scan_finish(st5) =~= seq![
        SpecToken::Word(w),
        SpecToken::Redirect(fd, mode),
        SpecToken::Word(f),
    ]);
}

/// `|` and `&` end the word before them and stand for themselves: for plain
/// words W and V, `W|V` is W, a pipe and V, and `W&` is W followed by the
/// background operator.
pub proof fn law_pipe_and_background_operators(
    w: Seq<char>,
    v: Seq<char>,
    vars: Map<Seq<char>, Seq<char>>,
)
    requires
        plain_word(w),
        plain_word(v),
    ensures
        tokenize_spec(w + seq!['|'] + v, vars) == seq![
            SpecToken::Word(w),
            SpecToken::Pipeline,
            SpecToken::Word(v),
        ],
        tokenize_spec(w + seq!['&'], vars) == seq![SpecToken::Word(w), SpecToken::Background],
{
    let wl = w.len() as int;
    let st0 = scan_start();
    let st1 = ScanState { out: Seq::empty(), buf: w, quote: QuoteState::Unquoted, in_token: true };
    assert(Seq::<char>::empty() + w =~= w);
    // W|V
    let cs = w + seq!['|'] + v;
    let n = cs.len() as int;
    assert forall|k: int| 0 <= k < wl implies is_plain(cs[k]) by {
        assert(cs[k] == w[k]);
        assert(is_plain(w[k]));
    }
    lemma_plain_run(cs, 0, wl, st0, vars);
    assert(cs.subrange(0, wl) =~= w);
    assert(cs[wl] == '|');
    let st2 = flush_then(st1, SpecToken::Pipeline);
    assert(scan_step(cs, wl, st1, vars) == (st2, wl + 1));
    assert(scan(cs, wl, st1, vars) == scan(cs, wl + 1, st2, vars));
    assert forall|k: int| wl + 1 <= k < n implies is_plain(cs[k]) by {
        assert(cs[k] == v[k - wl - 1]);
        assert(is_plain(v[k - wl - 1]));
    }
    lemma_plain_run(cs, wl + 1, n, st2, vars);
    assert(cs.subrange(wl + 1, n) =~= v);
    assert(st2.buf + v =~= v);
    let st3 = ScanState { out: st2.out, buf: v, quote: QuoteState::Unquoted, in_token: true };
    assert(scan_finish(st3) =~= seq![SpecToken::Word(w), SpecToken::Pipeline, SpecToken::Word(v)]);
    // W&
    let cs2 = w + seq!['&'];
    assert forall|k: int| 0 <= k < wl implies is_plain(cs2[k]) by {
        assert(cs2[k] == w[k]);
        assert(is_plain(w[k]));
    }
    lemma_plain_run(cs2, 0, wl, st0, vars);
    assert(cs2.subrange(0, wl) =~= w);
    assert(cs2[wl] == '&');
    let st4 = flush_then(st1, SpecToken::Background);
    assert(scan_step(cs2, wl, st1, vars) == (st4, wl + 1));
    assert(scan(cs2, wl, st1, vars) == scan(cs2, wl + 1, st4, vars));
    assert(scan_finish(st4) =~= seq![SpecToken::Word(w), SpecToken::Background]);
}

} // verus!
