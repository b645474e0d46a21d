//! Splitting source text into statement buffers, and buffers into words.
use vstd::prelude::*;

use crate::objects::{Position, TrackedChar};
use crate::text::is_space;

verus! {

/// What ended a buffer.
#[derive(Debug, Clone, Copy, PartialEq, Eq, Structural)]
pub enum Separator {
    /// `;`, the end of a statement.
    Semicolon,
    /// `{`, the start of a block.
    Open,
    /// `}`, the end of a block.
    Close,
    /// The end of the input.
    End,
}

/// Where the scanner stands: inside a quote (and which), in a comment, or
/// right after a backslash.
#[derive(Debug, Clone, Copy, PartialEq, Eq, Structural)]
pub struct LexState {
    pub quoted: bool,
    pub quote: char,
    pub commented: bool,
    pub escaped: bool,
}

pub open spec fn initial_state() -> LexState {
    LexState { quoted: false, quote: '"', commented: false, escaped: false }
}

pub open spec fn separator_of(c: char) -> Option<Separator> {
    if c == ';' {
        Some(Separator::Semicolon)
    } else if c == '{' {
        Some(Separator::Open)
    } else if c == '}' {
        Some(Separator::Close)
    } else {
        None
    }
}

/// One step of the scanner on `c`: the state after it, whether `c` is kept
/// in the buffer, and the separator it ends the buffer with, if any.
pub open spec fn lex_step(st: LexState, c: char) -> (LexState, bool, Option<Separator>) {
    if st.commented {
        if c == '\n' {
            (LexState { commented: false, ..st }, true, None)
        } else {
            (st, false, None)
        }
    } else if st.escaped {
        (LexState { escaped: false, ..st }, true, None)
    } else if c == '\\' {
        (LexState { escaped: true, ..st }, true, None)
    } else if st.quoted {
        if c == st.quote {
            (LexState { quoted: false, ..st }, true, None)
        } else {
            (st, true, None)
        }
    } else if c == '#' {
        (LexState { commented: true, ..st }, false, None)
    } else if c == '\'' || c == '"' {
        (LexState { quoted: true, quote: c, ..st }, true, None)
    } else if separator_of(c) is Some {
        (st, false, separator_of(c))
    } else {
        (st, true, None)
    }
}

/// Scans `cs` from `i` on: the kept characters, the index after the
/// separator, and the separator.
pub open spec fn scan(cs: Seq<char>, i: int, st: LexState, acc: Seq<char>) -> (
    Seq<char>,
    int,
    Separator,
)
    decreases cs.len() - i,
{
    if i < 0 || i >= cs.len() {
        (acc, cs.len() as int, Separator::End)
    } else {
        let (next, keep, sep) = lex_step(st, cs[i]);
        match sep {
            Some(s) => (acc, i + 1, s),
            None => scan(cs, i + 1, next, if keep {
                acc.push(cs[i])
            } else {
                acc
            }),
        }
    }
}

pub open spec fn characters(cs: Seq<TrackedChar>) -> Seq<char> {
    cs.map_values(|t: TrackedChar| t.character)
}

/// The buffer that starts at `start`.
pub open spec fn buffer_at(cs: Seq<TrackedChar>, start: int) -> (Seq<char>, int, Separator) {
    scan(characters(cs), start, initial_state(), Seq::empty())
}

pub proof fn lemma_scan_advances(cs: Seq<char>, i: int, st: LexState, acc: Seq<char>)
    requires
        0 <= i,
    ensures
        scan(cs, i, st, acc).1 <= cs.len(),
        i < cs.len() ==> scan(cs, i, st, acc).1 > i,
        scan(cs, i, st, acc).2 == Separator::End ==> scan(cs, i, st, acc).1 == cs.len(),
    decreases cs.len() - i,
{
    if i < cs.len() {
        let (next, keep, sep) = lex_step(st, cs[i]);
        if sep is None {
            lemma_scan_advances(cs, i + 1, next, if keep {
                acc.push(cs[i])
            } else {
                acc
            });
        }
    }
}

/// A raw buffer: the kept characters before its separator.
pub struct RawBuffer {
    pub text: Vec<char>,
    pub next: usize,
    pub separator: Separator,
}

fn separator_char(c: char) -> (r: Option<Separator>)
    ensures
        r == separator_of(c),
{
    if c == ';' {
        Some(Separator::Semicolon)
    } else if c == '{' {
        Some(Separator::Open)
    } else if c == '}' {
        Some(Separator::Close)
    } else {
        None
    }
}

/// Reads the buffer that starts at `start`, up to and including its
/// separator; comments are dropped and quoted separators kept.
pub fn next_buffer(cs: &[TrackedChar], start: usize) -> (r: RawBuffer)
    requires
        start <= cs@.len(),
    ensures
        (r.text@, r.next as int, r.separator) == buffer_at(cs@, start as int),
        start < r.next <= cs@.len() || (start == cs@.len() && r.next == start),
{
    let ghost chars = characters(cs@);
    let mut st = LexState { quoted: false, quote: '"', commented: false, escaped: false };
    let mut text: Vec<char> = Vec::new();
    let mut i: usize = start;
    proof {
        lemma_scan_advances(chars, start as int, st, text@);
    }
    while i < cs.len()
        invariant
            start <= i <= cs@.len(),
            chars == characters(cs@),
            chars.len() == cs@.len(),
            scan(chars, start as int, initial_state(), Seq::empty()) == scan(
                chars,
                i as int,
                st,
                text@,
            ),
        decreases cs@.len() - i,
    {
        let c = cs[i].character;
        assert(chars[i as int] == c);
        let mut keep = true;
        let mut sep: Option<Separator> = None;
        if st.commented {
            if c == '\n' {
                st.commented = false;
            } else {
                keep = false;
            }
        } else if st.escaped {
            st.escaped = false;
        } else if c == '\\' {
            st.escaped = true;
        } else if st.quoted {
            if c == st.quote {
                st.quoted = false;
            }
        } else if c == '#' {
            st.commented = true;
            keep = false;
        } else if c == '\'' || c == '"' {
            st.quoted = true;
            st.quote = c;
        } else {
            sep = separator_char(c);
            if sep.is_some() {
                keep = false;
            }
        }
        match sep {
            Some(s) => {
                return RawBuffer { text, next: i + 1, separator: s };
            },
            None => {},
        }
        if keep {
            text.push(c);
        }
        i = i + 1;
    }
    RawBuffer { text, next: i, separator: Separator::End }
}

/// `s` without its leading white space.
pub open spec fn trim_start(s: Seq<char>) -> Seq<char>
    decreases s.len(),
{
    if s.len() > 0 && is_space(s[0]) {
        trim_start(s.drop_first())
    } else {
        s
    }
}

/// `s` without its trailing white space.
pub open spec fn trim_end(s: Seq<char>) -> Seq<char>
    decreases s.len(),
{
    if s.len() > 0 && is_space(s.last()) {
        trim_end(s.drop_last())
    } else {
        s
    }
}

pub open spec fn trim(s: Seq<char>) -> Seq<char> {
    trim_end(trim_start(s))
}

fn space(c: char) -> (r: bool)
    ensures
        r == is_space(c),
{
    c == ' ' || c == '\t' || c == '\n' || c == '\r' || c == '\x0B' || c == '\x0C'
}

/// `s` without leading and trailing white space.
pub fn trimmed(s: &Vec<char>) -> (r: Vec<char>)
    ensures
        r@ == trim(s@),
{
    let mut a: usize = 0;
    assert(s@.subrange(0, s.len() as int) =~= s@);
    while a < s.len() && space(s[a])
        invariant
            a <= s.len(),
            trim_start(s@) == trim_start(s@.subrange(a as int, s.len() as int)),
        decreases s.len() - a,
    {
        assert(s@.subrange(a as int, s.len() as int).drop_first() =~= s@.subrange(
            a + 1,
            s.len() as int,
        ));
        a = a + 1;
    }
    let mut b: usize = s.len();
    assert(trim_start(s@) == s@.subrange(a as int, b as int)) by {
        if a < s.len() {
            assert(s@.subrange(a as int, s.len() as int)[0] == s@[a as int]);
        }
    }
    while b > a && space(s[b - 1])
        invariant
            a <= b <= s.len(),
            trim(s@) == trim_end(s@.subrange(a as int, b as int)),
        decreases b,
    {
        assert(s@.subrange(a as int, b as int).drop_last() =~= s@.subrange(a as int, b - 1));
        b = b - 1;
    }
    let mut r: Vec<char> = Vec::new();
    let mut i: usize = a;
    while i < b
        invariant
            a <= i <= b <= s.len(),
            r@ == s@.subrange(a as int, i as int),
        decreases b - i,
    {
        r.push(s[i]);
        i = i + 1;
        assert(r@ =~= s@.subrange(a as int, i as int));
    }
    assert(trim(s@) == s@.subrange(a as int, b as int)) by {
        if b > a {
            assert(s@.subrange(a as int, b as int).last() == s@[b - 1]);
        }
    }
    r
}

/// The words of `s` from `i` on, as white space separates them.
pub open spec fn split_words(s: Seq<char>, i: int, cur: Seq<char>, acc: Seq<Seq<char>>) -> Seq<
    Seq<char>,
>
    decreases s.len() - i,
{
    if i < 0 || i >= s.len() {
        if cur.len() > 0 {
            acc.push(cur)
        } else {
            acc
        }
    } else if is_space(s[i]) {
        split_words(s, i + 1, Seq::empty(), if cur.len() > 0 {
            acc.push(cur)
        } else {
            acc
        })
    } else {
        split_words(s, i + 1, cur.push(s[i]), acc)
    }
}

pub open spec fn words(s: Seq<char>) -> Seq<Seq<char>> {
    split_words(s, 0, Seq::empty(), Seq::empty())
}

pub open spec fn words_view(v: Seq<Vec<char>>) -> Seq<Seq<char>> {
    v.map_values(|w: Vec<char>| w@)
}

/// The words of `s`: its runs of characters other than white space.
pub fn split_into_words(s: &Vec<char>) -> (r: Vec<Vec<char>>)
    ensures
        words_view(r@) == words(s@),
{
    let mut acc: Vec<Vec<char>> = Vec::new();
    let mut cur: Vec<char> = Vec::new();
    let mut i: usize = 0;
    assert(words_view(acc@) =~= Seq::<Seq<char>>::empty());
    assert(cur@ =~= Seq::<char>::empty());
    while i < s.len()
        invariant
            i <= s.len(),
            words(s@) == split_words(s@, i as int, cur@, words_view(acc@)),
        decreases s.len() - i,
    {
        let c = s[i];
        assert(s@[i as int] == c);
        if space(c) {
            if cur.len() > 0 {
                let w = cur;
                cur = Vec::new();
                proof {
                    assert(words_view(acc@.push(w)) =~= words_view(acc@).push(w@));
                    assert(cur@ =~= Seq::<char>::empty());
                }
                acc.push(w);
            } else {
                assert(cur@ =~= Seq::<char>::empty());
            }
        } else {
            cur.push(c);
        }
        i = i + 1;
    }
    if cur.len() > 0 {
        proof {
            assert(words_view(acc@.push(cur)) =~= words_view(acc@).push(cur@));
        }
        acc.push(cur);
    }
    acc
}

/// The position a buffer starting at `start` is reported at.
pub open spec fn start_position(cs: Seq<TrackedChar>, start: int, eof: Position) -> Position {
    if 0 <= start < cs.len() {
        cs[start].position
    } else {
        eof
    }
}

/// `s` without its leading run of characters other than white space.
pub open spec fn skip_word(s: Seq<char>) -> Seq<char>
    decreases s.len(),
{
    if s.len() > 0 && !is_space(s[0]) {
        skip_word(s.drop_first())
    } else {
        s
    }
}

/// The text of `s` after its first `n` words, as written, from the first
/// character of the next word on.
pub open spec fn after_words(s: Seq<char>, n: nat) -> Seq<char>
    decreases n,
{
    if n == 0 {
        trim_start(s)
    } else {
        after_words(skip_word(trim_start(s)), (n - 1) as nat)
    }
}

proof fn lemma_skip_one(s: Seq<char>, i: int)
    requires
        0 <= i < s.len(),
    ensures
        s.skip(i).drop_first() == s.skip(i + 1),
        s.skip(i)[0] == s[i],
        s.skip(i).len() > 0,
{
    assert(s.skip(i).drop_first() =~= s.skip(i + 1));
}

/// Where the text after the first `n` words of `s` starts.
pub fn after_words_index(s: &Vec<char>, n: usize) -> (r: usize)
    ensures
        r <= s.len(),
        s@.skip(r as int) == after_words(s@, n as nat),
{
    let mut i: usize = 0;
    let mut left: usize = n;
    assert(s@.skip(0) =~= s@);
    loop
        invariant
            i <= s.len(),
            left <= n,
            after_words(s@, n as nat) == after_words(s@.skip(i as int), left as nat),
        decreases left, s.len() - i,
    {
        let ghost start = s@.skip(i as int);
        while i < s.len() && space(s[i])
            invariant
                i <= s.len(),
                trim_start(start) == trim_start(s@.skip(i as int)),
            decreases s.len() - i,
        {
            proof {
                lemma_skip_one(s@, i as int);
            }
            i = i + 1;
        }
        proof {
            if i < s.len() {
                lemma_skip_one(s@, i as int);
            } else {
                assert(s@.skip(i as int).len() == 0);
            }
        }
        assert(trim_start(start) == s@.skip(i as int));
        if left == 0 {
            return i;
        }
        let ghost trimmed_start = s@.skip(i as int);
        while i < s.len() && !space(s[i])
            invariant
                i <= s.len(),
                skip_word(trimmed_start) == skip_word(s@.skip(i as int)),
            decreases s.len() - i,
        {
            proof {
                lemma_skip_one(s@, i as int);
            }
            i = i + 1;
        }
        proof {
            if i < s.len() {
                lemma_skip_one(s@, i as int);
            }
        }
        assert(skip_word(trimmed_start) == s@.skip(i as int));
        left = left - 1;
    }
}

proof fn lemma_inside_quote(cs: Seq<char>, l: int, k: int, q: char, acc: Seq<char>)
    requires
        0 < l <= k < cs.len(),
        cs[k] == q,
        q == '\'' || q == '"',
        forall|i: int| l <= i < k ==> cs[i] != q && cs[i] != '\\',
    ensures
        scan(cs, l, LexState { quoted: true, quote: q, commented: false, escaped: false }, acc)
            == scan(
            cs,
            k + 1,
            LexState { quoted: false, quote: q, commented: false, escaped: false },
            acc + cs.subrange(l, k + 1),
        ),
    decreases k - l,
{
    let st = LexState { quoted: true, quote: q, commented: false, escaped: false };
    if l < k {
        assert(lex_step(st, cs[l]) == (st, true, None::<Separator>));
        lemma_inside_quote(cs, l + 1, k, q, acc.push(cs[l]));
        assert(acc.push(cs[l]) + cs.subrange(l + 1, k + 1) =~= acc + cs.subrange(l, k + 1));
    } else {
        assert(lex_step(st, q) == (LexState { quoted: false, ..st }, true, None::<Separator>));
        assert(acc.push(cs[l]) =~= acc + cs.subrange(l, k + 1));
    }
}

/// A quoted span is kept whole in its buffer: from an opening quote to the
/// next same quote, with no backslash between them, every character is kept,
/// and `;`, `{`, `}` and `#` inside neither end the buffer nor open a comment.
pub proof fn lemma_quoted_span(cs: Seq<char>, j: int, k: int, st: LexState, acc: Seq<char>)
    requires
        0 <= j < k < cs.len(),
        !st.commented && !st.escaped && !st.quoted,
        cs[j] == '\'' || cs[j] == '"',
        cs[k] == cs[j],
        forall|i: int| j < i < k ==> cs[i] != cs[j] && cs[i] != '\\',
    ensures
        scan(cs, j, st, acc) == scan(
            cs,
            k + 1,
            LexState { quoted: false, quote: cs[j], commented: false, escaped: false },
            acc + cs.subrange(j, k + 1),
        ),
{
    let q = cs[j];
    assert(lex_step(st, q) == (
        LexState { quoted: true, quote: q, commented: false, escaped: false },
        true,
        None::<Separator>,
    ));
    lemma_inside_quote(cs, j + 1, k, q, acc.push(q));
    assert(acc.push(q) + cs.subrange(j + 1, k + 1) =~= acc + cs.subrange(j, k + 1));
}

} // verus!
