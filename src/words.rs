//! Reading the words of a statement: integers, coordinates, keywords,
//! and the pieces of a word split at a character.
use vstd::prelude::*;

use crate::lexer::words_view;
use crate::objects::{decimal_of, parse_decimal, Decimal, MAX_UNITS};
use crate::text::{all_digits, digits_value, parse_digits};

verus! {

/// The integer a word of plain digits denotes.
pub open spec fn u32_of(w: Seq<char>) -> Option<u32> {
    if w.len() > 0 && all_digits(w) && digits_value(w) <= u32::MAX {
        Some(digits_value(w) as u32)
    } else {
        None
    }
}

pub fn parse_u32(w: &Vec<char>) -> (r: Option<u32>)
    ensures
        r == u32_of(w@),
{
    if w.len() == 0 {
        return None;
    }
    let r = parse_digits(w, 0, w.len(), u32::MAX as u64);
    assert(w@.subrange(0, w.len() as int) =~= w@);
    match r {
        Some(v) => Some(v as u32),
        None => None,
    }
}

/// The coordinate a word gives where the previous value was `last`: `~d`
/// is `last` moved by `d` (by nothing for a bare `~`), anything else is
/// taken as it stands.
pub open spec fn coordinate_of(w: Seq<char>, last: Decimal) -> Option<Decimal> {
    if w.len() > 0 && w[0] == '~' {
        let offset = if w.len() == 1 {
            Some(Decimal { units: 0 })
        } else {
            decimal_of(w.skip(1))
        };
        match offset {
            Some(d) => {
                let sum = last.units + d.units;
                if -(MAX_UNITS as int) <= sum <= MAX_UNITS as int {
                    Some(Decimal { units: sum as i64 })
                } else {
                    None
                }
            },
            None => None,
        }
    } else {
        decimal_of(w)
    }
}

pub fn parse_coordinate(w: &Vec<char>, last: Decimal) -> (r: Option<Decimal>)
    requires
        -(MAX_UNITS as int) <= last.units <= MAX_UNITS as int,
    ensures
        r == coordinate_of(w@, last),
        r matches Some(d) ==> -(MAX_UNITS as int) <= d.units <= MAX_UNITS as int,
{
    if w.len() > 0 && w[0] == '~' {
        let offset = if w.len() == 1 {
            Some(Decimal { units: 0 })
        } else {
            assert(w@.subrange(1, w.len() as int) =~= w@.skip(1));
            parse_decimal(w, 1, w.len())
        };
        match offset {
            Some(d) => {
                let sum = last.units + d.units;
                if -(MAX_UNITS as i64) <= sum && sum <= MAX_UNITS as i64 {
                    Some(Decimal { units: sum })
                } else {
                    None
                }
            },
            None => None,
        }
    } else {
        assert(w@.subrange(0, w.len() as int) =~= w@);
        parse_decimal(w, 0, w.len())
    }
}

/// The index of the first `c` in `s`, or its length where there is none.
pub open spec fn first_index(s: Seq<char>, c: char) -> int
    decreases s.len(),
{
    if s.len() == 0 {
        0
    } else if s[0] == c {
        0
    } else {
        1 + first_index(s.drop_first(), c)
    }
}

pub proof fn lemma_first_index(s: Seq<char>, c: char)
    ensures
        0 <= first_index(s, c) <= s.len(),
        first_index(s, c) < s.len() ==> s[first_index(s, c)] == c,
        forall|j: int| 0 <= j < first_index(s, c) ==> s[j] != c,
    decreases s.len(),
{
    if s.len() > 0 && s[0] != c {
        lemma_first_index(s.drop_first(), c);
        assert forall|j: int| 0 <= j < first_index(s, c) implies s[j] != c by {
            if j > 0 {
                assert(s[j] == s.drop_first()[j - 1]);
            }
        }
    }
}

pub proof fn lemma_first_index_unique(s: Seq<char>, c: char, k: int)
    requires
        0 <= k <= s.len(),
        k < s.len() ==> s[k] == c,
        forall|j: int| 0 <= j < k ==> s[j] != c,
    ensures
        first_index(s, c) == k,
    decreases s.len(),
{
    if s.len() > 0 && s[0] != c {
        lemma_first_index_unique(s.drop_first(), c, k - 1);
    }
}

pub fn find_char(s: &Vec<char>, c: char) -> (r: usize)
    ensures
        r == first_index(s@, c),
        r <= s.len(),
{
    let mut i: usize = 0;
    while i < s.len()
        invariant
            i <= s.len(),
            forall|j: int| 0 <= j < i ==> s@[j] != c,
        decreases s.len() - i,
    {
        if s[i] == c {
            proof {
                lemma_first_index_unique(s@, c, i as int);
            }
            return i;
        }
        i = i + 1;
    }
    proof {
        lemma_first_index_unique(s@, c, i as int);
    }
    i
}

pub fn sub_vec(v: &Vec<char>, lo: usize, hi: usize) -> (r: Vec<char>)
    requires
        lo <= hi <= v.len(),
    ensures
        r@ == v@.subrange(lo as int, hi as int),
{
    let mut r: Vec<char> = Vec::new();
    let mut i: usize = lo;
    while i < hi
        invariant
            lo <= i <= hi <= v.len(),
            r@ == v@.subrange(lo as int, i as int),
        decreases hi - i,
    {
        r.push(v[i]);
        i = i + 1;
        assert(r@ =~= v@.subrange(lo as int, i as int));
    }
    r
}

/// The pieces of `s` between the occurrences of `c`, from `i` on.
pub open spec fn split_at_char(s: Seq<char>, c: char, i: int, cur: Seq<char>, acc: Seq<Seq<char>>) -> Seq<
    Seq<char>,
>
    decreases s.len() - i,
{
    if i < 0 || i >= s.len() {
        acc.push(cur)
    } else if s[i] == c {
        split_at_char(s, c, i + 1, Seq::empty(), acc.push(cur))
    } else {
        split_at_char(s, c, i + 1, cur.push(s[i]), acc)
    }
}

/// The pieces of `s` between the occurrences of `c`; empty ones are kept.
pub open spec fn pieces(s: Seq<char>, c: char) -> Seq<Seq<char>> {
    split_at_char(s, c, 0, Seq::empty(), Seq::empty())
}

pub fn split_on(s: &Vec<char>, c: char) -> (r: Vec<Vec<char>>)
    ensures
        words_view(r@) == pieces(s@, c),
{
    let mut acc: Vec<Vec<char>> = Vec::new();
    let mut cur: Vec<char> = Vec::new();
    let mut i: usize = 0;
    assert(words_view(acc@) =~= Seq::<Seq<char>>::empty());
    assert(cur@ =~= Seq::<char>::empty());
    while i < s.len()
        invariant
            i <= s.len(),
            pieces(s@, c) == split_at_char(s@, c, i as int, cur@, words_view(acc@)),
        decreases s.len() - i,
    {
        let x = s[i];
        assert(s@[i as int] == x);
        if x == c {
            let w = cur;
            cur = Vec::new();
            proof {
                assert(words_view(acc@.push(w)) =~= words_view(acc@).push(w@));
                assert(cur@ =~= Seq::<char>::empty());
            }
            acc.push(w);
        } else {
            cur.push(x);
        }
        i = i + 1;
    }
    proof {
        assert(words_view(acc@.push(cur)) =~= words_view(acc@).push(cur@));
    }
    acc.push(cur);
    acc
}

/// Whether `w` is exactly `lit`.
pub fn word_equals(w: &Vec<char>, lit: &str) -> (r: bool)
    ensures
        r == (w@ == lit@),
{
    let n = lit.unicode_len();
    if w.len() != n {
        return false;
    }
    let mut i: usize = 0;
    while i < n
        invariant
            i <= n,
            n == w.len(),
            n == lit@.len(),
            forall|j: int| 0 <= j < i ==> w@[j] == lit@[j],
        decreases n - i,
    {
        if w[i] != lit.get_char(i) {
            return false;
        }
        i = i + 1;
    }
    assert(w@ =~= lit@);
    true
}

} // verus!
