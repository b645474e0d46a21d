//! From the text of a source file to its statements: character positions,
//! the file's name, and the parse.
use vstd::prelude::*;

use crate::errors::GenericError;
use crate::objects::{Position, TrackedChar};
use crate::statements::{
    outcome_report, outcome_values, statement_views, FileInfo, Outcome, Program,
};
use crate::text::{chars_of, string_of};
use crate::words::{pieces, split_on};
use crate::lexer::words_view;

verus! {

/// The characters of `s` from `i` on with their positions, the first of
/// them at `line` and `column`; a newline ends its line.
pub open spec fn track_from(s: Seq<char>, i: int, line: nat, column: nat) -> Seq<TrackedChar>
    decreases s.len() - i,
{
    if i < 0 || i >= s.len() {
        Seq::empty()
    } else {
        seq![
            TrackedChar {
                position: Position { line: line as usize, column: column as usize },
                character: s[i],
            },
        ] + if s[i] == '\n' {
            track_from(s, i + 1, line + 1, 1)
        } else {
            track_from(s, i + 1, line, column + 1)
        }
    }
}

/// The position after the last character of `s` from `i` on.
pub open spec fn end_from(s: Seq<char>, i: int, line: nat, column: nat) -> (nat, nat)
    decreases s.len() - i,
{
    if i < 0 || i >= s.len() {
        (line, column)
    } else if s[i] == '\n' {
        end_from(s, i + 1, line + 1, 1)
    } else {
        end_from(s, i + 1, line, column + 1)
    }
}

/// Each character of `string` with its line and column, both from 1.
pub fn to_tracked(string: &str) -> (r: Vec<TrackedChar>)
    requires
        string@.len() < usize::MAX,
    ensures
        r@ == track_from(string@, 0, 1, 1),
{
    let cs = chars_of(string);
    let (r, _) = track(&cs);
    r
}

fn track(cs: &Vec<char>) -> (r: (Vec<TrackedChar>, Position))
    requires
        cs@.len() < usize::MAX,
    ensures
        r.0@ == track_from(cs@, 0, 1, 1),
        end_from(cs@, 0, 1, 1) == (r.1.line as nat, r.1.column as nat),
{
    let mut out: Vec<TrackedChar> = Vec::new();
    let mut line: usize = 1;
    let mut column: usize = 1;
    let mut i: usize = 0;
    while i < cs.len()
        invariant
            i <= cs.len() < usize::MAX,
            1 <= line,
            1 <= column,
            line + column <= i + 2,
            track_from(cs@, 0, 1, 1) == out@ + track_from(cs@, i as int, line as nat, column as nat),
            end_from(cs@, 0, 1, 1) == end_from(cs@, i as int, line as nat, column as nat),
        decreases cs.len() - i,
    {
        let c = cs[i];
        let t = TrackedChar::new(line, column, c);
        let ghost rest = if c == '\n' {
            track_from(cs@, i + 1, line as nat + 1, 1)
        } else {
            track_from(cs@, i + 1, line as nat, column as nat + 1)
        };
        assert(track_from(cs@, i as int, line as nat, column as nat) == seq![t] + rest);
        out.push(t);
        assert(out@ + rest =~= track_from(cs@, 0, 1, 1));
        if c == '\n' {
            line = line + 1;
            column = 1;
        } else {
            column = column + 1;
        }
        i = i + 1;
    }
    assert(out@ + Seq::<TrackedChar>::empty() =~= out@);
    (out, Position { line, column })
}

/// The last path component that names something, `.` and empty ones left out.
pub open spec fn last_component(ps: Seq<Seq<char>>) -> Option<Seq<char>>
    decreases ps.len(),
{
    if ps.len() == 0 {
        None
    } else if ps.last().len() == 0 || ps.last() == seq!['.'] {
        last_component(ps.drop_last())
    } else {
        Some(ps.last())
    }
}

/// The index of the last `.` of `s`, or -1.
pub open spec fn last_dot(s: Seq<char>) -> int
    decreases s.len(),
{
    if s.len() == 0 {
        -1
    } else if s.last() == '.' {
        s.len() - 1
    } else {
        last_dot(s.drop_last())
    }
}

/// A file name without its extension: up to the last `.`, unless that `.`
/// opens the name.
pub open spec fn stem_of(name: Seq<char>) -> Seq<char> {
    if last_dot(name) > 0 {
        name.take(last_dot(name))
    } else {
        name
    }
}

/// The stem of the file a path leads to, if the path leads to one.
pub open spec fn file_stem(path: Seq<char>) -> Option<Seq<char>> {
    match last_component(pieces(path, '/')) {
        None => None,
        Some(c) => if c == seq!['.', '.'] {
            None
        } else {
            Some(stem_of(c))
        },
    }
}

/// The name of a source file without directory and extension; it names the
/// object and the animation until the file names them itself.
pub fn get_file_name(path: &str) -> (r: Result<String, GenericError>)
    ensures
        r matches Ok(s) ==> file_stem(path@) == Some(s@),
        r matches Err(e) ==> file_stem(path@) is None && (e matches GenericError::FileNotExist(p)
            && p@ == path@),
{
    let cs = chars_of(path);
    let ps = split_on(&cs, '/');
    let ghost pv = words_view(ps@);
    let mut i: usize = ps.len();
    assert(pv.take(i as int) =~= pv);
    while i > 0 && (ps[i - 1].len() == 0 || (ps[i - 1].len() == 1 && ps[i - 1][0] == '.'))
        invariant
            i <= ps.len(),
            pv == words_view(ps@),
            last_component(pv) == last_component(pv.take(i as int)),
        decreases i,
    {
        proof {
            let t = pv.take(i as int);
            assert(t.last() == ps@[i - 1]@);
            assert(t.drop_last() =~= pv.take(i - 1));
            if ps@[i - 1]@.len() == 1 {
                assert(ps@[i - 1]@ =~= seq!['.']);
            }
        }
        i = i - 1;
    }
    if i == 0 {
        assert(pv.take(0) =~= Seq::<Seq<char>>::empty());
        return Err(GenericError::FileNotExist(path.to_owned()));
    }
    let c = &ps[i - 1];
    proof {
        let t = pv.take(i as int);
        assert(t.last() == c@);
        assert(c@ != seq!['.']) by {
            if c@.len() == 1 {
                assert(seq!['.'][0] == '.');
            }
        }
    }
    if c.len() == 2 && c[0] == '.' && c[1] == '.' {
        assert(c@ =~= seq!['.', '.']);
        return Err(GenericError::FileNotExist(path.to_owned()));
    }
    assert(c@ != seq!['.', '.']) by {
        if c@.len() == 2 {
            assert(seq!['.', '.'][0] == '.' && seq!['.', '.'][1] == '.');
        }
    }
    let mut k: usize = c.len();
    assert(c@.take(k as int) =~= c@);
    while k > 0 && c[k - 1] != '.'
        invariant
            k <= c.len(),
            last_dot(c@) == last_dot(c@.take(k as int)),
        decreases k,
    {
        assert(c@.take(k as int).drop_last() =~= c@.take(k - 1));
        k = k - 1;
    }
    proof {
        if k == 0 {
            assert(c@.take(0) =~= Seq::<char>::empty());
        } else {
            assert(c@.take(k as int).last() == '.');
        }
    }
    if k > 1 {
        assert(c@.take(k - 1) =~= c@.subrange(0, k - 1));
        Ok(string_of(c, 0, k - 1))
    } else {
        Ok(crate::text::string_from(c))
    }
}

/// `s` without carriage returns.
pub open spec fn without_returns(s: Seq<char>) -> Seq<char>
    decreases s.len(),
{
    if s.len() == 0 {
        s
    } else if s.last() == '\r' {
        without_returns(s.drop_last())
    } else {
        without_returns(s.drop_last()).push(s.last())
    }
}

/// The outcomes of the statements of a source text.
pub open spec fn source_outcomes(s: Seq<char>) -> Seq<Outcome> {
    let t = without_returns(s);
    let end = end_from(t, 0, 1, 1);
    crate::statements::run(
        track_from(t, 0, 1, 1),
        Position { line: end.0 as usize, column: end.1 as usize },
        0,
        seq![crate::objects::NumberSet { delay: 0, duration: 0 }],
        Map::empty(),
        Seq::empty(),
    )
}

/// Parses the text of the source file at `file_path`; carriage returns are
/// dropped first.
pub fn parse_source(contents: &str, file_path: &str) -> (r: Result<Program, GenericError>)
    requires
        contents@.len() < usize::MAX,
    ensures
        ({
            let os = source_outcomes(contents@);
            &&& r matches Ok(p) ==> (forall|i: int| 0 <= i < os.len() ==> (#[trigger] os[i]) is Ok)
                && statement_views(p.statements@) == outcome_values(os)
            &&& r matches Err(e) ==> (e matches GenericError::Collection(m) && m@
                == outcome_report(file_path@, os) && exists|i: int|
                0 <= i < os.len() && (#[trigger] os[i]) is Err)
            &&& r is Ok <==> (forall|i: int| 0 <= i < os.len() ==> (#[trigger] os[i]) is Ok)
        }),
{
    let cs = chars_of(contents);
    let mut kept: Vec<char> = Vec::new();
    let mut i: usize = 0;
    assert(cs@.take(0) =~= Seq::<char>::empty());
    while i < cs.len()
        invariant
            i <= cs.len(),
            cs@ == contents@,
            kept@ == without_returns(cs@.take(i as int)),
            kept@.len() <= i,
        decreases cs.len() - i,
    {
        let ghost before = cs@.take(i as int);
        assert(cs@.take(i + 1).drop_last() =~= before);
        if cs[i] != '\r' {
            kept.push(cs[i]);
        }
        i = i + 1;
    }
    assert(cs@.take(cs.len() as int) =~= cs@);
    let (positioned, end) = track(&kept);
    let eof_char = if kept.len() > 0 {
        kept[kept.len() - 1]
    } else {
        '\n'
    };
    let info = FileInfo::new(file_path.to_owned(), TrackedChar::new(end.line, end.column, eof_char));
    Program::parse_from_file(&info, positioned.as_slice())
}

} // verus!
