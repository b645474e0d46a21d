//! The statements of the language, the per-entity state that relative
//! coordinates are read against, and how a statement's leading timing
//! numbers and keyword are recognised.
use vstd::prelude::*;

use crate::errors::{
    all_ok, collect_errors, error_message, error_report, located, CompileError, CompileErrorType,
    ErrorView, GenericError,
};
use crate::lexer::{
    buffer_at, next_buffer, start_position, trim, trimmed, words, words_view, Separator,
};
use crate::objects::{
    has_number_prefix, number_of, prefix_of, states_view, with_number, BlockState, Decimal,
    Entity, Number, NumberSet, Position, Regexes, Rotation, Scale, TrackedChar, Translation,
};
use crate::parser::{after, statement_spec};
use crate::text::{decimal_text, string_from};
use crate::words::word_equals;

verus! {

/// Where a file's text comes from, and where it ends.
#[derive(Debug, Clone)]
pub struct FileInfo {
    pub path: String,
    pub eof: TrackedChar,
}

impl FileInfo {
    pub fn new(path: String, eof: TrackedChar) -> (r: Self)
        ensures
            r.path@ == path@,
            r.eof == eof,
    {
        FileInfo { path, eof }
    }
}

/// One statement, with the timing it was resolved to.
#[derive(Debug, Clone, PartialEq)]
pub enum Statement {
    /// Names the object and the animation.
    ObjectName(String, String),
    /// Moves every later statement this many ticks on.
    Wait(u32),
    Translate(Entity, Translation, NumberSet),
    Rotate(Entity, Rotation, NumberSet),
    Scale(Entity, Scale, NumberSet),
    /// Summons a new entity at `offset` from `source`.
    Spawn { source: Entity, entity_type: String, new: Entity, offset: Translation, delay: u32 },
    Item(Entity, String, u32),
    Block(Entity, BlockState, u32),
    Text(Entity, String, u32),
    /// Moves an entity by a relative offset.
    Teleport(Entity, Translation, u32),
    /// A command passed through as written; gated by the timer when `delayed`.
    Raw { command: String, delayed: bool, delay: u32 },
    /// Resets the animation once the timer reaches the delay.
    End(u32),
}

/// The mathematical value of a `Statement`.
pub enum StatementView {
    ObjectName(Seq<char>, Seq<char>),
    Wait(u32),
    Translate(Seq<char>, Translation, NumberSet),
    Rotate(Seq<char>, Seq<Decimal>, Decimal, NumberSet),
    Scale(Seq<char>, Scale, NumberSet),
    Spawn(Seq<char>, Seq<char>, Seq<char>, Translation, u32),
    Item(Seq<char>, Seq<char>, u32),
    Block(Seq<char>, Seq<char>, Seq<(Seq<char>, Seq<char>)>, u32),
    Text(Seq<char>, Seq<char>, u32),
    Teleport(Seq<char>, Translation, u32),
    Raw(Seq<char>, bool, u32),
    End(u32),
}

impl View for Statement {
    type V = StatementView;

    open spec fn view(&self) -> StatementView {
        match self {
            Statement::ObjectName(o, a) => StatementView::ObjectName(o@, a@),
            Statement::Wait(d) => StatementView::Wait(*d),
            Statement::Translate(e, t, n) => StatementView::Translate(e@, *t, *n),
            Statement::Rotate(e, r, n) => StatementView::Rotate(e@, r.axis@, r.angle, *n),
            Statement::Scale(e, s, n) => StatementView::Scale(e@, *s, *n),
            Statement::Spawn { source, entity_type, new, offset, delay } => StatementView::Spawn(
                source@,
                entity_type@,
                new@,
                *offset,
                *delay,
            ),
            Statement::Item(e, i, d) => StatementView::Item(e@, i@, *d),
            Statement::Block(e, b, d) => StatementView::Block(
                e@,
                b.id@,
                states_view(b.states@),
                *d,
            ),
            Statement::Text(e, t, d) => StatementView::Text(e@, t@, *d),
            Statement::Teleport(e, t, d) => StatementView::Teleport(e@, *t, *d),
            Statement::Raw { command, delayed, delay } => StatementView::Raw(
                command@,
                *delayed,
                *delay,
            ),
            Statement::End(d) => StatementView::End(*d),
        }
    }
}

/// Whether an outcome of the parser is the outcome a spec function gives.
pub open spec fn same_outcome(
    r: Result<Statement, CompileErrorType>,
    s: Result<StatementView, ErrorView>,
) -> bool {
    match r {
        Ok(st) => s == Ok::<StatementView, ErrorView>(st@),
        Err(e) => s == Err::<StatementView, ErrorView>(e@),
    }
}

/// What was last recorded of an entity's display: its translation, its
/// scale, and the angle of its last rotation.
#[derive(Debug, Clone, Copy, PartialEq, Eq)]
pub struct Transform {
    pub translation: Translation,
    pub scale: Scale,
    pub angle: Decimal,
}

/// The last transform recorded for an entity.
pub struct EntityState {
    pub name: String,
    pub transform: Transform,
}

/// The transforms recorded so far in one file, by entity name; of two
/// records for one name the later counts.
pub struct EntityStates {
    entries: Vec<EntityState>,
}

pub type TransformMap = Map<Seq<char>, Transform>;

pub open spec fn entries_map(s: Seq<EntityState>) -> TransformMap
    decreases s.len(),
{
    if s.len() == 0 {
        Map::empty()
    } else {
        entries_map(s.drop_last()).insert(s.last().name@, s.last().transform)
    }
}

pub open spec fn unit() -> Decimal {
    Decimal { units: 1000000 }
}

/// What an entity starts from before any transform: no translation, a
/// scale of one and no turn.
pub open spec fn initial_transform() -> Transform {
    Transform {
        translation: Translation {
            x: Decimal { units: 0 },
            y: Decimal { units: 0 },
            z: Decimal { units: 0 },
        },
        scale: Scale { x: unit(), y: unit(), z: unit() },
        angle: Decimal { units: 0 },
    }
}

pub open spec fn transform_of(m: TransformMap, name: Seq<char>) -> Transform {
    if m.contains_key(name) {
        m[name]
    } else {
        initial_transform()
    }
}

/// Every coordinate within the allowed magnitude.
pub open spec fn in_range(d: Decimal) -> bool {
    -(crate::objects::MAX_UNITS as int) <= d.units <= crate::objects::MAX_UNITS as int
}

pub open spec fn transform_in_range(t: Transform) -> bool {
    &&& in_range(t.translation.x) && in_range(t.translation.y) && in_range(t.translation.z)
    &&& in_range(t.scale.x) && in_range(t.scale.y) && in_range(t.scale.z)
    &&& in_range(t.angle)
}

proof fn lemma_entries_tail(s: Seq<EntityState>, i: int, key: Seq<char>)
    requires
        0 <= i <= s.len(),
        forall|j: int| i <= j < s.len() ==> (#[trigger] s[j]).name@ != key,
    ensures
        entries_map(s).contains_key(key) == entries_map(s.take(i)).contains_key(key),
        entries_map(s).contains_key(key) ==> entries_map(s)[key] == entries_map(s.take(i))[key],
    decreases s.len() - i,
{
    if i < s.len() {
        assert(s.drop_last().take(i) =~= s.take(i));
        lemma_entries_tail(s.drop_last(), i, key);
    } else {
        assert(s.take(i) =~= s);
    }
}

impl EntityStates {
    pub closed spec fn view(&self) -> TransformMap {
        entries_map(self.entries@)
    }

    pub closed spec fn wf(&self) -> bool {
        forall|i: int|
            0 <= i < self.entries@.len() ==> transform_in_range(
                #[trigger] self.entries@[i].transform,
            )
    }

    pub fn new() -> (r: Self)
        ensures
            r.view() == TransformMap::empty(),
            r.wf(),
    {
        EntityStates { entries: Vec::new() }
    }

    /// The transform last recorded for `name`.
    pub fn get(&self, name: &String) -> (r: Transform)
        requires
            self.wf(),
        ensures
            r == transform_of(self.view(), name@),
            transform_in_range(r),
    {
        let mut i: usize = self.entries.len();
        while i > 0
            invariant
                i <= self.entries.len(),
                self.wf(),
                forall|j: int| i <= j < self.entries@.len() ==> (#[trigger] self.entries@[j]).name@
                    != name@,
            decreases i,
        {
            let e = &self.entries[i - 1];
            if e.name.eq(name) {
                proof {
                    let s = self.entries@;
                    assert(s.take(i as int).last() == *e);
                    assert(s.take(i as int).drop_last() =~= s.take(i - 1));
                    lemma_entries_tail(s, i as int, name@);
                }
                return e.transform;
            }
            i = i - 1;
        }
        proof {
            lemma_entries_tail(self.entries@, 0, name@);
            assert(self.entries@.take(0) =~= Seq::<EntityState>::empty());
        }
        Transform {
            translation: Translation {
                x: Decimal { units: 0 },
                y: Decimal { units: 0 },
                z: Decimal { units: 0 },
            },
            scale: Scale {
                x: Decimal { units: 1000000 },
                y: Decimal { units: 1000000 },
                z: Decimal { units: 1000000 },
            },
            angle: Decimal { units: 0 },
        }
    }

    /// Records the transform of `name`.
    pub fn set(&mut self, name: String, transform: Transform)
        requires
            old(self).wf(),
            transform_in_range(transform),
        ensures
            final(self).wf(),
            final(self).view() == old(self).view().insert(name@, transform),
    {
        let ghost before = self.entries@;
        self.entries.push(EntityState { name, transform });
        proof {
            assert(self.entries@.drop_last() =~= before);
        }
    }
}

/// The keywords of the language.
#[derive(Debug, Clone, Copy, PartialEq, Eq, Structural)]
pub enum Keyword {
    Object,
    Wait,
    Translate,
    Rotate,
    Scale,
    Spawn,
    Item,
    Block,
    Text,
    Teleport,
    End,
}

/// The Unicode lower case of a text.
pub uninterp spec fn lower_of(s: Seq<char>) -> Seq<char>;

/// Relies on str::to_lowercase: the lower case of each character, which
/// depends on the characters alone.
#[verifier::external_body]
fn lowercase(s: &str) -> (r: String)
    ensures
        r@ == lower_of(s@),
{
    s.to_lowercase()
}

/// The keyword a word in lower case spells.
pub open spec fn keyword_of_lower(l: Seq<char>) -> Option<Keyword> {
    if l == "object"@ || l == "anim"@ {
        Some(Keyword::Object)
    } else if l == "wait"@ || l == "delay"@ {
        Some(Keyword::Wait)
    } else if l == "translate"@ || l == "move"@ || l == "m"@ {
        Some(Keyword::Translate)
    } else if l == "rotate"@ || l == "turn"@ || l == "r"@ {
        Some(Keyword::Rotate)
    } else if l == "scale"@ || l == "size"@ || l == "s"@ {
        Some(Keyword::Scale)
    } else if l == "spawn"@ {
        Some(Keyword::Spawn)
    } else if l == "item"@ {
        Some(Keyword::Item)
    } else if l == "block"@ {
        Some(Keyword::Block)
    } else if l == "text"@ {
        Some(Keyword::Text)
    } else if l == "teleport"@ || l == "tp"@ {
        Some(Keyword::Teleport)
    } else if l == "end"@ {
        Some(Keyword::End)
    } else {
        None
    }
}

/// The keyword a word spells, in any case.
pub open spec fn keyword_of(w: Seq<char>) -> Option<Keyword> {
    keyword_of_lower(lower_of(w))
}

impl Keyword {
    /// The keyword a word already in lower case spells.
    pub fn from_lowercase(l: &Vec<char>) -> (r: Option<Keyword>)
        ensures
            r == keyword_of_lower(l@),
    {
        if word_equals(l, "object") || word_equals(l, "anim") {
            Some(Keyword::Object)
        } else if word_equals(l, "wait") || word_equals(l, "delay") {
            Some(Keyword::Wait)
        } else if word_equals(l, "translate") || word_equals(l, "move") || word_equals(l, "m") {
            Some(Keyword::Translate)
        } else if word_equals(l, "rotate") || word_equals(l, "turn") || word_equals(l, "r") {
            Some(Keyword::Rotate)
        } else if word_equals(l, "scale") || word_equals(l, "size") || word_equals(l, "s") {
            Some(Keyword::Scale)
        } else if word_equals(l, "spawn") {
            Some(Keyword::Spawn)
        } else if word_equals(l, "item") {
            Some(Keyword::Item)
        } else if word_equals(l, "block") {
            Some(Keyword::Block)
        } else if word_equals(l, "text") {
            Some(Keyword::Text)
        } else if word_equals(l, "teleport") || word_equals(l, "tp") {
            Some(Keyword::Teleport)
        } else if word_equals(l, "end") {
            Some(Keyword::End)
        } else {
            None
        }
    }

    /// The keyword a word spells; `InvalidKeyword` for any other word.
    pub fn from_word(w: &Vec<char>) -> (r: Result<Keyword, CompileErrorType>)
        ensures
            r matches Ok(k) ==> keyword_of(w@) == Some(k),
            r matches Err(e) ==> keyword_of(w@) is None && e@ == ErrorView::InvalidKeyword(w@),
    {
        let word = string_from(w);
        let lower = lowercase(word.as_str());
        let l = crate::text::chars_of(lower.as_str());
        match Keyword::from_lowercase(&l) {
            Some(k) => Ok(k),
            None => Err(CompileErrorType::InvalidKeyword(word)),
        }
    }
}

/// What leads a statement: the index of its keyword among its words, the
/// timing it runs with, and the number that led it when it was the only one.
pub struct Recognized {
    pub keyword: usize,
    pub numbers: NumberSet,
    pub single: Option<Number>,
}

/// Reads the leading timing numbers of a statement's words. No number: the
/// inherited timing. One: the inherited timing with that field replaced. Two,
/// of different types: both, whatever was inherited.
pub open spec fn recognize(ws: Seq<Seq<char>>, inherited: NumberSet) -> Result<
    (int, NumberSet, Option<Number>),
    ErrorView,
> {
    if ws.len() == 0 || !has_number_prefix(ws[0]) {
        Ok((0, inherited, None))
    } else {
        match number_of(ws[0]) {
            None => Err(ErrorView::InvalidInt(ws[0])),
            Some(n0) => if ws.len() < 2 || !has_number_prefix(ws[1]) {
                Ok((1, with_number(inherited, n0), Some(n0)))
            } else {
                match number_of(ws[1]) {
                    None => Err(ErrorView::InvalidInt(ws[1])),
                    Some(n1) => if n0.number_type == n1.number_type {
                        Err(ErrorView::DuplicateNumberType(ws[1]))
                    } else {
                        Ok((2, with_number(with_number(inherited, n0), n1), None))
                    },
                }
            },
        }
    }
}

/// Two numbers of one type lead no statement: whatever follows them, and
/// whatever was inherited, the statement fails on the second.
pub proof fn lemma_duplicate_type(ws: Seq<Seq<char>>, inherited: NumberSet)
    requires
        ws.len() >= 2,
        number_of(ws[0]) is Some,
        number_of(ws[1]) is Some,
        number_of(ws[0])->0.number_type == number_of(ws[1])->0.number_type,
    ensures
        recognize(ws, inherited) == Err::<(int, NumberSet, Option<Number>), ErrorView>(
            ErrorView::DuplicateNumberType(ws[1]),
        ),
{
}

fn starts_with_prefix(w: &Vec<char>) -> (r: bool)
    ensures
        r == has_number_prefix(w@),
{
    w.len() > 0 && prefix_of(w[0]).is_some()
}

pub fn recognize_numbers(ws: &Vec<Vec<char>>, inherited: NumberSet) -> (r: Result<
    Recognized,
    CompileErrorType,
>)
    ensures
        r matches Ok(g) ==> recognize(words_view(ws@), inherited) == Ok::<
            (int, NumberSet, Option<Number>),
            ErrorView,
        >((g.keyword as int, g.numbers, g.single)),
        r matches Err(e) ==> recognize(words_view(ws@), inherited) == Err::<
            (int, NumberSet, Option<Number>),
            ErrorView,
        >(e@),
{
    let ghost wv = words_view(ws@);
    if ws.len() == 0 || !starts_with_prefix(&ws[0]) {
        return Ok(Recognized { keyword: 0, numbers: inherited, single: None });
    }
    assert(wv[0] == ws@[0]@);
    let n0 = match Number::parse_chars(&ws[0]) {
        Ok(n) => n,
        Err(e) => {
            return Err(e);
        },
    };
    if ws.len() < 2 || !starts_with_prefix(&ws[1]) {
        return Ok(Recognized { keyword: 1, numbers: inherited.with(n0), single: Some(n0) });
    }
    assert(wv[1] == ws@[1]@);
    let n1 = match Number::parse_chars(&ws[1]) {
        Ok(n) => n,
        Err(e) => {
            return Err(e);
        },
    };
    if n0.number_type == n1.number_type {
        return Err(CompileErrorType::DuplicateNumberType(string_from(&ws[1])));
    }
    Ok(Recognized { keyword: 2, numbers: inherited.with(n0).with(n1), single: None })
}

/// What became of one statement of a file: its value, or the error and
/// where it stands.
pub type Outcome = Result<StatementView, (Position, ErrorView)>;

/// The outcomes of a file's statements, read from the buffer at `pos` on with
/// the block `stack` and the transforms `m`, after the outcomes `out`. A
/// statement's error is recorded and reading goes on; an error in the block
/// structure, a statement without keyword, or text after the last `;` ends
/// the file.
pub open spec fn run(
    cs: Seq<TrackedChar>,
    eof: Position,
    pos: int,
    stack: Seq<NumberSet>,
    m: TransformMap,
    out: Seq<Outcome>,
) -> Seq<Outcome>
    decreases cs.len() - pos,
{
    let (raw, next, sep) = buffer_at(cs, pos);
    let text = trim(raw);
    let at = start_position(cs, pos, eof);
    let top = stack.last();
    if sep == Separator::End {
        if text.len() > 0 {
            out.push(Err((at, ErrorView::MissingTerminator(text))))
        } else if stack.len() > 1 {
            out.push(Err((eof, ErrorView::UnbalancedBrackets)))
        } else {
            out
        }
    } else if !(pos < next <= cs.len()) {
        // never taken: a buffer that a separator ends reaches past its start
        out
    } else if sep == Separator::Close {
        if stack.len() <= 1 {
            out.push(Err((at, ErrorView::UnbalancedBrackets)))
        } else if text.len() > 0 {
            out.push(Err((at, ErrorView::WrongSeparator(text))))
        } else {
            run(cs, eof, next, stack.drop_last(), m, out)
        }
    } else if sep == Separator::Open {
        match recognize(words(text), top) {
            Err(e) => out.push(Err((at, e))),
            Ok((k, numbers, _)) => if k < words(text).len() {
                out.push(Err((at, ErrorView::WrongSeparator(text))))
            } else {
                run(cs, eof, next, stack.push(numbers), m, out)
            },
        }
    } else if text.len() == 0 {
        run(cs, eof, next, stack, m, out)
    } else {
        match statement_spec(text, top, m) {
            Err(e) => if e is MissingKeyword {
                out.push(Err((at, e)))
            } else {
                run(cs, eof, next, stack, m, out.push(Err((at, e))))
            },
            Ok(st) => run(cs, eof, next, stack, after(m, st), out.push(Ok(st))),
        }
    }
}

/// The outcomes of every statement of a file.
pub open spec fn file_outcomes(file_info: FileInfo, contents: Seq<TrackedChar>) -> Seq<Outcome> {
    run(
        contents,
        file_info.eof.position,
        0,
        seq![NumberSet { delay: 0, duration: 0 }],
        Map::empty(),
        Seq::empty(),
    )
}

/// The text of the error `e` at `p` in the file at `path`.
pub open spec fn located_text(path: Seq<char>, p: Position, e: ErrorView) -> Seq<char> {
    "Compilation Error: \n  File: "@ + path + "\n  Line: "@ + decimal_text(p.line as nat)
        + ", Column: "@ + decimal_text(p.column as nat) + "\n  Error: "@ + error_message(e)
}

/// Each failed outcome, in order: its index and its text, one line each.
pub open spec fn outcome_report(path: Seq<char>, os: Seq<Outcome>) -> Seq<char>
    decreases os.len(),
{
    if os.len() == 0 {
        Seq::empty()
    } else {
        outcome_report(path, os.drop_last()) + match os.last() {
            Ok(_) => Seq::empty(),
            Err((p, e)) => decimal_text((os.len() - 1) as nat) + ": "@ + located_text(path, p, e)
                + "\n"@,
        }
    }
}

pub open spec fn outcome_matches(path: Seq<char>, r: Result<Statement, CompileError>, o: Outcome) -> bool {
    match (r, o) {
        (Ok(s), Ok(v)) => s@ == v,
        (Err(e), Err((p, ev))) => located(path, p, ev, e),
        _ => false,
    }
}

pub open spec fn outcomes_match(
    path: Seq<char>,
    rs: Seq<Result<Statement, CompileError>>,
    os: Seq<Outcome>,
) -> bool {
    rs.len() == os.len() && forall|i: int|
        0 <= i < rs.len() ==> outcome_matches(path, #[trigger] rs[i], os[i])
}

proof fn lemma_report_matches(
    path: Seq<char>,
    rs: Seq<Result<Statement, CompileError>>,
    os: Seq<Outcome>,
)
    requires
        outcomes_match(path, rs, os),
    ensures
        error_report(rs) == outcome_report(path, os),
        all_ok(rs) <==> (forall|i: int| 0 <= i < os.len() ==> (#[trigger] os[i]) is Ok),
    decreases rs.len(),
{
    if rs.len() > 0 {
        assert(outcomes_match(path, rs.drop_last(), os.drop_last())) by {
            assert forall|i: int| 0 <= i < rs.drop_last().len() implies outcome_matches(
                path,
                #[trigger] rs.drop_last()[i],
                os.drop_last()[i],
            ) by {
                assert(outcome_matches(path, rs[i], os[i]));
            }
        }
        lemma_report_matches(path, rs.drop_last(), os.drop_last());
        assert(outcome_matches(path, rs[rs.len() - 1], os[os.len() - 1]));
    }
    if all_ok(rs) {
        assert forall|i: int| 0 <= i < os.len() implies (#[trigger] os[i]) is Ok by {
            assert(outcome_matches(path, rs[i], os[i]));
            assert(rs[i] is Ok);
        }
    }
    if forall|i: int| 0 <= i < os.len() ==> (#[trigger] os[i]) is Ok {
        assert forall|i: int| 0 <= i < rs.len() implies (#[trigger] rs[i]) is Ok by {
            assert(outcome_matches(path, rs[i], os[i]));
            assert(os[i] is Ok);
        }
    }
}

/// A file's statements, in order.
#[derive(Debug)]
pub struct Program {
    pub statements: Vec<Statement>,
}

pub open spec fn statement_views(s: Seq<Statement>) -> Seq<StatementView> {
    s.map_values(|st: Statement| st@)
}

pub open spec fn outcome_values(os: Seq<Outcome>) -> Seq<StatementView> {
    os.map_values(|o: Outcome| o->Ok_0)
}

impl Program {
    /// Parses a file: its statements when every one of them is valid, else
    /// one error listing every failure.
    pub fn parse_from_file(file_info: &FileInfo, contents: &[TrackedChar]) -> (r: Result<
        Self,
        GenericError,
    >)
        ensures
            ({
                let os = file_outcomes(*file_info, contents@);
                &&& r matches Ok(p) ==> (forall|i: int| 0 <= i < os.len() ==> (#[trigger] os[i]) is Ok)
                    && statement_views(p.statements@) == outcome_values(os)
                &&& r matches Err(e) ==> (e matches GenericError::Collection(m) && m@
                    == outcome_report(file_info.path@, os) && exists|i: int|
                    0 <= i < os.len() && (#[trigger] os[i]) is Err)
                &&& r is Ok <==> (forall|i: int| 0 <= i < os.len() ==> (#[trigger] os[i]) is Ok)
            }),
    {
        let regexes = match Regexes::new() {
            Ok(r) => r,
            Err(e) => {
                return Err(e);
            },
        };
        let results = parse_statements(file_info, contents, &regexes);
        let ghost os = file_outcomes(*file_info, contents@);
        let ghost rs = results@;
        proof {
            lemma_report_matches(file_info.path@, rs, os);
        }
        match collect_errors(results) {
            Ok(statements) => {
                proof {
                    assert(statement_views(statements@) =~= outcome_values(os)) by {
                        assert forall|i: int| 0 <= i < os.len() implies statement_views(
                            statements@,
                        )[i] == #[trigger] outcome_values(os)[i] by {
                            assert(outcome_matches(file_info.path@, rs[i], os[i]));
                            assert(rs[i] is Ok);
                        }
                    }
                }
                Ok(Program { statements })
            },
            Err((e, _)) => Err(e),
        }
    }
}

fn error_at(file_info: &FileInfo, position: Position, e: CompileErrorType) -> (r: Result<
    Statement,
    CompileError,
>)
    ensures
        r matches Err(ce) && located(file_info.path@, position, e@, ce),
{
    Err(CompileError::new(file_info, position, e))
}

/// The outcome of every statement of a file, in order.
fn parse_statements(file_info: &FileInfo, contents: &[TrackedChar], regexes: &Regexes) -> (r: Vec<
    Result<Statement, CompileError>,
>)
    ensures
        outcomes_match(file_info.path@, r@, file_outcomes(*file_info, contents@)),
{
    let ghost cs = contents@;
    let ghost path = file_info.path@;
    let eof = file_info.eof.position;
    let mut results: Vec<Result<Statement, CompileError>> = Vec::new();
    let ghost mut out: Seq<Outcome> = Seq::empty();
    let mut stack: Vec<NumberSet> = Vec::new();
    stack.push(NumberSet { delay: 0, duration: 0 });
    let mut states = EntityStates::new();
    let mut pos: usize = 0;
    assert(stack@ =~= seq![NumberSet { delay: 0, duration: 0 }]);
    loop
        invariant
            pos <= cs.len(),
            cs == contents@,
            path == file_info.path@,
            eof == file_info.eof.position,
            stack@.len() >= 1,
            states.wf(),
            outcomes_match(path, results@, out),
            file_outcomes(*file_info, cs) == run(cs, eof, pos as int, stack@, states.view(), out),
        decreases cs.len() - pos,
    {
        let buffer = next_buffer(contents, pos);
        let text = trimmed(&buffer.text);
        let at = if pos < contents.len() {
            contents[pos].position
        } else {
            eof
        };
        let top = stack[stack.len() - 1];
        assert(top == stack@.last());
        let ghost before = results@;
        match buffer.separator {
            Separator::End => {
                if text.len() > 0 {
                    let r = error_at(
                        file_info,
                        at,
                        CompileErrorType::MissingTerminator(string_from(&text)),
                    );
                    results.push(r);
                    proof {
                        let o = Err((at, ErrorView::MissingTerminator(text@)));
                        lemma_push_matches(path, before, out, results@.last(), o);
                        out = out.push(o);
                    }
                } else if stack.len() > 1 {
                    let r = error_at(file_info, eof, CompileErrorType::UnbalancedBrackets);
                    results.push(r);
                    proof {
                        let o = Err((eof, ErrorView::UnbalancedBrackets));
                        lemma_push_matches(path, before, out, results@.last(), o);
                        out = out.push(o);
                    }
                }
                return results;
            },
            Separator::Close => {
                if stack.len() <= 1 {
                    let r = error_at(file_info, at, CompileErrorType::UnbalancedBrackets);
                    results.push(r);
                    proof {
                        let o = Err((at, ErrorView::UnbalancedBrackets));
                        lemma_push_matches(path, before, out, results@.last(), o);
                        out = out.push(o);
                    }
                    return results;
                } else if text.len() > 0 {
                    let r = error_at(
                        file_info,
                        at,
                        CompileErrorType::WrongSeparator(string_from(&text)),
                    );
                    results.push(r);
                    proof {
                        let o = Err((at, ErrorView::WrongSeparator(text@)));
                        lemma_push_matches(path, before, out, results@.last(), o);
                        out = out.push(o);
                    }
                    return results;
                }
                let ghost old_stack = stack@;
                stack.pop();
                assert(stack@ =~= old_stack.drop_last());
            },
            Separator::Open => {
                let ws = crate::lexer::split_into_words(&text);
                match recognize_numbers(&ws, top) {
                    Err(e) => {
                        let ghost ev = e@;
                        let r = error_at(file_info, at, e);
                        results.push(r);
                        proof {
                            let o = Err((at, ev));
                            lemma_push_matches(path, before, out, results@.last(), o);
                            out = out.push(o);
                        }
                        return results;
                    },
                    Ok(g) => {
                        if g.keyword < ws.len() {
                            let r = error_at(
                                file_info,
                                at,
                                CompileErrorType::WrongSeparator(string_from(&text)),
                            );
                            results.push(r);
                            proof {
                                let o = Err((at, ErrorView::WrongSeparator(text@)));
                                lemma_push_matches(path, before, out, results@.last(), o);
                                out = out.push(o);
                            }
                            return results;
                        }
                        stack.push(g.numbers);
                    },
                }
            },
            Separator::Semicolon => {
                if text.len() > 0 {
                    let ghost m = states.view();
                    match crate::parser::parse_statement(&text, top, regexes, &mut states) {
                        Ok(st) => {
                            let ghost v = st@;
                            results.push(Ok(st));
                            proof {
                                let o = Ok(v);
                                lemma_push_matches(path, before, out, results@.last(), o);
                                out = out.push(o);
                            }
                        },
                        Err(e) => {
                            let missing = e.is_missing_keyword();
                            let ghost ev = e@;
                            let r = error_at(file_info, at, e);
                            results.push(r);
                            proof {
                                let o = Err((at, ev));
                                lemma_push_matches(path, before, out, results@.last(), o);
                                out = out.push(o);
                            }
                            if missing {
                                return results;
                            }
                        },
                    }
                }
            },
        }
        pos = buffer.next;
    }
}

proof fn lemma_push_matches(
    path: Seq<char>,
    before: Seq<Result<Statement, CompileError>>,
    os: Seq<Outcome>,
    x: Result<Statement, CompileError>,
    o: Outcome,
)
    requires
        outcomes_match(path, before, os),
        outcome_matches(path, x, o),
    ensures
        outcomes_match(path, before.push(x), os.push(o)),
{
    assert forall|i: int| 0 <= i < before.len() + 1 implies outcome_matches(
        path,
        #[trigger] before.push(x)[i],
        os.push(o)[i],
    ) by {
        if i < before.len() {
            assert(before.push(x)[i] == before[i]);
            assert(os.push(o)[i] == os[i]);
        }
    }
}

proof fn lemma_separated_buffer(cs: Seq<TrackedChar>, pos: int)
    requires
        0 <= pos,
        buffer_at(cs, pos).2 != Separator::End,
    ensures
        pos < buffer_at(cs, pos).1 <= cs.len(),
{
    crate::lexer::lemma_scan_advances(
        crate::lexer::characters(cs),
        pos,
        crate::lexer::initial_state(),
        Seq::empty(),
    );
}

/// A block opened by `{` whose header holds only timing numbers puts the
/// timing they resolve to, over the enclosing one, on top of the stack for
/// what follows.
pub proof fn lemma_open_block(
    cs: Seq<TrackedChar>,
    eof: Position,
    pos: int,
    stack: Seq<NumberSet>,
    m: TransformMap,
    out: Seq<Outcome>,
)
    requires
        0 <= pos,
        stack.len() >= 1,
        buffer_at(cs, pos).2 == Separator::Open,
        recognize(words(trim(buffer_at(cs, pos).0)), stack.last()) is Ok,
        recognize(words(trim(buffer_at(cs, pos).0)), stack.last())->Ok_0.0 >= words(
            trim(buffer_at(cs, pos).0),
        ).len(),
    ensures
        ({
            let numbers = recognize(words(trim(buffer_at(cs, pos).0)), stack.last())->Ok_0.1;
            &&& run(cs, eof, pos, stack, m, out) == run(
                cs,
                eof,
                buffer_at(cs, pos).1,
                stack.push(numbers),
                m,
                out,
            )
            &&& stack.push(numbers).last() == numbers
        }),
{
    lemma_separated_buffer(cs, pos);
}

/// A `}` that closes a block pops its timing, and the enclosing block's
/// timing is in force again.
pub proof fn lemma_close_block(
    cs: Seq<TrackedChar>,
    eof: Position,
    pos: int,
    stack: Seq<NumberSet>,
    numbers: NumberSet,
    m: TransformMap,
    out: Seq<Outcome>,
)
    requires
        0 <= pos,
        stack.len() >= 1,
        buffer_at(cs, pos).2 == Separator::Close,
        trim(buffer_at(cs, pos).0).len() == 0,
    ensures
        run(cs, eof, pos, stack.push(numbers), m, out) == run(
            cs,
            eof,
            buffer_at(cs, pos).1,
            stack,
            m,
            out,
        ),
{
    lemma_separated_buffer(cs, pos);
    assert(stack.push(numbers).drop_last() =~= stack);
}

/// A statement without timing numbers of its own runs with the timing of the
/// innermost block around it.
pub proof fn lemma_unprefixed_inherits(ws: Seq<Seq<char>>, inherited: NumberSet)
    requires
        ws.len() > 0,
        !has_number_prefix(ws[0]),
    ensures
        recognize(ws, inherited) == Ok::<(int, NumberSet, Option<Number>), ErrorView>(
            (0, inherited, None),
        ),
{
}

/// A `}` with no open block ends the file with an unbalanced-brackets error,
/// whatever text stands before it.
pub proof fn lemma_unmatched_close(
    cs: Seq<TrackedChar>,
    eof: Position,
    pos: int,
    stack: Seq<NumberSet>,
    m: TransformMap,
    out: Seq<Outcome>,
)
    requires
        0 <= pos,
        stack.len() == 1,
        buffer_at(cs, pos).2 == Separator::Close,
    ensures
        run(cs, eof, pos, stack, m, out) == out.push(
            Err((start_position(cs, pos, eof), ErrorView::UnbalancedBrackets)),
        ),
{
    lemma_separated_buffer(cs, pos);
}

/// The first buffer of `line`, trimmed, and the position of its first
/// character: comments are dropped and quoted separators kept.
pub fn get_buffer_string(line: &[TrackedChar]) -> (r: (String, Position))
    requires
        line@.len() > 0,
    ensures
        r.0@ == trim(buffer_at(line@, 0).0),
        r.1 == line@[0].position,
{
    let buffer = next_buffer(line, 0);
    let text = trimmed(&buffer.text);
    (string_from(&text), line[0].position)
}

proof fn lemma_report_of_successes(path: Seq<char>, os: Seq<Outcome>)
    requires
        forall|i: int| 0 <= i < os.len() ==> (#[trigger] os[i]) is Ok,
    ensures
        outcome_report(path, os) == Seq::<char>::empty(),
    decreases os.len(),
{
    if os.len() > 0 {
        assert(forall|i: int| 0 <= i < os.drop_last().len() ==> os.drop_last()[i] == os[i]);
        lemma_report_of_successes(path, os.drop_last());
        assert(os[os.len() - 1] is Ok);
        assert(outcome_report(path, os) =~= Seq::<char>::empty());
    }
}

/// Of a file whose one failed statement has index `i`, the report holds
/// exactly one entry, for that index.
pub proof fn lemma_single_failure_report(path: Seq<char>, os: Seq<Outcome>, i: int)
    requires
        0 <= i < os.len(),
        os[i] is Err,
        forall|j: int| 0 <= j < os.len() && j != i ==> (#[trigger] os[j]) is Ok,
    ensures
        outcome_report(path, os) == decimal_text(i as nat) + ": "@ + located_text(
            path,
            os[i]->Err_0.0,
            os[i]->Err_0.1,
        ) + "\n"@,
    decreases os.len(),
{
    let line = decimal_text(i as nat) + ": "@ + located_text(path, os[i]->Err_0.0, os[i]->Err_0.1)
        + "\n"@;
    let d = os.drop_last();
    assert(forall|j: int| 0 <= j < d.len() ==> d[j] == os[j]);
    if i == os.len() - 1 {
        lemma_report_of_successes(path, d);
        assert(outcome_report(path, os) =~= line);
    } else {
        lemma_single_failure_report(path, d, i);
        assert(os[os.len() - 1] is Ok);
        assert(outcome_report(path, os) =~= line);
    }
}

/// Reading on only adds outcomes: those recorded so far stay, in order, so
/// a failed statement fails its file.
pub proof fn lemma_run_extends(
    cs: Seq<TrackedChar>,
    eof: Position,
    pos: int,
    stack: Seq<NumberSet>,
    m: TransformMap,
    out: Seq<Outcome>,
)
    ensures
        run(cs, eof, pos, stack, m, out).len() >= out.len(),
        run(cs, eof, pos, stack, m, out).take(out.len() as int) == out,
    decreases cs.len() - pos,
{
    let (raw, next, sep) = buffer_at(cs, pos);
    let text = trim(raw);
    let top = stack.last();
    let r = run(cs, eof, pos, stack, m, out);
    if sep == Separator::End || !(pos < next <= cs.len()) {
        assert(r.take(out.len() as int) =~= out);
    } else if sep == Separator::Close {
        if text.len() == 0 && stack.len() > 1 {
            lemma_run_extends(cs, eof, next, stack.drop_last(), m, out);
        } else {
            assert(r.take(out.len() as int) =~= out);
        }
    } else if sep == Separator::Open {
        match recognize(words(text), top) {
            Err(e) => {
                assert(r.take(out.len() as int) =~= out);
            },
            Ok((k, numbers, _)) => if k < words(text).len() {
                assert(r.take(out.len() as int) =~= out);
            } else {
                lemma_run_extends(cs, eof, next, stack.push(numbers), m, out);
            },
        }
    } else if text.len() == 0 {
        lemma_run_extends(cs, eof, next, stack, m, out);
    } else {
        let at = start_position(cs, pos, eof);
        match statement_spec(text, top, m) {
            Err(e) => if e is MissingKeyword {
                assert(r.take(out.len() as int) =~= out);
            } else {
                let o2 = out.push(Err((at, e)));
                lemma_run_extends(cs, eof, next, stack, m, o2);
                assert(r.take(o2.len() as int).take(out.len() as int) =~= out);
                assert(r.take(out.len() as int) =~= r.take(o2.len() as int).take(out.len() as int));
            },
            Ok(st) => {
                let o2 = out.push(Ok(st));
                lemma_run_extends(cs, eof, next, stack, after(m, st), o2);
                assert(r.take(out.len() as int) =~= r.take(o2.len() as int).take(out.len() as int));
                assert(o2.take(out.len() as int) =~= out);
            },
        }
    }
}

/// A statement that fails is recorded, at its position, as the next
/// outcome of its file, and the file's outcomes keep it; so, by the contract
/// of `Program::parse_from_file`, its file fails. Two leading numbers of one
/// type are such a failure, whatever the keyword.
pub proof fn lemma_statement_error_recorded(
    cs: Seq<TrackedChar>,
    eof: Position,
    pos: int,
    stack: Seq<NumberSet>,
    m: TransformMap,
    out: Seq<Outcome>,
)
    requires
        0 <= pos,
        stack.len() >= 1,
        buffer_at(cs, pos).2 == Separator::Semicolon,
        trim(buffer_at(cs, pos).0).len() > 0,
        statement_spec(trim(buffer_at(cs, pos).0), stack.last(), m) is Err,
    ensures
        ({
            let r = run(cs, eof, pos, stack, m, out);
            let e = statement_spec(trim(buffer_at(cs, pos).0), stack.last(), m)->Err_0;
            &&& r.len() > out.len()
            &&& r[out.len() as int] == Err::<StatementView, (Position, ErrorView)>(
                (start_position(cs, pos, eof), e),
            )
        }),
{
    lemma_separated_buffer(cs, pos);
    let (raw, next, sep) = buffer_at(cs, pos);
    let text = trim(raw);
    let e = statement_spec(text, stack.last(), m)->Err_0;
    let o2 = out.push(Err((start_position(cs, pos, eof), e)));
    if !(e is MissingKeyword) {
        lemma_run_extends(cs, eof, next, stack, m, o2);
        let r = run(cs, eof, pos, stack, m, out);
        assert(r.take(o2.len() as int)[out.len() as int] == o2[out.len() as int]);
    }
}

/// A statement led by a written number reads that number back, with its
/// value and its type, and runs with it in place of the inherited field.
pub proof fn lemma_leading_number(n: Number, ws: Seq<Seq<char>>, inherited: NumberSet)
    requires
        ws.len() >= 2,
        ws[0] == crate::objects::number_text(n),
        !has_number_prefix(ws[1]),
    ensures
        recognize(ws, inherited) == Ok::<(int, NumberSet, Option<Number>), ErrorView>(
            (1, with_number(inherited, n), Some(n)),
        ),
{
    crate::objects::lemma_number_round_trip(n);
}

} // verus!
