//! What each keyword makes of its arguments.
use vstd::prelude::*;

use crate::errors::{CompileErrorType, ErrorView};
use crate::lexer::{
    after_words, after_words_index, split_into_words, trim, trimmed, words, words_view,
};
use crate::objects::{
    decimal_of, is_valid_name, parse_decimal, BlockState, Decimal, Entity, NumberSet, NumberType,
    Regexes, Rotation, Scale, Translation,
};
use crate::statements::{
    keyword_of, recognize, recognize_numbers, Keyword, same_outcome, transform_of, EntityStates, Statement, StatementView,
    Transform, TransformMap,
};
use crate::text::{string_from, string_of};
use crate::words::{
    coordinate_of, find_char, first_index, parse_coordinate, parse_u32,
    pieces, split_on, sub_vec, u32_of, word_equals, lemma_first_index,
};

verus! {

pub open spec fn count_error(text: Seq<char>, expected: nat, args: Seq<Seq<char>>) -> ErrorView {
    ErrorView::IncorrectArgumentCount(text, expected, args.len())
}

/// The arguments of a statement: its words after the keyword at `a - 1`.
pub open spec fn args_of(ws: Seq<Vec<char>>, a: int) -> Seq<Seq<char>> {
    words_view(ws).skip(a)
}

proof fn lemma_arg(ws: Seq<Vec<char>>, a: int, i: int)
    requires
        0 <= a <= ws.len(),
        0 <= i < ws.len() - a,
    ensures
        args_of(ws, a)[i] == ws[a + i]@,
        args_of(ws, a).len() == ws.len() - a,
{
}

fn entity_arg(w: &Vec<char>, regexes: &Regexes) -> (r: Result<Entity, CompileErrorType>)
    ensures
        r matches Ok(e) ==> is_valid_name(w@) && e@ == w@,
        r matches Err(e) ==> !is_valid_name(w@) && e@ == ErrorView::InvalidEntityName(w@),
{
    Entity::new(string_from(w), regexes)
}

fn count_err(text: &Vec<char>, expected: usize, found: usize) -> (r: CompileErrorType)
    ensures
        r@ == ErrorView::IncorrectArgumentCount(text@, expected as nat, found as nat),
{
    CompileErrorType::IncorrectArgumentCount(string_from(text), expected, found)
}

// ---------------------------------------------------------------- object

/// `object <name>` or `object <name>:<animation>`; a bare name names the
/// animation too.
pub open spec fn object_spec(text: Seq<char>, args: Seq<Seq<char>>) -> Result<StatementView, ErrorView> {
    if args.len() != 1 {
        Err(count_error(text, 1, args))
    } else {
        let a = args[0];
        let k = first_index(a, ':');
        let obj = if k == a.len() {
            a
        } else {
            a.take(k)
        };
        let anim = if k == a.len() {
            a
        } else {
            a.skip(k + 1)
        };
        if k < a.len() && anim.len() == 0 {
            Err(ErrorView::NoAnimationName(a))
        } else if !is_valid_name(obj) {
            Err(ErrorView::InvalidCharacters(obj))
        } else if !is_valid_name(anim) {
            Err(ErrorView::InvalidCharacters(anim))
        } else {
            Ok(StatementView::ObjectName(obj, anim))
        }
    }
}

pub fn parse_object(text: &Vec<char>, ws: &Vec<Vec<char>>, a: usize, regexes: &Regexes) -> (r: Result<
    Statement,
    CompileErrorType,
>)
    requires
        a <= ws.len(),
    ensures
        same_outcome(r, object_spec(text@, args_of(ws@, a as int))),
{
    if ws.len() - a != 1 {
        return Err(count_err(text, 1, ws.len() - a));
    }
    proof {
        lemma_arg(ws@, a as int, 0);
    }
    let w = &ws[a];
    let k = find_char(w, ':');
    proof {
        lemma_first_index(w@, ':');
    }
    let (obj, anim) = if k == w.len() {
        (string_from(w), string_from(w))
    } else {
        assert(w@.subrange(0, k as int) =~= w@.take(k as int));
        assert(w@.subrange(k + 1, w.len() as int) =~= w@.skip(k + 1));
        (string_of(w, 0, k), string_of(w, k + 1, w.len()))
    };
    if k < w.len() && k + 1 == w.len() {
        return Err(CompileErrorType::NoAnimationName(string_from(w)));
    }
    if !regexes.is_name(obj.as_str()) {
        return Err(CompileErrorType::InvalidCharacters(obj));
    }
    if !regexes.is_name(anim.as_str()) {
        return Err(CompileErrorType::InvalidCharacters(anim));
    }
    Ok(Statement::ObjectName(obj, anim))
}

// ---------------------------------------------------------------- wait

/// `wait <ticks>`.
pub open spec fn wait_spec(text: Seq<char>, args: Seq<Seq<char>>) -> Result<StatementView, ErrorView> {
    if args.len() != 1 {
        Err(count_error(text, 1, args))
    } else {
        match u32_of(args[0]) {
            None => Err(ErrorView::InvalidInt(args[0])),
            Some(v) => Ok(StatementView::Wait(v)),
        }
    }
}

pub fn parse_wait(text: &Vec<char>, ws: &Vec<Vec<char>>, a: usize) -> (r: Result<
    Statement,
    CompileErrorType,
>)
    requires
        a <= ws.len(),
    ensures
        same_outcome(r, wait_spec(text@, args_of(ws@, a as int))),
{
    if ws.len() - a != 1 {
        return Err(count_err(text, 1, ws.len() - a));
    }
    proof {
        lemma_arg(ws@, a as int, 0);
    }
    match parse_u32(&ws[a]) {
        None => Err(CompileErrorType::InvalidInt(string_from(&ws[a]))),
        Some(v) => Ok(Statement::Wait(v)),
    }
}

// ---------------------------------------------------------------- vectors

/// Three coordinates, each read against the last value of its axis.
pub open spec fn vector_of(
    x: Seq<char>,
    y: Seq<char>,
    z: Seq<char>,
    last: (Decimal, Decimal, Decimal),
) -> Result<(Decimal, Decimal, Decimal), ErrorView> {
    match coordinate_of(x, last.0) {
        None => Err(ErrorView::InvalidCoordinate(x)),
        Some(dx) => match coordinate_of(y, last.1) {
            None => Err(ErrorView::InvalidCoordinate(y)),
            Some(dy) => match coordinate_of(z, last.2) {
                None => Err(ErrorView::InvalidCoordinate(z)),
                Some(dz) => Ok((dx, dy, dz)),
            },
        },
    }
}

/// Three coordinates taken as they stand.
pub open spec fn plain_vector_of(x: Seq<char>, y: Seq<char>, z: Seq<char>) -> Result<
    (Decimal, Decimal, Decimal),
    ErrorView,
> {
    match decimal_of(x) {
        None => Err(ErrorView::InvalidCoordinate(x)),
        Some(dx) => match decimal_of(y) {
            None => Err(ErrorView::InvalidCoordinate(y)),
            Some(dy) => match decimal_of(z) {
                None => Err(ErrorView::InvalidCoordinate(z)),
                Some(dz) => Ok((dx, dy, dz)),
            },
        },
    }
}

pub open spec fn vector_in_range(v: (Decimal, Decimal, Decimal)) -> bool {
    crate::statements::in_range(v.0) && crate::statements::in_range(v.1)
        && crate::statements::in_range(v.2)
}

fn parse_vector(x: &Vec<char>, y: &Vec<char>, z: &Vec<char>, last: (Decimal, Decimal, Decimal)) -> (r: Result<
    (Decimal, Decimal, Decimal),
    CompileErrorType,
>)
    requires
        vector_in_range(last),
    ensures
        r matches Ok(v) ==> vector_of(x@, y@, z@, last) == Ok::<
            (Decimal, Decimal, Decimal),
            ErrorView,
        >(v) && vector_in_range(v),
        r matches Err(e) ==> vector_of(x@, y@, z@, last) == Err::<
            (Decimal, Decimal, Decimal),
            ErrorView,
        >(e@),
{
    let dx = match parse_coordinate(x, last.0) {
        None => {
            return Err(CompileErrorType::InvalidCoordinate(string_from(x)));
        },
        Some(d) => d,
    };
    let dy = match parse_coordinate(y, last.1) {
        None => {
            return Err(CompileErrorType::InvalidCoordinate(string_from(y)));
        },
        Some(d) => d,
    };
    let dz = match parse_coordinate(z, last.2) {
        None => {
            return Err(CompileErrorType::InvalidCoordinate(string_from(z)));
        },
        Some(d) => d,
    };
    Ok((dx, dy, dz))
}

fn parse_plain_vector(x: &Vec<char>, y: &Vec<char>, z: &Vec<char>) -> (r: Result<
    (Decimal, Decimal, Decimal),
    CompileErrorType,
>)
    ensures
        r matches Ok(v) ==> plain_vector_of(x@, y@, z@) == Ok::<
            (Decimal, Decimal, Decimal),
            ErrorView,
        >(v),
        r matches Err(e) ==> plain_vector_of(x@, y@, z@) == Err::<
            (Decimal, Decimal, Decimal),
            ErrorView,
        >(e@),
{
    assert(x@.subrange(0, x.len() as int) =~= x@);
    assert(y@.subrange(0, y.len() as int) =~= y@);
    assert(z@.subrange(0, z.len() as int) =~= z@);
    let dx = match parse_decimal(x, 0, x.len()) {
        None => {
            return Err(CompileErrorType::InvalidCoordinate(string_from(x)));
        },
        Some(d) => d,
    };
    let dy = match parse_decimal(y, 0, y.len()) {
        None => {
            return Err(CompileErrorType::InvalidCoordinate(string_from(y)));
        },
        Some(d) => d,
    };
    let dz = match parse_decimal(z, 0, z.len()) {
        None => {
            return Err(CompileErrorType::InvalidCoordinate(string_from(z)));
        },
        Some(d) => d,
    };
    Ok((dx, dy, dz))
}

/// The duration of a statement that takes it as an optional argument at
/// index 1: that argument where `args` has `full` words, else the resolved one.
pub open spec fn duration_of(args: Seq<Seq<char>>, full: nat, numbers: NumberSet) -> Option<u32> {
    if args.len() == full {
        u32_of(args[1])
    } else {
        Some(numbers.duration)
    }
}

// ---------------------------------------------------------------- translate, scale

/// The entity and duration that lead a translation or a scale: four or five
/// arguments, the fifth being a duration written after the entity.
pub open spec fn transform_head(text: Seq<char>, args: Seq<Seq<char>>, numbers: NumberSet) -> Result<
    u32,
    ErrorView,
> {
    if !(args.len() == 4 || args.len() == 5) {
        Err(count_error(text, 5, args))
    } else if !is_valid_name(args[0]) {
        Err(ErrorView::InvalidEntityName(args[0]))
    } else {
        match duration_of(args, 5, numbers) {
            None => Err(ErrorView::InvalidInt(args[1])),
            Some(d) => Ok(d),
        }
    }
}

/// `translate <entity> [<duration>] <x> <y> <z>`; a coordinate `~d` moves
/// from the entity's last translation.
pub open spec fn translate_spec(
    text: Seq<char>,
    args: Seq<Seq<char>>,
    numbers: NumberSet,
    m: TransformMap,
) -> Result<StatementView, ErrorView> {
    match transform_head(text, args, numbers) {
        Err(e) => Err(e),
        Ok(d) => {
            let n = args.len() as int;
            let t = transform_of(m, args[0]).translation;
            match vector_of(args[n - 3], args[n - 2], args[n - 1], (t.x, t.y, t.z)) {
                Err(e) => Err(e),
                Ok(v) => Ok(
                    StatementView::Translate(
                        args[0],
                        Translation { x: v.0, y: v.1, z: v.2 },
                        NumberSet { delay: numbers.delay, duration: d },
                    ),
                ),
            }
        },
    }
}

/// `scale <entity> [<duration>] <x> <y> <z>`; a coordinate `~d` moves from
/// the entity's last scale.
pub open spec fn scale_spec(
    text: Seq<char>,
    args: Seq<Seq<char>>,
    numbers: NumberSet,
    m: TransformMap,
) -> Result<StatementView, ErrorView> {
    match transform_head(text, args, numbers) {
        Err(e) => Err(e),
        Ok(d) => {
            let n = args.len() as int;
            let s = transform_of(m, args[0]).scale;
            match vector_of(args[n - 3], args[n - 2], args[n - 1], (s.x, s.y, s.z)) {
                Err(e) => Err(e),
                Ok(v) => Ok(
                    StatementView::Scale(
                        args[0],
                        Scale { x: v.0, y: v.1, z: v.2 },
                        NumberSet { delay: numbers.delay, duration: d },
                    ),
                ),
            }
        },
    }
}

/// The recorded transforms after a statement.
pub open spec fn after(m: TransformMap, s: StatementView) -> TransformMap {
    match s {
        StatementView::Translate(e, t, _) => m.insert(e, Transform { translation: t, ..transform_of(m, e) }),
        StatementView::Scale(e, sc, _) => m.insert(e, Transform { scale: sc, ..transform_of(m, e) }),
        StatementView::Rotate(e, _, angle, _) => m.insert(e, Transform { angle, ..transform_of(m, e) }),
        _ => m,
    }
}

fn parse_transform_head(
    text: &Vec<char>,
    ws: &Vec<Vec<char>>,
    a: usize,
    numbers: NumberSet,
    regexes: &Regexes,
) -> (r: Result<(Entity, u32), CompileErrorType>)
    requires
        a <= ws.len(),
    ensures
        r matches Ok(h) ==> transform_head(text@, args_of(ws@, a as int), numbers) == Ok::<
            u32,
            ErrorView,
        >(h.1) && h.0@ == args_of(ws@, a as int)[0],
        r matches Err(e) ==> transform_head(text@, args_of(ws@, a as int), numbers) == Err::<
            u32,
            ErrorView,
        >(e@),
{
    let n = ws.len() - a;
    if !(n == 4 || n == 5) {
        return Err(count_err(text, 5, n));
    }
    proof {
        lemma_arg(ws@, a as int, 0);
    }
    let entity = match entity_arg(&ws[a], regexes) {
        Ok(e) => e,
        Err(e) => {
            return Err(e);
        },
    };
    if n == 5 {
        proof {
            lemma_arg(ws@, a as int, 1);
        }
        match parse_u32(&ws[a + 1]) {
            None => Err(CompileErrorType::InvalidInt(string_from(&ws[a + 1]))),
            Some(v) => Ok((entity, v)),
        }
    } else {
        Ok((entity, numbers.duration))
    }
}

/// Reads a translation and records it for the entity.
pub fn parse_translate(
    text: &Vec<char>,
    ws: &Vec<Vec<char>>,
    a: usize,
    numbers: NumberSet,
    regexes: &Regexes,
    states: &mut EntityStates,
) -> (r: Result<Statement, CompileErrorType>)
    requires
        a <= ws.len(),
        old(states).wf(),
    ensures
        final(states).wf(),
        same_outcome(r, translate_spec(text@, args_of(ws@, a as int), numbers, old(states).view())),
        r matches Ok(s) ==> final(states).view() == after(old(states).view(), s@),
        r is Err ==> final(states).view() == old(states).view(),
{
    let (entity, d) = match parse_transform_head(text, ws, a, numbers, regexes) {
        Ok(h) => h,
        Err(e) => {
            return Err(e);
        },
    };
    let n = ws.len() - a;
    proof {
        lemma_arg(ws@, a as int, 0);
        lemma_arg(ws@, a as int, n - 3);
        lemma_arg(ws@, a as int, n - 2);
        lemma_arg(ws@, a as int, n - 1);
    }
    let name = string_from(&ws[a]);
    let last = states.get(&name);
    let t = last.translation;
    let v = match parse_vector(&ws[a + n - 3], &ws[a + n - 2], &ws[a + n - 1], (t.x, t.y, t.z)) {
        Ok(v) => v,
        Err(e) => {
            return Err(e);
        },
    };
    let tr = Translation { x: v.0, y: v.1, z: v.2 };
    states.set(name, Transform { translation: tr, ..last });
    Ok(Statement::Translate(entity, tr, NumberSet { delay: numbers.delay, duration: d }))
}

/// Reads a scale and records it for the entity.
pub fn parse_scale(
    text: &Vec<char>,
    ws: &Vec<Vec<char>>,
    a: usize,
    numbers: NumberSet,
    regexes: &Regexes,
    states: &mut EntityStates,
) -> (r: Result<Statement, CompileErrorType>)
    requires
        a <= ws.len(),
        old(states).wf(),
    ensures
        final(states).wf(),
        same_outcome(r, scale_spec(text@, args_of(ws@, a as int), numbers, old(states).view())),
        r matches Ok(s) ==> final(states).view() == after(old(states).view(), s@),
        r is Err ==> final(states).view() == old(states).view(),
{
    let (entity, d) = match parse_transform_head(text, ws, a, numbers, regexes) {
        Ok(h) => h,
        Err(e) => {
            return Err(e);
        },
    };
    let n = ws.len() - a;
    proof {
        lemma_arg(ws@, a as int, 0);
        lemma_arg(ws@, a as int, n - 3);
        lemma_arg(ws@, a as int, n - 2);
        lemma_arg(ws@, a as int, n - 1);
    }
    let name = string_from(&ws[a]);
    let last = states.get(&name);
    let s = last.scale;
    let v = match parse_vector(&ws[a + n - 3], &ws[a + n - 2], &ws[a + n - 1], (s.x, s.y, s.z)) {
        Ok(v) => v,
        Err(e) => {
            return Err(e);
        },
    };
    let sc = Scale { x: v.0, y: v.1, z: v.2 };
    states.set(name, Transform { scale: sc, ..last });
    Ok(Statement::Scale(entity, sc, NumberSet { delay: numbers.delay, duration: d }))
}

/// A translation by `~0` on every axis, right after a translation of the
/// same entity, lands where that one did and leaves the recorded transforms
/// as they were.
pub proof fn lemma_relative_zero_keeps_position(
    text1: Seq<char>,
    text2: Seq<char>,
    e: Seq<char>,
    d: Seq<char>,
    x: Seq<char>,
    y: Seq<char>,
    z: Seq<char>,
    numbers: NumberSet,
    m: TransformMap,
)
    requires
        translate_spec(text1, seq![e, d, x, y, z], numbers, m) is Ok,
    ensures
        ({
            let s1 = translate_spec(text1, seq![e, d, x, y, z], numbers, m)->Ok_0;
            let m1 = after(m, s1);
            let rel = seq!['~', '0'];
            let s2 = translate_spec(text2, seq![e, d, rel, rel, rel], numbers, m1);
            &&& s2 == Ok::<StatementView, ErrorView>(s1)
            &&& after(m1, s1) == m1
        }),
{
    let args1 = seq![e, d, x, y, z];
    let rel = seq!['~', '0'];
    let args2 = seq![e, d, rel, rel, rel];
    let s1 = translate_spec(text1, args1, numbers, m)->Ok_0;
    let m1 = after(m, s1);
    let zero = seq!['0'];
    assert(rel.skip(1) =~= zero);
    crate::objects::lemma_zero_word();
    let t = transform_of(m1, e).translation;
    assert(args2[2] == rel && args2[3] == rel && args2[4] == rel);
    assert(coordinate_of(rel, t.x) == Some(t.x));
    assert(coordinate_of(rel, t.y) == Some(t.y));
    assert(coordinate_of(rel, t.z) == Some(t.z));
    assert(m1.insert(e, Transform { translation: t, ..transform_of(m1, e) }) =~= m1);
}

// ---------------------------------------------------------------- rotate

pub open spec fn zero() -> Decimal {
    Decimal { units: 0 }
}

/// An axis: `x`, `y` or `z`, or three coordinates as `[a,b,c]`.
pub open spec fn axis_of(w: Seq<char>) -> Option<Seq<Decimal>> {
    if w == seq!['x'] {
        Some(seq![crate::statements::unit(), zero(), zero()])
    } else if w == seq!['y'] {
        Some(seq![zero(), crate::statements::unit(), zero()])
    } else if w == seq!['z'] {
        Some(seq![zero(), zero(), crate::statements::unit()])
    } else if w.len() >= 2 && w[0] == '[' && w.last() == ']' {
        let ps = pieces(w.subrange(1, w.len() - 1), ',');
        if ps.len() == 3 && decimal_of(ps[0]) is Some && decimal_of(ps[1]) is Some && decimal_of(
            ps[2],
        ) is Some {
            Some(seq![decimal_of(ps[0])->0, decimal_of(ps[1])->0, decimal_of(ps[2])->0])
        } else {
            None
        }
    } else {
        None
    }
}

fn parse_axis(w: &Vec<char>) -> (r: Option<[Decimal; 3]>)
    ensures
        r matches Some(a) ==> axis_of(w@) == Some(a@),
        r is None ==> axis_of(w@) is None,
{
    let one = Decimal { units: 1000000 };
    let o = Decimal { units: 0 };
    if w.len() == 1 && w[0] == 'x' {
        assert(w@ =~= seq!['x']);
        let a = [one, o, o];
        assert(a@ =~= seq![one, o, o]);
        return Some(a);
    }
    if w.len() == 1 && w[0] == 'y' {
        assert(w@ =~= seq!['y']);
        let a = [o, one, o];
        assert(a@ =~= seq![o, one, o]);
        return Some(a);
    }
    if w.len() == 1 && w[0] == 'z' {
        assert(w@ =~= seq!['z']);
        let a = [o, o, one];
        assert(a@ =~= seq![o, o, one]);
        return Some(a);
    }
    assert(w@ != seq!['x'] && w@ != seq!['y'] && w@ != seq!['z']) by {
        if w.len() == 1 {
            assert(seq!['x'][0] == 'x');
            assert(seq!['y'][0] == 'y');
            assert(seq!['z'][0] == 'z');
        }
    }
    if !(w.len() >= 2 && w[0] == '[' && w[w.len() - 1] == ']') {
        return None;
    }
    let inner = sub_vec(w, 1, w.len() - 1);
    let ps = split_on(&inner, ',');
    if ps.len() != 3 {
        return None;
    }
    assert(words_view(ps@)[0] == ps@[0]@);
    assert(words_view(ps@)[1] == ps@[1]@);
    assert(words_view(ps@)[2] == ps@[2]@);
    assert(ps@[0]@.subrange(0, ps[0].len() as int) =~= ps@[0]@);
    assert(ps@[1]@.subrange(0, ps[1].len() as int) =~= ps@[1]@);
    assert(ps@[2]@.subrange(0, ps[2].len() as int) =~= ps@[2]@);
    let a = match parse_decimal(&ps[0], 0, ps[0].len()) {
        Some(d) => d,
        None => {
            return None;
        },
    };
    let b = match parse_decimal(&ps[1], 0, ps[1].len()) {
        Some(d) => d,
        None => {
            return None;
        },
    };
    let c = match parse_decimal(&ps[2], 0, ps[2].len()) {
        Some(d) => d,
        None => {
            return None;
        },
    };
    let r = [a, b, c];
    assert(r@ =~= seq![a, b, c]);
    Some(r)
}

/// `rotate <entity> [<duration>] <axis> <degrees>`; an angle `~d` turns on
/// from the entity's last angle.
pub open spec fn rotate_spec(
    text: Seq<char>,
    args: Seq<Seq<char>>,
    numbers: NumberSet,
    m: TransformMap,
) -> Result<StatementView, ErrorView> {
    if !(args.len() == 3 || args.len() == 4) {
        Err(count_error(text, 4, args))
    } else if !is_valid_name(args[0]) {
        Err(ErrorView::InvalidEntityName(args[0]))
    } else {
        match duration_of(args, 4, numbers) {
            None => Err(ErrorView::InvalidInt(args[1])),
            Some(d) => {
                let n = args.len() as int;
                match axis_of(args[n - 2]) {
                    None => Err(ErrorView::InvalidAxis(args[n - 2])),
                    Some(axis) => match coordinate_of(args[n - 1], transform_of(m, args[0]).angle) {
                        None => Err(ErrorView::InvalidFloat(args[n - 1])),
                        Some(angle) => Ok(
                            StatementView::Rotate(
                                args[0],
                                axis,
                                angle,
                                NumberSet { delay: numbers.delay, duration: d },
                            ),
                        ),
                    },
                }
            },
        }
    }
}

pub fn parse_rotate(
    text: &Vec<char>,
    ws: &Vec<Vec<char>>,
    a: usize,
    numbers: NumberSet,
    regexes: &Regexes,
    states: &mut EntityStates,
) -> (r: Result<Statement, CompileErrorType>)
    requires
        a <= ws.len(),
        old(states).wf(),
    ensures
        final(states).wf(),
        same_outcome(r, rotate_spec(text@, args_of(ws@, a as int), numbers, old(states).view())),
        r matches Ok(s) ==> final(states).view() == after(old(states).view(), s@),
        r is Err ==> final(states).view() == old(states).view(),
{
    let n = ws.len() - a;
    if !(n == 3 || n == 4) {
        return Err(count_err(text, 4, n));
    }
    proof {
        lemma_arg(ws@, a as int, 0);
        lemma_arg(ws@, a as int, 1);
        lemma_arg(ws@, a as int, n - 2);
        lemma_arg(ws@, a as int, n - 1);
    }
    let entity = match entity_arg(&ws[a], regexes) {
        Ok(e) => e,
        Err(e) => {
            return Err(e);
        },
    };
    let d = if n == 4 {
        match parse_u32(&ws[a + 1]) {
            None => {
                return Err(CompileErrorType::InvalidInt(string_from(&ws[a + 1])));
            },
            Some(v) => v,
        }
    } else {
        numbers.duration
    };
    let axis = match parse_axis(&ws[a + n - 2]) {
        None => {
            return Err(CompileErrorType::InvalidAxis(string_from(&ws[a + n - 2])));
        },
        Some(x) => x,
    };
    let w = &ws[a + n - 1];
    let name = string_from(&ws[a]);
    let last = states.get(&name);
    let angle = match parse_coordinate(w, last.angle) {
        None => {
            return Err(CompileErrorType::InvalidFloat(string_from(w)));
        },
        Some(x) => x,
    };
    states.set(name, Transform { angle, ..last });
    Ok(
        Statement::Rotate(
            entity,
            Rotation::new(axis, angle),
            NumberSet { delay: numbers.delay, duration: d },
        ),
    )
}

// ---------------------------------------------------------------- spawn

/// The kinds of entity `spawn` can summon.
pub open spec fn is_entity_type(w: Seq<char>) -> bool {
    w == "block_display"@ || w == "item_display"@ || w == "text_display"@
}

/// `spawn <source> <type> <new> [<x> <y> <z>]`: the offset from the source
/// is zero unless given.
pub open spec fn spawn_spec(text: Seq<char>, args: Seq<Seq<char>>, delay: u32) -> Result<
    StatementView,
    ErrorView,
> {
    if !(args.len() == 3 || args.len() == 6) {
        Err(count_error(text, 3, args))
    } else if !is_valid_name(args[0]) {
        Err(ErrorView::InvalidEntityName(args[0]))
    } else if !is_entity_type(args[1]) {
        Err(ErrorView::InvalidEntityType(args[1]))
    } else if !is_valid_name(args[2]) {
        Err(ErrorView::InvalidEntityName(args[2]))
    } else {
        let offset = if args.len() == 6 {
            plain_vector_of(args[3], args[4], args[5])
        } else {
            Ok((zero(), zero(), zero()))
        };
        match offset {
            Err(e) => Err(e),
            Ok(v) => Ok(
                StatementView::Spawn(
                    args[0],
                    args[1],
                    args[2],
                    Translation { x: v.0, y: v.1, z: v.2 },
                    delay,
                ),
            ),
        }
    }
}

pub fn parse_spawn(
    text: &Vec<char>,
    ws: &Vec<Vec<char>>,
    a: usize,
    delay: u32,
    regexes: &Regexes,
) -> (r: Result<Statement, CompileErrorType>)
    requires
        a <= ws.len(),
    ensures
        same_outcome(r, spawn_spec(text@, args_of(ws@, a as int), delay)),
{
    let n = ws.len() - a;
    if !(n == 3 || n == 6) {
        return Err(count_err(text, 3, n));
    }
    proof {
        lemma_arg(ws@, a as int, 0);
        lemma_arg(ws@, a as int, 1);
        lemma_arg(ws@, a as int, 2);
    }
    let source = match entity_arg(&ws[a], regexes) {
        Ok(e) => e,
        Err(e) => {
            return Err(e);
        },
    };
    let t = &ws[a + 1];
    if !(word_equals(t, "block_display") || word_equals(t, "item_display") || word_equals(
        t,
        "text_display",
    )) {
        return Err(CompileErrorType::InvalidEntityType(string_from(t)));
    }
    let new = match entity_arg(&ws[a + 2], regexes) {
        Ok(e) => e,
        Err(e) => {
            return Err(e);
        },
    };
    let v = if n == 6 {
        proof {
            lemma_arg(ws@, a as int, 3);
            lemma_arg(ws@, a as int, 4);
            lemma_arg(ws@, a as int, 5);
        }
        match parse_plain_vector(&ws[a + 3], &ws[a + 4], &ws[a + 5]) {
            Ok(v) => v,
            Err(e) => {
                return Err(e);
            },
        }
    } else {
        (Decimal { units: 0 }, Decimal { units: 0 }, Decimal { units: 0 })
    };
    Ok(
        Statement::Spawn {
            source,
            entity_type: string_from(t),
            new,
            offset: Translation { x: v.0, y: v.1, z: v.2 },
            delay,
        },
    )
}

// ---------------------------------------------------------------- item, text

/// `item <entity> <item...>` and `text <entity> <text...>`: the rest of the
/// statement as written, from the word after the entity on; `skip` is the
/// number of words before that one.
pub open spec fn payload_spec(text: Seq<char>, args: Seq<Seq<char>>, skip: nat) -> Result<
    (Seq<char>, Seq<char>),
    ErrorView,
> {
    if args.len() < 2 {
        Err(count_error(text, 2, args))
    } else if !is_valid_name(args[0]) {
        Err(ErrorView::InvalidEntityName(args[0]))
    } else {
        Ok((args[0], after_words(text, skip)))
    }
}

pub open spec fn item_spec(text: Seq<char>, args: Seq<Seq<char>>, skip: nat, delay: u32) -> Result<
    StatementView,
    ErrorView,
> {
    match payload_spec(text, args, skip) {
        Err(e) => Err(e),
        Ok(p) => Ok(StatementView::Item(p.0, p.1, delay)),
    }
}

pub open spec fn text_spec(text: Seq<char>, args: Seq<Seq<char>>, skip: nat, delay: u32) -> Result<
    StatementView,
    ErrorView,
> {
    match payload_spec(text, args, skip) {
        Err(e) => Err(e),
        Ok(p) => Ok(StatementView::Text(p.0, p.1, delay)),
    }
}

fn parse_payload(text: &Vec<char>, ws: &Vec<Vec<char>>, a: usize, regexes: &Regexes) -> (r: Result<
    (Entity, Vec<char>),
    CompileErrorType,
>)
    requires
        a <= ws.len(),
    ensures
        r matches Ok(p) ==> payload_spec(text@, args_of(ws@, a as int), (a + 1) as nat) == Ok::<
            (Seq<char>, Seq<char>),
            ErrorView,
        >((p.0@, p.1@)),
        r matches Err(e) ==> payload_spec(text@, args_of(ws@, a as int), (a + 1) as nat) == Err::<
            (Seq<char>, Seq<char>),
            ErrorView,
        >(e@),
{
    let n = ws.len() - a;
    if n < 2 {
        return Err(count_err(text, 2, n));
    }
    proof {
        lemma_arg(ws@, a as int, 0);
    }
    let entity = match entity_arg(&ws[a], regexes) {
        Ok(e) => e,
        Err(e) => {
            return Err(e);
        },
    };
    let start = after_words_index(text, a + 1);
    let rest = sub_vec(text, start, text.len());
    assert(rest@ =~= text@.skip(start as int));
    Ok((entity, rest))
}

pub fn parse_item(
    text: &Vec<char>,
    ws: &Vec<Vec<char>>,
    a: usize,
    delay: u32,
    regexes: &Regexes,
) -> (r: Result<Statement, CompileErrorType>)
    requires
        a <= ws.len(),
    ensures
        same_outcome(r, item_spec(text@, args_of(ws@, a as int), (a + 1) as nat, delay)),
{
    match parse_payload(text, ws, a, regexes) {
        Err(e) => Err(e),
        Ok((entity, rest)) => Ok(Statement::Item(entity, string_from(&rest), delay)),
    }
}

pub fn parse_text(
    text: &Vec<char>,
    ws: &Vec<Vec<char>>,
    a: usize,
    delay: u32,
    regexes: &Regexes,
) -> (r: Result<Statement, CompileErrorType>)
    requires
        a <= ws.len(),
    ensures
        same_outcome(r, text_spec(text@, args_of(ws@, a as int), (a + 1) as nat, delay)),
{
    match parse_payload(text, ws, a, regexes) {
        Err(e) => Err(e),
        Ok((entity, rest)) => Ok(Statement::Text(entity, string_from(&rest), delay)),
    }
}

// ---------------------------------------------------------------- block

/// One `key=value` state: exactly one `=`, white space around it trimmed off
/// the whole piece.
pub open spec fn property_of(p: Seq<char>) -> Option<(Seq<char>, Seq<char>)> {
    let t = trim(p);
    let k = first_index(t, '=');
    if k < t.len() && first_index(t.skip(k + 1), '=') == t.len() - k - 1 {
        Some((t.take(k), t.skip(k + 1)))
    } else {
        None
    }
}

pub open spec fn properties_of(ps: Seq<Seq<char>>) -> Option<Seq<(Seq<char>, Seq<char>)>>
    decreases ps.len(),
{
    if ps.len() == 0 {
        Some(Seq::empty())
    } else {
        match (properties_of(ps.drop_last()), property_of(ps.last())) {
            (Some(a), Some(p)) => Some(a.push(p)),
            _ => None,
        }
    }
}

/// `id` or `id[key=value,...]`.
pub open spec fn block_state_of(b: Seq<char>) -> Result<
    (Seq<char>, Seq<(Seq<char>, Seq<char>)>),
    ErrorView,
> {
    let k = first_index(b, '[');
    if k == b.len() {
        Ok((b, Seq::empty()))
    } else {
        let rest = b.skip(k + 1);
        if rest.len() == 0 || rest.last() != ']' {
            Err(ErrorView::InvalidState(rest))
        } else {
            let inner = rest.drop_last();
            match properties_of(pieces(inner, ',')) {
                Some(ps) => Ok((b.take(k), ps)),
                None => Err(ErrorView::InvalidState(inner)),
            }
        }
    }
}

fn parse_property(p: &Vec<char>) -> (r: Option<(String, String)>)
    ensures
        r matches Some(kv) ==> property_of(p@) == Some((kv.0@, kv.1@)),
        r is None ==> property_of(p@) is None,
{
    let t = trimmed(p);
    let k = find_char(&t, '=');
    if k == t.len() {
        return None;
    }
    let value = sub_vec(&t, k + 1, t.len());
    assert(value@ =~= t@.skip(k + 1));
    let k2 = find_char(&value, '=');
    if k2 != value.len() {
        return None;
    }
    assert(t@.subrange(0, k as int) =~= t@.take(k as int));
    Some((string_of(&t, 0, k), string_from(&value)))
}

fn parse_block_state(b: &Vec<char>) -> (r: Result<BlockState, CompileErrorType>)
    ensures
        r matches Ok(st) ==> block_state_of(b@) == Ok::<
            (Seq<char>, Seq<(Seq<char>, Seq<char>)>),
            ErrorView,
        >((st.id@, crate::objects::states_view(st.states@))),
        r matches Err(e) ==> block_state_of(b@) == Err::<
            (Seq<char>, Seq<(Seq<char>, Seq<char>)>),
            ErrorView,
        >(e@),
{
    let k = find_char(b, '[');
    if k == b.len() {
        let states: Vec<(String, String)> = Vec::new();
        assert(crate::objects::states_view(states@) =~= Seq::<(Seq<char>, Seq<char>)>::empty());
        return Ok(BlockState::new(string_from(b), states));
    }
    let rest = sub_vec(b, k + 1, b.len());
    assert(rest@ =~= b@.skip(k + 1));
    if rest.len() == 0 || rest[rest.len() - 1] != ']' {
        return Err(CompileErrorType::InvalidState(string_from(&rest)));
    }
    let inner = sub_vec(&rest, 0, rest.len() - 1);
    assert(inner@ =~= rest@.drop_last());
    let ps = split_on(&inner, ',');
    let ghost pv = words_view(ps@);
    let mut states: Vec<(String, String)> = Vec::new();
    let mut i: usize = 0;
    assert(pv.take(0) =~= Seq::<Seq<char>>::empty());
    assert(crate::objects::states_view(states@) =~= Seq::<(Seq<char>, Seq<char>)>::empty());
    while i < ps.len()
        invariant
            i <= ps.len(),
            pv == words_view(ps@),
            pv == pieces(inner@, ','),
            properties_of(pv.take(i as int)) == Some(crate::objects::states_view(states@)),
            k < b.len(),
            block_state_of(b@) == (match properties_of(pv) {
                Some(ps) => Ok((b@.take(k as int), ps)),
                None => Err(ErrorView::InvalidState(inner@)),
            }),
        decreases ps.len() - i,
    {
        assert(pv.take(i + 1).drop_last() =~= pv.take(i as int));
        assert(pv.take(i + 1).last() == ps@[i as int]@);
        match parse_property(&ps[i]) {
            None => {
                proof {
                    assert(properties_of(pv.take(i + 1)) is None);
                    lemma_properties_prefix(pv, i + 1);
                    assert(pv.take(ps.len() as int) =~= pv);
                }
                return Err(CompileErrorType::InvalidState(string_from(&inner)));
            },
            Some(kv) => {
                let ghost before = states@;
                states.push(kv);
                proof {
                    assert(crate::objects::states_view(states@) =~= crate::objects::states_view(
                        before,
                    ).push((kv.0@, kv.1@)));
                }
            },
        }
        i = i + 1;
    }
    assert(pv.take(ps.len() as int) =~= pv);
    assert(b@.take(k as int) =~= b@.subrange(0, k as int));
    Ok(BlockState::new(string_of(b, 0, k), states))
}

/// Once a prefix of the pieces fails, the whole list fails.
proof fn lemma_properties_prefix(ps: Seq<Seq<char>>, i: int)
    requires
        0 <= i <= ps.len(),
        properties_of(ps.take(i)) is None,
    ensures
        properties_of(ps) is None,
    decreases ps.len() - i,
{
    if i < ps.len() {
        assert(ps.take(i + 1).drop_last() =~= ps.take(i));
        lemma_properties_prefix(ps, i + 1);
    } else {
        assert(ps.take(i) =~= ps);
    }
}

/// `block <entity> <id>[<key>=<value>,...]`.
pub open spec fn block_spec(text: Seq<char>, args: Seq<Seq<char>>, skip: nat, delay: u32) -> Result<
    StatementView,
    ErrorView,
> {
    match payload_spec(text, args, skip) {
        Err(e) => Err(e),
        Ok(p) => match block_state_of(p.1) {
            Err(e) => Err(e),
            Ok(b) => Ok(StatementView::Block(p.0, b.0, b.1, delay)),
        },
    }
}

pub fn parse_block(
    text: &Vec<char>,
    ws: &Vec<Vec<char>>,
    a: usize,
    delay: u32,
    regexes: &Regexes,
) -> (r: Result<Statement, CompileErrorType>)
    requires
        a <= ws.len(),
    ensures
        same_outcome(r, block_spec(text@, args_of(ws@, a as int), (a + 1) as nat, delay)),
{
    match parse_payload(text, ws, a, regexes) {
        Err(e) => Err(e),
        Ok((entity, rest)) => match parse_block_state(&rest) {
            Err(e) => Err(e),
            Ok(b) => Ok(Statement::Block(entity, b, delay)),
        },
    }
}

// ---------------------------------------------------------------- teleport

/// `teleport <entity> <x> <y> <z>`: a move by that offset.
pub open spec fn teleport_spec(text: Seq<char>, args: Seq<Seq<char>>, delay: u32) -> Result<
    StatementView,
    ErrorView,
> {
    if args.len() != 4 {
        Err(count_error(text, 4, args))
    } else if !is_valid_name(args[0]) {
        Err(ErrorView::InvalidEntityName(args[0]))
    } else {
        match plain_vector_of(args[1], args[2], args[3]) {
            Err(e) => Err(e),
            Ok(v) => Ok(
                StatementView::Teleport(args[0], Translation { x: v.0, y: v.1, z: v.2 }, delay),
            ),
        }
    }
}

pub fn parse_teleport(
    text: &Vec<char>,
    ws: &Vec<Vec<char>>,
    a: usize,
    delay: u32,
    regexes: &Regexes,
) -> (r: Result<Statement, CompileErrorType>)
    requires
        a <= ws.len(),
    ensures
        same_outcome(r, teleport_spec(text@, args_of(ws@, a as int), delay)),
{
    let n = ws.len() - a;
    if n != 4 {
        return Err(count_err(text, 4, n));
    }
    proof {
        lemma_arg(ws@, a as int, 0);
        lemma_arg(ws@, a as int, 1);
        lemma_arg(ws@, a as int, 2);
        lemma_arg(ws@, a as int, 3);
    }
    let entity = match entity_arg(&ws[a], regexes) {
        Ok(e) => e,
        Err(e) => {
            return Err(e);
        },
    };
    match parse_plain_vector(&ws[a + 1], &ws[a + 2], &ws[a + 3]) {
        Err(e) => Err(e),
        Ok(v) => Ok(Statement::Teleport(entity, Translation { x: v.0, y: v.1, z: v.2 }, delay)),
    }
}

// ---------------------------------------------------------------- raw

/// A word that starts with `/` passes the statement through as a command,
/// as written from that word on: after `//` at once, after `/` when the
/// timer reaches its delay; `skip` is the number of words before it.
pub open spec fn raw_spec(text: Seq<char>, skip: nat, delay: u32) -> StatementView {
    let r = after_words(text, skip);
    let immediate = r.len() >= 2 && r[1] == '/';
    let command = if immediate {
        r.skip(2)
    } else if r.len() >= 1 {
        r.skip(1)
    } else {
        r
    };
    StatementView::Raw(command, !immediate, delay)
}

pub fn parse_raw(text: &Vec<char>, k: usize, delay: u32) -> (r: Statement)
    ensures
        r@ == raw_spec(text@, k as nat, delay),
{
    let start = after_words_index(text, k);
    let ghost rest = text@.skip(start as int);
    let n = text.len() - start;
    let immediate = n >= 2 && text[start + 1] == '/';
    let from = if immediate {
        start + 2
    } else if n >= 1 {
        start + 1
    } else {
        start
    };
    let command = sub_vec(text, from, text.len());
    proof {
        if immediate {
            assert(rest[1] == text@[start + 1]);
            assert(command@ =~= rest.skip(2));
        } else if n >= 1 {
            if n >= 2 {
                assert(rest[1] == text@[start + 1]);
            }
            assert(command@ =~= rest.skip(1));
        } else {
            assert(command@ =~= rest);
        }
    }
    Statement::Raw { command: string_from(&command), delayed: !immediate, delay }
}

// ---------------------------------------------------------------- end

/// `end`: no arguments; a single number before it must be a delay.
pub open spec fn end_spec(
    text: Seq<char>,
    lead: Seq<char>,
    args: Seq<Seq<char>>,
    numbers: NumberSet,
    single: Option<crate::objects::Number>,
) -> Result<StatementView, ErrorView> {
    if args.len() != 0 {
        Err(count_error(text, 0, args))
    } else if single matches Some(n) && n.number_type == crate::objects::NumberType::Duration {
        Err(ErrorView::WrongNumberType(lead))
    } else {
        Ok(StatementView::End(numbers.delay))
    }
}

// ---------------------------------------------------------------- statement

/// What a statement's text makes, read with the inherited timing and the
/// transforms recorded so far.
pub open spec fn statement_spec(text: Seq<char>, inherited: NumberSet, m: TransformMap) -> Result<
    StatementView,
    ErrorView,
> {
    let ws = words(text);
    match recognize(ws, inherited) {
        Err(e) => Err(e),
        Ok((k, numbers, single)) => if k >= ws.len() {
            Err(ErrorView::MissingKeyword(text))
        } else {
            let kw = ws[k];
            let args = ws.skip(k + 1);
            if kw.len() > 0 && kw[0] == '/' {
                Ok(raw_spec(text, k as nat, numbers.delay))
            } else {
                match keyword_of(kw) {
                    None => Err(ErrorView::InvalidKeyword(kw)),
                    Some(Keyword::Object) => object_spec(text, args),
                    Some(Keyword::Wait) => wait_spec(text, args),
                    Some(Keyword::Translate) => translate_spec(text, args, numbers, m),
                    Some(Keyword::Rotate) => rotate_spec(text, args, numbers, m),
                    Some(Keyword::Scale) => scale_spec(text, args, numbers, m),
                    Some(Keyword::Spawn) => spawn_spec(text, args, numbers.delay),
                    Some(Keyword::Item) => item_spec(text, args, (k + 2) as nat, numbers.delay),
                    Some(Keyword::Block) => block_spec(text, args, (k + 2) as nat, numbers.delay),
                    Some(Keyword::Text) => text_spec(text, args, (k + 2) as nat, numbers.delay),
                    Some(Keyword::Teleport) => teleport_spec(text, args, numbers.delay),
                    Some(Keyword::End) => end_spec(text, ws[0], args, numbers, single),
                }
            }
        },
    }
}

/// Parses one statement's text and records what it does to the transforms.
pub fn parse_statement(
    text: &Vec<char>,
    inherited: NumberSet,
    regexes: &Regexes,
    states: &mut EntityStates,
) -> (r: Result<Statement, CompileErrorType>)
    requires
        old(states).wf(),
    ensures
        final(states).wf(),
        same_outcome(r, statement_spec(text@, inherited, old(states).view())),
        r matches Ok(s) ==> final(states).view() == after(old(states).view(), s@),
        r is Err ==> final(states).view() == old(states).view(),
{
    let ws = split_into_words(text);
    let ghost wv = words_view(ws@);
    let g = match recognize_numbers(&ws, inherited) {
        Ok(g) => g,
        Err(e) => {
            return Err(e);
        },
    };
    if g.keyword >= ws.len() {
        return Err(CompileErrorType::MissingKeyword(string_from(text)));
    }
    let k = g.keyword;
    let a = k + 1;
    let numbers = g.numbers;
    assert(wv[k as int] == ws@[k as int]@);
    assert(args_of(ws@, a as int) == wv.skip(k + 1));
    let kw = &ws[k];
    if kw.len() > 0 && kw[0] == '/' {
        return Ok(parse_raw(text, k, numbers.delay));
    }
    let keyword = match Keyword::from_word(kw) {
        Ok(kw) => kw,
        Err(e) => {
            return Err(e);
        },
    };
    match keyword {
        Keyword::Object => parse_object(text, &ws, a, regexes),
        Keyword::Wait => parse_wait(text, &ws, a),
        Keyword::Translate => parse_translate(text, &ws, a, numbers, regexes, states),
        Keyword::Rotate => parse_rotate(text, &ws, a, numbers, regexes, states),
        Keyword::Scale => parse_scale(text, &ws, a, numbers, regexes, states),
        Keyword::Spawn => parse_spawn(text, &ws, a, numbers.delay, regexes),
        Keyword::Item => parse_item(text, &ws, a, numbers.delay, regexes),
        Keyword::Block => parse_block(text, &ws, a, numbers.delay, regexes),
        Keyword::Text => parse_text(text, &ws, a, numbers.delay, regexes),
        Keyword::Teleport => parse_teleport(text, &ws, a, numbers.delay, regexes),
        Keyword::End => {
            if a != ws.len() {
                return Err(count_err(text, 0, ws.len() - a));
            }
            match g.single {
                Some(n) => {
                    if n.number_type == NumberType::Duration {
                        assert(wv[0] == ws@[0]@);
                        return Err(CompileErrorType::WrongNumberType(string_from(&ws[0])));
                    }
                },
                None => {},
            }
            Ok(Statement::End(numbers.delay))
        },
    }
}

/// Two leading numbers of one type make any statement fail on the second,
/// whatever its keyword and whatever timing it inherits.
pub proof fn lemma_duplicate_type_statement(text: Seq<char>, inherited: NumberSet, m: TransformMap)
    requires
        words(text).len() >= 2,
        crate::objects::number_of(words(text)[0]) is Some,
        crate::objects::number_of(words(text)[1]) is Some,
        crate::objects::number_of(words(text)[0])->0.number_type == crate::objects::number_of(
            words(text)[1],
        )->0.number_type,
    ensures
        statement_spec(text, inherited, m) == Err::<StatementView, ErrorView>(
            ErrorView::DuplicateNumberType(words(text)[1]),
        ),
{
    crate::statements::lemma_duplicate_type(words(text), inherited);
}

} // verus!
