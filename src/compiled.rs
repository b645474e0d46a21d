//! Code generation: a program becomes timer-gated commands.
use vstd::prelude::*;

use crate::objects::{block_state_text, decimal_notation, vector_text, Decimal};
use crate::statements::{statement_views, Program, Statement, StatementView};
use crate::text::{decimal_text, push_decimal, push_str};

use itertools::Itertools;

verus! {

/// The output for one source file.
pub struct CompiledFile {
    pub path: String,
    pub object_name: String,
    pub animation_name: String,
    pub contents: String,
}

/// Lines joined by `sep`, with nothing before the first or after the last.
pub open spec fn joined(ls: Seq<Seq<char>>, sep: Seq<char>) -> Seq<char>
    decreases ls.len(),
{
    if ls.len() == 0 {
        Seq::empty()
    } else if ls.len() == 1 {
        ls[0]
    } else {
        joined(ls.drop_last(), sep) + sep + ls.last()
    }
}

pub open spec fn string_views(v: Seq<String>) -> Seq<Seq<char>> {
    v.map_values(|s: String| s@)
}

/// Relies on itertools::Itertools::join: each item's text, with `sep`
/// between each two and nowhere else; a `String` shows as itself.
#[verifier::external_body]
fn join_lines(lines: &Vec<String>, sep: &str) -> (r: String)
    ensures
        r@ == joined(string_views(lines@), sep@),
{
    lines.iter().join(sep)
}

/// The score holder of an object's animation.
pub open spec fn holder(o: Seq<char>, a: Seq<char>) -> Seq<char> {
    "$"@ + o + "-"@ + a
}

fn push_holder(r: &mut String, object_name: &str, animation_name: &str)
    ensures
        final(r)@ == old(r)@ + holder(object_name@, animation_name@),
{
    push_str(r, "$");
    push_str(r, object_name);
    push_str(r, "-");
    push_str(r, animation_name);
    assert(final(r)@ =~= old(r)@ + holder(object_name@, animation_name@));
}

/// The head of a command that runs as the entity `e` of object `o` when the
/// timer of animation `a` equals `d`.
pub open spec fn guard_text(o: Seq<char>, a: Seq<char>, e: Seq<char>, d: nat) -> Seq<char> {
    "execute as @e[tag="@ + o + ",tag="@ + e + "] if score "@ + holder(o, a)
        + " timer matches "@ + decimal_text(d) + " run "@
}

fn guard(object_name: &str, animation_name: &str, entity_name: &str, delay: u64) -> (r: String)
    ensures
        r@ == guard_text(object_name@, animation_name@, entity_name@, delay as nat),
{
    let mut r = String::new();
    push_str(&mut r, "execute as @e[tag=");
    push_str(&mut r, object_name);
    push_str(&mut r, ",tag=");
    push_str(&mut r, entity_name);
    push_str(&mut r, "] if score ");
    push_holder(&mut r, object_name, animation_name);
    push_str(&mut r, " timer matches ");
    push_decimal(&mut r, delay);
    push_str(&mut r, " run ");
    assert(r@ =~= guard_text(object_name@, animation_name@, entity_name@, delay as nat));
    r
}

pub open spec fn item_text(o: Seq<char>, a: Seq<char>, e: Seq<char>, d: nat, item: Seq<char>) -> Seq<char> {
    guard_text(o, a, e, d) + "item replace entity @s contents with "@ + item
}

pub fn item(
    object_name: &str,
    animation_name: &str,
    entity_name: &str,
    delay: u64,
    item_definition: &str,
) -> (r: String)
    ensures
        r@ == item_text(object_name@, animation_name@, entity_name@, delay as nat, item_definition@),
{
    let mut r = guard(object_name, animation_name, entity_name, delay);
    push_str(&mut r, "item replace entity @s contents with ");
    push_str(&mut r, item_definition);
    r
}

pub open spec fn block_text(o: Seq<char>, a: Seq<char>, e: Seq<char>, d: nat, state: Seq<char>) -> Seq<
    char,
> {
    guard_text(o, a, e, d) + "data merge entity @s {block_state:{"@ + state + "}}"@
}

pub fn block(
    object_name: &str,
    animation_name: &str,
    entity_name: &str,
    delay: u64,
    block_state: &str,
) -> (r: String)
    ensures
        r@ == block_text(object_name@, animation_name@, entity_name@, delay as nat, block_state@),
{
    let mut r = guard(object_name, animation_name, entity_name, delay);
    push_str(&mut r, "data merge entity @s {block_state:{");
    push_str(&mut r, block_state);
    push_str(&mut r, "}}");
    r
}

pub open spec fn text_text(o: Seq<char>, a: Seq<char>, e: Seq<char>, d: nat, t: Seq<char>) -> Seq<char> {
    guard_text(o, a, e, d) + "data merge entity @s {text:'"@ + t + "'}"@
}

pub fn text(
    object_name: &str,
    animation_name: &str,
    entity_name: &str,
    delay: u64,
    text_string: &str,
) -> (r: String)
    ensures
        r@ == text_text(object_name@, animation_name@, entity_name@, delay as nat, text_string@),
{
    let mut r = guard(object_name, animation_name, entity_name, delay);
    push_str(&mut r, "data merge entity @s {text:'");
    push_str(&mut r, text_string);
    push_str(&mut r, "'}");
    r
}

pub open spec fn transformation_text(
    o: Seq<char>,
    a: Seq<char>,
    e: Seq<char>,
    d: nat,
    duration: nat,
    payload: Seq<char>,
) -> Seq<char> {
    guard_text(o, a, e, d) + "data merge entity @s {start_interpolation:0,interpolation_duration:"@
        + decimal_text(duration) + ",transformation:{"@ + payload + "}}"@
}

pub fn transformation(
    object_name: &str,
    animation_name: &str,
    entity_name: &str,
    delay: u64,
    duration: u32,
    payload: &str,
) -> (r: String)
    ensures
        r@ == transformation_text(
            object_name@,
            animation_name@,
            entity_name@,
            delay as nat,
            duration as nat,
            payload@,
        ),
{
    let mut r = guard(object_name, animation_name, entity_name, delay);
    push_str(&mut r, "data merge entity @s {start_interpolation:0,interpolation_duration:");
    push_decimal(&mut r, duration as u64);
    push_str(&mut r, ",transformation:{");
    push_str(&mut r, payload);
    push_str(&mut r, "}}");
    r
}

/// The three relative coordinates of an offset: `~x ~y ~z`.
pub open spec fn offset_text(x: Decimal, y: Decimal, z: Decimal) -> Seq<char> {
    "~"@ + decimal_notation(x.units as int) + " ~"@ + decimal_notation(y.units as int) + " ~"@
        + decimal_notation(z.units as int)
}

fn push_offset(r: &mut String, x: Decimal, y: Decimal, z: Decimal)
    ensures
        final(r)@ == old(r)@ + offset_text(x, y, z),
{
    push_str(r, "~");
    x.push_notation(r);
    push_str(r, " ~");
    y.push_notation(r);
    push_str(r, " ~");
    z.push_notation(r);
    assert(final(r)@ =~= old(r)@ + offset_text(x, y, z));
}

pub open spec fn spawn_text(
    o: Seq<char>,
    a: Seq<char>,
    d: nat,
    entity_type: Seq<char>,
    new: Seq<char>,
    source: Seq<char>,
    offset: (Decimal, Decimal, Decimal),
) -> Seq<char> {
    "execute as @e[tag="@ + o + ",tag="@ + source + "] at @s if score "@ + holder(o, a)
        + " timer matches "@ + decimal_text(d) + " run summon "@ + entity_type + " "@
        + offset_text(offset.0, offset.1, offset.2) + " {Tags:[\""@ + o + "\",\""@ + new
        + "\"]}"@
}

pub fn spawn(
    object_name: &str,
    animation_name: &str,
    delay: u64,
    entity_type: &str,
    new_entity_name: &str,
    source_entity_name: &str,
    offset: (Decimal, Decimal, Decimal),
) -> (r: String)
    ensures
        r@ == spawn_text(
            object_name@,
            animation_name@,
            delay as nat,
            entity_type@,
            new_entity_name@,
            source_entity_name@,
            offset,
        ),
{
    let mut r = String::new();
    push_str(&mut r, "execute as @e[tag=");
    push_str(&mut r, object_name);
    push_str(&mut r, ",tag=");
    push_str(&mut r, source_entity_name);
    push_str(&mut r, "] at @s if score ");
    push_holder(&mut r, object_name, animation_name);
    push_str(&mut r, " timer matches ");
    push_decimal(&mut r, delay);
    push_str(&mut r, " run summon ");
    push_str(&mut r, entity_type);
    push_str(&mut r, " ");
    push_offset(&mut r, offset.0, offset.1, offset.2);
    push_str(&mut r, " {Tags:[\"");
    push_str(&mut r, object_name);
    push_str(&mut r, "\",\"");
    push_str(&mut r, new_entity_name);
    push_str(&mut r, "\"]}");
    assert(r@ =~= spawn_text(
        object_name@,
        animation_name@,
        delay as nat,
        entity_type@,
        new_entity_name@,
        source_entity_name@,
        offset,
    ));
    r
}

pub open spec fn teleport_text(o: Seq<char>, a: Seq<char>, e: Seq<char>, d: nat, by: (Decimal, Decimal, Decimal)) -> Seq<
    char,
> {
    guard_text(o, a, e, d) + "tp @s "@ + offset_text(by.0, by.1, by.2)
}

pub fn teleport(
    object_name: &str,
    animation_name: &str,
    entity_name: &str,
    delay: u64,
    by: (Decimal, Decimal, Decimal),
) -> (r: String)
    ensures
        r@ == teleport_text(object_name@, animation_name@, entity_name@, delay as nat, by),
{
    let mut r = guard(object_name, animation_name, entity_name, delay);
    push_str(&mut r, "tp @s ");
    push_offset(&mut r, by.0, by.1, by.2);
    assert(r@ =~= teleport_text(object_name@, animation_name@, entity_name@, delay as nat, by));
    r
}

pub open spec fn raw_text(o: Seq<char>, a: Seq<char>, d: nat, command: Seq<char>, delayed: bool) -> Seq<
    char,
> {
    if delayed {
        "execute if score "@ + holder(o, a) + " timer matches "@ + decimal_text(d) + " run "@
            + command
    } else {
        command
    }
}

pub fn raw(object_name: &str, animation_name: &str, delay: u64, command: &str, delayed: bool) -> (r: String)
    ensures
        r@ == raw_text(object_name@, animation_name@, delay as nat, command@, delayed),
{
    let mut r = String::new();
    if delayed {
        push_str(&mut r, "execute if score ");
        push_holder(&mut r, object_name, animation_name);
        push_str(&mut r, " timer matches ");
        push_decimal(&mut r, delay);
        push_str(&mut r, " run ");
    }
    push_str(&mut r, command);
    assert(r@ =~= raw_text(object_name@, animation_name@, delay as nat, command@, delayed));
    r
}

/// The two lines that, from delay `d` on, switch the animation off and
/// reset its timer.
pub open spec fn reset_text(o: Seq<char>, a: Seq<char>, d: nat) -> Seq<char> {
    "execute if score "@ + holder(o, a) + " timer matches "@ + decimal_text(d)
        + ".. run scoreboard players set "@ + holder(o, a) + " flags 0\n"@ + "execute if score "@
        + holder(o, a) + " timer matches "@ + decimal_text(d)
        + ".. run scoreboard players set "@ + holder(o, a) + " timer -1"@
}

pub fn reset(object_name: &str, animation_name: &str, delay: u64) -> (r: String)
    ensures
        r@ == reset_text(object_name@, animation_name@, delay as nat),
{
    let mut r = String::new();
    push_str(&mut r, "execute if score ");
    push_holder(&mut r, object_name, animation_name);
    push_str(&mut r, " timer matches ");
    push_decimal(&mut r, delay);
    push_str(&mut r, ".. run scoreboard players set ");
    push_holder(&mut r, object_name, animation_name);
    push_str(&mut r, " flags 0\n");
    push_str(&mut r, "execute if score ");
    push_holder(&mut r, object_name, animation_name);
    push_str(&mut r, " timer matches ");
    push_decimal(&mut r, delay);
    push_str(&mut r, ".. run scoreboard players set ");
    push_holder(&mut r, object_name, animation_name);
    push_str(&mut r, " timer -1");
    assert(r@ =~= reset_text(object_name@, animation_name@, delay as nat));
    r
}

pub open spec fn increment_text(o: Seq<char>, a: Seq<char>) -> Seq<char> {
    "scoreboard players add "@ + holder(o, a) + " timer 1"@
}

pub fn increment(object_name: &str, animation_name: &str) -> (r: String)
    ensures
        r@ == increment_text(object_name@, animation_name@),
{
    let mut r = String::new();
    push_str(&mut r, "scoreboard players add ");
    push_holder(&mut r, object_name, animation_name);
    push_str(&mut r, " timer 1");
    assert(r@ =~= increment_text(object_name@, animation_name@));
    r
}

pub open spec fn tick_line_text(o: Seq<char>, a: Seq<char>, namespace: Seq<char>, path: Seq<char>) -> Seq<
    char,
> {
    "execute if score "@ + holder(o, a) + " flags matches 1.. run function "@ + namespace + ":"@
        + path
}

/// The line of the tick function that runs an animation while its flags
/// are on.
pub fn tick_function_line(
    object_name: &str,
    animation_name: &str,
    namespace: &str,
    path: &str,
) -> (r: String)
    ensures
        r@ == tick_line_text(object_name@, animation_name@, namespace@, path@),
{
    let mut r = String::new();
    push_str(&mut r, "execute if score ");
    push_holder(&mut r, object_name, animation_name);
    push_str(&mut r, " flags matches 1.. run function ");
    push_str(&mut r, namespace);
    push_str(&mut r, ":");
    push_str(&mut r, path);
    assert(r@ =~= tick_line_text(object_name@, animation_name@, namespace@, path@));
    r
}

pub open spec fn disclaimer_text() -> Seq<char> {
    "# File generated using DiSPA"@
}

/// The comment that heads every generated file.
pub fn disclaimer() -> (r: String)
    ensures
        r@ == disclaimer_text(),
{
    "# File generated using DiSPA".to_owned()
}

/// What the generator knows after a prefix of a program: the names in
/// force, the ticks waited so far, how many rotations it has used, and the
/// names in force at the end of the program.
pub struct GenState {
    pub obj: Seq<char>,
    pub anim: Seq<char>,
    pub wait: nat,
    pub rot: nat,
    /// The names the whole program ends with, which the reset lines use.
    pub final_obj: Seq<char>,
    pub final_anim: Seq<char>,
}

/// The lines a statement becomes; `rots` holds the payload of each
/// rotation, in order.
pub open spec fn effect_lines(st: StatementView, g: GenState, rots: Seq<Seq<char>>) -> Seq<Seq<char>> {
    let (o, a, w) = (g.obj, g.anim, g.wait);
    match st {
        StatementView::ObjectName(_, _) => Seq::empty(),
        StatementView::Wait(_) => Seq::empty(),
        StatementView::Translate(e, t, n) => seq![
            transformation_text(
                o,
                a,
                e,
                (w + n.delay) as nat,
                n.duration as nat,
                vector_text("translation: "@, t.x, t.y, t.z),
            ),
        ],
        StatementView::Rotate(e, _, _, n) => seq![
            transformation_text(o, a, e, (w + n.delay) as nat, n.duration as nat, rots[g.rot as int]),
        ],
        StatementView::Scale(e, sc, n) => seq![
            transformation_text(
                o,
                a,
                e,
                (w + n.delay) as nat,
                n.duration as nat,
                vector_text("scale: "@, sc.x, sc.y, sc.z),
            ),
        ],
        StatementView::Spawn(source, ty, new, off, d) => seq![
            spawn_text(o, a, ((w + d) as nat) as nat, ty, new, source, (off.x, off.y, off.z)),
        ],
        StatementView::Item(e, i, d) => seq![item_text(o, a, e, ((w + d) as nat) as nat, i)],
        StatementView::Block(e, id, sts, d) => seq![
            block_text(o, a, e, ((w + d) as nat) as nat, block_state_text(id, sts)),
        ],
        StatementView::Text(e, t, d) => seq![text_text(o, a, e, ((w + d) as nat) as nat, t)],
        StatementView::Teleport(e, t, d) => seq![teleport_text(o, a, e, ((w + d) as nat) as nat, (t.x, t.y, t.z))],
        StatementView::Raw(c, delayed, d) => seq![raw_text(o, a, ((w + d) as nat) as nat, c, delayed)],
        StatementView::End(d) => seq![reset_text(g.final_obj, g.final_anim, (w + d) as nat)],
    }
}

/// The generator's state after a statement: `object` renames, `wait`
/// moves the delays on, a rotation uses up its payload.
pub open spec fn gen_step(st: StatementView, g: GenState) -> GenState {
    match st {
        StatementView::ObjectName(o, a) => GenState { obj: o, anim: a, ..g },
        StatementView::Wait(d) => GenState { wait: (g.wait + d) as nat, ..g },
        StatementView::Rotate(..) => GenState { rot: g.rot + 1, ..g },
        _ => g,
    }
}

pub open spec fn generate(stmts: Seq<StatementView>, rots: Seq<Seq<char>>, g0: GenState) -> (
    Seq<Seq<char>>,
    GenState,
)
    decreases stmts.len(),
{
    if stmts.len() == 0 {
        (Seq::empty(), g0)
    } else {
        let (ls, g) = generate(stmts.drop_last(), rots, g0);
        (ls + effect_lines(stmts.last(), g, rots), gen_step(stmts.last(), g))
    }
}

/// How many rotations a program holds.
pub open spec fn rotate_count(stmts: Seq<StatementView>) -> nat
    decreases stmts.len(),
{
    if stmts.len() == 0 {
        0
    } else {
        rotate_count(stmts.drop_last()) + if stmts.last() is Rotate {
            1nat
        } else {
            0nat
        }
    }
}

proof fn lemma_rotate_count_grows(s: Seq<StatementView>, i: int)
    requires
        0 <= i <= s.len(),
    ensures
        rotate_count(s.take(i)) <= rotate_count(s),
    decreases s.len() - i,
{
    if i < s.len() {
        lemma_rotate_count_grows(s, i + 1);
        assert(s.take(i + 1).drop_last() =~= s.take(i));
    } else {
        assert(s.take(i) =~= s);
    }
}

/// The names a program ends with: those of its last `object` statement,
/// else the file name for both.
pub open spec fn final_names(stmts: Seq<StatementView>, file_name: Seq<char>) -> (Seq<char>, Seq<char>)
    decreases stmts.len(),
{
    if stmts.len() == 0 {
        (file_name, file_name)
    } else {
        match stmts.last() {
            StatementView::ObjectName(o, a) => (o, a),
            _ => final_names(stmts.drop_last(), file_name),
        }
    }
}

pub open spec fn initial_gen(stmts: Seq<StatementView>, file_name: Seq<char>) -> GenState {
    GenState {
        obj: file_name,
        anim: file_name,
        wait: 0,
        rot: 0,
        final_obj: final_names(stmts, file_name).0,
        final_anim: final_names(stmts, file_name).1,
    }
}

/// The generated text: a heading comment, each statement's lines, and the
/// line that advances the timer, one per line. The reset lines and the
/// timer line use the names the program ends with.
pub open spec fn compiled_text(stmts: Seq<StatementView>, rots: Seq<Seq<char>>, file_name: Seq<char>) -> Seq<
    char,
> {
    let ls = generate(stmts, rots, initial_gen(stmts, file_name)).0;
    let fin = final_names(stmts, file_name);
    joined(seq![disclaimer_text()] + ls + seq![increment_text(fin.0, fin.1)], "\n"@)
}

/// Generates the commands of a program. The names default to the file name
/// until an `object` statement gives others; `rotations` holds the payload
/// of each rotation of the program, in order.
pub fn program(parsed: Program, file_name: &str, file_path: &str, rotations: &Vec<String>) -> (r:
    CompiledFile)
    requires
        parsed.statements.len() <= u32::MAX,
        rotations.len() == rotate_count(statement_views(parsed.statements@)),
    ensures
        ({
            let stmts = statement_views(parsed.statements@);
            let fin = final_names(stmts, file_name@);
            &&& r.path@ == file_path@
            &&& r.object_name@ == fin.0
            &&& r.animation_name@ == fin.1
            &&& r.contents@ == compiled_text(stmts, string_views(rotations@), file_name@)
        }),
{
    let ghost stmts = statement_views(parsed.statements@);
    let ghost rots = string_views(rotations@);
    let mut final_object = file_name.to_owned();
    let mut final_animation = file_name.to_owned();
    let mut j: usize = 0;
    assert(stmts.take(0) =~= Seq::<StatementView>::empty());
    while j < parsed.statements.len()
        invariant
            j <= parsed.statements.len(),
            stmts == statement_views(parsed.statements@),
            (final_object@, final_animation@) == final_names(stmts.take(j as int), file_name@),
        decreases parsed.statements.len() - j,
    {
        assert(stmts.take(j + 1).drop_last() =~= stmts.take(j as int));
        assert(stmts.take(j + 1).last() == parsed.statements@[j as int]@);
        match &parsed.statements[j] {
            Statement::ObjectName(o, a) => {
                final_object = o.clone();
                final_animation = a.clone();
            },
            _ => {},
        }
        j = j + 1;
    }
    assert(stmts.take(parsed.statements.len() as int) =~= stmts);
    let mut object_name = file_name.to_owned();
    let mut animation_name = file_name.to_owned();
    let mut wait: u64 = 0;
    let mut rot: usize = 0;
    let mut lines: Vec<String> = Vec::new();
    lines.push(disclaimer());
    let n = parsed.statements.len();
    let mut i: usize = 0;
    proof {
        assert(stmts.take(0) =~= Seq::<StatementView>::empty());
        assert(string_views(lines@) =~= seq![disclaimer_text()]);
        lemma_rotate_count_grows(stmts, 0);
    }
    while i < n
        invariant
            i <= n,
            n == parsed.statements.len(),
            n <= u32::MAX,
            (final_object@, final_animation@) == final_names(stmts, file_name@),
            stmts == statement_views(parsed.statements@),
            rots == string_views(rotations@),
            rotations.len() == rotate_count(stmts),
            rot == rotate_count(stmts.take(i as int)),
            wait <= i * 0xFFFF_FFFFu64,
            ({
                let (ls, g) = generate(stmts.take(i as int), rots, initial_gen(stmts, file_name@));
                &&& string_views(lines@) == seq![disclaimer_text()] + ls
                &&& g == GenState {
                    obj: object_name@,
                    anim: animation_name@,
                    wait: wait as nat,
                    rot: rot as nat,
                    final_obj: final_object@,
                    final_anim: final_animation@,
                }
            }),
        decreases n - i,
    {
        let ghost prefix = stmts.take(i + 1);
        let ghost before = string_views(lines@);
        assert(prefix.drop_last() =~= stmts.take(i as int));
        let st = &parsed.statements[i];
        assert(prefix.last() == st@);
        proof {
            lemma_rotate_count_grows(stmts, i + 1);
            assert((i + 1) * 0xFFFF_FFFFu64 <= 0xFFFF_FFFF * 0xFFFF_FFFFu64) by (nonlinear_arith)
                requires
                    i + 1 <= 0xFFFF_FFFF,
            ;
            assert(i * 0xFFFF_FFFFu64 + 0xFFFF_FFFF == (i + 1) * 0xFFFF_FFFFu64) by (
            nonlinear_arith);
        }
        match st {
            Statement::ObjectName(o, a) => {
                object_name = o.clone();
                animation_name = a.clone();
            },
            Statement::Wait(d) => {
                wait = wait + *d as u64;
            },
            Statement::Translate(e, t, ns) => {
                let payload = t.compile();
                lines.push(
                    transformation(
                        object_name.as_str(),
                        animation_name.as_str(),
                        e.name(),
                        wait + ns.delay as u64,
                        ns.duration,
                        payload.as_str(),
                    ),
                );
            },
            Statement::Rotate(e, _, ns) => {
                assert(rots[rot as int] == rotations@[rot as int]@);
                lines.push(
                    transformation(
                        object_name.as_str(),
                        animation_name.as_str(),
                        e.name(),
                        wait + ns.delay as u64,
                        ns.duration,
                        rotations[rot].as_str(),
                    ),
                );
                rot = rot + 1;
            },
            Statement::Scale(e, sc, ns) => {
                let payload = sc.compile();
                lines.push(
                    transformation(
                        object_name.as_str(),
                        animation_name.as_str(),
                        e.name(),
                        wait + ns.delay as u64,
                        ns.duration,
                        payload.as_str(),
                    ),
                );
            },
            Statement::Spawn { source, entity_type, new, offset, delay } => {
                lines.push(
                    spawn(
                        object_name.as_str(),
                        animation_name.as_str(),
                        wait + *delay as u64,
                        entity_type.as_str(),
                        new.name(),
                        source.name(),
                        (offset.x, offset.y, offset.z),
                    ),
                );
            },
            Statement::Item(e, it, d) => {
                lines.push(
                    item(
                        object_name.as_str(),
                        animation_name.as_str(),
                        e.name(),
                        wait + *d as u64,
                        it.as_str(),
                    ),
                );
            },
            Statement::Block(e, b, d) => {
                let state = b.compile();
                lines.push(
                    block(
                        object_name.as_str(),
                        animation_name.as_str(),
                        e.name(),
                        wait + *d as u64,
                        state.as_str(),
                    ),
                );
            },
            Statement::Text(e, t, d) => {
                lines.push(
                    text(
                        object_name.as_str(),
                        animation_name.as_str(),
                        e.name(),
                        wait + *d as u64,
                        t.as_str(),
                    ),
                );
            },
            Statement::Teleport(e, t, d) => {
                lines.push(
                    teleport(
                        object_name.as_str(),
                        animation_name.as_str(),
                        e.name(),
                        wait + *d as u64,
                        (t.x, t.y, t.z),
                    ),
                );
            },
            Statement::Raw { command, delayed, delay } => {
                lines.push(
                    raw(
                        object_name.as_str(),
                        animation_name.as_str(),
                        wait + *delay as u64,
                        command.as_str(),
                        *delayed,
                    ),
                );
            },
            Statement::End(d) => {
                lines.push(reset(final_object.as_str(), final_animation.as_str(), wait + *d as u64));
            },
        }
        proof {
            assert(string_views(lines@) =~= before + effect_lines(
                st@,
                generate(stmts.take(i as int), rots, initial_gen(stmts, file_name@)).1,
                rots,
            ));
        }
        i = i + 1;
    }
    assert(stmts.take(n as int) =~= stmts);
    let ghost body = string_views(lines@);
    lines.push(increment(final_object.as_str(), final_animation.as_str()));
    assert(string_views(lines@) =~= body + seq![increment_text(final_object@, final_animation@)]);
    let contents = join_lines(&lines, "\n");
    CompiledFile {
        path: file_path.to_owned(),
        object_name: final_object,
        animation_name: final_animation,
        contents,
    }
}

} // verus!
