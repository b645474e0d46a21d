//! The values the compiler works on: source positions, timing numbers,
//! fixed-point coordinates, transforms, entities and block states.
use vstd::prelude::*;

use crate::errors::{CompileErrorType, GenericError};
use crate::text::{
    all_digits, decimal_text, digit_char, digit_of, digits_value, is_digit, parse_digits,
    push_char, push_decimal, push_str, string_from, };

verus! {

/// A place in a source file; line and column count from 1.
#[derive(Debug, Default, Clone, Copy, PartialEq, Eq, Structural)]
pub struct Position {
    pub line: usize,
    pub column: usize,
}

impl Position {
    pub fn new(line: usize, column: usize) -> (r: Self)
        ensures
            r == (Position { line, column }),
    {
        Position { line, column }
    }

    /// The position as `line:column`.
    pub fn to_text(&self) -> (r: String)
        ensures
            r@ == decimal_text(self.line as nat) + ":"@ + decimal_text(self.column as nat),
    {
        let mut r = String::new();
        push_decimal(&mut r, self.line as u64);
        push_str(&mut r, ":");
        push_decimal(&mut r, self.column as u64);
        assert(r@ =~= decimal_text(self.line as nat) + ":"@ + decimal_text(self.column as nat));
        r
    }

    /// The position `offset` columns further on the same line.
    pub fn add(self, offset: usize) -> (r: Self)
        requires
            self.column + offset <= usize::MAX,
        ensures
            r == (Position { line: self.line, column: (self.column + offset) as usize }),
    {
        Position { line: self.line, column: self.column + offset }
    }

    /// The position `offset` columns back on the same line.
    pub fn sub(self, offset: usize) -> (r: Self)
        requires
            offset <= self.column,
        ensures
            r == (Position { line: self.line, column: (self.column - offset) as usize }),
    {
        Position { line: self.line, column: self.column - offset }
    }
}

/// One character of a source file, with where it stands.
#[derive(Debug, Clone, Copy, PartialEq, Eq, Structural)]
pub struct TrackedChar {
    pub position: Position,
    pub character: char,
}

impl TrackedChar {
    /// The character in quotes and where it stands, as `'c': line:column`.
    pub fn to_text(&self) -> (r: String)
        ensures
            r@ == "'"@ + seq![self.character] + "': "@ + decimal_text(self.position.line as nat)
                + ":"@ + decimal_text(self.position.column as nat),
    {
        let mut r = String::new();
        push_str(&mut r, "'");
        push_char(&mut r, self.character);
        push_str(&mut r, "': ");
        let p = self.position.to_text();
        push_str(&mut r, p.as_str());
        assert(r@ =~= "'"@ + seq![self.character] + "': "@ + decimal_text(
            self.position.line as nat,
        ) + ":"@ + decimal_text(self.position.column as nat));
        r
    }

    pub fn new(line: usize, column: usize, character: char) -> (r: Self)
        ensures
            r == (TrackedChar { position: Position { line, column }, character }),
    {
        TrackedChar { position: Position::new(line, column), character }
    }
}

/// The two kinds of timing number, told apart by their prefix.
#[derive(Debug, Clone, Copy, PartialEq, Eq, Structural)]
pub enum NumberType {
    Delay,
    Duration,
}

pub open spec fn prefix_type(c: char) -> Option<NumberType> {
    if c == '@' {
        Some(NumberType::Delay)
    } else if c == '%' {
        Some(NumberType::Duration)
    } else {
        None
    }
}

pub open spec fn prefix_char(t: NumberType) -> char {
    match t {
        NumberType::Delay => '@',
        NumberType::Duration => '%',
    }
}

/// Whether a word starts with a timing prefix.
pub open spec fn has_number_prefix(t: Seq<char>) -> bool {
    t.len() > 0 && prefix_type(t[0]) is Some
}

/// A timing number written as a prefix and decimal digits, as `@10`.
#[derive(Debug, Clone, Copy, PartialEq, Eq, Structural)]
pub struct Number {
    pub value: u32,
    pub number_type: NumberType,
}

/// The number that a word denotes, if it is a valid one.
pub open spec fn number_of(t: Seq<char>) -> Option<Number> {
    if t.len() >= 2 && prefix_type(t[0]) is Some && all_digits(t.skip(1)) && digits_value(
        t.skip(1),
    ) <= u32::MAX {
        Some(Number { value: digits_value(t.skip(1)) as u32, number_type: prefix_type(t[0])->0 })
    } else {
        None
    }
}

/// How a number is written.
pub open spec fn number_text(n: Number) -> Seq<char> {
    seq![prefix_char(n.number_type)] + decimal_text(n.value as nat)
}

/// Writing a number and reading it back gives the same value and type.
pub proof fn lemma_number_round_trip(n: Number)
    ensures
        number_of(number_text(n)) == Some(n),
{
    let t = number_text(n);
    crate::text::lemma_decimal_text(n.value as nat);
    assert(t.skip(1) =~= decimal_text(n.value as nat));
}

pub fn prefix_of(c: char) -> (r: Option<NumberType>)
    ensures
        r == prefix_type(c),
{
    if c == '@' {
        Some(NumberType::Delay)
    } else if c == '%' {
        Some(NumberType::Duration)
    } else {
        None
    }
}

impl Number {
    /// Reads a number from the characters of a word.
    pub fn parse_chars(t: &Vec<char>) -> (r: Result<Number, CompileErrorType>)
        ensures
            r matches Ok(n) ==> number_of(t@) == Some(n),
            r matches Err(e) ==> number_of(t@) is None && e@ == crate::errors::ErrorView::InvalidInt(
                t@,
            ),
    {
        if t.len() < 2 {
            return Err(CompileErrorType::InvalidInt(string_from(t)));
        }
        let kind = prefix_of(t[0]);
        match kind {
            None => Err(CompileErrorType::InvalidInt(string_from(t))),
            Some(k) => {
                let value = parse_digits(t, 1, t.len(), u32::MAX as u64);
                assert(t@.subrange(1, t.len() as int) =~= t@.skip(1));
                match value {
                    None => Err(CompileErrorType::InvalidInt(string_from(t))),
                    Some(v) => Ok(Number { value: v as u32, number_type: k }),
                }
            },
        }
    }

    /// Reads a number such as `@10` or `%20`.
    pub fn parse(token: &str) -> (r: Result<Number, CompileErrorType>)
        ensures
            r matches Ok(n) ==> number_of(token@) == Some(n),
            r matches Err(e) ==> number_of(token@) is None && e@ == crate::errors::ErrorView::InvalidInt(
                token@,
            ),
    {
        let t = crate::text::chars_of(token);
        Number::parse_chars(&t)
    }

    /// The number as it is written, prefix first.
    pub fn to_token(&self) -> (r: String)
        ensures
            r@ == number_text(*self),
    {
        let mut r = String::new();
        let c = match self.number_type {
            NumberType::Delay => '@',
            NumberType::Duration => '%',
        };
        push_char(&mut r, c);
        push_decimal(&mut r, self.value as u64);
        assert(r@ =~= number_text(*self));
        r
    }
}

/// The delay and the duration that a statement runs with.
#[derive(Debug, Clone, Copy, PartialEq, Eq, Structural)]
pub struct NumberSet {
    pub delay: u32,
    pub duration: u32,
}

impl Default for NumberSet {
    fn default() -> (r: Self)
        ensures
            r == (NumberSet { delay: 0, duration: 0 }),
    {
        NumberSet { delay: 0, duration: 0 }
    }
}

/// `base` with the field of `n`'s type set to `n`'s value.
pub open spec fn with_number(base: NumberSet, n: Number) -> NumberSet {
    match n.number_type {
        NumberType::Delay => NumberSet { delay: n.value, ..base },
        NumberType::Duration => NumberSet { duration: n.value, ..base },
    }
}

impl NumberSet {
    /// This set with the field of the number's type replaced.
    pub fn with(self, n: Number) -> (r: NumberSet)
        ensures
            r == with_number(self, n),
    {
        match n.number_type {
            NumberType::Delay => NumberSet { delay: n.value, duration: self.duration },
            NumberType::Duration => NumberSet { delay: self.delay, duration: n.value },
        }
    }
}

/// A coordinate in fixed point: `units` millionths.
#[derive(Debug, Default, Clone, Copy, PartialEq, Eq, Structural)]
pub struct Decimal {
    pub units: i64,
}

/// Millionths in one.
pub const UNITS: u64 = 1000000;

/// The largest magnitude a coordinate may have, in millionths.
pub const MAX_UNITS: u64 = 1000000000000000000;

pub open spec fn pow10(k: nat) -> nat
    decreases k,
{
    if k == 0 {
        1
    } else {
        10 * pow10((k - 1) as nat)
    }
}

/// The value of whole digits `a` and fraction digits `b`, in millionths.
pub open spec fn whole_frac_units(a: Seq<char>, b: Seq<char>) -> Option<int> {
    if a.len() + b.len() >= 1 && b.len() <= 6 && all_digits(a) && all_digits(b) {
        Some((digits_value(a) * 1000000 + digits_value(b) * pow10((6 - b.len()) as nat)) as int)
    } else {
        None
    }
}

pub open spec fn dot_split(s: Seq<char>, k: int) -> bool {
    0 <= k < s.len() && s[k] == '.' && all_digits(s.take(k)) && all_digits(s.skip(k + 1))
}

/// The value, in millionths, of digits with at most one decimal point.
pub open spec fn unsigned_units(s: Seq<char>) -> Option<int> {
    if all_digits(s) {
        whole_frac_units(s, Seq::empty())
    } else if exists|k: int| dot_split(s, k) {
        let k = choose|k: int| dot_split(s, k);
        whole_frac_units(s.take(k), s.skip(k + 1))
    } else {
        None
    }
}

pub open spec fn signed_units(s: Seq<char>) -> Option<int> {
    if s.len() > 0 && s[0] == '-' {
        match unsigned_units(s.skip(1)) {
            Some(u) => Some(-u),
            None => None,
        }
    } else if s.len() > 0 && s[0] == '+' {
        unsigned_units(s.skip(1))
    } else {
        unsigned_units(s)
    }
}

/// The coordinate that a word denotes: an optional sign, digits, and at most
/// six digits after a decimal point, within the allowed magnitude.
pub open spec fn decimal_of(s: Seq<char>) -> Option<Decimal> {
    match signed_units(s) {
        Some(u) => if -(MAX_UNITS as int) <= u <= MAX_UNITS as int {
            Some(Decimal { units: u as i64 })
        } else {
            None
        },
        None => None,
    }
}

/// The `k` lowest decimal digits of `f`, leading zeros kept.
pub open spec fn fixed_digits(f: nat, k: nat) -> Seq<char>
    decreases k,
{
    if k == 0 {
        Seq::empty()
    } else {
        fixed_digits(f / 10, (k - 1) as nat).push(digit_char(f % 10))
    }
}

/// The `k` lowest decimal digits of `f` without trailing zeros.
pub open spec fn fraction_text(f: nat, k: nat) -> Seq<char>
    decreases k,
{
    if k > 0 && f % 10 == 0 {
        fraction_text(f / 10, (k - 1) as nat)
    } else {
        fixed_digits(f, k)
    }
}

pub open spec fn magnitude_text(m: nat) -> Seq<char> {
    if m % 1000000 == 0 {
        decimal_text(m / 1000000)
    } else {
        decimal_text(m / 1000000) + seq!['.'] + fraction_text(m % 1000000, 6)
    }
}

/// The shortest notation of a coordinate: `1`, `-0.5`, `2.25`.
pub open spec fn decimal_notation(u: int) -> Seq<char> {
    if u < 0 {
        seq!['-'] + magnitude_text((-u) as nat)
    } else {
        magnitude_text(u as nat)
    }
}

fn push_fixed(s: &mut String, f: u64, k: u64)
    ensures
        final(s)@ == old(s)@ + fixed_digits(f as nat, k as nat),
    decreases k,
{
    if k > 0 {
        push_fixed(s, f / 10, k - 1);
        push_char(s, digit_of(f % 10));
        assert(final(s)@ =~= old(s)@ + fixed_digits(f as nat, k as nat));
    } else {
        assert(final(s)@ =~= old(s)@ + fixed_digits(f as nat, k as nat));
    }
}

fn push_fraction(s: &mut String, f: u64, k: u64)
    ensures
        final(s)@ == old(s)@ + fraction_text(f as nat, k as nat),
    decreases k,
{
    if k > 0 && f % 10 == 0 {
        push_fraction(s, f / 10, k - 1);
    } else {
        push_fixed(s, f, k);
    }
}

fn first_dot(s: &Vec<char>, lo: usize, hi: usize) -> (k: usize)
    requires
        lo <= hi <= s.len(),
    ensures
        lo <= k <= hi,
        forall|j: int| lo <= j < k ==> s@[j] != '.',
        k < hi ==> s@[k as int] == '.',
{
    let mut k: usize = lo;
    while k < hi
        invariant
            lo <= k <= hi <= s.len(),
            forall|j: int| lo <= j < k ==> s@[j] != '.',
        decreases hi - k,
    {
        if s[k] == '.' {
            return k;
        }
        k = k + 1;
    }
    k
}

proof fn lemma_digits_below(s: Seq<char>)
    requires
        all_digits(s),
    ensures
        digits_value(s) < pow10(s.len()),
    decreases s.len(),
{
    if s.len() > 0 {
        assert(all_digits(s.drop_last())) by {
            assert forall|i: int| 0 <= i < s.drop_last().len() implies is_digit(
                #[trigger] s.drop_last()[i],
            ) by {
                assert(s.drop_last()[i] == s[i]);
            }
        }
        lemma_digits_below(s.drop_last());
        assert(is_digit(s[s.len() - 1]));
    }
}

proof fn lemma_pow10_bound(k: nat)
    requires
        k <= 6,
    ensures
        1 <= pow10(k) <= 1000000,
        k == 6 ==> pow10(k) == 1000000,
{
    reveal_with_fuel(pow10, 7);
}

/// Reads the unsigned part `s[lo..hi]` of a coordinate.
fn parse_unsigned(s: &Vec<char>, lo: usize, hi: usize) -> (r: Option<u64>)
    requires
        lo <= hi <= s.len(),
    ensures
        r matches Some(u) ==> unsigned_units(s@.subrange(lo as int, hi as int)) == Some(u as int)
            && u <= MAX_UNITS,
        r is None ==> match unsigned_units(s@.subrange(lo as int, hi as int)) {
            Some(u) => u > MAX_UNITS,
            None => true,
        },
{
    let ghost t = s@.subrange(lo as int, hi as int);
    let k = first_dot(s, lo, hi);
    let whole = parse_digits(s, lo, k, 1000000000000);
    proof {
        assert(t.take(k - lo) =~= s@.subrange(lo as int, k as int));
    }
    if k == hi {
        proof {
            assert(t =~= s@.subrange(lo as int, k as int));
            assert(Seq::<char>::empty().len() == 0);
            assert(all_digits(Seq::<char>::empty()));
            assert(digits_value(Seq::<char>::empty()) == 0);
            lemma_pow10_bound(6);
            assert forall|j: int| !dot_split(t, j) by {
                if 0 <= j < t.len() {
                    assert(t[j] == s@[lo + j]);
                }
            }
        }
        match whole {
            None => None,
            Some(w) => {
                if hi == lo {
                    return None;
                }
                let u = w * UNITS;
                if u > MAX_UNITS {
                    None
                } else {
                    Some(u)
                }
            },
        }
    } else {
        let ghost b = s@.subrange(k + 1, hi as int);
        proof {
            assert(t.skip(k - lo + 1) =~= b);
            assert(!is_digit(t[k - lo]));
            assert(!all_digits(t));
        }
        if hi - k - 1 > 6 {
            proof {
                assert forall|j: int| dot_split(t, j) implies j == k - lo by {
                    if j < k - lo {
                        assert(t[j] == s@[lo + j]);
                    } else if j > k - lo {
                        assert(t.take(j)[k - lo] == '.');
                    }
                }
            }
            return None;
        }
        let frac = parse_digits(s, k + 1, hi, 999999);
        proof {
            assert forall|j: int| dot_split(t, j) implies j == k - lo by {
                if j < k - lo {
                    assert(t[j] == s@[lo + j]);
                } else if j > k - lo {
                    assert(t.take(j)[k - lo] == '.');
                }
            }
            lemma_pow10_bound((6 - b.len()) as nat);
            if all_digits(b) && all_digits(t.take(k - lo)) {
                assert(dot_split(t, k - lo));
            }
        }
        match (whole, frac) {
            (Some(w), Some(f)) => {
                if hi - lo == 1 {
                    return None;
                }
                let mut scale: u64 = 1;
                let mut i: u64 = (hi - k - 1) as u64;
                while i < 6
                    invariant
                        hi - k - 1 <= i <= 6,
                        scale == pow10((i - (hi - k - 1)) as nat),
                        b.len() == hi - k - 1,
                    decreases 6 - i,
                {
                    proof {
                        lemma_pow10_bound((i + 1 - (hi - k - 1)) as nat);
                        reveal_with_fuel(pow10, 2);
                    }
                    scale = scale * 10;
                    i = i + 1;
                }
                proof {
                    lemma_pow10_bound((6 - (hi - k - 1)) as nat);
                    assert(w * 1000000 <= 1000000000000000000) by (nonlinear_arith)
                        requires
                            w <= 1000000000000,
                    ;
                    assert(f * scale <= 1000000000000) by (nonlinear_arith)
                        requires
                            f <= 999999,
                            scale <= 1000000,
                    ;
                }
                let u = w * UNITS + f * scale;
                if u > MAX_UNITS {
                    None
                } else {
                    Some(u)
                }
            },
            _ => {
                proof {
                    if all_digits(b) && all_digits(t.take(k - lo)) {
                        let v = whole_frac_units(t.take(k - lo), b).unwrap();
                        lemma_digits_below(b);
                        lemma_pow10_bound(b.len());
                        assert(digits_value(t.take(k - lo)) > 1000000000000);
                    }
                }
                None
            },
        }
    }
}

/// Reads the coordinate written as `s[lo..hi]`.
pub fn parse_decimal(s: &Vec<char>, lo: usize, hi: usize) -> (r: Option<Decimal>)
    requires
        lo <= hi <= s.len(),
    ensures
        r == decimal_of(s@.subrange(lo as int, hi as int)),
{
    let ghost t = s@.subrange(lo as int, hi as int);
    if lo < hi && (s[lo] == '-' || s[lo] == '+') {
        proof {
            assert(t.skip(1) =~= s@.subrange(lo + 1, hi as int));
        }
        match parse_unsigned(s, lo + 1, hi) {
            None => None,
            Some(u) => {
                if s[lo] == '-' {
                    Some(Decimal { units: -(u as i64) })
                } else {
                    Some(Decimal { units: u as i64 })
                }
            },
        }
    } else {
        match parse_unsigned(s, lo, hi) {
            None => None,
            Some(u) => Some(Decimal { units: u as i64 }),
        }
    }
}

impl Decimal {
    /// Reads a coordinate such as `1`, `-0.25` or `+3.`.
    pub fn parse(token: &str) -> (r: Option<Decimal>)
        ensures
            r == decimal_of(token@),
    {
        let t = crate::text::chars_of(token);
        let r = parse_decimal(&t, 0, t.len());
        assert(t@.subrange(0, t.len() as int) =~= t@);
        r
    }

    /// Appends the shortest notation of this coordinate.
    pub fn push_notation(&self, s: &mut String)
        ensures
            final(s)@ == old(s)@ + decimal_notation(self.units as int),
    {
        let m: u64 = if self.units < 0 {
            ((-(self.units + 1)) as u64) + 1
        } else {
            self.units as u64
        };
        if self.units < 0 {
            push_char(s, '-');
        }
        push_decimal(s, m / UNITS);
        let f = m % UNITS;
        if f != 0 {
            push_char(s, '.');
            push_fraction(s, f, 6);
        }
        assert(final(s)@ =~= old(s)@ + decimal_notation(self.units as int));
    }

    /// The shortest notation of this coordinate.
    pub fn to_text(&self) -> (r: String)
        ensures
            r@ == decimal_notation(self.units as int),
    {
        let mut r = String::new();
        self.push_notation(&mut r);
        assert(r@ =~= decimal_notation(self.units as int));
        r
    }
}

/// `label` followed by three coordinates, as a transformation field.
pub open spec fn vector_text(label: Seq<char>, x: Decimal, y: Decimal, z: Decimal) -> Seq<char> {
    label + "["@ + decimal_notation(x.units as int) + "f,"@ + decimal_notation(y.units as int)
        + "f,"@ + decimal_notation(z.units as int) + "f]"@
}

fn vector_field(label: &str, x: Decimal, y: Decimal, z: Decimal) -> (r: String)
    ensures
        r@ == vector_text(label@, x, y, z),
{
    let mut r = String::new();
    push_str(&mut r, label);
    push_str(&mut r, "[");
    x.push_notation(&mut r);
    push_str(&mut r, "f,");
    y.push_notation(&mut r);
    push_str(&mut r, "f,");
    z.push_notation(&mut r);
    push_str(&mut r, "f]");
    assert(r@ =~= vector_text(label@, x, y, z));
    r
}

/// Where an entity's display sits relative to the entity.
#[derive(Debug, Default, Clone, Copy, PartialEq, Eq, Structural)]
pub struct Translation {
    pub x: Decimal,
    pub y: Decimal,
    pub z: Decimal,
}

impl Translation {
    pub fn new(coordinates: (Decimal, Decimal, Decimal)) -> (r: Self)
        ensures
            r == (Translation { x: coordinates.0, y: coordinates.1, z: coordinates.2 }),
    {
        Translation { x: coordinates.0, y: coordinates.1, z: coordinates.2 }
    }

    pub fn compile(&self) -> (r: String)
        ensures
            r@ == vector_text("translation: "@, self.x, self.y, self.z),
    {
        vector_field("translation: ", self.x, self.y, self.z)
    }
}

/// A turn by `angle` degrees about `axis`.
#[derive(Debug, Default, Clone, Copy, PartialEq, Eq)]
pub struct Rotation {
    pub axis: [Decimal; 3],
    pub angle: Decimal,
}

impl Rotation {
    pub fn new(axis: [Decimal; 3], angle: Decimal) -> (r: Self)
        ensures
            r == (Rotation { axis, angle }),
    {
        Rotation { axis, angle }
    }
}

/// How much an entity's display is stretched along each axis.
#[derive(Debug, Default, Clone, Copy, PartialEq, Eq, Structural)]
pub struct Scale {
    pub x: Decimal,
    pub y: Decimal,
    pub z: Decimal,
}

impl Scale {
    pub fn new(coordinates: (Decimal, Decimal, Decimal)) -> (r: Self)
        ensures
            r == (Scale { x: coordinates.0, y: coordinates.1, z: coordinates.2 }),
    {
        Scale { x: coordinates.0, y: coordinates.1, z: coordinates.2 }
    }

    pub fn compile(&self) -> (r: String)
        ensures
            r@ == vector_text("scale: "@, self.x, self.y, self.z),
    {
        vector_field("scale: ", self.x, self.y, self.z)
    }
}

/// The characters an entity or object name may hold.
pub open spec fn is_name_char(c: char) -> bool {
    ('A' <= c && c <= 'Z') || ('a' <= c && c <= 'z') || ('0' <= c && c <= '9') || c == '_' || c
        == '-'
}

pub open spec fn is_valid_name(s: Seq<char>) -> bool {
    forall|i: int| 0 <= i < s.len() ==> is_name_char(#[trigger] s[i])
}

/// Relies on regex::Regex: an opaque compiled pattern.
#[verifier::external_type_specification]
#[verifier::external_body]
pub struct ExRegex(regex::Regex);

/// The pattern of valid names.
pub const NAME_PATTERN: &'static str = "^[A-Za-z0-9_\\-]*$";

/// Relies on regex::Regex::new, which fails only on a pattern with invalid
/// syntax or one over the size limit; `NAME_PATTERN` is neither.
#[verifier::external_body]
fn compile_name_pattern() -> (r: Result<regex::Regex, regex::Error>)
    ensures
        r is Ok,
{
    regex::Regex::new(NAME_PATTERN)
}

/// The compiled patterns the parser validates names with.
pub struct Regexes {
    name: regex::Regex,
}

/// Relies on regex::Regex::is_match. Only `Regexes::new` builds a `Regexes`,
/// through `compile_name_pattern`, so the pattern is `NAME_PATTERN`, whose anchors make the whole string match a run of
/// ASCII letters, digits, `_` and `-`.
#[verifier::external_body]
fn matches_name(regexes: &Regexes, s: &str) -> (r: bool)
    ensures
        r == is_valid_name(s@),
{
    regexes.name.is_match(s)
}

impl Regexes {
    pub fn new() -> (r: Result<Self, GenericError>)
        ensures
            r is Ok,
    {
        match compile_name_pattern() {
            Ok(name) => Ok(Regexes { name }),
            Err(err) => Err(GenericError::InvalidRegex(NAME_PATTERN.to_owned(), err)),
        }
    }

    /// Whether `s` is a valid entity, object or animation name.
    pub fn is_name(&self, s: &str) -> (r: bool)
        ensures
            r == is_valid_name(s@),
    {
        matches_name(self, s)
    }
}

/// A named target of the statements; its name is a valid name.
#[derive(Debug, Clone, PartialEq, Eq)]
pub struct Entity(String);

impl View for Entity {
    type V = Seq<char>;

    closed spec fn view(&self) -> Seq<char> {
        self.0@
    }
}

impl Entity {
    pub fn new(string: String, validator: &Regexes) -> (r: Result<Self, CompileErrorType>)
        ensures
            r matches Ok(e) ==> is_valid_name(string@) && e@ == string@,
            r matches Err(err) ==> !is_valid_name(string@)
                && err@ == crate::errors::ErrorView::InvalidEntityName(string@),
    {
        if validator.is_name(string.as_str()) {
            Ok(Entity(string))
        } else {
            Err(CompileErrorType::InvalidEntityName(string))
        }
    }

    pub fn name(&self) -> (r: &str)
        ensures
            r@ == self@,
    {
        self.0.as_str()
    }
}

/// The quoted `key:"value"` pairs of a block state, comma separated.
pub open spec fn properties_text(states: Seq<(Seq<char>, Seq<char>)>) -> Seq<char>
    decreases states.len(),
{
    if states.len() == 0 {
        Seq::empty()
    } else if states.len() == 1 {
        property_text(states[0])
    } else {
        properties_text(states.drop_last()) + ","@ + property_text(states.last())
    }
}

pub open spec fn property_text(p: (Seq<char>, Seq<char>)) -> Seq<char> {
    p.0 + ":\""@ + p.1 + "\""@
}

/// A block id and its `key=value` states.
#[derive(Debug, Clone, PartialEq, Eq)]
pub struct BlockState {
    pub id: String,
    pub states: Vec<(String, String)>,
}

pub open spec fn states_view(states: Seq<(String, String)>) -> Seq<(Seq<char>, Seq<char>)> {
    states.map_values(|p: (String, String)| (p.0@, p.1@))
}

/// The block state as a `block_state` compound.
pub open spec fn block_state_text(id: Seq<char>, states: Seq<(Seq<char>, Seq<char>)>) -> Seq<char> {
    if states.len() == 0 {
        "Name:\""@ + id + "\""@
    } else {
        "Name:\""@ + id + "\",Properties:{"@ + properties_text(states) + "}"@
    }
}

impl BlockState {
    pub fn new(id: String, states: Vec<(String, String)>) -> (r: Self)
        ensures
            r.id@ == id@,
            states_view(r.states@) == states_view(states@),
    {
        BlockState { id, states }
    }

    pub fn compile(&self) -> (r: String)
        ensures
            r@ == block_state_text(self.id@, states_view(self.states@)),
    {
        let ghost sv = states_view(self.states@);
        if self.states.len() == 0 {
            return crate::text::concat3("Name:\"", self.id.as_str(), "\"");
        }
        let mut r = crate::text::concat3("Name:\"", self.id.as_str(), "\",Properties:{");
        let ghost head = r@;
        let mut i: usize = 0;
        while i < self.states.len()
            invariant
                i <= self.states.len(),
                sv == states_view(self.states@),
                r@ == head + properties_text(sv.take(i as int)),
            decreases self.states.len() - i,
        {
            if i > 0 {
                push_str(&mut r, ",");
            }
            let pair = &self.states[i];
            push_str(&mut r, pair.0.as_str());
            push_str(&mut r, ":\"");
            push_str(&mut r, pair.1.as_str());
            push_str(&mut r, "\"");
            proof {
                let next = sv.take(i + 1);
                assert(next.drop_last() =~= sv.take(i as int));
                assert(next.last() == (pair.0@, pair.1@));
                if i == 0 {
                    assert(sv.take(0) =~= Seq::<(Seq<char>, Seq<char>)>::empty());
                }
            }
            i = i + 1;
            assert(r@ =~= head + properties_text(sv.take(i as int)));
        }
        push_str(&mut r, "}");
        assert(sv.take(self.states.len() as int) =~= sv);
        assert(r@ =~= block_state_text(self.id@, sv));
        r
    }
}

/// The word `0` is the coordinate zero.
pub proof fn lemma_zero_word()
    ensures
        decimal_of(seq!['0']) == Some(Decimal { units: 0 }),
{
    let zero = seq!['0'];
    let empty = Seq::<char>::empty();
    assert(zero.drop_last() =~= empty);
    assert(digits_value(empty) == 0);
    assert(crate::text::digit_value('0') == 0);
    assert(digits_value(zero) == 0);
    assert(all_digits(empty));
    assert(all_digits(zero)) by {
        assert forall|i: int| 0 <= i < zero.len() implies is_digit(#[trigger] zero[i]) by {
            assert(zero[i] == '0');
        }
    }
    let p = pow10(6);
    assert(digits_value(zero) * 1000000 + digits_value(empty) * p == 0);
    assert(whole_frac_units(zero, empty) == Some(0int));
    assert(unsigned_units(zero) == Some(0int));
    assert(zero[0] != '-' && zero[0] != '+');
    assert(signed_units(zero) == Some(0int));
}

} // verus!
