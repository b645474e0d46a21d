//! Diagnostics: what went wrong in one statement, in one file, or in a batch.
use vstd::prelude::*;

use crate::objects::Position;
use crate::statements::FileInfo;
use crate::objects::{has_number_prefix, prefix_of};
use crate::text::{all_digits, chars_of, concat3, decimal_text, is_digit, push_decimal, push_str};

verus! {

/// Relies on regex::Error: the error that compiling a pattern may give.
#[verifier::external_type_specification]
#[verifier::external_body]
pub struct ExRegexError(regex::Error);

/// What is wrong with one statement.
#[derive(Debug, Clone, PartialEq, Eq)]
pub enum CompileErrorType {
    InvalidKeyword(String),
    InvalidCharacters(String),
    InvalidInt(String),
    InvalidFloat(String),
    IncorrectArgumentCount(String, usize, usize),
    InvalidCoordinate(String),
    InvalidAxis(String),
    InvalidEntityType(String),
    InvalidEntityName(String),
    InvalidState(String),
    NoAnimationName(String),
    DuplicateNumberType(String),
    WrongNumberType(String),
    MissingKeyword(String),
    UnbalancedBrackets,
    MissingTerminator(String),
    WrongSeparator(String),
}

/// The mathematical value of a `CompileErrorType`.
pub enum ErrorView {
    InvalidKeyword(Seq<char>),
    InvalidCharacters(Seq<char>),
    InvalidInt(Seq<char>),
    InvalidFloat(Seq<char>),
    IncorrectArgumentCount(Seq<char>, nat, nat),
    InvalidCoordinate(Seq<char>),
    InvalidAxis(Seq<char>),
    InvalidEntityType(Seq<char>),
    InvalidEntityName(Seq<char>),
    InvalidState(Seq<char>),
    NoAnimationName(Seq<char>),
    DuplicateNumberType(Seq<char>),
    WrongNumberType(Seq<char>),
    MissingKeyword(Seq<char>),
    UnbalancedBrackets,
    MissingTerminator(Seq<char>),
    WrongSeparator(Seq<char>),
}

impl View for CompileErrorType {
    type V = ErrorView;

    open spec fn view(&self) -> ErrorView {
        match self {
            CompileErrorType::InvalidKeyword(s) => ErrorView::InvalidKeyword(s@),
            CompileErrorType::InvalidCharacters(s) => ErrorView::InvalidCharacters(s@),
            CompileErrorType::InvalidInt(s) => ErrorView::InvalidInt(s@),
            CompileErrorType::InvalidFloat(s) => ErrorView::InvalidFloat(s@),
            CompileErrorType::IncorrectArgumentCount(s, e, f) => ErrorView::IncorrectArgumentCount(
                s@,
                *e as nat,
                *f as nat,
            ),
            CompileErrorType::InvalidCoordinate(s) => ErrorView::InvalidCoordinate(s@),
            CompileErrorType::InvalidAxis(s) => ErrorView::InvalidAxis(s@),
            CompileErrorType::InvalidEntityType(s) => ErrorView::InvalidEntityType(s@),
            CompileErrorType::InvalidEntityName(s) => ErrorView::InvalidEntityName(s@),
            CompileErrorType::InvalidState(s) => ErrorView::InvalidState(s@),
            CompileErrorType::NoAnimationName(s) => ErrorView::NoAnimationName(s@),
            CompileErrorType::DuplicateNumberType(s) => ErrorView::DuplicateNumberType(s@),
            CompileErrorType::WrongNumberType(s) => ErrorView::WrongNumberType(s@),
            CompileErrorType::MissingKeyword(s) => ErrorView::MissingKeyword(s@),
            CompileErrorType::UnbalancedBrackets => ErrorView::UnbalancedBrackets,
            CompileErrorType::MissingTerminator(s) => ErrorView::MissingTerminator(s@),
            CompileErrorType::WrongSeparator(s) => ErrorView::WrongSeparator(s@),
        }
    }
}

pub const EMPTY_INTEGER: &'static str = "cannot parse integer from empty string";

pub const INVALID_DIGIT: &'static str = "invalid digit found in string";

pub const INTEGER_TOO_LARGE: &'static str = "number too large to fit in target type";

/// What a coordinate or an angle must look like.
pub const DECIMAL_FORM: &'static str =
    "expected an optional sign, digits and at most six decimal places, of size at most 1000000000000";

/// The digits of a word that should be an integer, after its timing prefix.
pub open spec fn integer_digits(s: Seq<char>) -> Seq<char> {
    if has_number_prefix(s) {
        s.skip(1)
    } else {
        s
    }
}

/// Why a word is no integer: no digits, a character that is no digit, or
/// (all digits) a value too large.
pub open spec fn integer_reason(s: Seq<char>) -> Seq<char> {
    let d = integer_digits(s);
    if d.len() == 0 {
        EMPTY_INTEGER@
    } else if !all_digits(d) {
        INVALID_DIGIT@
    } else {
        INTEGER_TOO_LARGE@
    }
}

/// Why `s` is no integer.
pub fn integer_failure(s: &str) -> (r: &'static str)
    ensures
        r@ == integer_reason(s@),
{
    let cs = chars_of(s);
    let lo: usize = if cs.len() > 0 && prefix_of(cs[0]).is_some() {
        1
    } else {
        0
    };
    assert(cs@.skip(lo as int) == integer_digits(s@));
    if lo == cs.len() {
        return EMPTY_INTEGER;
    }
    let mut i: usize = lo;
    while i < cs.len()
        invariant
            lo <= i <= cs.len(),
            lo < cs.len(),
            cs@ == s@,
            cs@.skip(lo as int) == integer_digits(s@),
            forall|j: int| lo <= j < i ==> is_digit(cs@[j]),
        decreases cs.len() - i,
    {
        if !('0' <= cs[i] && cs[i] <= '9') {
            assert(cs@.skip(lo as int)[i - lo] == cs@[i as int]);
            assert(!all_digits(cs@.skip(lo as int)));
            return INVALID_DIGIT;
        }
        i = i + 1;
    }
    assert(all_digits(cs@.skip(lo as int))) by {
        assert forall|k: int| 0 <= k < cs@.skip(lo as int).len() implies is_digit(
            #[trigger] cs@.skip(lo as int)[k],
        ) by {
            assert(cs@.skip(lo as int)[k] == cs@[lo + k]);
        }
    }
    INTEGER_TOO_LARGE
}

/// The text that a diagnostic shows for each kind of error.
pub open spec fn error_message(e: ErrorView) -> Seq<char> {
    match e {
        ErrorView::InvalidKeyword(s) => "Keyword '"@ + s + "' is invalid."@,
        ErrorView::InvalidCharacters(s) => "Statement '"@ + s + "' contains invalid characters."@,
        ErrorView::InvalidInt(s) => "Number '"@ + s + "' is not a valid integer: "@
            + integer_reason(s),
        ErrorView::InvalidFloat(s) => "Number '"@ + s + "' is not a valid float: "@
            + DECIMAL_FORM@,
        ErrorView::IncorrectArgumentCount(s, e, f) => "Incorrect number of arguments in '"@ + s
            + "': Expected '"@ + decimal_text(e) + "', found '"@ + decimal_text(f) + "'."@,
        ErrorView::InvalidCoordinate(s) => "Coordinate '"@ + s + "' is invalid: "@ + DECIMAL_FORM@,
        ErrorView::InvalidAxis(s) => "'"@ + s + "' is not a valid axis."@,
        ErrorView::InvalidEntityType(s) => "Entity type '"@ + s + ENTITY_TYPE_HINT@,
        ErrorView::InvalidEntityName(s) => "Entity name '"@ + s
            + "' contains invalid characters."@,
        ErrorView::InvalidState(s) => "State '"@ + s + "' is invalid."@,
        ErrorView::NoAnimationName(s) => "Argument '"@ + s
            + "' contains an object name, but no animation name."@,
        ErrorView::DuplicateNumberType(s) => "Number '"@ + s
            + "' has the same type as the number before it."@,
        ErrorView::WrongNumberType(s) => "Number '"@ + s + "' must be a delay."@,
        ErrorView::MissingKeyword(s) => "Statement '"@ + s + "' has no keyword."@,
        ErrorView::UnbalancedBrackets => "Brackets are unbalanced."@,
        ErrorView::MissingTerminator(s) => "Statement '"@ + s + "' is not terminated by ';'."@,
        ErrorView::WrongSeparator(s) => "Statement '"@ + s + "' ends with the wrong separator."@,
    }
}

pub const ENTITY_TYPE_HINT: &'static str =
    "' is invalid. Expected one of: [\"block_display\", \"item_display\", \"text_display\"]";

impl CompileErrorType {
    pub fn is_missing_keyword(&self) -> (r: bool)
        ensures
            r == self@ is MissingKeyword,
    {
        match self {
            CompileErrorType::MissingKeyword(_) => true,
            _ => false,
        }
    }

    /// The human-readable message of this error.
    pub fn message(&self) -> (r: String)
        ensures
            r@ == error_message(self@),
    {
        match self {
            CompileErrorType::InvalidKeyword(s) => concat3("Keyword '", s.as_str(), "' is invalid."),
            CompileErrorType::InvalidCharacters(s) => concat3(
                "Statement '",
                s.as_str(),
                "' contains invalid characters.",
            ),
            CompileErrorType::InvalidInt(s) => {
                let mut r = concat3("Number '", s.as_str(), "' is not a valid integer: ");
                push_str(&mut r, integer_failure(s.as_str()));
                r
            },
            CompileErrorType::InvalidFloat(s) => {
                let mut r = concat3("Number '", s.as_str(), "' is not a valid float: ");
                push_str(&mut r, DECIMAL_FORM);
                r
            },
            CompileErrorType::IncorrectArgumentCount(s, e, f) => {
                let mut r = concat3("Incorrect number of arguments in '", s.as_str(), "': Expected '");
                push_decimal(&mut r, *e as u64);
                push_str(&mut r, "', found '");
                push_decimal(&mut r, *f as u64);
                push_str(&mut r, "'.");
                r
            },
            CompileErrorType::InvalidCoordinate(s) => {
                let mut r = concat3("Coordinate '", s.as_str(), "' is invalid: ");
                push_str(&mut r, DECIMAL_FORM);
                r
            },
            CompileErrorType::InvalidAxis(s) => concat3("'", s.as_str(), "' is not a valid axis."),
            CompileErrorType::InvalidEntityType(s) => concat3(
                "Entity type '",
                s.as_str(),
                ENTITY_TYPE_HINT,
            ),
            CompileErrorType::InvalidEntityName(s) => concat3(
                "Entity name '",
                s.as_str(),
                "' contains invalid characters.",
            ),
            CompileErrorType::InvalidState(s) => concat3("State '", s.as_str(), "' is invalid."),
            CompileErrorType::NoAnimationName(s) => concat3(
                "Argument '",
                s.as_str(),
                "' contains an object name, but no animation name.",
            ),
            CompileErrorType::DuplicateNumberType(s) => concat3(
                "Number '",
                s.as_str(),
                "' has the same type as the number before it.",
            ),
            CompileErrorType::WrongNumberType(s) => concat3(
                "Number '",
                s.as_str(),
                "' must be a delay.",
            ),
            CompileErrorType::MissingKeyword(s) => concat3(
                "Statement '",
                s.as_str(),
                "' has no keyword.",
            ),
            CompileErrorType::UnbalancedBrackets => "Brackets are unbalanced.".to_owned(),
            CompileErrorType::MissingTerminator(s) => concat3(
                "Statement '",
                s.as_str(),
                "' is not terminated by ';'.",
            ),
            CompileErrorType::WrongSeparator(s) => concat3(
                "Statement '",
                s.as_str(),
                "' ends with the wrong separator.",
            ),
        }
    }
}

/// An error located in a source file.
#[derive(Debug, Clone)]
pub struct CompileError {
    pub file_path: String,
    pub line: usize,
    pub column: usize,
    pub error_message: String,
}

/// The error of kind `e` at `position` of the file at `path`.
pub open spec fn located(path: Seq<char>, position: Position, e: ErrorView, r: CompileError) -> bool {
    &&& r.file_path@ == path
    &&& r.line == position.line
    &&& r.column == position.column
    &&& r.error_message@ == error_message(e)
}

impl CompileError {
    pub fn new(file_info: &FileInfo, position: Position, error_type: CompileErrorType) -> (r: Self)
        ensures
            located(file_info.path@, position, error_type@, r),
    {
        CompileError {
            file_path: file_info.path.clone(),
            line: position.line,
            column: position.column,
            error_message: error_type.message(),
        }
    }
}

/// A value that can describe itself in one human-readable text.
pub trait Described {
    spec fn description(&self) -> Seq<char>;

    fn describe(&self) -> (r: String)
        ensures
            r@ == self.description(),
    ;
}

impl Described for CompileError {
    open spec fn description(&self) -> Seq<char> {
        "Compilation Error: \n  File: "@ + self.file_path@ + "\n  Line: "@ + decimal_text(
            self.line as nat,
        ) + ", Column: "@ + decimal_text(self.column as nat) + "\n  Error: "@
            + self.error_message@
    }

    fn describe(&self) -> (r: String) {
        let mut r = concat3("Compilation Error: \n  File: ", self.file_path.as_str(), "\n  Line: ");
        push_decimal(&mut r, self.line as u64);
        push_str(&mut r, ", Column: ");
        push_decimal(&mut r, self.column as u64);
        push_str(&mut r, "\n  Error: ");
        push_str(&mut r, self.error_message.as_str());
        r
    }
}

/// An error of a whole file, or of a batch of files.
#[derive(Debug)]
pub enum GenericError {
    InvalidPath(String),
    InvalidRegex(String, regex::Error),
    FileNotExist(String),
    Collection(String),
}

impl Described for GenericError {
    open spec fn description(&self) -> Seq<char> {
        match self {
            GenericError::InvalidPath(p) => "The path '"@ + p@ + "' does not lead to a valid file."@,
            GenericError::InvalidRegex(p, _) => "Pattern '"@ + p@ + "' is not a valid regex."@,
            GenericError::FileNotExist(p) => "The file with path '"@ + p@ + "' does not exist."@,
            GenericError::Collection(m) => "Could not compile one or more files due to errors:\n"@
                + m@,
        }
    }

    fn describe(&self) -> (r: String) {
        match self {
            GenericError::InvalidPath(p) => concat3(
                "The path '",
                p.as_str(),
                "' does not lead to a valid file.",
            ),
            GenericError::InvalidRegex(p, _) => concat3(
                "Pattern '",
                p.as_str(),
                "' is not a valid regex.",
            ),
            GenericError::FileNotExist(p) => concat3(
                "The file with path '",
                p.as_str(),
                "' does not exist.",
            ),
            GenericError::Collection(m) => {
                let mut r = "Could not compile one or more files due to errors:\n".to_owned();
                push_str(&mut r, m.as_str());
                r
            },
        }
    }
}

/// Each failure of `s`, in order: its index and its description, one line each.
pub open spec fn error_report<T, E: Described>(s: Seq<Result<T, E>>) -> Seq<char>
    decreases s.len(),
{
    if s.len() == 0 {
        Seq::empty()
    } else {
        error_report(s.drop_last()) + match s.last() {
            Ok(_) => Seq::empty(),
            Err(e) => decimal_text((s.len() - 1) as nat) + ": "@ + e.description() + "\n"@,
        }
    }
}

pub open spec fn all_ok<T, E>(s: Seq<Result<T, E>>) -> bool {
    forall|i: int| 0 <= i < s.len() ==> (#[trigger] s[i]) is Ok
}

/// The values of a sequence of successes.
pub open spec fn ok_values<T, E>(s: Seq<Result<T, E>>) -> Seq<T> {
    s.map_values(|r: Result<T, E>| r->Ok_0)
}

/// The values of the elements that succeeded, in order.
pub open spec fn successes<T, E>(s: Seq<Result<T, E>>) -> Seq<T>
    decreases s.len(),
{
    if s.len() == 0 {
        Seq::empty()
    } else {
        successes(s.drop_last()) + match s.last() {
            Ok(v) => seq![v],
            Err(_) => Seq::empty(),
        }
    }
}

proof fn lemma_successes_all_ok<T, E>(s: Seq<Result<T, E>>)
    requires
        all_ok(s),
    ensures
        successes(s) == ok_values(s),
    decreases s.len(),
{
    if s.len() > 0 {
        assert(all_ok(s.drop_last())) by {
            assert forall|i: int| 0 <= i < s.drop_last().len() implies (
            #[trigger] s.drop_last()[i]) is Ok by {
                assert(s[i] is Ok);
            }
        }
        lemma_successes_all_ok(s.drop_last());
        assert(s[s.len() - 1] is Ok);
        assert(ok_values(s) =~= ok_values(s.drop_last()).push(s.last()->Ok_0));
        assert(successes(s) =~= successes(s.drop_last()).push(s.last()->Ok_0));
    }
}

/// The values of `input` where each element succeeded; otherwise one error
/// that lists every failure with its index, together with the values of
/// the elements that did succeed.
pub fn collect_errors<T, E: Described>(input: Vec<Result<T, E>>) -> (r: Result<
    Vec<T>,
    (GenericError, Vec<T>),
>)
    ensures
        r is Ok <==> all_ok(input@),
        r matches Ok(v) ==> v@ == ok_values(input@),
        r matches Err(f) ==> (f.0 matches GenericError::Collection(m) && m@ == error_report(
            input@,
        )) && f.1@ == successes(input@),
{
    let mut report = String::new();
    let mut failed = false;
    let mut i: usize = 0;
    assert(input@.take(0) =~= Seq::<Result<T, E>>::empty());
    while i < input.len()
        invariant
            i <= input.len(),
            report@ == error_report(input@.take(i as int)),
            failed <==> !all_ok(input@.take(i as int)),
        decreases input.len() - i,
    {
        let ghost prefix = input@.take(i + 1);
        assert(prefix.drop_last() =~= input@.take(i as int));
        match &input[i] {
            Ok(_) => {
                assert(report@ =~= error_report(prefix));
            },
            Err(e) => {
                failed = true;
                push_decimal(&mut report, i as u64);
                push_str(&mut report, ": ");
                let d = e.describe();
                push_str(&mut report, d.as_str());
                push_str(&mut report, "\n");
                assert(report@ =~= error_report(prefix));
            },
        }
        proof {
            if failed {
                if all_ok(prefix) {
                    assert forall|j: int| 0 <= j < i implies (#[trigger] input@.take(
                        i as int,
                    )[j]) is Ok by {
                        assert(prefix[j] is Ok);
                    }
                }
            } else {
                assert forall|j: int| 0 <= j < i + 1 implies (#[trigger] prefix[j]) is Ok by {
                    if j < i {
                        assert(input@.take(i as int)[j] is Ok);
                    }
                }
            }
        }
        i = i + 1;
    }
    assert(input@.take(input.len() as int) =~= input@);
    let ghost all = input@;
    let mut out: Vec<T> = Vec::new();
    assert(all.take(0) =~= Seq::<Result<T, E>>::empty());
    for x in it: input
        invariant
            it.seq() == all,
            out@ == successes(all.take(it.index() as int)),
    {
        proof {
            assert(all.take(it.index() + 1).drop_last() =~= all.take(it.index() as int));
        }
        match x {
            Ok(v) => {
                out.push(v);
                assert(out@ =~= successes(all.take(it.index() + 1)));
            },
            Err(_) => {
                assert(out@ =~= successes(all.take(it.index() + 1)));
            },
        }
    }
    assert(all.take(all.len() as int) =~= all);
    if failed {
        return Err((GenericError::Collection(report), out));
    }
    proof {
        lemma_successes_all_ok(all);
    }
    Ok(out)
}

} // verus!
