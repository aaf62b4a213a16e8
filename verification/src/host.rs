//! What passes between a describer and its host: the formats a stream opens
//! with, what a module says of itself, the tensors a graph is fed and
//! answers with, and the errors it answers with instead.

use crate::text::names_of;
use vstd::prelude::*;

verus! {

/// A fraction, as a stream's time base is given.
#[derive(Clone, Copy, PartialEq, Eq, Debug)]
pub struct Rational {
    pub num: i32,
    pub den: i32,
}

/// The pictures a stream carries.
pub struct VideoFormat {
    pub pix_fmt: String,
    pub width: u32,
    pub height: u32,
}

/// The samples a stream carries.
pub struct AudioFormat {
    pub sample_fmt: String,
    pub sample_rate: u32,
    pub channels: u32,
}

/// What an instance is opened for.
pub enum Format {
    Video(VideoFormat),
    Audio(AudioFormat),
}

/// What every module says of itself.
pub struct Meta {
    pub name: String,
    pub version: String,
    pub params_schema: String,
    pub rows_schema: String,
    pub pixel_formats: Vec<String>,
    pub sample_formats: Vec<String>,
    pub sample_rates: Vec<u32>,
    pub channel_counts: Vec<u32>,
    pub rows_language: Vec<String>,
}

/// What a module that reads a stream in windows says of itself.
pub struct WindowMeta {
    pub meta: Meta,
    pub window: u32,
    pub stride: u32,
    /// Whether a call's outcome depends on that call alone.
    pub pure: bool,
    /// Whether every frame in leaves one frame out.
    pub one_to_one: bool,
    /// Whether the rows that arrive with a frame are read.
    pub reads_rows: bool,
    /// Whether the rows that arrive with a frame leave with it.
    pub forwards_rows: bool,
    pub inputs: u32,
}

/// What a module that reads rows says of itself.
pub struct RowsModuleMeta {
    pub meta: Meta,
    pub input_rows_schema: String,
}

/// What a module says of a function it offers.
pub struct FunctionMeta {
    pub name: String,
    pub params_schema: String,
    pub result_schema: String,
}

/// The picture or the samples of a frame that leaves a module.
pub enum FramePayload {
    /// What arrived, untouched.
    Same,
    /// These bytes instead.
    New(Vec<u8>),
}

/// What a graph can answer instead of tensors.
#[derive(Clone, Copy, PartialEq, Eq, Debug)]
pub enum ErrorCode {
    InvalidArgument,
    InvalidEncoding,
    Timeout,
    RuntimeError,
    UnsupportedOperation,
    TooLarge,
    NotFound,
    Security,
    Unknown,
}

impl ErrorCode {
    /// The code's own spelling.
    pub open spec fn spelling(self) -> Seq<char> {
        match self {
            ErrorCode::InvalidArgument => "invalid-argument"@,
            ErrorCode::InvalidEncoding => "invalid-encoding"@,
            ErrorCode::Timeout => "timeout"@,
            ErrorCode::RuntimeError => "runtime-error"@,
            ErrorCode::UnsupportedOperation => "unsupported-operation"@,
            ErrorCode::TooLarge => "too-large"@,
            ErrorCode::NotFound => "not-found"@,
            ErrorCode::Security => "security"@,
            ErrorCode::Unknown => "unknown"@,
        }
    }

    /// The code's own spelling.
    pub fn spelled(self) -> (s: &'static str)
        ensures
            s@ == self.spelling(),
    {
        match self {
            ErrorCode::InvalidArgument => "invalid-argument",
            ErrorCode::InvalidEncoding => "invalid-encoding",
            ErrorCode::Timeout => "timeout",
            ErrorCode::RuntimeError => "runtime-error",
            ErrorCode::UnsupportedOperation => "unsupported-operation",
            ErrorCode::TooLarge => "too-large",
            ErrorCode::NotFound => "not-found",
            ErrorCode::Security => "security",
            ErrorCode::Unknown => "unknown",
        }
    }
}

/// What went wrong, in the spelling of the error's own code, so a message
/// says what actually happened: `<module>: <what>: <code> (<data>)`.
pub fn failed(module: &str, what: &str, code: ErrorCode, data: &str) -> (message: String)
    ensures
        message@ == module@ + ": "@ + what@ + ": "@ + code.spelling() + " ("@ + data@ + ")"@,
{
    let mut message = String::from_str(module);
    message.append(": ");
    message.append(what);
    message.append(": ");
    message.append(code.spelled());
    message.append(" (");
    message.append(data);
    message.append(")");
    message
}

/// What the elements of a tensor are.
#[derive(Clone, Copy, PartialEq, Eq, Debug)]
pub enum TensorType {
    Fp32,
    I64,
}

/// One named tensor a graph is fed.
pub struct Feed {
    pub name: String,
    pub dims: Vec<u32>,
    pub ty: TensorType,
    pub data: Vec<u8>,
}

/// Where a name first occurs.
pub open spec fn first_named(names: Seq<Seq<char>>, name: Seq<char>) -> Option<int>
    decreases names.len(),
{
    if names.len() == 0 {
        None
    } else {
        match first_named(names.drop_last(), name) {
            Some(i) => Some(i),
            None => if names.last() == name {
                Some(names.len() - 1)
            } else {
                None
            },
        }
    }
}

/// `first_named` is the least position that holds the name, and there is one
/// exactly where the name occurs.
pub proof fn law_first_named_is_the_first(names: Seq<Seq<char>>, name: Seq<char>)
    ensures
        match first_named(names, name) {
            Some(i) => 0 <= i < names.len() && names[i] == name && forall|j: int|
                0 <= j < i ==> names[j] != name,
            None => forall|j: int| 0 <= j < names.len() ==> names[j] != name,
        },
    decreases names.len(),
{
    if names.len() > 0 {
        law_first_named_is_the_first(names.drop_last(), name);
        assert forall|j: int| 0 <= j < names.len() - 1 implies names[j] == names.drop_last()[j] by {
        }
    }
}

/// The tensor of that name among what a graph answered, if it is there.
pub fn find(outputs: &Vec<(String, Vec<u8>)>, name: &str) -> (at: Option<usize>)
    ensures
        match at {
            Some(i) => i < outputs@.len() && first_named(names_of(outputs@), name@) == Some(
                i as int,
            ),
            None => first_named(names_of(outputs@), name@) is None,
        },
{
    let ghost names = names_of(outputs@);
    let wanted = String::from_str(name);
    let mut i: usize = 0;
    while i < outputs.len()
        invariant
            i <= outputs@.len(),
            names == names_of(outputs@),
            wanted@ == name@,
            first_named(names.take(i as int), name@) is None,
        decreases outputs@.len() - i,
    {
        proof {
            assert(names.take(i + 1).drop_last() =~= names.take(i as int));
            assert(names.take(i + 1).last() == outputs@[i as int].0@);
        }
        if outputs[i].0 == wanted {
            proof {
                lemma_first_named_stays(names, i + 1, name@);
            }
            return Some(i);
        }
        i = i + 1;
    }
    assert(names.take(i as int) =~= names);
    None
}

proof fn lemma_first_named_stays(names: Seq<Seq<char>>, taken: int, name: Seq<char>)
    requires
        0 <= taken <= names.len(),
        first_named(names.take(taken), name) is Some,
    ensures
        first_named(names, name) == first_named(names.take(taken), name),
    decreases names.len() - taken,
{
    if taken < names.len() {
        assert(names.take(taken + 1).drop_last() =~= names.take(taken));
        lemma_first_named_stays(names, taken + 1, name);
    } else {
        assert(names.take(taken) =~= names);
    }
}

/// No two codes are spelled alike, so a message tells which one it was.
pub proof fn law_codes_are_spelled_apart(a: ErrorCode, b: ErrorCode)
    ensures
        a.spelling() == b.spelling() ==> a == b,
{
    reveal_strlit("invalid-argument");
    reveal_strlit("invalid-encoding");
    reveal_strlit("timeout");
    reveal_strlit("runtime-error");
    reveal_strlit("unsupported-operation");
    reveal_strlit("too-large");
    reveal_strlit("not-found");
    reveal_strlit("security");
    reveal_strlit("unknown");
    let (s, t) = (a.spelling(), b.spelling());
    if s == t {
        assert(s.len() == t.len() && s[0] == t[0] && s[2] == t[2] && s.last() == t.last());
    }
}

/// Each code has its own spelling and no other.
pub proof fn law_each_code_is_spelled_its_own_way(code: ErrorCode)
    ensures
        code.spelling() == "invalid-argument"@ <==> code is InvalidArgument,
        code.spelling() == "invalid-encoding"@ <==> code is InvalidEncoding,
        code.spelling() == "timeout"@ <==> code is Timeout,
        code.spelling() == "runtime-error"@ <==> code is RuntimeError,
        code.spelling() == "unsupported-operation"@ <==> code is UnsupportedOperation,
        code.spelling() == "too-large"@ <==> code is TooLarge,
        code.spelling() == "not-found"@ <==> code is NotFound,
        code.spelling() == "security"@ <==> code is Security,
        code.spelling() == "unknown"@ <==> code is Unknown,
{
    law_codes_are_spelled_apart(code, ErrorCode::InvalidArgument);
    law_codes_are_spelled_apart(code, ErrorCode::InvalidEncoding);
    law_codes_are_spelled_apart(code, ErrorCode::Timeout);
    law_codes_are_spelled_apart(code, ErrorCode::RuntimeError);
    law_codes_are_spelled_apart(code, ErrorCode::UnsupportedOperation);
    law_codes_are_spelled_apart(code, ErrorCode::TooLarge);
    law_codes_are_spelled_apart(code, ErrorCode::NotFound);
    law_codes_are_spelled_apart(code, ErrorCode::Security);
    law_codes_are_spelled_apart(code, ErrorCode::Unknown);
}

} // verus!
