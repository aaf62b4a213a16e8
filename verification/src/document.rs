//! A tokenizer's published file, read as JSON before anything is built of it.
//!
//! The `tokenizers` crate trusts a file to agree with itself, and panics on
//! some that do not: while it reads one whose merges are shorter than the
//! prefix it gives to the later parts of a word, or later, on the first text
//! it splits. What is asked here of a file holds of CLIP's and leaves no such
//! one: the kinds of its steps, and the settings of those kinds that can go
//! wrong, its patterns among them.

use crate::text::{decimal, decimal_of, same};
use vstd::prelude::*;

verus! {

/// What CLIP's file makes one space of.
pub const SPACES: &'static str = r"\s+";

/// What CLIP's file takes for a word.
pub const WORDS: &'static str = r"'s|'t|'re|'ve|'m|'ll|'d|[\p{L}]+|[\p{N}]|[^\s\p{L}\p{N}]+";

/// What CLIP's file takes for a word where it finds its marks the same way.
pub const MARKS_AND_WORDS: &'static str =
    r"<\|startoftext\|>|<\|endoftext\|>|'s|'t|'re|'ve|'m|'ll|'d|[\p{L}]+|[\p{N}]|[^\s\p{L}\p{N}]+";

/// A JSON value, carried and never looked into.
#[verifier::external_type_specification]
#[verifier::external_body]
pub struct ExValue(serde_json::Value);

/// The text a JSON value is written as, without any space between its parts.
pub uninterp spec fn spelled(document: serde_json::Value) -> Seq<char>;

/// How the value that bytes spell is written, or what is wrong with them.
pub uninterp spec fn document_of(json: Seq<u8>) -> Result<Seq<char>, Seq<char>>;

/// The string a JSON pointer leads to in the value that a text spells, where
/// it leads to one.
pub uninterp spec fn text_at(document: Seq<char>, pointer: Seq<char>) -> Option<Seq<char>>;

/// How long the array is that a JSON pointer leads to in the value that a text
/// spells, where it leads to one.
pub uninterp spec fn count_at(document: Seq<char>, pointer: Seq<char>) -> Option<usize>;

/// The truth value a JSON pointer leads to in the value that a text spells,
/// where it leads to one.
pub uninterp spec fn flag_at(document: Seq<char>, pointer: Seq<char>) -> Option<bool>;

/// `serde_json::from_slice` into a `Value`: the bytes alone decide the value
/// or the error. Of a name that an object gives twice, the value holds the
/// last.
#[verifier::external_body]
pub(crate) fn parse_document(json: &[u8]) -> (r: Result<serde_json::Value, String>)
    ensures
        match r {
            Ok(document) => document_of(json@) == Ok::<_, Seq<char>>(spelled(document)),
            Err(e) => document_of(json@) == Err::<Seq<char>, _>(e@),
        },
{
    serde_json::from_slice(json).map_err(|e| e.to_string())
}

/// `Value::pointer`, where it leads to a string.
#[verifier::external_body]
fn string_at(document: &serde_json::Value, pointer: &str) -> (r: Option<String>)
    ensures
        match r {
            Some(text) => text_at(spelled(*document), pointer@) == Some(text@),
            None => text_at(spelled(*document), pointer@) is None,
        },
{
    document.pointer(pointer).and_then(|value| value.as_str()).map(|text| text.to_string())
}

/// `Value::pointer`, where it leads to an array: how long that is.
#[verifier::external_body]
fn length_at(document: &serde_json::Value, pointer: &str) -> (r: Option<usize>)
    ensures
        r == count_at(spelled(*document), pointer@),
{
    document.pointer(pointer).and_then(|value| value.as_array()).map(|items| items.len())
}

/// `Value::pointer`, where it leads to a truth value.
#[verifier::external_body]
fn bool_at(document: &serde_json::Value, pointer: &str) -> (r: Option<bool>)
    ensures
        r == flag_at(spelled(*document), pointer@),
{
    document.pointer(pointer).and_then(|value| value.as_bool())
}

/// Whether a JSON pointer leads to just this string.
pub open spec fn reads(document: Seq<char>, pointer: Seq<char>, text: Seq<char>) -> bool {
    text_at(document, pointer) == Some(text)
}

fn is_at(document: &serde_json::Value, pointer: &str, text: &str) -> (r: bool)
    ensures
        r == reads(spelled(*document), pointer@, text@),
{
    match string_at(document, pointer) {
        Some(found) => same(found.as_str(), text),
        None => false,
    }
}

/// A pointer and a further way from where it leads.
fn below(pointer: &str, way: &str) -> (r: String)
    ensures
        r@ == pointer@ + way@,
{
    let mut r = String::from_str(pointer);
    r.append(way);
    r
}

/// The pointer to one item of the array that a pointer leads to.
pub open spec fn item_at(list: Seq<char>, i: nat) -> Seq<char> {
    list + "/"@ + decimal_of(i)
}

fn item(list: &str, i: usize) -> (r: String)
    ensures
        r@ == item_at(list@, i as nat),
{
    let mut r = String::from_str(list);
    r.append("/");
    r.append(decimal(i as u64).as_str());
    r
}

/// Whether a normalizer is one of CLIP's: `NFC`, `Lowercase`, or the `Replace`
/// that makes one space of every run of white space.
pub open spec fn is_normalizer(document: Seq<char>, at: Seq<char>) -> bool {
    ||| reads(document, at + "/type"@, "NFC"@)
    ||| reads(document, at + "/type"@, "Lowercase"@)
    ||| {
        &&& reads(document, at + "/type"@, "Replace"@)
        &&& reads(document, at + "/pattern/Regex"@, SPACES@)
        &&& reads(document, at + "/content"@, " "@)
    }
}

/// Whether a pre-tokenizer is one of CLIP's: `ByteLevel`, or the `Split` into
/// CLIP's words.
pub open spec fn is_pre_tokenizer(document: Seq<char>, at: Seq<char>) -> bool {
    ||| reads(document, at + "/type"@, "ByteLevel"@)
    ||| {
        &&& reads(document, at + "/type"@, "Split"@)
        &&& reads(document, at + "/pattern/Regex"@, WORDS@) || reads(
            document,
            at + "/pattern/Regex"@,
            MARKS_AND_WORDS@,
        )
    }
}

/// Whether an added token takes no spaces beside it.
pub open spec fn is_added_token(document: Seq<char>, at: Seq<char>) -> bool {
    &&& flag_at(document, at + "/lstrip"@) != Some(true)
    &&& flag_at(document, at + "/rstrip"@) != Some(true)
}

/// Whether a tokenizer's file is laid out as CLIP's is: a BPE whose words are
/// continued without a prefix, behind one row of normalizers and one of
/// pre-tokenizers, none of them a row itself, with a byte-level decoder and
/// with added tokens that take no spaces beside them.
pub open spec fn is_familiar(document: Seq<char>) -> bool {
    &&& reads(document, "/model/type"@, "BPE"@)
    &&& (text_at(document, "/model/continuing_subword_prefix"@) matches Some(prefix)
        ==> prefix.len() == 0)
    &&& reads(document, "/normalizer/type"@, "Sequence"@)
    &&& normalizers_fit(document)
    &&& reads(document, "/pre_tokenizer/type"@, "Sequence"@)
    &&& pre_tokenizers_fit(document)
    &&& reads(document, "/decoder/type"@, "ByteLevel"@)
    &&& added_tokens_fit(document)
}

/// Whether there is a row of normalizers, each one of CLIP's.
pub open spec fn normalizers_fit(document: Seq<char>) -> bool {
    match count_at(document, "/normalizer/normalizers"@) {
        Some(n) => forall|i: nat|
            i < n ==> is_normalizer(
                document,
                #[trigger] item_at("/normalizer/normalizers"@, i),
            ),
        None => false,
    }
}

/// Whether there is a row of pre-tokenizers, each one of CLIP's.
pub open spec fn pre_tokenizers_fit(document: Seq<char>) -> bool {
    match count_at(document, "/pre_tokenizer/pretokenizers"@) {
        Some(n) => forall|i: nat|
            i < n ==> is_pre_tokenizer(
                document,
                #[trigger] item_at("/pre_tokenizer/pretokenizers"@, i),
            ),
        None => false,
    }
}

/// Whether each added token, where there are any, is one like CLIP's.
pub open spec fn added_tokens_fit(document: Seq<char>) -> bool {
    match count_at(document, "/added_tokens"@) {
        Some(n) => forall|i: nat|
            i < n ==> is_added_token(document, #[trigger] item_at("/added_tokens"@, i)),
        None => true,
    }
}

fn normalizer(document: &serde_json::Value, at: &str) -> (r: bool)
    ensures
        r == is_normalizer(spelled(*document), at@),
{
    let kind = below(at, "/type");
    if is_at(document, kind.as_str(), "NFC") || is_at(document, kind.as_str(), "Lowercase") {
        return true;
    }
    is_at(document, kind.as_str(), "Replace") && is_at(
        document,
        below(at, "/pattern/Regex").as_str(),
        SPACES,
    ) && is_at(document, below(at, "/content").as_str(), " ")
}

fn pre_tokenizer(document: &serde_json::Value, at: &str) -> (r: bool)
    ensures
        r == is_pre_tokenizer(spelled(*document), at@),
{
    let kind = below(at, "/type");
    if is_at(document, kind.as_str(), "ByteLevel") {
        return true;
    }
    let pattern = below(at, "/pattern/Regex");
    is_at(document, kind.as_str(), "Split") && (is_at(document, pattern.as_str(), WORDS) || is_at(
        document,
        pattern.as_str(),
        MARKS_AND_WORDS,
    ))
}

fn normalizers(document: &serde_json::Value) -> (r: bool)
    ensures
        r == normalizers_fit(spelled(*document)),
{
    let list = "/normalizer/normalizers";
    let n: usize = match length_at(document, list) {
        Some(n) => n,
        None => {
            return false;
        },
    };
    let mut i: usize = 0;
    while i < n
        invariant
            i <= n,
            list@ == "/normalizer/normalizers"@,
            count_at(spelled(*document), list@) == Some(n),
            forall|k: nat|
                k < i ==> is_normalizer(spelled(*document), #[trigger] item_at(list@, k)),
        decreases n - i,
    {
        if !normalizer(document, item(list, i).as_str()) {
            return false;
        }
        i = i + 1;
    }
    true
}

fn pre_tokenizers(document: &serde_json::Value) -> (r: bool)
    ensures
        r == pre_tokenizers_fit(spelled(*document)),
{
    let list = "/pre_tokenizer/pretokenizers";
    let n: usize = match length_at(document, list) {
        Some(n) => n,
        None => {
            return false;
        },
    };
    let mut i: usize = 0;
    while i < n
        invariant
            i <= n,
            list@ == "/pre_tokenizer/pretokenizers"@,
            count_at(spelled(*document), list@) == Some(n),
            forall|k: nat|
                k < i ==> is_pre_tokenizer(spelled(*document), #[trigger] item_at(list@, k)),
        decreases n - i,
    {
        if !pre_tokenizer(document, item(list, i).as_str()) {
            return false;
        }
        i = i + 1;
    }
    true
}

fn is_set(document: &serde_json::Value, pointer: &str) -> (r: bool)
    ensures
        r == (flag_at(spelled(*document), pointer@) == Some(true)),
{
    match bool_at(document, pointer) {
        Some(flag) => flag,
        None => false,
    }
}

fn added_tokens(document: &serde_json::Value) -> (r: bool)
    ensures
        r == added_tokens_fit(spelled(*document)),
{
    let list = "/added_tokens";
    let n: usize = match length_at(document, list) {
        Some(n) => n,
        None => {
            return true;
        },
    };
    let mut i: usize = 0;
    while i < n
        invariant
            i <= n,
            list@ == "/added_tokens"@,
            count_at(spelled(*document), list@) == Some(n),
            forall|k: nat|
                k < i ==> is_added_token(spelled(*document), #[trigger] item_at(list@, k)),
        decreases n - i,
    {
        let at = item(list, i);
        if is_set(document, below(at.as_str(), "/lstrip").as_str()) || is_set(
            document,
            below(at.as_str(), "/rstrip").as_str(),
        ) {
            return false;
        }
        i = i + 1;
    }
    true
}

/// Whether a tokenizer's file is laid out as CLIP's is.
pub(crate) fn familiar(document: &serde_json::Value) -> (r: bool)
    ensures
        r == is_familiar(spelled(*document)),
{
    let bare = match string_at(document, "/model/continuing_subword_prefix") {
        Some(prefix) => prefix.as_str().unicode_len() == 0,
        None => true,
    };
    bare && is_at(document, "/model/type", "BPE") && is_at(
        document,
        "/normalizer/type",
        "Sequence",
    ) && normalizers(document) && is_at(document, "/pre_tokenizer/type", "Sequence")
        && pre_tokenizers(document) && is_at(document, "/decoder/type", "ByteLevel")
        && added_tokens(document)
}

/// What a file laid out as CLIP's says, in its own words, of its model and of
/// its rows of steps.
pub proof fn law_what_a_familiar_file_says(document: Seq<char>)
    requires
        is_familiar(document),
    ensures
        text_at(document, "/model/type"@) == Some("BPE"@),
        text_at(document, "/model/continuing_subword_prefix"@) matches Some(prefix)
            ==> prefix.len() == 0,
        text_at(document, "/normalizer/type"@) == Some("Sequence"@),
        text_at(document, "/pre_tokenizer/type"@) == Some("Sequence"@),
        text_at(document, "/decoder/type"@) == Some("ByteLevel"@),
        count_at(document, "/normalizer/normalizers"@) is Some,
        count_at(document, "/pre_tokenizer/pretokenizers"@) is Some,
{
}

/// A familiar file's normalizers are each CLIP's: one that composes, one that
/// lowers case, or one that makes a single space of white space.
pub proof fn law_every_normalizer_is_clips(document: Seq<char>, i: nat)
    requires
        is_familiar(document),
        count_at(document, "/normalizer/normalizers"@) matches Some(n) && i < n,
    ensures
        ({
            let at = "/normalizer/normalizers"@ + "/"@ + decimal_of(i);
            let kind = text_at(document, at + "/type"@);
            &&& kind == Some("NFC"@) || kind == Some("Lowercase"@) || kind == Some("Replace"@)
            &&& kind != Some("NFC"@) && kind != Some("Lowercase"@) ==> text_at(
                document,
                at + "/pattern/Regex"@,
            ) == Some(SPACES@) && text_at(document, at + "/content"@) == Some(" "@)
        }),
{
    assert(is_normalizer(document, item_at("/normalizer/normalizers"@, i)));
}

/// A familiar file's pre-tokenizers are each CLIP's: one that reads bytes, or
/// one that splits into CLIP's words.
pub proof fn law_every_pre_tokenizer_is_clips(document: Seq<char>, i: nat)
    requires
        is_familiar(document),
        count_at(document, "/pre_tokenizer/pretokenizers"@) matches Some(n) && i < n,
    ensures
        ({
            let at = "/pre_tokenizer/pretokenizers"@ + "/"@ + decimal_of(i);
            let kind = text_at(document, at + "/type"@);
            let pattern = text_at(document, at + "/pattern/Regex"@);
            &&& kind == Some("ByteLevel"@) || kind == Some("Split"@)
            &&& kind != Some("ByteLevel"@) ==> pattern == Some(WORDS@) || pattern == Some(
                MARKS_AND_WORDS@,
            )
        }),
{
    assert(is_pre_tokenizer(document, item_at("/pre_tokenizer/pretokenizers"@, i)));
}

/// No added token of a familiar file takes the spaces beside it.
pub proof fn law_no_added_token_takes_spaces(document: Seq<char>, i: nat)
    requires
        is_familiar(document),
        count_at(document, "/added_tokens"@) matches Some(n) && i < n,
    ensures
        ({
            let at = "/added_tokens"@ + "/"@ + decimal_of(i);
            &&& flag_at(document, at + "/lstrip"@) != Some(true)
            &&& flag_at(document, at + "/rstrip"@) != Some(true)
        }),
{
    assert(is_added_token(document, item_at("/added_tokens"@, i)));
}

/// A file that says all of this is familiar, whatever else it says.
pub proof fn law_nothing_else_is_asked_of_a_file(document: Seq<char>, n: usize, m: usize)
    requires
        text_at(document, "/model/type"@) == Some("BPE"@),
        text_at(document, "/model/continuing_subword_prefix"@) is None || text_at(
            document,
            "/model/continuing_subword_prefix"@,
        )->0.len() == 0,
        text_at(document, "/normalizer/type"@) == Some("Sequence"@),
        text_at(document, "/pre_tokenizer/type"@) == Some("Sequence"@),
        text_at(document, "/decoder/type"@) == Some("ByteLevel"@),
        count_at(document, "/normalizer/normalizers"@) == Some(n),
        forall|i: nat|
            i < n ==> {
                let at = "/normalizer/normalizers"@ + "/"@ + #[trigger] decimal_of(i);
                let kind = text_at(document, at + "/type"@);
                ||| kind == Some("NFC"@)
                ||| kind == Some("Lowercase"@)
                ||| kind == Some("Replace"@) && text_at(document, at + "/pattern/Regex"@) == Some(
                    SPACES@,
                ) && text_at(document, at + "/content"@) == Some(" "@)
            },
        count_at(document, "/pre_tokenizer/pretokenizers"@) == Some(m),
        forall|i: nat|
            i < m ==> {
                let at = "/pre_tokenizer/pretokenizers"@ + "/"@ + #[trigger] decimal_of(i);
                let kind = text_at(document, at + "/type"@);
                let pattern = text_at(document, at + "/pattern/Regex"@);
                ||| kind == Some("ByteLevel"@)
                ||| kind == Some("Split"@) && pattern == Some(WORDS@)
                ||| kind == Some("Split"@) && pattern == Some(MARKS_AND_WORDS@)
            },
        count_at(document, "/added_tokens"@) matches Some(k) ==> forall|i: nat|
            i < k ==> {
                let at = "/added_tokens"@ + "/"@ + #[trigger] decimal_of(i);
                &&& flag_at(document, at + "/lstrip"@) != Some(true)
                &&& flag_at(document, at + "/rstrip"@) != Some(true)
            },
    ensures
        is_familiar(document),
{
    assert forall|i: nat| i < n implies is_normalizer(
        document,
        #[trigger] item_at("/normalizer/normalizers"@, i),
    ) by {
        let _ = decimal_of(i);
    }
    assert forall|i: nat| i < m implies is_pre_tokenizer(
        document,
        #[trigger] item_at("/pre_tokenizer/pretokenizers"@, i),
    ) by {
        let _ = decimal_of(i);
    }
}

} // verus!
