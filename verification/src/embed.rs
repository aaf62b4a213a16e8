//! X-CLIP's text tower, reached two ways: `embed_text` is a value function,
//! one prompt in and one vector out, and `embed` is a rows module that writes
//! one vector beside each row it reads. Both tokenize their text the same way
//! and run the same graph.
//!
//! The tokenizer is CLIP's own byte-level BPE, with `<|startoftext|>` and
//! `<|endoftext|>` around every text. Rather than hand-writing that BPE, this
//! module takes the published `tokenizer.json` and reads it with the
//! `tokenizers` crate.

use crate::document::{document_of, familiar, is_familiar, parse_document, spelled};
use crate::host::{
    find, first_named, Feed, FunctionMeta, Meta, RowsModuleMeta, TensorType,
};
use crate::text::{
    decimal, decimal_of, listed, listed_of, names_of, quoted, quoted_of, same, trim, trimmed,
};
use crate::words::{le_f32s, le_longs, long_bytes_of, words_of};
use vstd::prelude::*;

verus! {

/// The name the host binds the graph to.
pub const MODEL: &'static str = "embed";

/// What the export calls its first input, `[1, MAX_TOKENS]` 64-bit integers.
pub const INPUT_IDS: &'static str = "input_ids";

/// What the export calls its second input, of the same shape.
pub const ATTENTION_MASK: &'static str = "attention_mask";

/// What the export calls its output, `[1, VECTOR_LEN]` floats.
pub const OUTPUT_NAME: &'static str = "text_embeds";

/// CLIP's own fixed context length: every prompt is padded or truncated to
/// exactly this many tokens.
pub const MAX_TOKENS: usize = 77;

/// The tower's output width.
pub const VECTOR_LEN: usize = 512;

/// `<|startoftext|>`, before every text.
pub const BOS_ID: u32 = 49_406;

/// `<|endoftext|>`, after every text, and doubling as the pad token - the
/// tokenizer's own convention, matched here rather than invented.
pub const EOS_ID: u32 = 49_407;

/// How the pad token is spelled.
pub const EOS_TOKEN: &'static str = "<|endoftext|>";

/// The `tokenizers` crate's tokenizer, carried and never looked into.
#[verifier::external_type_specification]
#[verifier::external_body]
pub struct ExTokenizer(tokenizers::Tokenizer);

/// How the file a tokenizer was built of is written.
pub uninterp spec fn made_from(tokenizer: tokenizers::Tokenizer) -> Seq<char>;

/// Where a tokenizer cuts a text on the right, its marks included, if it cuts
/// at all; nothing for one that truncates in any other way.
pub uninterp spec fn cut_at(tokenizer: tokenizers::Tokenizer) -> Option<Option<usize>>;

/// How far a tokenizer pads a text on the right, and with which token, if it
/// pads at all; nothing for one that pads in any other way.
pub uninterp spec fn filled_to(tokenizer: tokenizers::Tokenizer) -> Option<Option<(usize, u32)>>;

/// Whether a file describes a tokenizer.
pub uninterp spec fn describes(document: Seq<char>) -> bool;

/// The tokens such a tokenizer puts before and after every text, where its
/// post-processor is the one that does so and no more.
pub uninterp spec fn marks_of(document: Seq<char>) -> Option<(u32, u32)>;

/// Whether a BPE's merges are dropped by chance, and nothing for a model that
/// is no BPE.
pub uninterp spec fn drops_of(document: Seq<char>) -> Option<bool>;

/// The tokens a text itself becomes, without marks, truncation or padding, or
/// why it becomes none.
pub uninterp spec fn tokens_of(document: Seq<char>, text: Seq<char>) -> Result<
    Seq<u32>,
    Seq<char>,
>;

/// `serde_json::from_value` into a `Tokenizer`, which is what
/// `Tokenizer::from_bytes` does with bytes. The file decides whether there is
/// a tokenizer, and one that is built remembers the file. What an error says
/// is left open, since it can list what is missing in any order. Nothing is
/// claimed of the truncation and padding that the file itself may ask for.
#[verifier::external_body]
fn build(document: &serde_json::Value) -> (r: Result<tokenizers::Tokenizer, String>)
    requires
        is_familiar(spelled(*document)),
    ensures
        r is Ok == describes(spelled(*document)),
        r matches Ok(t) ==> made_from(t) == spelled(*document),
{
    serde_json::from_value(document.clone()).map_err(|e| e.to_string())
}

/// `TokenizerImpl::get_post_processor`: the ids of the two tokens that a
/// `RobertaProcessing` puts around a text, and nothing for any other
/// post-processor.
#[verifier::external_body]
fn marks(tokenizer: &tokenizers::Tokenizer) -> (r: Option<(u32, u32)>)
    ensures
        r == marks_of(made_from(*tokenizer)),
{
    match tokenizer.get_post_processor() {
        Some(tokenizers::PostProcessorWrapper::Roberta(r)) => Some((r.cls.1, r.sep.1)),
        _ => None,
    }
}

/// `TokenizerImpl::get_model`: whether a BPE has a dropout, and nothing for a
/// model that is no BPE.
#[verifier::external_body]
fn drops(tokenizer: &tokenizers::Tokenizer) -> (r: Option<bool>)
    ensures
        r == drops_of(made_from(*tokenizer)),
{
    match tokenizer.get_model() {
        tokenizers::ModelWrapper::BPE(bpe) => Some(bpe.dropout.is_some()),
        _ => None,
    }
}

/// `TokenizerImpl::with_truncation`, on the right, the longest first, with no
/// stride, or with nothing: sets where a text is cut, and nothing else. It
/// fails only where the stride is longer than what is left beside the marks,
/// and underflows where the marks alone are longer than the cut.
#[verifier::external_body]
fn cut(tokenizer: &mut tokenizers::Tokenizer, at: Option<usize>)
    requires
        at matches Some(n) ==> n >= 2 && marks_of(made_from(*old(tokenizer))) is Some,
    ensures
        made_from(*final(tokenizer)) == made_from(*old(tokenizer)),
        cut_at(*final(tokenizer)) == Some(at),
        filled_to(*final(tokenizer)) == filled_to(*old(tokenizer)),
{
    let params = at.map(|max_length| tokenizers::TruncationParams {
        max_length,
        strategy: tokenizers::TruncationStrategy::LongestFirst,
        direction: tokenizers::TruncationDirection::Right,
        stride: 0,
    });
    tokenizer.with_truncation(params).expect("truncation params are well-formed");
}

/// `TokenizerImpl::with_padding`, on the right, to a fixed length, or with
/// nothing: sets how far a text is padded and with which token, and nothing
/// else. How the token is spelled shows in an encoding's token texts alone,
/// which are not read here.
#[verifier::external_body]
fn fill(tokenizer: &mut tokenizers::Tokenizer, to: Option<(usize, u32)>, token: &str)
    ensures
        made_from(*final(tokenizer)) == made_from(*old(tokenizer)),
        cut_at(*final(tokenizer)) == cut_at(*old(tokenizer)),
        filled_to(*final(tokenizer)) == Some(to),
{
    tokenizer.with_padding(to.map(|(length, pad_id)| tokenizers::PaddingParams {
        strategy: tokenizers::PaddingStrategy::Fixed(length),
        direction: tokenizers::PaddingDirection::Right,
        pad_to_multiple_of: None,
        pad_id,
        pad_type_id: 0,
        pad_token: token.to_string(),
    }));
}

/// A text as a tokenizer encodes it: its tokens, and one for each of them and
/// zero for each that only pads.
pub struct Encoded {
    pub ids: Vec<u32>,
    pub mask: Vec<u32>,
}

/// The tokens of a text that are left of `cut`, between the marks.
pub open spec fn marked(content: Seq<u32>, marks: (u32, u32), cut: Option<usize>) -> Seq<u32> {
    let kept = match cut {
        Some(n) => if content.len() > n - 2 {
            content.take(n - 2)
        } else {
            content
        },
        None => content,
    };
    seq![marks.0] + kept + seq![marks.1]
}

/// So many of one value.
pub open spec fn run_of<A>(value: A, count: int) -> Seq<A> {
    Seq::new(
        if count < 0 {
            0
        } else {
            count as nat
        },
        |i: int| value,
    )
}

/// Values with the padding that brings them to a length.
pub open spec fn padded<A>(values: Seq<A>, length: int, pad: A) -> Seq<A> {
    values + run_of(pad, length - values.len())
}

/// `TokenizerImpl::encode`, with special tokens, for a BPE without a dropout
/// behind a `RobertaProcessing`: the text's own tokens, cut where a cut is
/// set, between the two marks, and padded where a padding is set; the
/// attention mask is one for each of them and zero for each pad. An error
/// comes of the text's own tokens alone.
#[verifier::external_body]
fn encode(tokenizer: &tokenizers::Tokenizer, text: &str) -> (r: Result<Encoded, String>)
    requires
        is_familiar(made_from(*tokenizer)),
        marks_of(made_from(*tokenizer)) is Some,
        drops_of(made_from(*tokenizer)) == Some(false),
        cut_at(*tokenizer) matches Some(cut) && (cut matches Some(n) ==> n >= 2),
        filled_to(*tokenizer) is Some,
    ensures
        match tokens_of(made_from(*tokenizer), text@) {
            Err(e) => r is Err && r->Err_0@ == e,
            Ok(content) => {
                let body = marked(
                    content,
                    marks_of(made_from(*tokenizer))->0,
                    cut_at(*tokenizer)->0,
                );
                &&& r is Ok
                &&& r->Ok_0.ids@ == match filled_to(*tokenizer)->0 {
                    Some((length, pad)) => padded(body, length as int, pad),
                    None => body,
                }
                &&& r->Ok_0.mask@ == match filled_to(*tokenizer)->0 {
                    Some((length, _)) => padded(run_of(1u32, body.len() as int), length as int, 0),
                    None => run_of(1u32, body.len() as int),
                }
            },
        },
{
    match tokenizer.encode(text, true) {
        Ok(e) => Ok(
            Encoded { ids: e.get_ids().to_vec(), mask: e.get_attention_mask().to_vec() },
        ),
        Err(e) => Err(e.to_string()),
    }
}

/// The tokenizer, built twice from the same file: `raw` reports a prompt's
/// true token count, unpadded and untruncated, which is what tells whether a
/// prompt ran past `MAX_TOKENS`; `padded` is truncated and padded to exactly
/// `MAX_TOKENS`, which is what the graph's fixed-shape inputs need.
pub struct Tok {
    raw: tokenizers::Tokenizer,
    padded: tokenizers::Tokenizer,
}

/// Why bytes are no tokenizer of this tower.
pub enum TokError {
    /// They are no JSON.
    Malformed(String),
    /// They are not laid out as CLIP's own file is.
    Unfamiliar,
    /// They do not describe a tokenizer.
    Unreadable(String),
    /// The model drops merges by chance.
    Unsteady,
    /// A text is not put between `<|startoftext|>` and `<|endoftext|>`.
    Unmarked,
}

/// Whether a file describes CLIP's kind of tokenizer: laid out as CLIP's own,
/// a BPE that leaves nothing to chance, with its two marks around every text.
pub open spec fn is_clips(document: Seq<char>) -> bool {
    &&& is_familiar(document)
    &&& describes(document)
    &&& drops_of(document) == Some(false)
    &&& marks_of(document) == Some((BOS_ID, EOS_ID))
}

/// Whether `r` is the tokenizer that a file describes, or why there is none.
pub open spec fn settles(document: Seq<char>, r: Result<Tok, TokError>) -> bool {
    match r {
        Ok(t) => is_clips(document) && t.wf() && t.source() == document,
        Err(TokError::Malformed(_)) => false,
        Err(TokError::Unfamiliar) => !is_familiar(document),
        Err(TokError::Unreadable(_)) => is_familiar(document) && !describes(document),
        Err(TokError::Unsteady) => is_familiar(document) && describes(document) && drops_of(
            document,
        ) != Some(false),
        Err(TokError::Unmarked) => is_familiar(document) && describes(document) && drops_of(
            document,
        ) == Some(false) && marks_of(document) != Some((BOS_ID, EOS_ID)),
    }
}

impl Tok {
    /// How the file the tokenizer was built of is written.
    pub closed spec fn source(self) -> Seq<char> {
        made_from(self.raw)
    }

    /// What `tok` settles and nothing changes.
    pub closed spec fn wf(self) -> bool {
        &&& is_familiar(made_from(self.raw))
        &&& drops_of(made_from(self.raw)) == Some(false)
        &&& marks_of(made_from(self.raw)) == Some((BOS_ID, EOS_ID))
        &&& cut_at(self.raw) == Some(None::<usize>)
        &&& filled_to(self.raw) == Some(None::<(usize, u32)>)
        &&& made_from(self.padded) == made_from(self.raw)
        &&& cut_at(self.padded) == Some(Some(MAX_TOKENS))
        &&& filled_to(self.padded) == Some(Some((MAX_TOKENS, EOS_ID)))
    }
}

/// The tokenizer of a published `tokenizer.json`, or why it is none of this
/// tower's.
pub fn tok(json: &[u8]) -> (r: Result<Tok, TokError>)
    ensures
        match document_of(json@) {
            Err(e) => r matches Err(TokError::Malformed(message)) && message@ == e,
            Ok(document) => settles(document, r),
        },
{
    let document = match parse_document(json) {
        Ok(document) => document,
        Err(e) => {
            return Err(TokError::Malformed(e));
        },
    };
    if !familiar(&document) {
        return Err(TokError::Unfamiliar);
    }
    let mut raw = match build(&document) {
        Ok(tokenizer) => tokenizer,
        Err(e) => {
            return Err(TokError::Unreadable(e));
        },
    };
    let mut padded = match build(&document) {
        Ok(tokenizer) => tokenizer,
        Err(e) => {
            return Err(TokError::Unreadable(e));
        },
    };
    match drops(&raw) {
        Some(false) => {},
        _ => {
            return Err(TokError::Unsteady);
        },
    }
    match marks(&raw) {
        Some((bos, eos)) => {
            if bos != BOS_ID || eos != EOS_ID {
                return Err(TokError::Unmarked);
            }
        },
        None => {
            return Err(TokError::Unmarked);
        },
    }
    cut(&mut raw, None);
    fill(&mut raw, None, EOS_TOKEN);
    cut(&mut padded, Some(MAX_TOKENS));
    fill(&mut padded, Some((MAX_TOKENS, EOS_ID)), EOS_TOKEN);
    Ok(Tok { raw, padded })
}

/// One prompt, tokenized to the tower's fixed shape: `ids` and `mask` are both
/// exactly `MAX_TOKENS` long. `truncated` is true when the prompt's true token
/// count - its marks included - ran past `MAX_TOKENS` and some of its text was
/// therefore dropped.
pub struct Tokenized {
    pub ids: Vec<i64>,
    pub mask: Vec<i64>,
    pub truncated: bool,
}

/// Values, each as a 64-bit integer.
pub open spec fn longs_of(values: Seq<u32>) -> Seq<i64> {
    Seq::new(values.len(), |i: int| values[i] as i64)
}

fn longs(values: &Vec<u32>) -> (r: Vec<i64>)
    ensures
        r@ == longs_of(values@),
{
    let mut r: Vec<i64> = Vec::new();
    let mut i: usize = 0;
    while i < values.len()
        invariant
            i <= values@.len(),
            r@ == longs_of(values@.take(i as int)),
        decreases values@.len() - i,
    {
        r.push(values[i] as i64);
        i = i + 1;
        assert(r@ =~= longs_of(values@.take(i as int)));
    }
    assert(values@.take(i as int) =~= values@);
    r
}

/// What two encodings of one prompt come to: how long it truly is, and what of
/// it fits.
pub fn tokenized(whole: &Encoded, fitted: &Encoded) -> (r: Tokenized)
    ensures
        r.ids@ == longs_of(fitted.ids@),
        r.mask@ == longs_of(fitted.mask@),
        r.truncated == (whole.ids@.len() > MAX_TOKENS),
{
    Tokenized {
        ids: longs(&fitted.ids),
        mask: longs(&fitted.mask),
        truncated: whole.ids.len() > MAX_TOKENS,
    }
}

/// The tokens of a prompt as the tower reads them: between its marks, cut and
/// padded to `MAX_TOKENS`.
pub open spec fn fitted_ids(content: Seq<u32>) -> Seq<u32> {
    padded(marked(content, (BOS_ID, EOS_ID), Some(MAX_TOKENS)), MAX_TOKENS as int, EOS_ID)
}

/// Which of those tokens are the prompt's own.
pub open spec fn fitted_mask(content: Seq<u32>) -> Seq<u32> {
    padded(
        run_of(1u32, marked(content, (BOS_ID, EOS_ID), Some(MAX_TOKENS)).len() as int),
        MAX_TOKENS as int,
        0,
    )
}

/// One prompt, tokenized.
pub fn tokenize(tok: &Tok, text: &str) -> (r: Result<Tokenized, String>)
    requires
        tok.wf(),
    ensures
        match tokens_of(tok.source(), text@) {
            Err(e) => r is Err && r->Err_0@ == "tokenize: "@ + e,
            Ok(content) => {
                &&& r is Ok
                &&& r->Ok_0.ids@ == longs_of(fitted_ids(content))
                &&& r->Ok_0.mask@ == longs_of(fitted_mask(content))
                &&& r->Ok_0.truncated == (content.len() + 2 > MAX_TOKENS)
            },
        },
{
    let whole = match encode(&tok.raw, text) {
        Ok(encoding) => encoding,
        Err(e) => {
            let mut message = String::from_str("tokenize: ");
            message.append(e.as_str());
            return Err(message);
        },
    };
    let fitted = match encode(&tok.padded, text) {
        Ok(encoding) => encoding,
        Err(e) => {
            let mut message = String::from_str("tokenize: ");
            message.append(e.as_str());
            return Err(message);
        },
    };
    Ok(tokenized(&whole, &fitted))
}

/// Every prompt comes out at the tower's fixed shape, whatever its length.
pub proof fn law_every_prompt_fills_the_context(content: Seq<u32>)
    ensures
        fitted_ids(content).len() == MAX_TOKENS,
        fitted_mask(content).len() == MAX_TOKENS,
{
}

/// A prompt that fits is kept whole between its marks; the rest is filled
/// with `<|endoftext|>`, and the mask is one up to the prompt's own end and
/// zero after it.
pub proof fn law_a_prompt_that_fits_is_whole(content: Seq<u32>)
    requires
        content.len() + 2 <= MAX_TOKENS,
    ensures
        fitted_ids(content).take((content.len() + 2) as int) == seq![BOS_ID] + content + seq![EOS_ID],
        forall|i: int|
            content.len() + 2 <= i < MAX_TOKENS ==> (#[trigger] fitted_ids(content)[i]) == EOS_ID,
        forall|i: int|
            0 <= i < MAX_TOKENS ==> (#[trigger] fitted_mask(content)[i]) == if i < content.len()
                + 2 {
                1u32
            } else {
                0u32
            },
{
    assert(fitted_ids(content).take((content.len() + 2) as int) =~= seq![BOS_ID] + content + seq![EOS_ID]);
}

/// A prompt that does not fit loses its tail and not its end: it still opens
/// and closes with its marks, and no slot is padding.
pub proof fn law_a_prompt_cut_short_still_ends(content: Seq<u32>)
    requires
        content.len() + 2 > MAX_TOKENS,
    ensures
        fitted_ids(content)[0] == BOS_ID,
        fitted_ids(content).subrange(1, MAX_TOKENS - 1) == content.take(MAX_TOKENS - 2),
        fitted_ids(content)[MAX_TOKENS - 1] == EOS_ID,
        forall|i: int| 0 <= i < MAX_TOKENS ==> (#[trigger] fitted_mask(content)[i]) == 1,
{
    assert(fitted_ids(content).subrange(1, MAX_TOKENS - 1) =~= content.take(MAX_TOKENS - 2));
}

/// What the tower is fed for one tokenized prompt: its ids and its mask.
pub fn feeds(tokenized: &Tokenized) -> (feeds: Vec<Feed>)
    ensures
        feeds@.len() == 2,
        feeds@[0].name@ == "input_ids"@,
        feeds@[0].data@ == long_bytes_of(tokenized.ids@),
        feeds@[1].name@ == "attention_mask"@,
        feeds@[1].data@ == long_bytes_of(tokenized.mask@),
        forall|i: int|
            0 <= i < 2 ==> (#[trigger] feeds@[i]).dims@ == seq![1u32, 77] && feeds@[i].ty
                == TensorType::I64,
{
    let mut feeds: Vec<Feed> = Vec::new();
    feeds.push(feed(INPUT_IDS, &tokenized.ids));
    feeds.push(feed(ATTENTION_MASK, &tokenized.mask));
    feeds
}

fn feed(name: &str, values: &Vec<i64>) -> (feed: Feed)
    ensures
        feed.name@ == name@,
        feed.dims@ == seq![1u32, 77],
        feed.ty == TensorType::I64,
        feed.data@ == long_bytes_of(values@),
{
    let mut dims: Vec<u32> = Vec::new();
    dims.push(1);
    dims.push(77);
    assert(dims@ =~= seq![1u32, 77]);
    Feed {
        name: String::from_str(name),
        dims,
        ty: TensorType::I64,
        data: le_longs(values.as_slice()),
    }
}

/// The named tensor's floats out of what a compute answered, as their bit
/// patterns, checked against the element count its shape fixes.
pub fn take_output(outputs: &Vec<(String, Vec<u8>)>, name: &str, len: usize) -> (r: Result<
    Vec<u32>,
    String,
>)
    ensures
        match first_named(names_of(outputs@), name@) {
            None => r is Err && r->Err_0@ == "embed: the graph answered without "@ + quoted_of(
                name@,
            ) + " (unclaimed: "@ + listed_of(names_of(outputs@))
                + "); this module wants X-CLIP's text tower export"@,
            Some(i) => {
                let values = words_of(outputs@[i].1@);
                if values.len() == len {
                    r is Ok && r->Ok_0@ == values
                } else {
                    r is Err && r->Err_0@ == "embed: "@ + name@ + " came back as "@ + decimal_of(
                        values.len(),
                    ) + " numbers, expected "@ + decimal_of(len as nat)
                }
            },
        },
{
    match find(outputs, name) {
        None => {
            let mut message = String::from_str("embed: the graph answered without ");
            message.append(quoted(name).as_str());
            message.append(" (unclaimed: ");
            message.append(listed(outputs).as_str());
            message.append("); this module wants X-CLIP's text tower export");
            Err(message)
        },
        Some(i) => {
            let values = le_f32s(outputs[i].1.as_slice());
            if values.len() == len {
                Ok(values)
            } else {
                let mut message = String::from_str("embed: ");
                message.append(name);
                message.append(" came back as ");
                message.append(decimal(values.len() as u64).as_str());
                message.append(" numbers, expected ");
                message.append(decimal(len as u64).as_str());
                Err(message)
            }
        },
    }
}

/// The function the module offers.
pub const EMBED_TEXT: &'static str = "embed_text";

/// What `embed_text` takes.
pub const EMBED_TEXT_PARAMS_SCHEMA: &'static str =
    r#"{"type":"object","properties":{"prompt":{"type":"string"}},"required":["prompt"],"additionalProperties":false}"#;

/// What `embed_text` gives.
pub const EMBED_TEXT_RESULT_SCHEMA: &'static str =
    r#"{"type":"array","items":{"type":"number"},"minItems":512,"maxItems":512,"description":"X-CLIP text tower output, L2-normalized so cos_similarity(a, b) is a plain dot product."}"#;

/// The parameters the rows module takes: none.
pub const ROWS_PARAMS_SCHEMA: &'static str =
    r#"{"type":"object","properties":{},"additionalProperties":false}"#;

/// What the rows module reads: a cue-shaped row, extra keys ignored.
pub const INPUT_ROWS_SCHEMA: &'static str =
    r#"{"type":"object","properties":{"start_t":{"type":"number"},"end_t":{"type":"number"},"text":{"type":"string"}},"required":["start_t","end_t","text"],"additionalProperties":true}"#;

/// What the rows module writes: the same span, `text` replaced by its vector.
pub const OUTPUT_ROWS_SCHEMA: &'static str =
    r#"{"type":"object","properties":{"start_t":{"type":"number"},"end_t":{"type":"number"},"vector":{"type":"array","items":{"type":"number"},"minItems":512,"maxItems":512}},"required":["start_t","end_t","vector"],"additionalProperties":false,"description":"vector is X-CLIP text tower output, L2-normalized so cos_similarity(a, b) is a plain dot product."}"#;

/// The members of a JSON object that are strings, by name; none for a value
/// that is no object.
pub uninterp spec fn strings_in(json: serde_json::Value) -> Map<Seq<char>, Seq<char>>;

/// The string members of the object a JSON text spells, or what is wrong with
/// the text.
pub uninterp spec fn strings_of(text: Seq<char>) -> Result<Map<Seq<char>, Seq<char>>, Seq<char>>;

/// `serde_json::from_str` into a `Value`: the text alone decides the value or
/// the error.
#[verifier::external_body]
fn parse(text: &str) -> (r: Result<serde_json::Value, String>)
    ensures
        match r {
            Ok(json) => strings_of(text@) == Ok::<_, Seq<char>>(strings_in(json)),
            Err(e) => strings_of(text@) == Err::<Map<Seq<char>, Seq<char>>, _>(e@),
        },
{
    serde_json::from_str(text).map_err(|e| e.to_string())
}

/// `Value::as_object`, the map's `get` and `Value::as_str`, one after
/// another: the string member of that name, where there is one.
#[verifier::external_body]
fn string_member(json: &serde_json::Value, field: &str) -> (r: Option<String>)
    ensures
        r is Some == strings_in(*json).dom().contains(field@),
        r matches Some(s) ==> s@ == strings_in(*json)[field@],
{
    json.as_object().and_then(|o| o.get(field)).and_then(serde_json::Value::as_str).map(
        str::to_string,
    )
}

/// What a field that was looked for comes to: its text, or why there is none.
pub fn string_arg(name: &str, found: Result<Option<String>, String>, field: &str) -> (r: Result<
    String,
    String,
>)
    ensures
        match found {
            Ok(Some(text)) => r is Ok && r->Ok_0@ == text@,
            Ok(None) => r is Err && r->Err_0@ == name@
                + ": args must be an object with a string \""@ + field@ + "\""@,
            Err(e) => r is Err && r->Err_0@ == name@ + ": args is not valid JSON: "@ + e@,
        },
{
    match found {
        Ok(Some(text)) => Ok(text),
        Ok(None) => {
            let mut message = String::from_str(name);
            message.append(": args must be an object with a string \"");
            message.append(field);
            message.append("\"");
            Err(message)
        },
        Err(e) => {
            let mut message = String::from_str(name);
            message.append(": args is not valid JSON: ");
            message.append(e.as_str());
            Err(message)
        },
    }
}

/// Whether `r` is the string field of that name in `args`, or why there is
/// none.
pub open spec fn extracts(
    name: Seq<char>,
    args: Seq<char>,
    field: Seq<char>,
    r: Result<String, String>,
) -> bool {
    match strings_of(args) {
        Err(e) => r is Err && r->Err_0@ == name + ": args is not valid JSON: "@ + e,
        Ok(strings) => if strings.dom().contains(field) {
            r is Ok && r->Ok_0@ == strings[field]
        } else {
            r is Err && r->Err_0@ == name + ": args must be an object with a string \""@ + field
                + "\""@
        },
    }
}

/// `args`' one string field named `field` - `embed_text`'s `"prompt"`.
pub fn extract_string_arg(name: &str, args: &str, field: &str) -> (r: Result<String, String>)
    ensures
        extracts(name@, args@, field@, r),
{
    let found = match parse(args) {
        Ok(json) => Ok(string_member(&json, field)),
        Err(e) => Err(e),
    };
    string_arg(name, found, field)
}

/// The prompt a call of the module's function carries, or what is wrong with
/// the call.
pub fn prompt_of(name: &str, args: &str) -> (r: Result<String, String>)
    ensures
        if name@ == EMBED_TEXT@ {
            extracts(EMBED_TEXT@, args@, "prompt"@, r)
        } else {
            r is Err && r->Err_0@ == "embed does not export "@ + name@ + "; it exports "@
                + EMBED_TEXT@
        },
{
    if same(name, EMBED_TEXT) {
        extract_string_arg(EMBED_TEXT, args, "prompt")
    } else {
        let mut message = String::from_str("embed does not export ");
        message.append(name);
        message.append("; it exports ");
        message.append(EMBED_TEXT);
        Err(message)
    }
}

/// This module takes no parameters: the tower and its tokenizer are fixed.
pub fn validate_params(params: &str) -> (r: Result<(), String>)
    ensures
        trimmed(params@) == ""@ || trimmed(params@) == "{}"@ ==> r is Ok,
        trimmed(params@) != ""@ && trimmed(params@) != "{}"@ ==> r is Err && r->Err_0@
            == "embed takes no params, got: "@ + trimmed(params@),
{
    let given = trim(params);
    if same(given, "") || same(given, "{}") {
        Ok(())
    } else {
        let mut message = String::from_str("embed takes no params, got: ");
        message.append(given);
        Err(message)
    }
}

/// What the module offers to call.
pub fn list_functions() -> (functions: Vec<FunctionMeta>)
    ensures
        functions@.len() == 1,
        functions@[0].name@ == EMBED_TEXT@,
        functions@[0].params_schema@ == EMBED_TEXT_PARAMS_SCHEMA@,
        functions@[0].result_schema@ == EMBED_TEXT_RESULT_SCHEMA@,
{
    let mut functions: Vec<FunctionMeta> = Vec::new();
    functions.push(
        FunctionMeta {
            name: String::from_str(EMBED_TEXT),
            params_schema: String::from_str(EMBED_TEXT_PARAMS_SCHEMA),
            result_schema: String::from_str(EMBED_TEXT_RESULT_SCHEMA),
        },
    );
    functions
}

/// What the module says of itself.
pub fn describe() -> (meta: RowsModuleMeta)
    ensures
        meta.meta.name@ == "embed"@,
        meta.meta.version@ == "0.1.0"@,
        meta.meta.params_schema@ == ROWS_PARAMS_SCHEMA@,
        meta.meta.rows_schema@ == OUTPUT_ROWS_SCHEMA@,
        meta.meta.pixel_formats@.len() == 0,
        meta.meta.sample_formats@.len() == 0,
        meta.meta.sample_rates@.len() == 0,
        meta.meta.channel_counts@.len() == 0,
        meta.meta.rows_language@.len() == 0,
        meta.input_rows_schema@ == INPUT_ROWS_SCHEMA@,
{
    RowsModuleMeta {
        meta: Meta {
            name: String::from_str("embed"),
            version: String::from_str("0.1.0"),
            params_schema: String::from_str(ROWS_PARAMS_SCHEMA),
            rows_schema: String::from_str(OUTPUT_ROWS_SCHEMA),
            pixel_formats: Vec::new(),
            sample_formats: Vec::new(),
            sample_rates: Vec::new(),
            channel_counts: Vec::new(),
            rows_language: Vec::new(),
        },
        input_rows_schema: String::from_str(INPUT_ROWS_SCHEMA),
    }
}

/// Whether a row is answered by `r`.
pub open spec fn answered<F: Fn(&str) -> Result<String, String>>(
    each: F,
    row: Seq<char>,
    r: Result<String, String>,
) -> bool {
    exists|text: &str| text@ == row && #[trigger] call_ensures(each, (text,), r)
}

/// Whether a row is answered without an error.
pub open spec fn succeeds<F: Fn(&str) -> Result<String, String>>(each: F, row: Seq<char>) -> bool {
    exists|written: String| #[trigger] answered(each, row, Ok(written))
}

/// Every row answered in turn, or the first error among the answers: the rows
/// after it are not read.
pub fn process<F: Fn(&str) -> Result<String, String>>(rows: &Vec<String>, each: &F) -> (r: Result<
    Vec<String>,
    String,
>)
    requires
        forall|row: &str| call_requires(*each, (row,)),
    ensures
        match r {
            Ok(written) => {
                &&& written@.len() == rows@.len()
                &&& forall|i: int|
                    0 <= i < rows@.len() ==> answered(
                        *each,
                        rows@[i]@,
                        Ok(#[trigger] written@[i]),
                    )
            },
            Err(e) => exists|n: int|
                {
                    &&& 0 <= n < rows@.len()
                    &&& answered(*each, (#[trigger] rows@[n])@, Err(e))
                    &&& forall|i: int|
                        0 <= i < n ==> succeeds(*each, (#[trigger] rows@[i])@)
                },
        },
{
    let mut written: Vec<String> = Vec::new();
    let mut i: usize = 0;
    while i < rows.len()
        invariant
            i <= rows@.len(),
            written@.len() == i,
            forall|row: &str| call_requires(*each, (row,)),
            forall|k: int|
                0 <= k < i ==> answered(*each, rows@[k]@, Ok(#[trigger] written@[k])),
        decreases rows@.len() - i,
    {
        let row = rows[i].as_str();
        let answer = each(row);
        assert(answered(*each, rows@[i as int]@, answer));
        match answer {
            Ok(line) => {
                written.push(line);
            },
            Err(e) => {
                proof {
                    assert forall|k: int| 0 <= k < i implies succeeds(
                        *each,
                        (#[trigger] rows@[k])@,
                    ) by {
                        assert(answered(*each, rows@[k]@, Ok(written@[k])));
                    }
                    assert(answered(*each, rows@[i as int]@, Err(e)));
                }
                return Err(e);
            },
        }
        i = i + 1;
    }
    Ok(written)
}

/// Every row is embedded and sent on the moment it is read; nothing is held
/// back for a final call to release.
pub fn finish() -> (r: Result<Vec<String>, String>)
    ensures
        r matches Ok(rows) && rows@.len() == 0,
{
    Ok(Vec::new())
}

/// What the tower reads of a prompt, slot by slot: seventy-seven ids, the
/// first of them `<|startoftext|>`, then the prompt's own tokens as far as
/// seventy-five go, and `<|endoftext|>` from there on. The mask is one through
/// the first `<|endoftext|>` and zero after it.
pub proof fn law_what_the_tower_reads_of_a_prompt(content: Seq<u32>, i: int)
    requires
        0 <= i < 77,
    ensures
        ({
            let ids = longs_of(fitted_ids(content));
            let mask = longs_of(fitted_mask(content));
            let own = if content.len() < 75 {
                content.len() as int
            } else {
                75
            };
            &&& ids.len() == 77
            &&& mask.len() == 77
            &&& i == 0 ==> ids[i] == 49_406
            &&& 1 <= i <= own ==> ids[i] == content[i - 1]
            &&& i > own ==> ids[i] == 49_407
            &&& i <= own + 1 ==> mask[i] == 1
            &&& i > own + 1 ==> mask[i] == 0
        }),
{
}

/// A file's tokenizer is this tower's where the file is laid out as CLIP's,
/// describes a tokenizer, is a BPE that leaves nothing to chance, and puts
/// CLIP's two marks around a text - and nowhere else. Each refusal says the
/// first of these that fails.
pub proof fn law_a_file_is_refused_for_the_first_thing_wrong(
    document: Seq<char>,
    r: Result<Tok, TokError>,
)
    requires
        settles(document, r),
    ensures
        r is Ok <==> is_familiar(document) && describes(document) && drops_of(document) == Some(
            false,
        ) && marks_of(document) == Some((49_406u32, 49_407u32)),
        r matches Ok(t) ==> t.source() == document,
        r matches Err(e) ==> {
            &&& e !is Malformed
            &&& e is Unfamiliar <==> !is_familiar(document)
            &&& e is Unreadable <==> is_familiar(document) && !describes(document)
            &&& e is Unsteady <==> is_familiar(document) && describes(document) && drops_of(
                document,
            ) != Some(false)
        },
{
}

/// A call's prompt is the string that its arguments hold under that name, as
/// it is, and there is one exactly where they are an object with such a
/// string.
pub proof fn law_a_prompt_is_the_string_of_its_name(
    name: Seq<char>,
    args: Seq<char>,
    field: Seq<char>,
    r: Result<String, String>,
)
    requires
        extracts(name, args, field, r),
    ensures
        r is Ok <==> strings_of(args) is Ok && strings_of(args)->Ok_0.dom().contains(field),
        r is Ok ==> r->Ok_0@ == strings_of(args)->Ok_0[field],
{
}

/// Where every row has one answer, each is answered by its own: what a row is
/// answered with is the answer to that row's text.
pub proof fn law_each_row_is_answered_by_its_own<F: Fn(&str) -> Result<String, String>>(
    each: F,
    row: Seq<char>,
    r: Result<String, String>,
    answer: spec_fn(Seq<char>) -> Result<String, String>,
)
    requires
        forall|text: &str, to: Result<String, String>| #[trigger]
            call_ensures(each, (text,), to) ==> to == answer(text@),
    ensures
        answered(each, row, r) ==> r == answer(row),
        succeeds(each, row) ==> answer(row) is Ok,
{
}

} // verus!
