//! What a text comes to: its tokens, what the tower is fed, and what is made
//! of the tower's answer.

use describe::embed::{
    extract_string_arg, feeds, finish, list_functions, process, prompt_of, string_arg,
    take_output, tok, tokenize, tokenized, validate_params, Encoded, Tok, TokError, EOS_ID,
    MAX_TOKENS,
};
use describe::host::TensorType;
use describe::vector::normalize;
use std::collections::BTreeMap;

/// The words the prompts below use, with the ids the published vocabulary
/// gives them.
const WORDS: [(&str, u32); 17] = [
    ("at", 536),
    ("of", 539),
    ("the", 518),
    ("a", 320),
    ("photo", 1125),
    ("down", 1136),
    ("dog", 1929),
    ("street", 2012),
    ("word", 2653),
    ("cat", 2368),
    ("person", 2533),
    ("outside", 2782),
    ("hello", 3306),
    ("sunset", 3424),
    ("riding", 6765),
    ("bicycle", 11652),
    ("barking", 32676),
];

/// The vocabulary of those words and the merges that spell them, the longest
/// word's first, as JSON.
fn vocab_and_merges() -> (String, String) {
    let mut vocab = BTreeMap::from([
        ("<|startoftext|>".to_string(), 49406),
        ("<|endoftext|>".to_string(), 49407),
    ]);
    for (word, id) in WORDS {
        vocab.insert(format!("{word}</w>"), id);
    }
    let mut merges: Vec<String> = Vec::new();
    let mut words = WORDS.map(|(word, _)| word);
    words.sort_by_key(|word| std::cmp::Reverse(word.len()));
    for word in words {
        let mut parts: Vec<String> = word.chars().map(String::from).collect();
        parts.last_mut().expect("a letter").push_str("</w>");
        let mut spelled = String::new();
        for part in parts {
            if !spelled.is_empty() {
                merges.push(format!("\"{spelled} {part}\""));
            }
            spelled.push_str(&part);
            for token in [part, spelled.clone()] {
                let next = 60_000 + vocab.len() as u32;
                vocab.entry(token).or_insert(next);
            }
        }
    }
    let vocab: Vec<String> = vocab.iter().map(|(token, id)| format!("\"{token}\":{id}")).collect();
    (vocab.join(","), merges.join(","))
}

/// A tokenizer laid out as CLIP's, with the few words above.
fn tokenizer_json(post_processor: &str, dropout: &str) -> String {
    let (vocab, merges) = vocab_and_merges();
    format!(
        "{{\"version\":\"1.0\",\"truncation\":null,\"padding\":null,\
         \"added_tokens\":[{ADDED_TOKENS}],\
         \"normalizer\":{{\"type\":\"Sequence\",\"normalizers\":[{NORMALIZERS}]}},\
         \"pre_tokenizer\":{{\"type\":\"Sequence\",\"pretokenizers\":[{PRE_TOKENIZERS}]}},\
         \"post_processor\":{post_processor},\"decoder\":{BYTE_LEVEL},\
         \"model\":{{\"type\":\"BPE\",\"dropout\":{dropout},\"unk_token\":\"<|endoftext|>\",\
         \"continuing_subword_prefix\":\"\",\"end_of_word_suffix\":\"</w>\",\"fuse_unk\":false,\
         \"vocab\":{{{vocab}}},\"merges\":[{merges}]}}}}"
    )
}

const ADDED_TOKENS: &str = r#"{"id":49406,"content":"<|startoftext|>","single_word":false,"lstrip":false,"rstrip":false,"normalized":true,"special":true},{"id":49407,"content":"<|endoftext|>","single_word":false,"lstrip":false,"rstrip":false,"normalized":true,"special":true}"#;

const NORMALIZERS: &str = r#"{"type":"NFC"},{"type":"Replace","pattern":{"Regex":"\\s+"},"content":" "},{"type":"Lowercase"}"#;

const PRE_TOKENIZERS: &str = r#"{"type":"Split","pattern":{"Regex":"'s|'t|'re|'ve|'m|'ll|'d|[\\p{L}]+|[\\p{N}]|[^\\s\\p{L}\\p{N}]+"},"behavior":"Removed","invert":true},{"type":"ByteLevel","add_prefix_space":false,"trim_offsets":true}"#;

/// The second of those steps.
const BYTE_LEVEL_STEP: &str = r#"{"type":"ByteLevel","add_prefix_space":false,"trim_offsets":true}"#;

const BYTE_LEVEL: &str = r#"{"type":"ByteLevel","add_prefix_space":true,"trim_offsets":true}"#;

const ROBERTA: &str = "{\"type\":\"RobertaProcessing\",\"sep\":[\"<|endoftext|>\",49407],\
    \"cls\":[\"<|startoftext|>\",49406],\"trim_offsets\":false,\"add_prefix_space\":false}";

fn clips_tokenizer() -> Tok {
    match tok(tokenizer_json(ROBERTA, "null").as_bytes()) {
        Ok(tok) => tok,
        Err(TokError::Malformed(e)) => panic!("malformed: {e}"),
        Err(TokError::Unfamiliar) => panic!("unfamiliar"),
        Err(TokError::Unreadable(e)) => panic!("unreadable: {e}"),
        Err(TokError::Unsteady) => panic!("unsteady"),
        Err(TokError::Unmarked) => panic!("unmarked"),
    }
}

const A_PHOTO_OF_A_CAT: [i64; 7] = [49406, 320, 1125, 539, 320, 2368, 49407];
const A_DOG_BARKING_OUTSIDE: [i64; 6] = [49406, 320, 1929, 32676, 2782, 49407];
const A_PERSON_RIDING: [i64; 12] = [
    49406, 320, 2533, 6765, 320, 11652, 1136, 518, 2012, 536, 3424, 49407,
];

#[test]
fn known_prompts_tokenize_to_the_reference_ids() {
    let tok = clips_tokenizer();
    for (text, expected) in [
        ("a photo of a cat", &A_PHOTO_OF_A_CAT[..]),
        ("a dog barking outside", &A_DOG_BARKING_OUTSIDE[..]),
        (
            "a person riding a bicycle down the street at sunset",
            &A_PERSON_RIDING[..],
        ),
    ] {
        let tokenized = tokenize(&tok, text).expect("tokenizes");
        assert_eq!(&tokenized.ids[..expected.len()], expected, "text: {text}");
        assert!(!tokenized.truncated, "text: {text}");
        assert_eq!(tokenized.ids.len(), MAX_TOKENS);
        assert_eq!(tokenized.mask.len(), MAX_TOKENS);
        // The mask is 1 for bos..eos and 0 for every pad slot after.
        let ones = expected.len();
        assert!(
            tokenized.mask[..ones].iter().all(|&m| m == 1),
            "text: {text}"
        );
        assert!(
            tokenized.mask[ones..].iter().all(|&m| m == 0),
            "text: {text}"
        );
        // Padding fills with eos, matching transformers' own convention.
        assert!(
            tokenized.ids[ones..].iter().all(|&id| id == EOS_ID as i64),
            "text: {text}"
        );
    }
}

#[test]
fn a_prompt_past_max_tokens_is_reported_truncated() {
    let long = "word ".repeat(100);
    let tokenized = tokenize(&clips_tokenizer(), long.trim()).expect("tokenizes");
    assert!(tokenized.truncated);
    assert_eq!(tokenized.ids.len(), MAX_TOKENS);
    // Truncation still ends on eos: the content is cut, not the tail.
    assert_eq!(*tokenized.ids.last().unwrap(), EOS_ID as i64);
    assert!(tokenized.mask.iter().all(|&m| m == 1));
}

#[test]
fn a_short_prompt_is_not_reported_truncated() {
    assert!(!tokenize(&clips_tokenizer(), "hello").expect("tokenizes").truncated);
}

#[test]
fn a_prompt_of_exactly_the_context_is_whole_and_one_more_is_cut() {
    let tok = clips_tokenizer();
    let whole = tokenize(&tok, "word ".repeat(75).trim()).expect("tokenizes");
    assert!(!whole.truncated);
    assert_eq!(whole.ids[75], 2653);
    assert!(whole.mask.iter().all(|&m| m == 1));
    let cut = tokenize(&tok, "word ".repeat(76).trim()).expect("tokenizes");
    assert!(cut.truncated);
    assert_eq!(cut.ids, whole.ids);
    let empty = tokenize(&tok, "").expect("tokenizes");
    assert_eq!(&empty.ids[..2], &[49406, 49407]);
    assert_eq!(empty.mask.iter().sum::<i64>(), 2);
}

#[test]
fn truncation_and_padding_written_in_the_file_do_not_change_a_prompt() {
    let asked = tokenizer_json(ROBERTA, "null")
        .replace(
            "\"truncation\":null",
            "\"truncation\":{\"direction\":\"Right\",\"max_length\":4,\
             \"strategy\":\"LongestFirst\",\"stride\":0}",
        )
        .replace(
            "\"padding\":null",
            "\"padding\":{\"strategy\":{\"Fixed\":90},\"direction\":\"Left\",\
             \"pad_to_multiple_of\":null,\"pad_id\":1,\"pad_type_id\":0,\"pad_token\":\"x\"}",
        );
    let tok = tok(asked.as_bytes()).ok().expect("a tokenizer of CLIP's kind");
    let tokenized = tokenize(&tok, "a photo of a cat").expect("tokenizes");
    assert_eq!(&tokenized.ids[..7], &A_PHOTO_OF_A_CAT[..]);
    assert!(!tokenized.truncated);
}

#[test]
fn a_tokenizer_of_another_kind_is_refused() {
    match tok(b"{") {
        Err(TokError::Malformed(e)) => assert!(e.starts_with("EOF"), "{e}"),
        _ => panic!("no JSON is no tokenizer"),
    }
    let bare = tokenizer_json(ROBERTA, "null").replace("\"merges\":", "\"unmerged\":");
    assert!(matches!(tok(bare.as_bytes()), Err(TokError::Unreadable(_))));
    let random = tokenizer_json(ROBERTA, "0.1");
    assert!(matches!(tok(random.as_bytes()), Err(TokError::Unsteady)));
    let bare = tokenizer_json("null", "null");
    assert!(matches!(tok(bare.as_bytes()), Err(TokError::Unmarked)));
    let other = ROBERTA.replace("49406", "0");
    let marked = tokenizer_json(&other, "null");
    assert!(matches!(tok(marked.as_bytes()), Err(TokError::Unmarked)));
}

/// Whether the file is refused for its layout once a part of it is replaced.
fn unfamiliar_with(from: &str, to: &str) -> bool {
    let file = tokenizer_json(ROBERTA, "null");
    let changed = file.replace(from, to);
    assert_ne!(file, changed, "{from} is in the file");
    matches!(tok(changed.as_bytes()), Err(TokError::Unfamiliar))
}

#[test]
fn a_file_not_laid_out_as_clips_is_refused() {
    assert!(matches!(tok(b"{}"), Err(TokError::Unfamiliar)));
    // A prefix; none is none, however it is written.
    assert!(unfamiliar_with(
        "\"continuing_subword_prefix\":\"\"",
        "\"continuing_subword_prefix\":\"##\""
    ));
    assert!(!unfamiliar_with(
        "\"continuing_subword_prefix\":\"\"",
        "\"continuing_subword_prefix\":null"
    ));
    assert!(unfamiliar_with("\"model\":{\"type\":\"BPE\"", "\"model\":{\"type\":\"Unigram\""));
    // A step of another kind, or one that holds steps itself.
    assert!(unfamiliar_with("{\"type\":\"NFC\"}", "{\"type\":\"Precompiled\"}"));
    assert!(unfamiliar_with(
        "{\"type\":\"NFC\"}",
        "{\"type\":\"Sequence\",\"normalizers\":[]}"
    ));
    assert!(unfamiliar_with(BYTE_LEVEL_STEP, "{\"type\":\"FixedLength\",\"length\":0}"));
    assert!(unfamiliar_with("\"type\":\"Sequence\",\"normalizers\"", "\"normalizers\""));
    assert!(unfamiliar_with(BYTE_LEVEL, "{\"type\":\"Fuse\"}"));
    // A token or a step of CLIP's kind that is set otherwise.
    assert!(unfamiliar_with("\"rstrip\":false", "\"rstrip\":true"));
    assert!(unfamiliar_with("\"lstrip\":false", "\"lstrip\":true"));
    assert!(unfamiliar_with("\\\\s+\"},", "\\\\s*\"},"));
    assert!(unfamiliar_with("\"content\":\" \"", "\"content\":\"\""));
    assert!(unfamiliar_with("[\\\\p{L}]+", "([\\\\p{L}]+)"));
    assert!(unfamiliar_with("[\\\\p{L}]+", "[\\\\p{L}]\\\\K+"));
    assert!(!unfamiliar_with("\"'s|", "\"<\\\\|startoftext\\\\|>|<\\\\|endoftext\\\\|>|'s|"));
}

#[test]
fn of_a_setting_given_twice_the_last_is_tested_and_taken() {
    let twice = tokenizer_json(ROBERTA, "null").replace(
        "\"continuing_subword_prefix\":\"\"",
        "\"continuing_subword_prefix\":\"##\",\"continuing_subword_prefix\":null",
    );
    let tok = tok(twice.as_bytes()).ok().expect("a tokenizer of CLIP's kind");
    let tokenized = tokenize(&tok, "a photo of a cat").expect("tokenizes");
    assert_eq!(&tokenized.ids[..7], &A_PHOTO_OF_A_CAT[..]);
}

#[test]
fn a_prompt_is_normalized_and_split_before_it_is_tokenized() {
    let tok = clips_tokenizer();
    let plain = tokenize(&tok, "a photo of a cat").expect("tokenizes");
    let shouted = tokenize(&tok, " A  Photo\tof a CAT ").expect("tokenizes");
    assert_eq!(shouted.ids, plain.ids);
    // A mark in the text is the mark, and a letter that is not in the
    // vocabulary is the unknown token.
    let marked = tokenize(&tok, "a <|endoftext|> z").expect("tokenizes");
    assert_eq!(&marked.ids[..5], &[49406, 320, 49407, 49407, 49407]);
    assert_eq!(marked.mask.iter().sum::<i64>(), 5);
}

#[test]
fn two_encodings_come_to_one_tokenized_prompt() {
    let whole = Encoded { ids: vec![1; 78], mask: vec![1; 78] };
    let fitted = Encoded { ids: vec![4_000_000_000, 2], mask: vec![1, 0] };
    let r = tokenized(&whole, &fitted);
    assert_eq!((r.ids, r.mask, r.truncated), (vec![4_000_000_000, 2], vec![1, 0], true));
    let short = Encoded { ids: vec![1; 77], mask: vec![1; 77] };
    assert!(!tokenized(&short, &fitted).truncated);
}

#[test]
fn the_text_tower_is_fed_ids_and_mask() {
    let tokenized = tokenize(&clips_tokenizer(), "a cat").expect("tokenizes");
    let fed = feeds(&tokenized);
    assert_eq!(
        fed.iter().map(|f| f.name.as_str()).collect::<Vec<_>>(),
        vec!["input_ids", "attention_mask"]
    );
    for feed in &fed {
        assert_eq!(feed.dims, vec![1, 77]);
        assert!(matches!(feed.ty, TensorType::I64));
        assert_eq!(feed.data.len(), 8 * MAX_TOKENS);
    }
    assert_eq!(&fed[0].data[..16], [49406i64.to_le_bytes(), 320i64.to_le_bytes()].concat());
    assert_eq!(&fed[1].data[32..40], 0i64.to_le_bytes());
}

/// A vector scaled to unit length.
fn l2_normalize(vector: Vec<f32>) -> Vec<f32> {
    normalize(
        vector,
        &|v: &Vec<f32>| {
            let norm = v.iter().map(|x| x * x).sum::<f32>().sqrt();
            (norm > 0.0).then_some(norm)
        },
        &|value: f32, by: f32| value / by,
    )
}

fn cosine(a: &[f32], b: &[f32]) -> f32 {
    let dot: f32 = a.iter().zip(b).map(|(x, y)| x * y).sum();
    let na = a.iter().map(|v| v * v).sum::<f32>().sqrt();
    let nb = b.iter().map(|v| v * v).sum::<f32>().sqrt();
    dot / (na * nb)
}

#[test]
fn l2_normalize_produces_a_unit_vector() {
    let v = l2_normalize(vec![3.0, 4.0]);
    let norm: f32 = v.iter().map(|x| x * x).sum::<f32>().sqrt();
    assert!((norm - 1.0).abs() < 1e-6, "norm = {norm}");
    assert!((v[0] - 0.6).abs() < 1e-6);
    assert!((v[1] - 0.8).abs() < 1e-6);
}

#[test]
fn a_zero_vector_stays_zero() {
    assert_eq!(l2_normalize(vec![0.0, 0.0, 0.0]), vec![0.0, 0.0, 0.0]);
}

#[test]
fn normalizing_does_not_change_direction() {
    let a = l2_normalize(vec![1.0, 2.0, 2.0]);
    let b = l2_normalize(vec![2.0, 4.0, 4.0]);
    assert!(
        (cosine(&a, &b) - 1.0).abs() < 1e-6,
        "same direction, different length, should agree exactly"
    );
}

#[test]
fn no_params_is_accepted_and_anything_else_is_refused() {
    assert!(validate_params("").is_ok());
    assert!(validate_params("{}").is_ok());
    let Err(err) = validate_params(r#"{"lang":"es"}"#) else {
        panic!("embed takes no params and should refuse one");
    };
    assert!(err.contains("no params"), "got: {err}");
}

#[test]
fn take_output_names_what_it_got_when_the_wanted_tensor_is_missing() {
    let error = take_output(
        &vec![("other".to_string(), zero_bytes())],
        "text_embeds",
        512,
    )
    .expect_err("text_embeds is not among the outputs");
    assert!(error.contains("text_embeds"), "{error}");
    assert!(error.contains("other"), "{error}");
}

#[test]
fn take_output_refuses_a_tensor_of_the_wrong_length() {
    let error = take_output(
        &vec![("text_embeds".to_string(), zero_bytes())],
        "text_embeds",
        512,
    )
    .expect_err("only 4 numbers, not 512");
    assert!(error.contains("text_embeds"), "{error}");
    assert_eq!(error, "embed: text_embeds came back as 4 numbers, expected 512");
}

#[test]
fn take_output_takes_the_named_tensor() {
    let outputs = vec![
        ("text_embeds".to_string(), [2.5f32.to_le_bytes(), 1.0f32.to_le_bytes()].concat()),
        ("text_embeds".to_string(), Vec::new()),
    ];
    assert_eq!(
        take_output(&outputs, "text_embeds", 2).expect("two numbers"),
        vec![2.5f32.to_bits(), 1.0f32.to_bits()]
    );
}

/// 4 zero f32s' little-endian bytes - too short to be a real 512-d output,
/// which is the point in the two tests above.
fn zero_bytes() -> Vec<u8> {
    vec![0u8; 16]
}

#[test]
fn extract_string_arg_reads_the_named_field() {
    assert_eq!(
        extract_string_arg("embed_text", r#"{"prompt":"a cat"}"#, "prompt").expect("present"),
        "a cat"
    );
}

#[test]
fn extract_string_arg_refuses_a_missing_field() {
    let error =
        extract_string_arg("embed_text", r#"{}"#, "prompt").expect_err("prompt is missing");
    assert!(error.contains("prompt"), "{error}");
    for args in [r#"{"prompt":3}"#, r#"["prompt"]"#, r#""prompt""#] {
        assert_eq!(
            extract_string_arg("embed_text", args, "prompt").err().as_deref(),
            Some("embed_text: args must be an object with a string \"prompt\"")
        );
    }
    let error = extract_string_arg("embed_text", "{", "prompt").expect_err("no JSON");
    assert!(error.starts_with("embed_text: args is not valid JSON: EOF"), "{error}");
}

#[test]
fn a_field_that_was_looked_for_is_told_in_words() {
    assert_eq!(string_arg("f", Ok(Some("x".to_string())), "p").ok().as_deref(), Some("x"));
    assert_eq!(
        string_arg("f", Ok(None), "p").err().as_deref(),
        Some("f: args must be an object with a string \"p\"")
    );
    assert_eq!(
        string_arg("f", Err("bad".to_string()), "p").err().as_deref(),
        Some("f: args is not valid JSON: bad")
    );
}

#[test]
fn only_embed_text_is_exported() {
    assert_eq!(prompt_of("embed_text", r#"{"prompt":"a dog"}"#).ok().as_deref(), Some("a dog"));
    assert_eq!(
        prompt_of("embed_image", "{}").err().as_deref(),
        Some("embed does not export embed_image; it exports embed_text")
    );
    let functions = list_functions();
    assert_eq!(functions.len(), 1);
    assert_eq!(functions[0].name, "embed_text");
    assert!(functions[0].params_schema.contains("prompt"));
    assert!(functions[0].result_schema.contains("512"));
}

#[test]
fn rows_are_answered_in_turn_until_one_fails() {
    let rows: Vec<String> = ["a", "b", "!", "c", "?"].iter().map(|s| s.to_string()).collect();
    let each = |row: &str| {
        if row.chars().all(char::is_alphabetic) {
            Ok(row.to_uppercase())
        } else {
            Err(format!("{row} is no letter"))
        }
    };
    assert_eq!(process(&rows[..2].to_vec(), &each).ok(), Some(vec!["A".to_string(), "B".to_string()]));
    assert_eq!(process(&rows, &each).err().as_deref(), Some("! is no letter"));
    assert_eq!(finish().ok(), Some(Vec::new()));
}

#[test]
fn embed_says_what_it_is() {
    let meta = describe::embed::describe();
    assert_eq!(meta.meta.name, "embed");
    assert!(meta.meta.rows_schema.contains("vector"));
    assert!(meta.input_rows_schema.contains("text"));
    assert!(meta.meta.pixel_formats.is_empty() && meta.meta.sample_formats.is_empty());
}
