//! The little-endian bytes a tensor travels in. A float is carried as its
//! 32-bit pattern: nothing here looks at what it stands for.

use vstd::prelude::*;

verus! {

/// The four bytes of a word, lowest first.
pub open spec fn word_byte(word: u32, k: int) -> u8 {
    if k == 0 {
        (word % 0x100) as u8
    } else if k == 1 {
        (word / 0x100 % 0x100) as u8
    } else if k == 2 {
        (word / 0x1_0000 % 0x100) as u8
    } else {
        (word / 0x100_0000) as u8
    }
}

/// The word four bytes spell, lowest first.
pub open spec fn word_at(data: Seq<u8>, at: int) -> u32 {
    (data[at] + 0x100 * data[at + 1] + 0x1_0000 * data[at + 2] + 0x100_0000 * data[at + 3]) as u32
}

/// The whole words of a run of bytes; what is left over at the end is
/// dropped.
pub open spec fn words_of(data: Seq<u8>) -> Seq<u32> {
    Seq::new(data.len() / 4, |i: int| word_at(data, 4 * i))
}

/// The bytes of a run of words.
pub open spec fn bytes_of(words: Seq<u32>) -> Seq<u8> {
    Seq::new(4 * words.len(), |i: int| word_byte(words[i / 4], i % 4))
}

/// The bytes of a run of 64-bit integers, each as its two's complement
/// pattern.
pub open spec fn long_bytes_of(values: Seq<i64>) -> Seq<u8> {
    Seq::new(
        8 * values.len(),
        |i: int|
            if i % 8 < 4 {
                word_byte(((values[i / 8] as u64) % 0x1_0000_0000) as u32, i % 8)
            } else {
                word_byte(((values[i / 8] as u64) / 0x1_0000_0000) as u32, i % 8 - 4)
            },
    )
}

/// A tensor's floats, out of the little-endian bytes it arrived as.
pub fn le_f32s(data: &[u8]) -> (words: Vec<u32>)
    ensures
        words@ == words_of(data@),
{
    let len: usize = data.len();
    let count: usize = len / 4;
    let mut words: Vec<u32> = Vec::new();
    let mut i: usize = 0;
    while i < count
        invariant
            i <= count,
            count == len / 4,
            len == data@.len(),
            words@ == words_of(data@).take(i as int),
        decreases count - i,
    {
        let (a, b, c, d) = (data[4 * i], data[4 * i + 1], data[4 * i + 2], data[4 * i + 3]);
        let word: u32 = (a as u32) + 0x100 * (b as u32) + 0x1_0000 * (c as u32) + 0x100_0000 * (
        d as u32);
        words.push(word);
        i = i + 1;
        assert(words@ =~= words_of(data@).take(i as int));
    }
    assert(words_of(data@).take(i as int) =~= words_of(data@));
    words
}

fn push_word(bytes: &mut Vec<u8>, word: u32)
    ensures
        final(bytes)@ == old(bytes)@ + Seq::new(4, |k: int| word_byte(word, k)),
{
    bytes.push((word % 0x100) as u8);
    bytes.push((word / 0x100 % 0x100) as u8);
    bytes.push((word / 0x1_0000 % 0x100) as u8);
    bytes.push((word / 0x100_0000) as u8);
    assert(bytes@ =~= old(bytes)@ + Seq::new(4, |k: int| word_byte(word, k)));
}

/// The floats as the little-endian bytes a tensor travels in.
pub fn le_bytes(words: &[u32]) -> (bytes: Vec<u8>)
    ensures
        bytes@ == bytes_of(words@),
{
    let mut bytes: Vec<u8> = Vec::new();
    let mut i: usize = 0;
    while i < words.len()
        invariant
            i <= words@.len(),
            bytes@ == bytes_of(words@.take(i as int)),
        decreases words@.len() - i,
    {
        push_word(&mut bytes, words[i]);
        i = i + 1;
        assert(bytes@ =~= bytes_of(words@.take(i as int)));
    }
    assert(words@.take(i as int) =~= words@);
    bytes
}

/// 64-bit integers as the little-endian bytes a tensor travels in.
pub fn le_longs(values: &[i64]) -> (bytes: Vec<u8>)
    ensures
        bytes@ == long_bytes_of(values@),
{
    let mut bytes: Vec<u8> = Vec::new();
    let mut i: usize = 0;
    while i < values.len()
        invariant
            i <= values@.len(),
            bytes@ == long_bytes_of(values@.take(i as int)),
        decreases values@.len() - i,
    {
        let pattern: u64 = values[i] as u64;
        push_word(&mut bytes, (pattern % 0x1_0000_0000) as u32);
        push_word(&mut bytes, (pattern / 0x1_0000_0000) as u32);
        i = i + 1;
        assert(bytes@ =~= long_bytes_of(values@.take(i as int)));
    }
    assert(values@.take(i as int) =~= values@);
    bytes
}

proof fn lemma_word_round_trip(word: u32, data: Seq<u8>, at: int)
    requires
        0 <= at,
        at + 4 <= data.len(),
        forall|k: int| 0 <= k < 4 ==> data[at + k] == #[trigger] word_byte(word, k),
    ensures
        word_at(data, at) == word,
{
    assert(data[at + 0] == word_byte(word, 0));
    assert(data[at + 1] == word_byte(word, 1));
    assert(data[at + 2] == word_byte(word, 2));
    assert(data[at + 3] == word_byte(word, 3));
    assert(word % 0x100 + 0x100 * (word / 0x100 % 0x100) + 0x1_0000 * (word / 0x1_0000 % 0x100)
        + 0x100_0000 * (word / 0x100_0000) == word && word / 0x100_0000 < 0x100) by (bit_vector);
}

proof fn lemma_bytes_of_word(a: u8, b: u8, c: u8, d: u8)
    ensures
        ({
            let word = (a + 0x100 * b + 0x1_0000 * c + 0x100_0000 * d) as u32;
            &&& word_byte(word, 0) == a
            &&& word_byte(word, 1) == b
            &&& word_byte(word, 2) == c
            &&& word_byte(word, 3) == d
        }),
{
    let word = (a + 0x100 * b + 0x1_0000 * c + 0x100_0000 * d) as u32;
    assert(word / 0x100_0000 == d);
    assert(word / 0x1_0000 == c + 0x100 * d);
    assert(word / 0x100 == b + 0x100 * c + 0x1_0000 * d);
}

/// Floats survive the round trip through a tensor's bytes.
pub proof fn law_words_survive_their_bytes(words: Seq<u32>)
    ensures
        words_of(bytes_of(words)) == words,
{
    let data = bytes_of(words);
    assert forall|i: int| 0 <= i < words.len() implies words_of(data)[i] == words[i] by {
        assert forall|k: int| 0 <= k < 4 implies data[4 * i + k] == #[trigger] word_byte(
            words[i],
            k,
        ) by {
            assert((4 * i + k) / 4 == i && (4 * i + k) % 4 == k);
        }
        lemma_word_round_trip(words[i], data, 4 * i);
    }
    assert(words_of(data) =~= words);
}

/// The whole words of a run of bytes give those bytes back, all but the one
/// to three that fill no word.
pub proof fn law_bytes_survive_their_words(data: Seq<u8>)
    ensures
        bytes_of(words_of(data)) == data.take(4 * (data.len() as int / 4)),
{
    let back = bytes_of(words_of(data));
    assert forall|i: int| 0 <= i < back.len() implies back[i] == data[i] by {
        let at = 4 * (i / 4);
        assert(words_of(data)[i / 4] == word_at(data, at));
        assert(i == at + i % 4);
        lemma_bytes_of_word(data[at], data[at + 1], data[at + 2], data[at + 3]);
    }
    assert(back =~= data.take(4 * (data.len() as int / 4)));
}

/// Four bytes spell their word lowest first: the second counts two hundred and
/// fifty-six times the first, and so on. What fills no word is not read.
pub proof fn law_bytes_spell_lowest_first(data: Seq<u8>, i: int)
    requires
        0 <= i < data.len() / 4,
    ensures
        words_of(data).len() == data.len() / 4,
        words_of(data)[i] == data[4 * i] + 256 * data[4 * i + 1] + 65_536 * data[4 * i + 2]
            + 16_777_216 * data[4 * i + 3],
{
}

/// A word is written as the four bytes that spell it, lowest first.
pub proof fn law_words_are_written_lowest_first(words: Seq<u32>, i: int)
    requires
        0 <= i < words.len(),
    ensures
        bytes_of(words).len() == 4 * words.len(),
        words[i] == bytes_of(words)[4 * i] + 256 * bytes_of(words)[4 * i + 1] + 65_536 * bytes_of(
            words,
        )[4 * i + 2] + 16_777_216 * bytes_of(words)[4 * i + 3],
{
    law_words_survive_their_bytes(words);
    law_bytes_spell_lowest_first(bytes_of(words), i);
}

/// A 64-bit integer is written as eight bytes, lowest first; one below zero as
/// what it comes to above `2^64`.
pub proof fn law_longs_are_written_lowest_first(values: Seq<i64>, i: int)
    requires
        0 <= i < values.len(),
    ensures
        long_bytes_of(values).len() == 8 * values.len(),
        ({
            let b = long_bytes_of(values);
            let written = b[8 * i] + 0x100 * b[8 * i + 1] + 0x1_0000 * b[8 * i + 2] + 0x100_0000
                * b[8 * i + 3] + 0x1_0000_0000 * b[8 * i + 4] + 0x100_0000_0000 * b[8 * i + 5]
                + 0x1_0000_0000_0000 * b[8 * i + 6] + 0x100_0000_0000_0000 * b[8 * i + 7];
            written == if values[i] >= 0 {
                values[i] as int
            } else {
                values[i] + 0x1_0000_0000_0000_0000
            }
        }),
{
    let b = long_bytes_of(values);
    let pattern = values[i] as u64;
    let low = (pattern % 0x1_0000_0000) as u32;
    let high = (pattern / 0x1_0000_0000) as u32;
    assert forall|k: int| 0 <= k < 4 implies b[8 * i + k] == #[trigger] word_byte(low, k) by {
        assert((8 * i + k) / 8 == i && (8 * i + k) % 8 == k);
    }
    assert forall|k: int| 0 <= k < 4 implies b[8 * i + 4 + k] == #[trigger] word_byte(high, k) by {
        assert((8 * i + 4 + k) / 8 == i && (8 * i + 4 + k) % 8 == 4 + k);
    }
    lemma_word_round_trip(low, b, 8 * i);
    lemma_word_round_trip(high, b, 8 * i + 4);
    let v = values[i];
    assert(v >= 0 ==> v as u64 == v) by (bit_vector);
    assert(v < 0 ==> v as u64 == v + 0x1_0000_0000_0000_0000) by (bit_vector);
}

} // verus!
