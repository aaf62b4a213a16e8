//! The little text handling the describers need: trimming, decimal numbers,
//! quoted names and the order labels are compared in.

use vstd::prelude::*;
use vstd::relations::{sorted_by, total_ordering};

verus! {

/// Unicode's `White_Space` property.
pub open spec fn is_white(c: char) -> bool {
    let code = c as u32;
    ||| 0x9 <= code <= 0xd
    ||| code == 0x20
    ||| code == 0x85
    ||| code == 0xa0
    ||| code == 0x1680
    ||| 0x2000 <= code <= 0x200a
    ||| code == 0x2028
    ||| code == 0x2029
    ||| code == 0x202f
    ||| code == 0x205f
    ||| code == 0x3000
}

fn white(c: char) -> (is: bool)
    ensures
        is == is_white(c),
{
    let code: u32 = c as u32;
    (0x9 <= code && code <= 0xd) || code == 0x20 || code == 0x85 || code == 0xa0 || code == 0x1680
        || (0x2000 <= code && code <= 0x200a) || code == 0x2028 || code == 0x2029 || code == 0x202f
        || code == 0x205f || code == 0x3000
}

/// The text without the white space at its two ends.
pub open spec fn trimmed(s: Seq<char>) -> Seq<char>
    decreases s.len(),
{
    if s.len() == 0 {
        s
    } else if is_white(s.first()) {
        trimmed(s.drop_first())
    } else if is_white(s.last()) {
        trimmed(s.drop_last())
    } else {
        s
    }
}

/// The text without the white space at its two ends.
pub fn trim<'a>(s: &'a str) -> (r: &'a str)
    ensures
        r@ == trimmed(s@),
{
    let len: usize = s.unicode_len();
    let mut from: usize = 0;
    assert(s@.subrange(0, len as int) =~= s@);
    while from < len && white(s.get_char(from))
        invariant
            from <= len,
            len == s@.len(),
            trimmed(s@.subrange(from as int, len as int)) == trimmed(s@),
        decreases len - from,
    {
        assert(s@.subrange(from as int, len as int).drop_first() =~= s@.subrange(
            from + 1,
            len as int,
        ));
        from = from + 1;
    }
    let mut to: usize = len;
    while from < to && white(s.get_char(to - 1))
        invariant
            from <= to <= len,
            len == s@.len(),
            from < to ==> !is_white(s@[from as int]),
            trimmed(s@.subrange(from as int, to as int)) == trimmed(s@),
        decreases to - from,
    {
        assert(s@.subrange(from as int, to as int).drop_last() =~= s@.subrange(
            from as int,
            to - 1,
        ));
        to = to - 1;
    }
    s.substring_char(from, to)
}

/// Whether two texts are the same.
pub fn same(a: &str, b: &str) -> (r: bool)
    ensures
        r == (a@ == b@),
{
    String::from_str(a) == String::from_str(b)
}

/// A digit's character.
pub open spec fn digit(d: nat) -> char {
    (('0' as u32 + d) as u32) as char
}

/// A number written in decimal.
pub open spec fn decimal_of(n: nat) -> Seq<char>
    decreases n,
{
    if n < 10 {
        seq![digit(n)]
    } else {
        decimal_of(n / 10).push(digit(n % 10))
    }
}

fn digit_text(d: u64) -> (s: &'static str)
    requires
        d < 10,
    ensures
        s@ == seq![digit(d as nat)],
{
    proof {
        reveal_strlit("0");
        reveal_strlit("1");
        reveal_strlit("2");
        reveal_strlit("3");
        reveal_strlit("4");
        reveal_strlit("5");
        reveal_strlit("6");
        reveal_strlit("7");
        reveal_strlit("8");
        reveal_strlit("9");
    }
    let s: &'static str = if d == 0 {
        "0"
    } else if d == 1 {
        "1"
    } else if d == 2 {
        "2"
    } else if d == 3 {
        "3"
    } else if d == 4 {
        "4"
    } else if d == 5 {
        "5"
    } else if d == 6 {
        "6"
    } else if d == 7 {
        "7"
    } else if d == 8 {
        "8"
    } else {
        "9"
    };
    assert(s@ =~= seq![digit(d as nat)]);
    s
}

/// A number written in decimal.
pub fn decimal(n: u64) -> (s: String)
    ensures
        s@ == decimal_of(n as nat),
    decreases n,
{
    if n < 10 {
        String::from_str(digit_text(n))
    } else {
        let mut s = decimal(n / 10);
        s.append(digit_text(n % 10));
        assert(s@ =~= decimal_of(n as nat));
        s
    }
}

/// How a text reads between quotes, with what needs escaping escaped.
pub uninterp spec fn quoted_of(s: Seq<char>) -> Seq<char>;

/// A text as `str`'s `Debug` writes it: between double quotes, with what
/// needs escaping escaped. The contract only names what comes out, a text
/// that the argument alone decides.
#[verifier::external_body]
pub(crate) fn quoted(s: &str) -> (r: String)
    ensures
        r@ == quoted_of(s@),
{
    format!("{s:?}")
}

/// Quoted names with a comma and a space between them.
pub open spec fn joined_of(names: Seq<Seq<char>>) -> Seq<char>
    decreases names.len(),
{
    if names.len() == 0 {
        Seq::empty()
    } else if names.len() == 1 {
        quoted_of(names[0])
    } else {
        joined_of(names.drop_last()) + ", "@ + quoted_of(names.last())
    }
}

/// A list of names, quoted, between square brackets.
pub open spec fn listed_of(names: Seq<Seq<char>>) -> Seq<char> {
    "["@ + joined_of(names) + "]"@
}

/// The first parts of named values, as views.
pub open spec fn names_of<V>(named: Seq<(String, V)>) -> Seq<Seq<char>> {
    Seq::new(named.len(), |i: int| named[i].0@)
}

/// The names of `named`, quoted, between square brackets.
pub fn listed<V>(named: &Vec<(String, V)>) -> (s: String)
    ensures
        s@ == listed_of(names_of(named@)),
{
    let mut s = String::from_str("[");
    let ghost names = names_of(named@);
    let mut i: usize = 0;
    assert(s@ + Seq::<char>::empty() =~= "["@);
    while i < named.len()
        invariant
            i <= named@.len(),
            names == names_of(named@),
            s@ == "["@ + joined_of(names.take(i as int)),
        decreases named@.len() - i,
    {
        if i > 0 {
            s.append(", ");
        }
        let name = quoted(named[i].0.as_str());
        s.append(name.as_str());
        i = i + 1;
        proof {
            let now = names.take(i as int);
            assert(now.drop_last() =~= names.take(i - 1));
            assert(now.last() == named@[i - 1].0@);
            assert(s@ =~= "["@ + joined_of(now));
        }
    }
    assert(names.take(i as int) =~= names);
    s.append("]");
    s
}

/// Whether one text does not come after another, character by character.
pub open spec fn not_after(a: Seq<char>, b: Seq<char>) -> bool
    decreases a.len(),
{
    if a.len() == 0 {
        true
    } else if b.len() == 0 {
        false
    } else if a[0] == b[0] {
        not_after(a.drop_first(), b.drop_first())
    } else {
        (a[0] as int) < (b[0] as int)
    }
}

/// Texts, as views.
pub open spec fn texts_of(texts: Seq<String>) -> Seq<Seq<char>> {
    Seq::new(texts.len(), |i: int| texts[i]@)
}

/// Borrowed texts, as views.
pub open spec fn views_of(texts: Seq<&str>) -> Seq<Seq<char>> {
    Seq::new(texts.len(), |i: int| texts[i]@)
}

/// Whether `set` holds the texts of `names`, as often as they occur there, in
/// order.
pub open spec fn arranges(names: Seq<Seq<char>>, set: Seq<Seq<char>>) -> bool {
    &&& sorted_by(set, |a: Seq<char>, b: Seq<char>| not_after(a, b))
    &&& set.to_multiset() == names.to_multiset()
}

proof fn lemma_same_or_apart(a: Seq<char>, b: Seq<char>)
    ensures
        not_after(a, a),
        not_after(a, b) || not_after(b, a),
        not_after(a, b) && not_after(b, a) ==> a == b,
    decreases a.len(),
{
    if a.len() > 0 {
        lemma_same_or_apart(a.drop_first(), a.drop_first());
        if b.len() > 0 {
            lemma_same_or_apart(a.drop_first(), b.drop_first());
            if a[0] == b[0] && a.drop_first() == b.drop_first() {
                assert(a =~= seq![a[0]] + a.drop_first());
                assert(b =~= seq![b[0]] + b.drop_first());
            }
        }
    } else if b.len() == 0 {
        assert(a =~= b);
    }
}

proof fn lemma_in_turn(a: Seq<char>, b: Seq<char>, c: Seq<char>)
    requires
        not_after(a, b),
        not_after(b, c),
    ensures
        not_after(a, c),
    decreases a.len(),
{
    if a.len() > 0 && b.len() > 0 && c.len() > 0 && a[0] == b[0] && b[0] == c[0] {
        lemma_in_turn(a.drop_first(), b.drop_first(), c.drop_first());
    }
}

/// Any two texts are in order one way or the other, and both ways only when
/// they are the same.
pub proof fn law_texts_are_totally_ordered()
    ensures
        total_ordering(|a: Seq<char>, b: Seq<char>| not_after(a, b)),
{
    let leq = |a: Seq<char>, b: Seq<char>| not_after(a, b);
    assert forall|a: Seq<char>| #[trigger] leq(a, a) by {
        lemma_same_or_apart(a, a);
    }
    assert forall|a: Seq<char>, b: Seq<char>| #[trigger] leq(a, b) && #[trigger] leq(b, a) implies a
        == b by {
        lemma_same_or_apart(a, b);
    }
    assert forall|a: Seq<char>, b: Seq<char>, c: Seq<char>| #[trigger]
        leq(a, b) && #[trigger] leq(b, c) implies leq(a, c) by {
        lemma_in_turn(a, b, c);
    }
    assert forall|a: Seq<char>, b: Seq<char>| #[trigger] leq(a, b) || #[trigger] leq(b, a) by {
        lemma_same_or_apart(a, b);
    }
}

/// There is one way to arrange a list of texts, whatever order they came in.
pub proof fn law_an_arrangement_is_determined(
    names: Seq<Seq<char>>,
    others: Seq<Seq<char>>,
    set: Seq<Seq<char>>,
    other: Seq<Seq<char>>,
)
    requires
        arranges(names, set),
        arranges(others, other),
    ensures
        names.to_multiset() == others.to_multiset() <==> set == other,
{
    law_texts_are_totally_ordered();
    if names.to_multiset() == others.to_multiset() {
        vstd::seq_lib::lemma_sorted_unique(
            set,
            other,
            |a: Seq<char>, b: Seq<char>| not_after(a, b),
        );
    }
}

/// Whether one text does not come after another.
fn in_order(a: &str, b: &str) -> (r: bool)
    ensures
        r == not_after(a@, b@),
{
    let (a_len, b_len): (usize, usize) = (a.unicode_len(), b.unicode_len());
    let mut i: usize = 0;
    assert(a@.skip(0) =~= a@);
    assert(b@.skip(0) =~= b@);
    while i < a_len && i < b_len
        invariant
            i <= a_len,
            i <= b_len,
            a_len == a@.len(),
            b_len == b@.len(),
            not_after(a@.skip(i as int), b@.skip(i as int)) == not_after(a@, b@),
        decreases a_len - i,
    {
        assert(a@.skip(i as int).drop_first() =~= a@.skip(i + 1));
        assert(b@.skip(i as int).drop_first() =~= b@.skip(i + 1));
        let (x, y) = (a.get_char(i), b.get_char(i));
        if x != y {
            return (x as u32) < (y as u32);
        }
        i = i + 1;
    }
    i == a_len
}

proof fn lemma_inserted_texts(set: Seq<Seq<char>>, at: int, text: Seq<char>)
    requires
        0 <= at <= set.len(),
        sorted_by(set, |a: Seq<char>, b: Seq<char>| not_after(a, b)),
        forall|k: int| 0 <= k < at ==> not_after(#[trigger] set[k], text),
        at < set.len() ==> not_after(text, set[at]),
    ensures
        sorted_by(set.insert(at, text), |a: Seq<char>, b: Seq<char>| not_after(a, b)),
        set.insert(at, text).to_multiset() == set.to_multiset().insert(text),
{
    let leq = |a: Seq<char>, b: Seq<char>| not_after(a, b);
    let full = set.insert(at, text);
    assert forall|i: int, j: int| 0 <= i < j < full.len() implies leq(full[i], full[j]) by {
        if j < at {
            assert(leq(set[i], set[j]));
        } else if j == at {
        } else if i < at {
            assert(leq(set[i], set[j - 1]));
        } else if i > at {
            assert(leq(set[i - 1], set[j - 1]));
        } else if j - 1 > at {
            assert(leq(set[at], set[j - 1]));
            lemma_in_turn(text, set[at], set[j - 1]);
        }
    }
    assert(full.remove(at) =~= set);
    assert(full[at] == text);
    vstd::seq_lib::to_multiset_remove(full, at);
    vstd::seq_lib::to_multiset_contains(full, text);
    assert(full.contains(text));
    broadcast use vstd::multiset::group_multiset_axioms;

    assert(full.to_multiset() =~= set.to_multiset().insert(text));
}

/// The texts of `names` in order.
pub fn sorted(names: &[&str]) -> (set: Vec<String>)
    ensures
        arranges(views_of(names@), texts_of(set@)),
{
    let mut set: Vec<String> = Vec::new();
    let mut n: usize = 0;
    let ghost mut held: Seq<Seq<char>> = Seq::empty();
    assert(views_of(names@).take(0) =~= held);
    while n < names.len()
        invariant
            n <= names@.len(),
            held == texts_of(set@),
            arranges(views_of(names@).take(n as int), held),
        decreases names@.len() - n,
    {
        let text = names[n];
        let mut at: usize = 0;
        while at < set.len() && in_order(set[at].as_str(), text)
            invariant
                at <= set@.len(),
                held == texts_of(set@),
                forall|k: int| 0 <= k < at ==> not_after(#[trigger] held[k], text@),
            decreases set@.len() - at,
        {
            assert(held[at as int] == set@[at as int]@);
            at = at + 1;
        }
        let ghost was = held;
        proof {
            if at < set@.len() {
                lemma_same_or_apart(held[at as int], text@);
            }
            lemma_inserted_texts(held, at as int, text@);
        }
        set.insert(at, String::from_str(text));
        proof {
            held = was.insert(at as int, text@);
            assert(held =~= texts_of(set@));
            let taken = views_of(names@).take(n as int);
            assert(views_of(names@).take(n + 1) =~= taken.push(text@));
            vstd::seq_lib::to_multiset_build(taken, text@);
        }
        n = n + 1;
    }
    assert(views_of(names@).take(n as int) =~= views_of(names@));
    set
}

/// The characters that count as white space are these twenty-five and no
/// others.
pub proof fn law_white_space_is_these_characters(c: char)
    ensures
        is_white(c) <==> seq![
            9int,
            10,
            11,
            12,
            13,
            32,
            133,
            160,
            5760,
            8192,
            8193,
            8194,
            8195,
            8196,
            8197,
            8198,
            8199,
            8200,
            8201,
            8202,
            8232,
            8233,
            8239,
            8287,
            12288,
        ].contains(c as int),
{
    let code = c as int;
    let white = seq![
        9int,
        10,
        11,
        12,
        13,
        32,
        133,
        160,
        5760,
        8192,
        8193,
        8194,
        8195,
        8196,
        8197,
        8198,
        8199,
        8200,
        8201,
        8202,
        8232,
        8233,
        8239,
        8287,
        12288,
    ];
    if is_white(c) {
        if 9 <= code <= 13 {
            assert(white[code - 9] == code);
        } else if 8192 <= code <= 8202 {
            assert(white[code - 8183] == code);
        } else if code == 32 {
            assert(white[5] == code);
        } else if code == 133 {
            assert(white[6] == code);
        } else if code == 160 {
            assert(white[7] == code);
        } else if code == 5760 {
            assert(white[8] == code);
        } else if code == 8232 {
            assert(white[20] == code);
        } else if code == 8233 {
            assert(white[21] == code);
        } else if code == 8239 {
            assert(white[22] == code);
        } else if code == 8287 {
            assert(white[23] == code);
        } else {
            assert(white[24] == code);
        }
    }
}

/// Trimming takes white space off the two ends and nothing else: a text is
/// some white space, what is left of it, and some more white space, and what
/// is left neither begins nor ends with any.
pub proof fn law_trimming_takes_the_ends_alone(s: Seq<char>) -> (from: int)
    ensures
        0 <= from,
        from + trimmed(s).len() <= s.len(),
        trimmed(s) == s.subrange(from, from + trimmed(s).len()),
        forall|i: int| 0 <= i < from ==> is_white(#[trigger] s[i]),
        forall|i: int| from + trimmed(s).len() <= i < s.len() ==> is_white(#[trigger] s[i]),
        trimmed(s).len() > 0 ==> !is_white(trimmed(s).first()) && !is_white(trimmed(s).last()),
    decreases s.len(),
{
    if s.len() == 0 {
        assert(trimmed(s) =~= s.subrange(0, 0));
        0
    } else if is_white(s.first()) {
        let rest = s.drop_first();
        let from = law_trimming_takes_the_ends_alone(rest);
        assert forall|i: int| 0 <= i < from + 1 implies is_white(#[trigger] s[i]) by {
            if i > 0 {
                assert(rest[i - 1] == s[i]);
            }
        }
        assert forall|i: int| from + 1 + trimmed(s).len() <= i < s.len() implies is_white(
            #[trigger] s[i],
        ) by {
            assert(rest[i - 1] == s[i]);
        }
        assert(trimmed(s) =~= s.subrange(from + 1, from + 1 + trimmed(s).len()));
        from + 1
    } else if is_white(s.last()) {
        let rest = s.drop_last();
        let from = law_trimming_takes_the_ends_alone(rest);
        assert forall|i: int| 0 <= i < from implies is_white(#[trigger] s[i]) by {
            assert(rest[i] == s[i]);
        }
        assert forall|i: int| from + trimmed(s).len() <= i < s.len() implies is_white(
            #[trigger] s[i],
        ) by {
            if i < s.len() - 1 {
                assert(rest[i] == s[i]);
            }
        }
        assert(trimmed(s) =~= s.subrange(from, from + trimmed(s).len()));
        from
    } else {
        assert(s =~= s.subrange(0, s.len() as int));
        0
    }
}

/// The number that decimal digits stand for.
pub open spec fn number_of(digits: Seq<char>) -> int
    decreases digits.len(),
{
    if digits.len() == 0 {
        0
    } else {
        10 * number_of(digits.drop_last()) + (digits.last() as int - 48)
    }
}

/// A number is written in digits that stand for it, with no zero in front.
pub proof fn law_a_number_is_written_in_its_digits(n: nat)
    ensures
        number_of(decimal_of(n)) == n,
        decimal_of(n).len() > 0,
        forall|i: int| 0 <= i < decimal_of(n).len() ==> 48 <= #[trigger] decimal_of(n)[i] as int <= 57,
        n > 0 ==> decimal_of(n)[0] as int > 48,
        n == 0 ==> decimal_of(n).len() == 1,
    decreases n,
{
    let s = decimal_of(n);
    if n < 10 {
        assert(s.drop_last() =~= Seq::empty());
        assert(number_of(Seq::empty()) == 0);
        assert(s.last() as int == 48 + n);
    } else {
        let front = decimal_of(n / 10);
        law_a_number_is_written_in_its_digits(n / 10);
        assert(s.drop_last() =~= front);
        assert(s.last() as int == 48 + n % 10);
        assert forall|i: int| 0 <= i < s.len() implies 48 <= #[trigger] s[i] as int <= 57 by {
            if i < front.len() {
                assert(s[i] == front[i]);
            }
        }
        assert(s[0] == front[0]);
    }
}

/// A list reads as its names, quoted, in turn, with a comma and a space
/// between any two, between square brackets.
pub proof fn law_a_list_reads_as_its_names(names: Seq<Seq<char>>, name: Seq<char>)
    ensures
        listed_of(Seq::empty()) == "[]"@,
        listed_of(seq![name]) == "["@ + quoted_of(name) + "]"@,
        names.len() > 0 ==> joined_of(names.push(name)) == joined_of(names) + ", "@ + quoted_of(name),
        listed_of(names) == "["@ + joined_of(names) + "]"@,
{
    reveal_strlit("[");
    reveal_strlit("]");
    reveal_strlit("[]");
    assert(listed_of(Seq::empty()) =~= "[]"@);
    assert(names.push(name).drop_last() =~= names);
}

/// Texts are in order by their first difference: of two that agree up to some
/// place and differ there, the one with the lower character comes first, and a
/// text comes before any that goes on where it ends.
pub proof fn law_texts_order_by_their_first_difference(a: Seq<char>, b: Seq<char>, at: int)
    requires
        0 <= at <= a.len(),
        at <= b.len(),
        forall|i: int| 0 <= i < at ==> a[i] == b[i],
    ensures
        at < a.len() && at < b.len() && a[at] != b[at] ==> (not_after(a, b) <==> (a[at] as int) < (
        b[at] as int)),
        at == a.len() ==> not_after(a, b),
        at == b.len() < a.len() ==> !not_after(a, b),
    decreases at,
{
    if at > 0 {
        assert(a[0] == b[0]);
        let (c, d) = (a.drop_first(), b.drop_first());
        assert forall|i: int| 0 <= i < at - 1 implies c[i] == d[i] by {
            assert(a[i + 1] == b[i + 1]);
        }
        law_texts_order_by_their_first_difference(c, d, at - 1);
    }
}

/// An arrangement holds as many texts as it was made of, each as often, and no
/// text before one it comes after.
pub proof fn law_an_arrangement_is_in_order(names: Seq<Seq<char>>, set: Seq<Seq<char>>)
    requires
        arranges(names, set),
    ensures
        set.len() == names.len(),
        forall|text: Seq<char>| #[trigger] set.to_multiset().count(text)
            == names.to_multiset().count(text),
        forall|i: int, j: int|
            0 <= i < j < set.len() ==> not_after(#[trigger] set[i], #[trigger] set[j]),
{
    set.to_multiset_ensures();
    names.to_multiset_ensures();
    let leq = |a: Seq<char>, b: Seq<char>| not_after(a, b);
    assert forall|i: int, j: int| 0 <= i < j < set.len() implies not_after(
        #[trigger] set[i],
        #[trigger] set[j],
    ) by {
        assert(leq(set[i], set[j]));
    }
}

} // verus!
