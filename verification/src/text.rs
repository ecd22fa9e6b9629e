//! Operations on text whose outcome has to be known exactly.
use vstd::prelude::*;
use vstd::string::*;
use vstd::utf8::*;

verus! {

/// How two values are ordered.
#[derive(Copy, Clone, Debug, PartialEq, Eq, Structural)]
pub enum Order {
    Less,
    Equal,
    Greater,
}

/// Lexicographic order of byte strings.
pub open spec fn lex_less(a: Seq<u8>, b: Seq<u8>) -> bool
    decreases a.len(),
{
    if b.len() == 0 {
        false
    } else if a.len() == 0 {
        true
    } else {
        a[0] < b[0] || (a[0] == b[0] && lex_less(a.drop_first(), b.drop_first()))
    }
}

pub proof fn lemma_lex_less_irreflexive(a: Seq<u8>)
    ensures
        !lex_less(a, a),
    decreases a.len(),
{
    if a.len() > 0 {
        lemma_lex_less_irreflexive(a.drop_first());
    }
}

pub proof fn lemma_lex_less_transitive(a: Seq<u8>, b: Seq<u8>, c: Seq<u8>)
    requires
        lex_less(a, b),
        lex_less(b, c),
    ensures
        lex_less(a, c),
    decreases a.len(),
{
    if a.len() > 0 && a[0] == b[0] && b[0] == c[0] {
        lemma_lex_less_transitive(a.drop_first(), b.drop_first(), c.drop_first());
    }
}

/// Strings are ordered as their encodings are.
pub open spec fn str_less(a: Seq<char>, b: Seq<char>) -> bool {
    lex_less(encode_utf8(a), encode_utf8(b))
}

proof fn lemma_encoding_is_injective(a: Seq<char>, b: Seq<char>)
    requires
        encode_utf8(a) == encode_utf8(b),
    ensures
        a == b,
{
    encode_utf8_decode_utf8(a);
    encode_utf8_decode_utf8(b);
}

/// Compares two strings lexicographically by their byte values.
pub fn order(a: &str, b: &str) -> (order: Order)
    ensures
        match order {
            Order::Less => str_less(a@, b@) && a@ != b@,
            Order::Equal => a@ == b@,
            Order::Greater => str_less(b@, a@) && a@ != b@,
        },
{
    let x = a.as_bytes();
    let y = b.as_bytes();
    let mut i: usize = 0;
    proof {
        assert(x@.skip(0) =~= x@);
        assert(y@.skip(0) =~= y@);
        lemma_lex_less_irreflexive(x@);
        lemma_lex_less_irreflexive(y@);
    }
    while i < x.len() && i < y.len() && x[i] == y[i]
        invariant
            i <= x.len(),
            i <= y.len(),
            x@.take(i as int) == y@.take(i as int),
            lex_less(x@, y@) == lex_less(x@.skip(i as int), y@.skip(i as int)),
            lex_less(y@, x@) == lex_less(y@.skip(i as int), x@.skip(i as int)),
        decreases x.len() - i,
    {
        proof {
            assert(x@.skip(i as int).drop_first() =~= x@.skip(i + 1));
            assert(y@.skip(i as int).drop_first() =~= y@.skip(i + 1));
            assert(x@.take(i + 1) =~= x@.take(i as int).push(x@[i as int]));
            assert(y@.take(i + 1) =~= y@.take(i as int).push(y@[i as int]));
        }
        i = i + 1;
    }
    if i < x.len() {
        if i < y.len() && x[i] < y[i] {
            Order::Less
        } else {
            Order::Greater
        }
    } else if i < y.len() {
        Order::Less
    } else {
        proof {
            assert(x@.take(i as int) =~= x@);
            assert(y@.take(i as int) =~= y@);
            lemma_encoding_is_injective(a@, b@);
        }
        Order::Equal
    }
}

/// Whether two strings are the same.
pub fn same(a: &str, b: &str) -> (same: bool)
    ensures
        same == (a@ == b@),
{
    match order(a, b) {
        Order::Equal => true,
        _ => false,
    }
}

/// White space: the characters with the Unicode property `White_Space`.
pub open spec fn white(c: char) -> bool {
    ||| '\u{9}' <= c <= '\u{d}'
    ||| c == '\u{20}'
    ||| c == '\u{85}'
    ||| c == '\u{a0}'
    ||| c == '\u{1680}'
    ||| '\u{2000}' <= c <= '\u{200a}'
    ||| c == '\u{2028}'
    ||| c == '\u{2029}'
    ||| c == '\u{202f}'
    ||| c == '\u{205f}'
    ||| c == '\u{3000}'
}

/// Whether the character is white space.
pub fn is_white(c: char) -> (is_white: bool)
    ensures
        is_white == white(c),
{
    ('\u{9}' <= c && c <= '\u{d}') || c == '\u{20}' || c == '\u{85}' || c == '\u{a0}' || c
        == '\u{1680}' || ('\u{2000}' <= c && c <= '\u{200a}') || c == '\u{2028}' || c
        == '\u{2029}' || c == '\u{202f}' || c == '\u{205f}' || c == '\u{3000}'
}

/// Without the white space at its start.
pub open spec fn trim_start(text: Seq<char>) -> Seq<char>
    decreases text.len(),
{
    if text.len() > 0 && white(text.first()) {
        trim_start(text.drop_first())
    } else {
        text
    }
}

/// Without the white space at its end.
pub open spec fn trim_end(text: Seq<char>) -> Seq<char>
    decreases text.len(),
{
    if text.len() > 0 && white(text.last()) {
        trim_end(text.drop_last())
    } else {
        text
    }
}

/// Removes the white space at both ends.
pub fn trim(text: &str) -> (trimmed: &str)
    ensures
        trimmed@ == trim_end(trim_start(text@)),
{
    let mut chars: Vec<char> = Vec::new();
    for c in it: text.chars()
        invariant
            it.seq() == text@,
            chars@ == text@.take(it.index()),
    {
        chars.push(c);
    }
    assert(chars@ =~= text@);
    let mut from: usize = 0;
    let mut to: usize = chars.len();
    assert(text@.skip(0) =~= text@);
    while from < to && is_white(chars[from])
        invariant
            chars@ == text@,
            from <= to == chars.len(),
            trim_start(text@) == trim_start(text@.skip(from as int)),
        decreases to - from,
    {
        assert(text@.skip(from as int).drop_first() =~= text@.skip(from + 1));
        from = from + 1;
    }
    assert(trim_start(text@) == text@.skip(from as int));
    assert(text@.skip(from as int) =~= text@.subrange(from as int, to as int));
    while from < to && is_white(chars[to - 1])
        invariant
            chars@ == text@,
            from <= to <= chars.len(),
            trim_end(trim_start(text@)) == trim_end(text@.subrange(from as int, to as int)),
        decreases to - from,
    {
        assert(text@.subrange(from as int, to as int).drop_last() =~= text@.subrange(
            from as int,
            to - 1,
        ));
        to = to - 1;
    }
    text.substring_char(from, to)
}

proof fn lemma_low_bytes(c: u32)
    by (bit_vector)
    ensures
        c <= 0x7f ==> (c & 0x7f) as u8 == c,
        (0xc0u8 | ((c >> 6) & 0x1f) as u8) >= 0x80,
        (0xe0u8 | ((c >> 12) & 0x0f) as u8) >= 0x80,
        (0xf0u8 | ((c >> 18) & 0x7) as u8) >= 0x80,
        (0x80u8 | (c & 0x3f) as u8) >= 0x80,
        (0x80u8 | ((c >> 6) & 0x3f) as u8) >= 0x80,
        (0x80u8 | ((c >> 12) & 0x3f) as u8) >= 0x80,
{
}

/// An ASCII character occurs in a text exactly where its code occurs in the encoding.
pub proof fn lemma_ascii_in_encoding(text: Seq<char>, c: char)
    requires
        c as u32 <= 0x7f,
    ensures
        encode_utf8(text).contains(c as u8) <==> text.contains(c),
    decreases text.len(),
{
    if text.len() > 0 {
        let first = text[0] as u32;
        let head = encode_scalar(first);
        let rest = text.drop_first();
        lemma_low_bytes(first);
        lemma_ascii_in_encoding(rest, c);
        assert(head.contains(c as u8) <==> text[0] == c) by {
            char_is_scalar(text[0]);
            assert(c as u8 == c as u32);
            if first <= 0x7f {
                assert(head.len() == 1);
                assert(head[0] == first);
                if head.contains(c as u8) {
                    char_u32_cast(text[0], first);
                    char_u32_cast(c, first);
                }
            } else {
                assert forall|k: int| 0 <= k < head.len() implies head[k] >= 0x80 by {}
            }
        }
        let all = encode_utf8(text);
        assert(all == head + encode_utf8(rest));
        if all.contains(c as u8) {
            let k = all.index_of(c as u8);
            if k < head.len() {
                assert(head[k] == c as u8);
                assert(text[0] == c);
            } else {
                assert(encode_utf8(rest)[k - head.len()] == c as u8);
                let j = rest.index_of(c);
                assert(text[j + 1] == c);
            }
        }
        if text.contains(c) {
            let k = text.index_of(c);
            if k == 0 {
                let j = head.index_of(c as u8);
                assert(all[j] == c as u8);
            } else {
                assert(rest[k - 1] == c);
                let j = encode_utf8(rest).index_of(c as u8);
                assert(all[head.len() + j] == c as u8);
            }
        }
    }
}

/// The encoding of a text is that of its parts.
pub proof fn lemma_encoding_of_parts(a: Seq<char>, b: Seq<char>)
    ensures
        encode_utf8(a + b) == encode_utf8(a) + encode_utf8(b),
    decreases a.len(),
{
    if a.len() == 0 {
        assert(a + b =~= b);
        assert(encode_utf8(a) + encode_utf8(b) =~= encode_utf8(b));
    } else {
        lemma_encoding_of_parts(a.drop_first(), b);
        assert((a + b).drop_first() =~= a.drop_first() + b);
        assert(encode_utf8(a + b) =~= encode_utf8(a) + encode_utf8(b));
    }
}

/// Calls `String::from_utf8`, which takes the bytes as UTF-8 and refuses them
/// if they are not valid.
#[verifier::external_body]
pub(crate) fn from_utf8(bytes: Vec<u8>) -> (text: Option<String>)
    ensures
        text is Some <==> valid_utf8(bytes@),
        text matches Some(s) ==> encode_utf8(s@) == bytes@,
{
    String::from_utf8(bytes).ok()
}

/// What order byte strings are in is decided by the first place where they differ.
/// If there is none, the shorter one comes first.
pub proof fn law_first_difference_decides(a: Seq<u8>, b: Seq<u8>, k: int)
    requires
        0 <= k <= a.len(),
        k <= b.len(),
        a.take(k) == b.take(k),
        k < a.len() && k < b.len() ==> a[k] != b[k],
    ensures
        k < a.len() && k < b.len() ==> (lex_less(a, b) <==> a[k] < b[k]),
        k == a.len() || k == b.len() ==> (lex_less(a, b) <==> a.len() < b.len()),
    decreases k,
{
    if k > 0 {
        assert(a[0] == a.take(k)[0] && b[0] == b.take(k)[0]);
        let x = a.drop_first();
        let y = b.drop_first();
        assert forall|i: int| 0 <= i < k - 1 implies x[i] == y[i] by {
            assert(x[i] == a.take(k)[i + 1] && y[i] == b.take(k)[i + 1]);
        }
        assert(x.take(k - 1) =~= y.take(k - 1));
        law_first_difference_decides(x, y, k - 1);
    }
}

proof fn lemma_trim_start(text: Seq<char>) -> (from: int)
    ensures
        0 <= from <= text.len(),
        trim_start(text) == text.skip(from),
        forall|i: int| 0 <= i < from ==> white(#[trigger] text[i]),
        from < text.len() ==> !white(text[from]),
    decreases text.len(),
{
    if text.len() > 0 && white(text.first()) {
        let rest = text.drop_first();
        let from = lemma_trim_start(rest);
        assert(rest.skip(from) =~= text.skip(from + 1));
        assert forall|i: int| 0 <= i < from + 1 implies white(#[trigger] text[i]) by {
            if i > 0 {
                assert(rest[i - 1] == text[i]);
            }
        }
        from + 1
    } else {
        assert(text.skip(0) =~= text);
        0
    }
}

proof fn lemma_trim_end(text: Seq<char>) -> (to: int)
    ensures
        0 <= to <= text.len(),
        trim_end(text) == text.take(to),
        forall|i: int| to <= i < text.len() ==> white(#[trigger] text[i]),
        to > 0 ==> !white(text[to - 1]),
    decreases text.len(),
{
    if text.len() > 0 && white(text.last()) {
        let rest = text.drop_last();
        let to = lemma_trim_end(rest);
        assert(rest.take(to) =~= text.take(to));
        assert forall|i: int| to <= i < text.len() implies white(#[trigger] text[i]) by {
            if i < rest.len() {
                assert(rest[i] == text[i]);
            }
        }
        to
    } else {
        assert(text.take(text.len() as int) =~= text);
        text.len() as int
    }
}

/// Trimming takes away white space and nothing else, and all of it: if what is
/// before and after `inner` is white space, and `inner` neither starts nor ends with
/// any, then `inner` is what is left.
pub proof fn law_trim_takes_away_the_white_space(
    before: Seq<char>,
    inner: Seq<char>,
    after: Seq<char>,
)
    requires
        forall|i: int| 0 <= i < before.len() ==> white(#[trigger] before[i]),
        forall|i: int| 0 <= i < after.len() ==> white(#[trigger] after[i]),
        inner.len() > 0 ==> !white(inner.first()) && !white(inner.last()),
    ensures
        trim_end(trim_start(before + inner + after)) == inner,
{
    let text = before + inner + after;
    let from = lemma_trim_start(text);
    let rest = text.skip(from);
    let to = lemma_trim_end(rest);
    let b = before.len() as int;
    let n = inner.len() as int;
    if n > 0 {
        assert(text[b] == inner[0]);
        assert(from == b) by {
            if from < b {
                assert(text[from] == before[from]);
            }
            if from > b {
                assert(white(text[b]));
            }
        }
        assert(rest[n - 1] == inner[n - 1]);
        assert(to == n) by {
            if to < n {
                assert(white(rest[n - 1]));
            }
            if to > n {
                assert(rest[to - 1] == after[to - 1 - n]);
            }
        }
        assert(rest.take(to) =~= inner);
    } else {
        assert forall|i: int| 0 <= i < text.len() implies white(#[trigger] text[i]) by {
            if i < b {
                assert(text[i] == before[i]);
            } else {
                assert(text[i] == after[i - b]);
            }
        }
        assert(from == text.len());
        assert(rest.take(to) =~= inner);
    }
}

/// Strings are ordered as their encodings are, and two different strings are ordered
/// one way or the other, not both.
pub proof fn law_strings_are_ordered_by_their_bytes(a: Seq<char>, b: Seq<char>)
    ensures
        str_less(a, b) <==> lex_less(encode_utf8(a), encode_utf8(b)),
        str_less(a, b) ==> !str_less(b, a),
        a != b ==> str_less(a, b) || str_less(b, a),
        !str_less(a, a),
{
    let x = encode_utf8(a);
    let y = encode_utf8(b);
    lemma_lex_less_irreflexive(x);
    if lex_less(x, y) && lex_less(y, x) {
        lemma_lex_less_transitive(x, y, x);
    }
    if a != b {
        if x == y {
            lemma_encoding_is_injective(a, b);
        }
        lemma_lex_less_total(x, y);
    }
}

proof fn lemma_lex_less_total(a: Seq<u8>, b: Seq<u8>)
    requires
        a != b,
    ensures
        lex_less(a, b) || lex_less(b, a),
    decreases a.len(),
{
    if a.len() > 0 && b.len() > 0 {
        if a[0] == b[0] {
            if a.drop_first() == b.drop_first() {
                assert(a =~= seq![a[0]] + a.drop_first());
                assert(b =~= seq![b[0]] + b.drop_first());
            }
            lemma_lex_less_total(a.drop_first(), b.drop_first());
        }
    } else if a.len() == b.len() {
        assert(a =~= b);
    }
}

} // verus!
