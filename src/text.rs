//! UTF-8 lengths of character sequences, the facts about them that the
//! cursor relies on, and the calls into rowan that measure text.
use rowan::TextUnit;
use vstd::prelude::*;
use vstd::utf8::*;

verus! {

broadcast use vstd::utf8::group_utf8_lib;

/// Number of bytes in the UTF-8 encoding of `c`.
pub open spec fn char_width(c: char) -> nat {
    if c as u32 <= 0x7f {
        1
    } else if c as u32 <= 0x7ff {
        2
    } else if c as u32 <= 0xffff {
        3
    } else {
        4
    }
}

/// Number of bytes in the UTF-8 encoding of `s`.
pub open spec fn utf8_len(s: Seq<char>) -> nat {
    encode_utf8(s).len()
}

/// True when `n` bytes of the encoding of `s` end exactly after a whole character.
pub open spec fn on_boundary(s: Seq<char>, n: nat) -> bool {
    exists|k: int| 0 <= k <= s.len() && #[trigger] utf8_len(s.take(k)) == n
}

/// True when `p` is a prefix of `s`.
pub open spec fn starts_with(s: Seq<char>, p: Seq<char>) -> bool {
    p.len() <= s.len() && s.take(p.len() as int) == p
}

pub proof fn lemma_encode_scalar_width(c: char)
    ensures
        encode_scalar(c as u32).len() == char_width(c),
{
    char_is_scalar(c);
}

pub proof fn lemma_encode_concat(a: Seq<char>, b: Seq<char>)
    ensures
        encode_utf8(a + b) == encode_utf8(a) + encode_utf8(b),
    decreases a.len(),
{
    if a.len() == 0 {
        assert(a + b =~= b);
        assert(encode_utf8(a) + encode_utf8(b) =~= encode_utf8(b));
    } else {
        assert((a + b).drop_first() =~= a.drop_first() + b);
        lemma_encode_concat(a.drop_first(), b);
        assert(encode_utf8(a + b) =~= encode_scalar(a[0] as u32) + (encode_utf8(a.drop_first())
            + encode_utf8(b)));
    }
}

pub proof fn lemma_utf8_len_concat(a: Seq<char>, b: Seq<char>)
    ensures
        utf8_len(a + b) == utf8_len(a) + utf8_len(b),
{
    lemma_encode_concat(a, b);
}

pub proof fn lemma_utf8_len_single(c: char)
    ensures
        utf8_len(seq![c]) == char_width(c),
{
    lemma_encode_scalar_width(c);
    assert(seq![c].drop_first() =~= Seq::<char>::empty());
    assert(encode_utf8(seq![c].drop_first()).len() == 0);
    assert(encode_utf8(seq![c]) == encode_scalar(seq![c][0] as u32) + encode_utf8(
        seq![c].drop_first(),
    ));
}

pub proof fn lemma_utf8_len_push(s: Seq<char>, c: char)
    ensures
        utf8_len(s.push(c)) == utf8_len(s) + char_width(c),
{
    assert(s.push(c) =~= s + seq![c]);
    lemma_utf8_len_concat(s, seq![c]);
    lemma_utf8_len_single(c);
}

/// Each character takes between one and four bytes.
pub proof fn lemma_utf8_len_bounds(s: Seq<char>)
    ensures
        s.len() <= utf8_len(s) <= 4 * s.len(),
    decreases s.len(),
{
    if s.len() > 0 {
        lemma_utf8_len_bounds(s.drop_first());
        lemma_encode_scalar_width(s[0]);
    }
}

/// Longer prefixes of a text have strictly longer encodings.
pub proof fn lemma_utf8_len_prefix_monotonic(s: Seq<char>, i: int, j: int)
    requires
        0 <= i < j <= s.len(),
    ensures
        utf8_len(s.take(i)) < utf8_len(s.take(j)),
{
    assert(s.take(j) =~= s.take(i) + s.subrange(i, j));
    lemma_utf8_len_concat(s.take(i), s.subrange(i, j));
    lemma_utf8_len_bounds(s.subrange(i, j));
}

/// The number of characters whose encoding fills `n` bytes is unique.
pub proof fn lemma_boundary_unique(s: Seq<char>, i: int, j: int)
    requires
        0 <= i <= s.len(),
        0 <= j <= s.len(),
        utf8_len(s.take(i)) == utf8_len(s.take(j)),
    ensures
        i == j,
{
    if i < j {
        lemma_utf8_len_prefix_monotonic(s, i, j);
    } else if j < i {
        lemma_utf8_len_prefix_monotonic(s, j, i);
    }
}

proof fn lemma_char_boundary_concat(a: Seq<char>, b: Seq<char>)
    ensures
        is_char_boundary(encode_utf8(a + b), encode_utf8(a).len() as int),
    decreases a.len(),
{
    let bytes = encode_utf8(a + b);
    if a.len() > 0 {
        let ab = a + b;
        encode_utf8_first_scalar(ab);
        lemma_encode_concat(a, b);
        assert(ab.drop_first() =~= a.drop_first() + b);
        lemma_encode_concat(a.drop_first(), b);
        lemma_char_boundary_concat(a.drop_first(), b);
        assert(pop_first_scalar(bytes) =~= encode_utf8(a.drop_first() + b));
    }
}

/// Splitting the encoding of `s` after `k` characters splits it at a character boundary,
/// and the two halves are the encodings of the two halves of `s`.
pub proof fn lemma_split_encoding(s: Seq<char>, k: int)
    requires
        0 <= k <= s.len(),
    ensures
        is_char_boundary(encode_utf8(s), utf8_len(s.take(k)) as int),
        encode_utf8(s).subrange(0, utf8_len(s.take(k)) as int) == encode_utf8(s.take(k)),
        encode_utf8(s).subrange(utf8_len(s.take(k)) as int, utf8_len(s) as int) == encode_utf8(
            s.skip(k),
        ),
{
    assert(s =~= s.take(k) + s.skip(k));
    lemma_char_boundary_concat(s.take(k), s.skip(k));
    lemma_encode_concat(s.take(k), s.skip(k));
    assert(encode_utf8(s).subrange(0, utf8_len(s.take(k)) as int) =~= encode_utf8(s.take(k)));
    assert(encode_utf8(s).subrange(utf8_len(s.take(k)) as int, utf8_len(s) as int)
        =~= encode_utf8(s.skip(k)));
}

/// Relies on rowan's `TextUnit::of_char`: the length of `c` in UTF-8 bytes.
#[verifier::external_body]
pub(crate) fn char_len(c: char) -> (r: u32)
    ensures
        r as nat == char_width(c),
{
    u32::from(TextUnit::of_char(c))
}

/// Relies on rowan's `TextUnit::of_str`: the length of `s` in UTF-8 bytes,
/// which panics past `u32::MAX`.
#[verifier::external_body]
pub(crate) fn str_len(s: &str) -> (r: u32)
    requires
        utf8_len(s@) <= u32::MAX,
    ensures
        r as nat == utf8_len(s@),
{
    u32::from(TextUnit::of_str(s))
}

/// Splits off the first character of `s`, if there is one.
pub fn split_first(s: &str) -> (r: Option<(char, &str)>)
    ensures
        s@.len() == 0 <==> r is None,
        r matches Some((c, rest)) ==> c == s@[0] && rest@ == s@.drop_first(),
{
    let mut chars = s.chars();
    match chars.next() {
        None => None,
        Some(c) => {
            let w = char_len(c);
            proof {
                lemma_split_encoding(s@, 1);
                lemma_utf8_len_single(c);
                assert(s@.take(1) =~= seq![c]);
            }
            let (_, rest) = s.split_at(w as usize);
            proof {
                assert(rest@ == decode_utf8(encode_utf8(rest@)));
                assert(s@.skip(1) =~= s@.drop_first());
            }
            Some((c, rest))
        },
    }
}

} // verus!
