//! Text primitives shared by the readers: the UTF-8 width of characters, the
//! byte offsets of character positions, and conversions between `str`,
//! character vectors, and owned strings.

use vstd::prelude::*;

verus! {

broadcast use vstd::utf8::group_utf8_lib;

/// The number of bytes in the UTF-8 encoding of one character.
pub open spec fn char_width(c: char) -> nat {
    if (c as u32) < 0x80 {
        1
    } else if (c as u32) < 0x800 {
        2
    } else if (c as u32) < 0x10000 {
        3
    } else {
        4
    }
}

/// The number of bytes in the UTF-8 encoding of a character sequence.
pub open spec fn text_bytes(s: Seq<char>) -> nat
    decreases s.len(),
{
    if s.len() == 0 {
        0
    } else {
        char_width(s[0]) + text_bytes(s.drop_first())
    }
}

/// The byte offset of character position `k` within `s`.
pub open spec fn byte_offset(s: Seq<char>, k: int) -> nat {
    text_bytes(s.take(k))
}

/// Whether `b` is the byte offset of some character position of `s`.
pub open spec fn is_char_offset(s: Seq<char>, b: int) -> bool {
    exists|k: int| 0 <= k <= s.len() && byte_offset(s, k) == b
}

pub proof fn lemma_text_bytes_concat(a: Seq<char>, b: Seq<char>)
    ensures
        text_bytes(a + b) == text_bytes(a) + text_bytes(b),
    decreases a.len(),
{
    if a.len() == 0 {
        assert(a + b =~= b);
    } else {
        assert((a + b).drop_first() =~= a.drop_first() + b);
        lemma_text_bytes_concat(a.drop_first(), b);
    }
}

pub proof fn lemma_byte_offset_step(s: Seq<char>, k: int)
    requires
        0 <= k < s.len(),
    ensures
        byte_offset(s, k + 1) == byte_offset(s, k) + char_width(s[k]),
{
    assert(s.take(k + 1) =~= s.take(k) + seq![s[k]]);
    lemma_text_bytes_concat(s.take(k), seq![s[k]]);
    assert(seq![s[k]].drop_first() =~= Seq::<char>::empty());
    assert(text_bytes(Seq::<char>::empty()) == 0);
    assert(text_bytes(seq![s[k]]) == char_width(s[k]) + text_bytes(seq![s[k]].drop_first()));
}

pub proof fn lemma_byte_offset_subrange(s: Seq<char>, i: int, j: int)
    requires
        0 <= i <= j <= s.len(),
    ensures
        byte_offset(s, j) == byte_offset(s, i) + text_bytes(s.subrange(i, j)),
{
    assert(s.take(j) =~= s.take(i) + s.subrange(i, j));
    lemma_text_bytes_concat(s.take(i), s.subrange(i, j));
}

pub proof fn lemma_byte_offset_strictly_increasing(s: Seq<char>, i: int, j: int)
    requires
        0 <= i <= j <= s.len(),
    ensures
        byte_offset(s, i) + (j - i) <= byte_offset(s, j),
    decreases j - i,
{
    if i < j {
        lemma_byte_offset_strictly_increasing(s, i, j - 1);
        lemma_byte_offset_step(s, j - 1);
    }
}

/// Equal byte offsets name equal character positions.
pub proof fn lemma_byte_offset_injective(s: Seq<char>, i: int, j: int)
    requires
        0 <= i <= s.len(),
        0 <= j <= s.len(),
        byte_offset(s, i) == byte_offset(s, j),
    ensures
        i == j,
{
    if i < j {
        lemma_byte_offset_strictly_increasing(s, i + 1, j);
        lemma_byte_offset_step(s, i);
    } else if j < i {
        lemma_byte_offset_strictly_increasing(s, j + 1, i);
        lemma_byte_offset_step(s, j);
    }
}

proof fn lemma_encode_scalar_width(c: char)
    ensures
        vstd::utf8::encode_scalar(c as u32).len() == char_width(c),
{
}

/// The width model agrees with the UTF-8 encoding of `vstd`.
pub proof fn lemma_text_bytes_is_encoding_length(s: Seq<char>)
    ensures
        text_bytes(s) == vstd::utf8::encode_utf8(s).len(),
    decreases s.len(),
{
    if s.len() > 0 {
        lemma_encode_scalar_width(s[0]);
        lemma_text_bytes_is_encoding_length(s.drop_first());
    }
}

/// The UTF-8 width of `c`.
pub fn len_utf8(c: char) -> (w: usize)
    ensures
        w == char_width(c),
        1 <= w <= 4,
{
    let v = c as u32;
    if v < 0x80 {
        1
    } else if v < 0x800 {
        2
    } else if v < 0x10000 {
        3
    } else {
        4
    }
}

/// The characters of `s` in order.
pub fn chars_of(s: &str) -> (v: Vec<char>)
    ensures
        v@ == s@,
        text_bytes(s@) <= usize::MAX,
{
    let bytes = s.as_bytes();
    let _n = bytes.len();
    proof {
        lemma_text_bytes_is_encoding_length(s@);
    }
    let mut v: Vec<char> = Vec::new();
    for c in it: s.chars()
        invariant
            v@ == it.seq().take(it.index() as int),
            it.seq() == s@,
    {
        v.push(c);
    }
    v
}

/// The byte length of every `str` fits in `usize`.
pub fn str_byte_length_fits(s: &str)
    ensures
        text_bytes(s@) <= usize::MAX,
{
    let _n = s.as_bytes().len();
    proof {
        lemma_text_bytes_is_encoding_length(s@);
    }
}

/// The byte length of a character sequence drawn from a `str`.
pub fn text_byte_len(chars: &Vec<char>) -> (n: usize)
    requires
        text_bytes(chars@) <= usize::MAX,
    ensures
        n == text_bytes(chars@),
{
    let mut n: usize = 0;
    let mut k: usize = 0;
    while k < chars.len()
        invariant
            k <= chars.len(),
            n == byte_offset(chars@, k as int),
            text_bytes(chars@) <= usize::MAX,
        decreases chars.len() - k,
    {
        proof {
            lemma_byte_offset_step(chars@, k as int);
            lemma_byte_offset_subrange(chars@, k as int + 1, chars.len() as int);
            assert(chars@.take(chars.len() as int) =~= chars@);
        }
        n = n + len_utf8(chars[k]);
        k = k + 1;
    }
    assert(chars@.take(chars.len() as int) =~= chars@);
    n
}

/// Appends `c` to `s` with std's `String::push`. The contract claims what
/// its documentation says: the characters of `s` afterwards are those before,
/// followed by `c`.
#[verifier::external_body]
fn push_char(s: &mut String, c: char)
    ensures
        final(s)@ == old(s)@.push(c),
{
    s.push(c);
}

/// Builds an owned string holding exactly `chars`.
pub(crate) fn string_from_chars(chars: &[char]) -> (s: String)
    ensures
        s@ == chars@,
{
    let mut s = String::new();
    let mut i: usize = 0;
    while i < chars.len()
        invariant
            i <= chars@.len(),
            s@ == chars@.take(i as int),
        decreases chars.len() - i,
    {
        push_char(&mut s, chars[i]);
        proof {
            assert(chars@.take(i as int + 1) =~= chars@.take(i as int).push(chars@[i as int]));
        }
        i = i + 1;
    }
    proof {
        assert(chars@.take(chars@.len() as int) =~= chars@);
    }
    s
}

/// Whether `needle` occurs in `haystack` starting at position `at`.
pub open spec fn occurs_at(haystack: Seq<char>, at: int, limit: int, needle: Seq<char>) -> bool {
    &&& 0 <= at
    &&& at + needle.len() <= limit
    &&& limit <= haystack.len()
    &&& haystack.subrange(at, at + needle.len()) == needle
}

/// Exact comparison of `needle` against `haystack` at `at`, never reading at or
/// past `limit`.
pub fn chars_occur_at(haystack: &Vec<char>, at: usize, limit: usize, needle: &Vec<char>) -> (r:
    bool)
    requires
        limit <= haystack.len(),
    ensures
        r == occurs_at(haystack@, at as int, limit as int, needle@),
{
    if at > limit || needle.len() > limit - at {
        return false;
    }
    let mut i: usize = 0;
    while i < needle.len()
        invariant
            i <= needle.len(),
            at + needle.len() <= limit <= haystack.len(),
            forall|j: int| 0 <= j < i ==> haystack@[at + j] == needle@[j],
        decreases needle.len() - i,
    {
        if haystack[at + i] != needle[i] {
            assert(haystack@.subrange(at as int, at + needle.len())[i as int] != needle@[i as int]);
            return false;
        }
        i = i + 1;
    }
    assert(haystack@.subrange(at as int, at + needle.len()) =~= needle@);
    true
}

/// Whether `s` starts with `prefix`.
pub open spec fn starts_with(s: Seq<char>, prefix: Seq<char>) -> bool {
    prefix.len() <= s.len() && s.take(prefix.len() as int) == prefix
}

/// Whether `s` ends with `suffix`.
pub open spec fn ends_with(s: Seq<char>, suffix: Seq<char>) -> bool {
    suffix.len() <= s.len() && s.skip(s.len() - suffix.len()) == suffix
}

pub fn seq_starts_with(s: &Vec<char>, prefix: &Vec<char>) -> (r: bool)
    ensures
        r == starts_with(s@, prefix@),
{
    let r = chars_occur_at(s, 0, s.len(), prefix);
    proof {
        if r {
            assert(s@.take(prefix@.len() as int) =~= s@.subrange(0, prefix@.len() as int));
        } else if prefix@.len() <= s@.len() {
            assert(s@.take(prefix@.len() as int) =~= s@.subrange(0, prefix@.len() as int));
        }
    }
    r
}

pub fn seq_ends_with(s: &Vec<char>, suffix: &Vec<char>) -> (r: bool)
    ensures
        r == ends_with(s@, suffix@),
{
    if suffix.len() > s.len() {
        return false;
    }
    let at = s.len() - suffix.len();
    let r = chars_occur_at(s, at, s.len(), suffix);
    assert(s@.skip(at as int) =~= s@.subrange(at as int, s@.len() as int));
    r
}

/// Exact equality of two character vectors.
pub fn chars_equal(a: &Vec<char>, b: &Vec<char>) -> (r: bool)
    ensures
        r == (a@ == b@),
{
    if a.len() != b.len() {
        return false;
    }
    let r = chars_occur_at(a, 0, a.len(), b);
    assert(a@.subrange(0, b@.len() as int) =~= a@);
    r
}

/// Exact equality of two strings.
pub fn str_equal(a: &str, b: &str) -> (r: bool)
    ensures
        r == (a@ == b@),
{
    let x = chars_of(a);
    let y = chars_of(b);
    chars_equal(&x, &y)
}

/// Whether `c` occurs in `s`.
pub fn chars_contain(s: &Vec<char>, c: char) -> (r: bool)
    ensures
        r == s@.contains(c),
{
    let mut i: usize = 0;
    while i < s.len()
        invariant
            i <= s.len(),
            forall|j: int| 0 <= j < i ==> s@[j] != c,
        decreases s.len() - i,
    {
        if s[i] == c {
            return true;
        }
        i = i + 1;
    }
    false
}

/// The Unicode `White_Space` property, the rule behind `char::is_whitespace`.
pub open spec fn is_unicode_whitespace(c: char) -> bool {
    let v = c as u32;
    ||| 0x9 <= v <= 0xD
    ||| v == 0x20
    ||| v == 0x85
    ||| v == 0xA0
    ||| v == 0x1680
    ||| 0x2000 <= v <= 0x200A
    ||| v == 0x2028
    ||| v == 0x2029
    ||| v == 0x202F
    ||| v == 0x205F
    ||| v == 0x3000
}

pub fn unicode_whitespace(c: char) -> (r: bool)
    ensures
        r == is_unicode_whitespace(c),
{
    let v = c as u32;
    (0x9 <= v && v <= 0xD) || v == 0x20 || v == 0x85 || v == 0xA0 || v == 0x1680 || (0x2000 <= v
        && v <= 0x200A) || v == 0x2028 || v == 0x2029 || v == 0x202F || v == 0x205F || v == 0x3000
}

pub open spec fn is_ascii_digit(c: char) -> bool {
    0x30 <= (c as u32) <= 0x39
}

pub open spec fn is_ascii_uppercase(c: char) -> bool {
    0x41 <= (c as u32) <= 0x5A
}

pub open spec fn is_ascii_lowercase(c: char) -> bool {
    0x61 <= (c as u32) <= 0x7A
}

pub open spec fn is_ascii_alphabetic(c: char) -> bool {
    is_ascii_uppercase(c) || is_ascii_lowercase(c)
}

pub fn ascii_digit(c: char) -> (r: bool)
    ensures
        r == is_ascii_digit(c),
{
    let v = c as u32;
    0x30 <= v && v <= 0x39
}

pub fn ascii_uppercase(c: char) -> (r: bool)
    ensures
        r == is_ascii_uppercase(c),
{
    let v = c as u32;
    0x41 <= v && v <= 0x5A
}

pub fn ascii_lowercase(c: char) -> (r: bool)
    ensures
        r == is_ascii_lowercase(c),
{
    let v = c as u32;
    0x61 <= v && v <= 0x7A
}

/// Characters in strictly increasing code-point order.
pub open spec fn chars_strictly_increasing(s: Seq<char>) -> bool {
    forall|i: int, j: int| 0 <= i < j < s.len() ==> (s[i] as u32) < (s[j] as u32)
}

/// The strictly increasing sequence holding exactly the characters of `input`.
#[verifier::spinoff_prover]
pub fn sorted_unique_chars(input: &Vec<char>) -> (r: Vec<char>)
    ensures
        chars_strictly_increasing(r@),
        forall|c: char| r@.contains(c) <==> input@.contains(c),
{
    let mut r: Vec<char> = Vec::new();
    let mut k: usize = 0;
    while k < input.len()
        invariant
            k <= input.len(),
            chars_strictly_increasing(r@),
            forall|c: char| r@.contains(c) <==> input@.take(k as int).contains(c),
        decreases input.len() - k,
    {
        let x = input[k];
        let mut i: usize = 0;
        while i < r.len() && (r[i] as u32) < (x as u32)
            invariant
                i <= r.len(),
                forall|j: int| 0 <= j < i ==> (r@[j] as u32) < (x as u32),
            decreases r.len() - i,
        {
            i = i + 1;
        }
        let ghost before = r@;
        if i < r.len() && r[i] == x {
        } else {
            r.insert(i, x);
            proof {
                assert forall|a: int, b: int| 0 <= a < b < r@.len() implies (r@[a] as u32) < (
                r@[b] as u32) by {
                    if a < i && b > i {
                        assert(r@[b] == before[b - 1]);
                    } else if a == i && b > i {
                        assert(r@[b] == before[b - 1]);
                        assert(i < before.len());
                        if b - 1 > i as int {
                            assert((before[i as int] as u32) < (before[b - 1] as u32));
                        }
                        assert((x as u32) <= (before[i as int] as u32));
                        assert(x != before[i as int]);
                        assert((x as u32) != (before[i as int] as u32)) by {
                            vstd::utf8::char_u32_cast(x, x as u32);
                            vstd::utf8::char_u32_cast(before[i as int], before[i as int] as u32);
                        }
                    } else if b < i {
                    } else if a < i && b == i {
                    } else {
                        assert(r@[a] == before[a - 1]);
                        assert(r@[b] == before[b - 1]);
                    }
                }
                assert forall|c: char| r@.contains(c) <==> before.contains(c) || c == x by {
                    if r@.contains(c) {
                        let j = choose|j: int| 0 <= j < r@.len() && r@[j] == c;
                        if j < i {
                            assert(before[j] == c);
                        } else if j > i {
                            assert(before[j - 1] == c);
                        }
                    }
                    if before.contains(c) {
                        let j = choose|j: int| 0 <= j < before.len() && before[j] == c;
                        if j < i {
                            assert(r@[j] == c);
                        } else {
                            assert(r@[j + 1] == c);
                        }
                    }
                    if c == x {
                        assert(r@[i as int] == c);
                    }
                }
            }
        }
        proof {
            assert(input@.take(k + 1) =~= input@.take(k as int).push(x));
            assert forall|c: char| r@.contains(c) <==> input@.take(k + 1).contains(c) by {
                if input@.take(k + 1).contains(c) {
                    let j = choose|j: int| 0 <= j < k + 1 && #[trigger] input@.take(k + 1)[j] == c;
                    if j < k {
                        assert(input@.take(k as int)[j] == c);
                    }
                }
                if input@.take(k as int).contains(c) {
                    let j = choose|j: int| 0 <= j < k && #[trigger] input@.take(k as int)[j] == c;
                    assert(input@.take(k + 1)[j] == c);
                }
                if r@.contains(c) && !before.contains(c) {
                    assert(c == x);
                    assert(input@.take(k + 1)[k as int] == c);
                }
                if c == x {
                    assert(input@.take(k + 1)[k as int] == c);
                }
            }
        }
        k = k + 1;
    }
    assert(input@.take(input.len() as int) =~= input@);
    r
}

/// Whether the characters are strictly increasing.
pub fn chars_are_strictly_increasing(s: &Vec<char>) -> (r: bool)
    ensures
        r == chars_strictly_increasing(s@),
{
    let mut i: usize = 1;
    if s.len() == 0 {
        return true;
    }
    while i < s.len()
        invariant
            1 <= i <= s.len(),
            forall|a: int, b: int| 0 <= a < b < i ==> (s@[a] as u32) < (s@[b] as u32),
        decreases s.len() - i,
    {
        if (s[i - 1] as u32) >= (s[i] as u32) {
            return false;
        }
        proof {
            assert forall|a: int, b: int| 0 <= a < b < i + 1 implies (s@[a] as u32) < (
            s@[b] as u32) by {
                if b == i && a < i - 1 {
                    assert((s@[a] as u32) < (s@[i - 1] as u32));
                }
            }
        }
        i = i + 1;
    }
    true
}

} // verus!
