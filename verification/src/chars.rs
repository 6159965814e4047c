//! Characters, their widths in UTF-8 and UTF-16, and offsets between them.
//!
//! A text is modelled as its sequence of characters. A byte offset stands for
//! the number of characters in front of it, and an offset that falls inside a
//! character stands for the characters that end at or before it.
use vstd::prelude::*;
use vstd::utf8::*;

verus! {

/// The Unicode `White_Space` property.
pub open spec fn white_space(c: char) -> bool {
    let n: int = c as int;
    ||| 9 <= n <= 13
    ||| n == 0x20
    ||| n == 0x85
    ||| n == 0xa0
    ||| n == 0x1680
    ||| 0x2000 <= n <= 0x200a
    ||| n == 0x2028
    ||| n == 0x2029
    ||| n == 0x202f
    ||| n == 0x205f
    ||| n == 0x3000
}

/// How many bytes the character takes in UTF-8.
pub open spec fn char_len(c: char) -> nat {
    let n: int = c as int;
    if n < 0x80 {
        1
    } else if n < 0x800 {
        2
    } else if n < 0x10000 {
        3
    } else {
        4
    }
}

/// How many bytes the text takes in UTF-8.
pub open spec fn byte_len(s: Seq<char>) -> nat
    decreases s.len(),
{
    if s.len() == 0 {
        0
    } else {
        byte_len(s.drop_last()) + char_len(s.last())
    }
}

/// The byte offset at which the `k`-th character of the text starts.
pub open spec fn offset_of(s: Seq<char>, k: int) -> nat {
    byte_len(s.take(k))
}

/// How many characters of the text end at or before the byte offset.
pub open spec fn chars_before(s: Seq<char>, offset: int) -> int
    decreases s.len(),
{
    if s.len() == 0 || byte_len(s) <= offset {
        s.len() as int
    } else {
        chars_before(s.drop_last(), offset)
    }
}

/// Whether the byte offset lies between two characters, or at an end.
pub open spec fn on_boundary(s: Seq<char>, offset: int) -> bool {
    offset == offset_of(s, chars_before(s, offset))
}

/// The byte length of two texts in a row is the sum of their lengths.
pub proof fn byte_len_of_concatenation(a: Seq<char>, b: Seq<char>)
    ensures
        byte_len(a + b) == byte_len(a) + byte_len(b),
    decreases b.len(),
{
    if b.len() == 0 {
        assert(a + b == a);
    } else {
        assert((a + b).drop_last() == a + b.drop_last());
        byte_len_of_concatenation(a, b.drop_last());
    }
}

/// [`char_len`] is the length of the character's encoding.
proof fn lemma_scalar_width(c: char)
    ensures
        encode_scalar(c as u32).len() == char_len(c),
{
}

/// The modelled byte length is the length of the UTF-8 encoding.
pub proof fn byte_len_is_encoded_length(s: Seq<char>)
    ensures
        byte_len(s) == encode_utf8(s).len(),
    decreases s.len(),
{
    if s.len() > 0 {
        let first = s.take(1);
        let rest = s.drop_first();
        byte_len_is_encoded_length(rest);
        assert(s == first + rest);
        byte_len_of_concatenation(first, rest);
        assert(first.drop_last() == Seq::<char>::empty());
        assert(byte_len(first.drop_last()) == 0);
        assert(byte_len(first) == char_len(s[0]));
        lemma_scalar_width(s[0]);
    }
}

/// A longer head of a text takes more bytes.
pub(crate) proof fn lemma_offset_grows(s: Seq<char>, i: int, j: int)
    requires
        0 <= i <= j <= s.len(),
    ensures
        offset_of(s, i) + (j - i) <= offset_of(s, j),
        offset_of(s, i) <= offset_of(s, j),
        i < j ==> offset_of(s, i) < offset_of(s, j),
    decreases j - i,
{
    if i < j {
        lemma_offset_grows(s, i, j - 1);
        assert(s.take(j).drop_last() == s.take(j - 1));
    }
}

/// One step of [`offset_of`].
pub(crate) proof fn lemma_offset_step(s: Seq<char>, k: int)
    requires
        0 <= k < s.len(),
    ensures
        offset_of(s, k + 1) == offset_of(s, k) + char_len(s[k]),
{
    assert(s.take(k + 1).drop_last() == s.take(k));
}

/// [`offset_of`] at the two ends.
pub(crate) proof fn lemma_offset_ends(s: Seq<char>)
    ensures
        offset_of(s, 0) == 0,
        offset_of(s, s.len() as int) == byte_len(s),
{
    assert(s.take(s.len() as int) == s);
}

/// [`chars_before`] finds the one character that the offset falls on.
pub(crate) proof fn lemma_chars_before(s: Seq<char>, offset: int)
    requires
        0 <= offset,
    ensures
        0 <= chars_before(s, offset) <= s.len(),
        offset_of(s, chars_before(s, offset)) <= offset,
        chars_before(s, offset) < s.len() ==> offset < offset_of(s, chars_before(s, offset) + 1),
        byte_len(s) <= offset <==> chars_before(s, offset) == s.len(),
    decreases s.len(),
{
    lemma_offset_ends(s);
    if s.len() > 0 && byte_len(s) > offset {
        let head = s.drop_last();
        lemma_chars_before(head, offset);
        let k = chars_before(head, offset);
        assert(head.take(k) == s.take(k));
        if k < head.len() {
            assert(head.take(k + 1) == s.take(k + 1));
        } else {
            assert(s.take(k + 1) == s);
        }
    }
}

/// Whatever index brackets the offset is [`chars_before`].
pub(crate) proof fn lemma_chars_before_is(s: Seq<char>, offset: int, k: int)
    requires
        0 <= k <= s.len(),
        offset_of(s, k) <= offset,
        k < s.len() ==> offset < offset_of(s, k + 1),
    ensures
        chars_before(s, offset) == k,
{
    lemma_chars_before(s, offset);
    let m = chars_before(s, offset);
    if m < k {
        lemma_offset_grows(s, m + 1, k);
    }
    if k < m {
        lemma_offset_grows(s, k + 1, m);
    }
}

/// The offset of a character leads back to that character.
pub proof fn offset_round_trip(s: Seq<char>, k: int)
    requires
        0 <= k <= s.len(),
    ensures
        chars_before(s, offset_of(s, k) as int) == k,
        on_boundary(s, offset_of(s, k) as int),
        offset_of(s, k) <= byte_len(s),
{
    if k < s.len() {
        lemma_offset_grows(s, k, k + 1);
    }
    lemma_offset_grows(s, k, s.len() as int);
    lemma_offset_ends(s);
    lemma_chars_before_is(s, offset_of(s, k) as int, k);
}

/// Whether the character has the `White_Space` property.
pub fn is_white_space(c: char) -> (r: bool)
    ensures
        r == white_space(c),
{
    let n: u32 = c as u32;
    (9 <= n && n <= 13) || n == 0x20 || n == 0x85 || n == 0xa0 || n == 0x1680 || (0x2000 <= n && n
        <= 0x200a) || n == 0x2028 || n == 0x2029 || n == 0x202f || n == 0x205f || n == 0x3000
}

/// The number of bytes that the character takes in UTF-8.
pub fn utf8_width(c: char) -> (r: usize)
    ensures
        r == char_len(c),
{
    let n: u32 = c as u32;
    if n < 0x80 {
        1
    } else if n < 0x800 {
        2
    } else if n < 0x10000 {
        3
    } else {
        4
    }
}

/// The number of bytes in the string.
pub fn str_bytes(s: &str) -> (r: usize)
    ensures
        r == byte_len(s@),
{
    proof {
        byte_len_is_encoded_length(s@);
    }
    s.as_bytes().len()
}

/// The characters of the string.
pub fn chars_of_str(s: &str) -> (r: Vec<char>)
    ensures
        r@ == s@,
{
    let mut out: Vec<char> = Vec::new();
    for c in it: s.chars()
        invariant
            it.seq() == s@,
            out@ == s@.take(it.index() as int),
    {
        out.push(c);
    }
    assert(s@.take(s@.len() as int) == s@);
    out
}

/// The number of characters that end at or before the byte offset.
pub fn count_before(s: &[char], offset: usize) -> (r: usize)
    ensures
        r == chars_before(s@, offset as int),
{
    let mut at: usize = 0;
    let mut count: usize = 0;
    proof {
        lemma_offset_ends(s@);
    }
    while count < s.len()
        invariant
            count <= s@.len(),
            at == offset_of(s@, count as int),
            at <= offset,
        decreases s@.len() - count,
    {
        proof {
            lemma_offset_step(s@, count as int);
        }
        let width: usize = utf8_width(s[count]);
        if width > offset - at {
            proof {
                lemma_chars_before_is(s@, offset as int, count as int);
            }
            return count;
        }
        at = at + width;
        count = count + 1;
    }
    proof {
        lemma_chars_before_is(s@, offset as int, count as int);
    }
    count
}

/// The byte offset at which the `k`-th character starts.
pub fn byte_offset(s: &[char], k: usize) -> (r: usize)
    requires
        k <= s@.len(),
        byte_len(s@) <= usize::MAX,
    ensures
        r == offset_of(s@, k as int),
{
    let mut at: usize = 0;
    let mut i: usize = 0;
    proof {
        lemma_offset_ends(s@);
    }
    while i < k
        invariant
            i <= k <= s@.len(),
            at == offset_of(s@, i as int),
            byte_len(s@) <= usize::MAX,
        decreases k - i,
    {
        proof {
            lemma_offset_step(s@, i as int);
            lemma_offset_ends(s@);
            lemma_offset_grows(s@, i + 1, s@.len() as int);
        }
        at = at + utf8_width(s[i]);
        i = i + 1;
    }
    at
}

} // verus!
