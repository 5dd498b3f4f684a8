//! Characters of the input and their byte offsets in its UTF-8 encoding.
use vstd::prelude::*;
use vstd::utf8::*;

verus! {

/// Number of bytes that `c` occupies in UTF-8.
pub open spec fn char_width(c: char) -> nat {
    if (c as u32) < 0x80 {
        1
    } else if (c as u32) < 0x800 {
        2
    } else if (c as u32) < 0x10000 {
        3
    } else {
        4
    }
}

/// Byte offset, in the UTF-8 encoding of `s`, of the character at index `i`
/// (for `i == s.len()`, the length of the whole encoding).
pub open spec fn byte_offset(s: Seq<char>, i: int) -> nat
    decreases i,
{
    if i <= 0 {
        0
    } else {
        byte_offset(s, i - 1) + char_width(s[i - 1])
    }
}

/// True when every character of `s` in `[i, j)` is ASCII.
pub open spec fn ascii_between(s: Seq<char>, i: int, j: int) -> bool {
    forall|k: int| i <= k < j ==> (#[trigger] s[k] as u32) < 0x80
}

/// Offsets grow by at least one byte per character.
pub proof fn lemma_byte_offset_mono(s: Seq<char>, i: int, j: int)
    requires
        0 <= i <= j,
    ensures
        byte_offset(s, i) + (j - i) <= byte_offset(s, j),
    decreases j - i,
{
    if i < j {
        lemma_byte_offset_mono(s, i, j - 1);
    }
}

/// Over ASCII characters, offsets grow by exactly one byte per character.
pub proof fn lemma_byte_offset_ascii(s: Seq<char>, i: int, j: int)
    requires
        0 <= i <= j,
        ascii_between(s, i, j),
    ensures
        byte_offset(s, j) == byte_offset(s, i) + (j - i),
    decreases j - i,
{
    if i < j {
        assert((s[j - 1] as u32) < 0x80);
        lemma_byte_offset_ascii(s, i, j - 1);
    }
}

/// Offsets only depend on the characters before them.
pub proof fn lemma_byte_offset_prefix(s: Seq<char>, t: Seq<char>, k: int)
    requires
        0 <= k <= s.len(),
    ensures
        byte_offset(s + t, k) == byte_offset(s, k),
    decreases k,
{
    if k > 0 {
        lemma_byte_offset_prefix(s, t, k - 1);
        assert((s + t)[k - 1] == s[k - 1]);
    }
}

/// Offsets within `p + s` past `p` are those within `s`, moved by the encoding of `p`.
pub proof fn lemma_byte_offset_shift(p: Seq<char>, s: Seq<char>, i: int)
    requires
        0 <= i <= s.len(),
    ensures
        byte_offset(p + s, p.len() + i) == byte_offset(p, p.len() as int) + byte_offset(s, i),
    decreases i,
{
    if i == 0 {
        lemma_byte_offset_prefix(p, s, p.len() as int);
    } else {
        lemma_byte_offset_shift(p, s, i - 1);
        assert((p + s)[p.len() + i - 1] == s[i - 1]);
    }
}

proof fn lemma_byte_offset_drop_first(s: Seq<char>, k: int)
    requires
        1 <= k <= s.len(),
    ensures
        byte_offset(s, k) == char_width(s[0]) + byte_offset(s.drop_first(), k - 1),
    decreases k,
{
    if k > 1 {
        lemma_byte_offset_drop_first(s, k - 1);
        assert(s.drop_first()[k - 2] == s[k - 1]);
    } else {
        assert(byte_offset(s, 0) == 0);
        assert(byte_offset(s.drop_first(), 0) == 0);
    }
}

/// The width of a character is the length of its UTF-8 encoding.
pub proof fn lemma_char_width_encode(c: char)
    ensures
        encode_scalar(c as u32).len() == char_width(c),
{
    char_is_scalar(c);
}

/// The offset past the last character is the length of the whole encoding.
pub proof fn lemma_byte_offset_total(s: Seq<char>)
    ensures
        byte_offset(s, s.len() as int) == encode_utf8(s).len(),
    decreases s.len(),
{
    if s.len() > 0 {
        lemma_byte_offset_total(s.drop_first());
        lemma_byte_offset_drop_first(s, s.len() as int);
        lemma_char_width_encode(s[0]);
    }
}

/// Encoding a concatenation concatenates the encodings.
pub proof fn lemma_encode_concat(a: Seq<char>, b: Seq<char>)
    ensures
        encode_utf8(a + b) == encode_utf8(a) + encode_utf8(b),
    decreases a.len(),
{
    if a.len() > 0 {
        lemma_encode_concat(a.drop_first(), b);
        assert((a + b).drop_first() =~= a.drop_first() + b);
        assert((a + b)[0] == a[0]);
        assert(encode_utf8(a + b) =~= encode_utf8(a) + encode_utf8(b));
    } else {
        assert(a + b =~= b);
        assert(encode_utf8(a) =~= Seq::<u8>::empty());
        assert(encode_utf8(a) + encode_utf8(b) =~= encode_utf8(b));
    }
}

/// The bytes of the encoding between the offsets of `i` and `j` encode the
/// characters from `i` to `j`.
pub proof fn lemma_encode_subrange(s: Seq<char>, i: int, j: int)
    requires
        0 <= i <= j <= s.len(),
    ensures
        encode_utf8(s).subrange(byte_offset(s, i) as int, byte_offset(s, j) as int) == encode_utf8(
            s.subrange(i, j),
        ),
{
    let x = s.subrange(0, i);
    let y = s.subrange(i, j);
    let z = s.subrange(j, s.len() as int);
    assert(s =~= x + y + z);
    lemma_encode_concat(x + y, z);
    lemma_encode_concat(x, y);
    lemma_byte_offset_total(x);
    lemma_byte_offset_total(x + y);
    lemma_byte_offset_prefix(x, y + z, i);
    assert(x + (y + z) =~= s);
    lemma_byte_offset_prefix(x + y, z, j);
    assert((x + y).len() == j);
    assert(encode_utf8(s).subrange(byte_offset(s, i) as int, byte_offset(s, j) as int)
        =~= encode_utf8(y));
}

/// The byte at the offset of an ASCII character is that character.
pub proof fn lemma_ascii_byte(s: Seq<char>, i: int)
    requires
        0 <= i < s.len(),
        (s[i] as u32) < 0x80,
    ensures
        byte_offset(s, i) < encode_utf8(s).len(),
        encode_utf8(s)[byte_offset(s, i) as int] == (s[i] as u32) as u8,
{
    lemma_encode_subrange(s, i, i + 1);
    assert(s.subrange(i, i + 1) =~= seq![s[i]]);
    let u = s[i] as u32;
    assert(seq![s[i]].drop_first() =~= Seq::<char>::empty());
    assert(encode_utf8(seq![s[i]]) =~= encode_scalar(u) + encode_utf8(Seq::<char>::empty()));
    assert(((u & 0x7F) as u8) == (u as u8)) by (bit_vector)
        requires
            u < 0x80,
    ;
    assert(encode_utf8(seq![s[i]])[0] == u as u8);
    assert(byte_offset(s, i + 1) == byte_offset(s, i) + 1);
    lemma_byte_offset_mono(s, i + 1, s.len() as int);
    lemma_byte_offset_total(s);
}

/// Appends `c` to `s` (`String::push`, trusted to append exactly `c`).
#[verifier::external_body]
pub(crate) fn push_char(s: &mut String, c: char)
    ensures
        final(s)@ == old(s)@.push(c),
{
    s.push(c);
}

/// Byte width of `c` in UTF-8.
pub fn width_of(c: char) -> (w: usize)
    ensures
        w == char_width(c),
{
    let u = c as u32;
    if u < 0x80 {
        1
    } else if u < 0x800 {
        2
    } else if u < 0x10000 {
        3
    } else {
        4
    }
}

} // verus!
