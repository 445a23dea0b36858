//! Texts as characters and as UTF-8 bytes, and cutting and searching them.

use vstd::prelude::*;
use vstd::utf8::*;

verus! {

/// The byte offset at which character `k` of `chars` starts.
pub open spec fn byte_offset(chars: Seq<char>, k: int) -> nat {
    encode_utf8(chars.take(k)).len()
}

/// The number of characters before byte `at` of the UTF-8 encoding of `chars`.
pub open spec fn char_index(chars: Seq<char>, at: int) -> int {
    decode_utf8(encode_utf8(chars).subrange(0, at)).len() as int
}

/// The bytes of a concatenation are the concatenated bytes.
pub(crate) proof fn lemma_encode_concat(a: Seq<char>, b: Seq<char>)
    ensures
        encode_utf8(a + b) == encode_utf8(a) + encode_utf8(b),
    decreases a.len(),
{
    if a.len() == 0 {
        assert(a + b =~= b);
    } else {
        assert((a + b).drop_first() =~= a.drop_first() + b);
        lemma_encode_concat(a.drop_first(), b);
    }
}

/// Two texts with the same bytes are the same text.
pub(crate) proof fn lemma_encode_injective(a: Seq<char>, b: Seq<char>)
    requires
        encode_utf8(a) == encode_utf8(b),
    ensures
        a == b,
{
    encode_utf8_decode_utf8(a);
    encode_utf8_decode_utf8(b);
}

/// A single ASCII character is one byte, any other has no ASCII byte.
proof fn lemma_scalar_bytes(c: char)
    ensures
        (c as u32) < 0x80 ==> encode_utf8(seq![c]) == seq![c as u8] && (c as u8) as char == c,
        (c as u32) >= 0x80 ==> forall|i: int|
            0 <= i < encode_utf8(seq![c]).len() ==> #[trigger] encode_utf8(seq![c])[i] >= 0x80,
        encode_utf8(seq![c]).len() == if (c as u32) < 0x80 {
            1int
        } else if (c as u32) < 0x800 {
            2int
        } else if (c as u32) < 0x10000 {
            3int
        } else {
            4int
        },
{
    let v = c as u32;
    reveal_with_fuel(encode_utf8, 2);
    assert(seq![c].drop_first() =~= Seq::<char>::empty());
    assert(encode_utf8(seq![c]) =~= encode_scalar(v));
    char_is_scalar(c);
    if v < 0x80 {
        assert(v & 0x7f == v) by (bit_vector)
            requires
                v < 0x80,
        ;
    } else {
        assert((0x80u8 | (v & 0x3F) as u8) >= 0x80) by (bit_vector);
        assert((0x80u8 | ((v >> 6) & 0x3F) as u8) >= 0x80) by (bit_vector);
        assert((0x80u8 | ((v >> 12) & 0x3F) as u8) >= 0x80) by (bit_vector);
        assert((0xC0u8 | ((v >> 6) & 0x1F) as u8) >= 0x80) by (bit_vector);
        assert((0xE0u8 | ((v >> 12) & 0x0F) as u8) >= 0x80) by (bit_vector);
        assert((0xF0u8 | ((v >> 18) & 0x7) as u8) >= 0x80) by (bit_vector);
    }
}

/// Splitting a text at character `k` splits its bytes at `byte_offset(chars, k)`.
pub(crate) proof fn lemma_split_at_char(chars: Seq<char>, k: int)
    requires
        0 <= k <= chars.len(),
    ensures
        byte_offset(chars, k) <= encode_utf8(chars).len(),
        is_char_boundary(encode_utf8(chars), byte_offset(chars, k) as int),
        encode_utf8(chars).subrange(0, byte_offset(chars, k) as int) == encode_utf8(chars.take(k)),
        encode_utf8(chars).subrange(
            byte_offset(chars, k) as int,
            encode_utf8(chars).len() as int,
        ) == encode_utf8(chars.skip(k)),
{
    let a = chars.take(k);
    let b = chars.skip(k);
    assert(chars =~= a + b);
    lemma_encode_concat(a, b);
    assert(encode_utf8(chars).subrange(0, byte_offset(chars, k) as int) =~= encode_utf8(a));
    assert(encode_utf8(chars).subrange(
        byte_offset(chars, k) as int,
        encode_utf8(chars).len() as int,
    ) =~= encode_utf8(b));
    lemma_boundary(chars, k);
}

/// Every character starts at a character boundary of the bytes.
proof fn lemma_boundary(chars: Seq<char>, k: int)
    requires
        0 <= k <= chars.len(),
    ensures
        is_char_boundary(encode_utf8(chars), byte_offset(chars, k) as int),
    decreases k,
{
    let bytes = encode_utf8(chars);
    encode_utf8_valid_utf8(chars);
    if k > 0 {
        let rest = chars.drop_first();
        encode_utf8_first_scalar(chars);
        assert(pop_first_scalar(bytes) =~= encode_utf8(rest));
        assert(chars.take(k).drop_first() =~= rest.take(k - 1));
        lemma_boundary(rest, k - 1);
        lemma_encode_concat(chars.take(k), chars.skip(k));
        assert(chars =~= chars.take(k) + chars.skip(k));
    }
}

/// The byte offset grows by the width of each character.
pub(crate) proof fn lemma_offset_step(chars: Seq<char>, k: int)
    requires
        0 <= k < chars.len(),
    ensures
        byte_offset(chars, k + 1) == byte_offset(chars, k) + encode_utf8(seq![chars[k]]).len(),
        byte_offset(chars, k) < byte_offset(chars, k + 1) <= encode_utf8(chars).len(),
{
    assert(chars.take(k + 1) =~= chars.take(k) + seq![chars[k]]);
    lemma_encode_concat(chars.take(k), seq![chars[k]]);
    lemma_scalar_bytes(chars[k]);
    lemma_split_at_char(chars, k + 1);
}

/// Later characters start at later bytes.
pub(crate) proof fn lemma_offset_monotonic(chars: Seq<char>, j: int, k: int)
    requires
        0 <= j < k <= chars.len(),
    ensures
        byte_offset(chars, j) < byte_offset(chars, k) <= encode_utf8(chars).len(),
    decreases k - j,
{
    lemma_offset_step(chars, k - 1);
    if j < k - 1 {
        lemma_offset_monotonic(chars, j, k - 1);
    }
}

/// An ASCII character appears in the bytes as itself.
pub(crate) proof fn lemma_ascii_char_byte(chars: Seq<char>, k: int)
    requires
        0 <= k < chars.len(),
        (chars[k] as u32) < 0x80,
    ensures
        byte_offset(chars, k) < encode_utf8(chars).len(),
        encode_utf8(chars)[byte_offset(chars, k) as int] == chars[k] as u8,
        byte_offset(chars, k + 1) == byte_offset(chars, k) + 1,
{
    lemma_offset_step(chars, k);
    lemma_scalar_bytes(chars[k]);
    let rest = chars.skip(k + 1);
    assert(chars =~= chars.take(k) + (seq![chars[k]] + rest));
    lemma_encode_concat(chars.take(k), seq![chars[k]] + rest);
    lemma_encode_concat(seq![chars[k]], rest);
}

/// An ASCII byte is an ASCII character: every other character is made of other bytes.
pub(crate) proof fn lemma_ascii_byte_char(chars: Seq<char>, at: int) -> (k: int)
    requires
        0 <= at < encode_utf8(chars).len(),
        encode_utf8(chars)[at] < 0x80,
    ensures
        0 <= k < chars.len(),
        byte_offset(chars, k) == at,
        (chars[k] as u32) < 0x80,
        chars[k] == encode_utf8(chars)[at] as char,
    decreases chars.len(),
{
    let head = seq![chars[0]];
    let rest = chars.drop_first();
    assert(chars =~= head + rest);
    lemma_encode_concat(head, rest);
    lemma_scalar_bytes(chars[0]);
    let width = encode_utf8(head).len() as int;
    if at < width {
        assert(encode_utf8(chars)[at] == encode_utf8(head)[at]);
        assert(chars.take(0) =~= Seq::<char>::empty());
        0
    } else {
        let j = lemma_ascii_byte_char(rest, at - width);
        assert(chars.take(j + 1) =~= head + rest.take(j));
        lemma_encode_concat(head, rest.take(j));
        j + 1
    }
}

/// The byte offset of a character leads back to that character.
pub proof fn lemma_char_index_of_offset(chars: Seq<char>, k: int)
    requires
        0 <= k <= chars.len(),
    ensures
        is_char_boundary(encode_utf8(chars), byte_offset(chars, k) as int),
        char_index(chars, byte_offset(chars, k) as int) == k,
{
    lemma_split_at_char(chars, k);
    encode_utf8_decode_utf8(chars.take(k));
}

/// A character boundary is where the character that `char_index` counts up to starts.
pub proof fn lemma_offset_of_char_index(chars: Seq<char>, at: int)
    requires
        is_char_boundary(encode_utf8(chars), at),
    ensures
        0 <= char_index(chars, at) <= chars.len(),
        byte_offset(chars, char_index(chars, at)) == at,
{
    let bytes = encode_utf8(chars);
    encode_utf8_valid_utf8(chars);
    valid_utf8_split(bytes, at);
    decode_utf8_split(bytes, at);
    encode_utf8_decode_utf8(chars);
    let lead = bytes.subrange(0, at);
    decode_utf8_encode_utf8(lead);
    assert(chars.take(char_index(chars, at)) =~= decode_utf8(lead));
}

/// Splits `s` before character `k`, which starts at byte `at`.
pub(crate) fn split_str<'a>(s: &'a str, at: usize, Ghost(k): Ghost<int>) -> (parts: (
    &'a str,
    &'a str,
))
    requires
        0 <= k <= s@.len(),
        at == byte_offset(s@, k),
    ensures
        parts.0@ == s@.take(k),
        parts.1@ == s@.skip(k),
{
    proof {
        lemma_split_at_char(s@, k);
    }
    let parts = s.split_at(at);
    proof {
        lemma_encode_injective(parts.0@, s@.take(k));
        lemma_encode_injective(parts.1@, s@.skip(k));
    }
    parts
}

/// The number of bytes that `c` takes.
pub(crate) fn char_width(c: char) -> (width: usize)
    ensures
        width == encode_utf8(seq![c]).len(),
{
    proof {
        lemma_scalar_bytes(c);
    }
    let code: u32 = c as u32;
    if code < 0x80 {
        1
    } else if code < 0x800 {
        2
    } else if code < 0x10000 {
        3
    } else {
        4
    }
}

/// The byte offset of the first `target` in `s`, an ASCII character.
pub(crate) fn find_ascii(s: &str, target: char) -> (at: Option<usize>)
    requires
        (target as u32) < 0x80,
    ensures
        match s@.index_of_first(target) {
            Some(k) => at matches Some(i) && i == byte_offset(s@, k),
            None => at is None,
        },
        at matches Some(i) ==> i < usize::MAX,
{
    let bytes = s.as_bytes();
    let byte: u8 = target as u8;
    let mut i: usize = 0;
    while i < bytes.len()
        invariant
            i <= bytes@.len(),
            bytes@ == encode_utf8(s@),
            (target as u32) < 0x80,
            byte == target as u8,
            forall|j: int| 0 <= j < i ==> bytes@[j] != byte,
        decreases bytes.len() - i,
    {
        if bytes[i] == byte {
            proof {
                let k = lemma_ascii_byte_char(s@, i as int);
                s@.index_of_first_ensures(target);
                let first = s@.index_of_first(target)->0;
                assert(s@[k] == byte as char);
                assert(s@.contains(target));
                lemma_ascii_char_byte(s@, first);
                if first < k {
                    lemma_offset_monotonic(s@, first, k);
                }
            }
            return Some(i);
        }
        i = i + 1;
    }
    proof {
        s@.index_of_first_ensures(target);
        if s@.contains(target) {
            lemma_ascii_char_byte(s@, s@.index_of_first(target)->0);
        }
    }
    None
}

/// `s` without its last character where that is `c`, and all of `s` where it ends otherwise.
pub open spec fn without_last(s: Seq<char>, c: char) -> Seq<char> {
    if s.len() > 0 && s.last() == c {
        s.drop_last()
    } else {
        s
    }
}

/// Takes one `c`, an ASCII character, off the end of `s`, where `s` ends with it.
pub(crate) fn strip_last_ascii(s: &str, c: char) -> (stripped: &str)
    requires
        (c as u32) < 0x80,
    ensures
        stripped@ == without_last(s@, c),
{
    let bytes = s.as_bytes();
    let len: usize = bytes.len();
    let ghost last = s@.len() - 1;
    proof {
        assert(s@.take(s@.len() as int) =~= s@);
        if s@.len() > 0 && s@.last() == c {
            lemma_ascii_char_byte(s@, last);
        }
    }
    if len > 0 && bytes[len - 1] == c as u8 {
        proof {
            let k = lemma_ascii_byte_char(s@, len - 1);
            lemma_ascii_char_byte(s@, k);
            if k < last {
                lemma_offset_monotonic(s@, k + 1, s@.len() as int);
            }
            assert(s@.take(last) =~= s@.drop_last());
        }
        split_str(s, len - 1, Ghost(last)).0
    } else {
        s
    }
}

/// The length of the longest common prefix of `a` and `b`.
pub open spec fn shared_len(a: Seq<char>, b: Seq<char>) -> int
    decreases a.len(),
{
    if a.len() > 0 && b.len() > 0 && a[0] == b[0] {
        1 + shared_len(a.drop_first(), b.drop_first())
    } else {
        0
    }
}

/// Up to their shared length two texts agree, and they agree no further.
pub proof fn lemma_shared_len(a: Seq<char>, b: Seq<char>)
    ensures
        0 <= shared_len(a, b) <= a.len(),
        shared_len(a, b) <= b.len(),
        a.take(shared_len(a, b)) == b.take(shared_len(a, b)),
        shared_len(a, b) < a.len() && shared_len(a, b) < b.len() ==> a[shared_len(a, b)]
            != b[shared_len(a, b)],
    decreases a.len(),
{
    let n = shared_len(a, b);
    if a.len() > 0 && b.len() > 0 && a[0] == b[0] {
        let x = a.drop_first();
        let y = b.drop_first();
        lemma_shared_len(x, y);
        assert forall|i: int| 0 <= i < n implies #[trigger] a[i] == b[i] by {
            if i > 0 {
                assert(x.take(n - 1)[i - 1] == y.take(n - 1)[i - 1]);
            }
        }
    }
    assert(a.take(n) =~= b.take(n));
}

/// The shared length is where two texts stop agreeing.
pub proof fn lemma_shared_len_unique(a: Seq<char>, b: Seq<char>, n: int)
    requires
        0 <= n <= a.len(),
        n <= b.len(),
        forall|i: int| 0 <= i < n ==> #[trigger] a[i] == b[i],
        n < a.len() && n < b.len() ==> a[n] != b[n],
    ensures
        shared_len(a, b) == n,
{
    lemma_shared_len(a, b);
    let m = shared_len(a, b);
    if m < n {
        assert(a[m] == b[m]);
    } else if n < m {
        assert(a.take(m)[n] == b.take(m)[n]);
    }
}

/// Cuts the longest prefix that `s` shares with `other` off the rest of `s`.
pub(crate) fn split_shared<'a>(s: &'a str, other: &str) -> (parts: (&'a str, &'a str))
    ensures
        parts.0@ == s@.take(shared_len(s@, other@)),
        parts.1@ == s@.skip(shared_len(s@, other@)),
{
    let total: usize = s.as_bytes().len();
    let mut chars = s.chars();
    let mut others = other.chars();
    let mut at: usize = 0;
    let ghost mut k: int = 0;
    assert(s@.skip(0) =~= s@);
    assert(other@.skip(0) =~= other@);
    assert(s@.take(0) =~= Seq::<char>::empty());
    loop
        invariant
            0 <= k <= s@.len(),
            k <= other@.len(),
            at == byte_offset(s@, k),
            total == encode_utf8(s@).len(),
            vstd::std_specs::iter::IteratorSpec::remaining(&chars) == s@.skip(k),
            vstd::std_specs::iter::IteratorSpec::remaining(&others) == other@.skip(k),
            forall|i: int| 0 <= i < k ==> #[trigger] s@[i] == other@[i],
        decreases s@.len() - k,
    {
        match (chars.next(), others.next()) {
            (Some(c), Some(d)) if c == d => {
                proof {
                    lemma_offset_step(s@, k);
                    assert(s@.skip(k).drop_first() =~= s@.skip(k + 1));
                    assert(other@.skip(k).drop_first() =~= other@.skip(k + 1));
                    k = k + 1;
                }
                at = at + char_width(c);
            },
            _ => {
                proof {
                    lemma_shared_len_unique(s@, other@, k);
                }
                return split_str(s, at, Ghost(k));
            },
        }
    }
}

/// Whether `s` starts with `prefix`.
pub(crate) fn starts_with(s: &str, prefix: &str) -> (answer: bool)
    ensures
        answer == prefix@.is_prefix_of(s@),
{
    let mut chars = s.chars();
    let mut wanted = prefix.chars();
    let ghost mut k: int = 0;
    assert(s@.skip(0) =~= s@);
    assert(prefix@.skip(0) =~= prefix@);
    loop
        invariant
            0 <= k <= s@.len(),
            k <= prefix@.len(),
            vstd::std_specs::iter::IteratorSpec::remaining(&chars) == s@.skip(k),
            vstd::std_specs::iter::IteratorSpec::remaining(&wanted) == prefix@.skip(k),
            forall|i: int| 0 <= i < k ==> #[trigger] s@[i] == prefix@[i],
        decreases prefix@.len() - k,
    {
        match wanted.next() {
            None => {
                assert(prefix@ =~= s@.subrange(0, prefix@.len() as int));
                return true;
            },
            Some(w) => {
                match chars.next() {
                    Some(c) if c == w => {
                        proof {
                            assert(s@.skip(k).drop_first() =~= s@.skip(k + 1));
                            assert(prefix@.skip(k).drop_first() =~= prefix@.skip(k + 1));
                            k = k + 1;
                        }
                    },
                    _ => {
                        proof {
                            if prefix@.is_prefix_of(s@) {
                                assert(s@.subrange(0, prefix@.len() as int)[k] == prefix@[k]);
                            }
                        }
                        return false;
                    },
                }
            },
        }
    }
}

} // verus!
