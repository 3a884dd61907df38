//! Byte offsets into UTF-8 text, counted from its characters.

use vstd::prelude::*;
use vstd::utf8::{
    encode_scalar, encode_utf8, encode_utf8_first_scalar, encode_utf8_valid_utf8, is_char_boundary, pop_first_scalar,
};

use crate::text::chars;

verus! {

/// How many bytes a character takes.
pub open spec fn width(c: char) -> nat {
    if (c as u32) < 0x80 {
        1
    } else if (c as u32) < 0x800 {
        2
    } else if (c as u32) < 0x10000 {
        3
    } else {
        4
    }
}

/// How many bytes a character takes.
pub fn width_of(c: char) -> (r: usize)
    ensures
        r == width(c),
        1 <= r <= 4,
{
    let n: u32 = c as u32;
    if n < 0x80 {
        1
    } else if n < 0x800 {
        2
    } else if n < 0x10000 {
        3
    } else {
        4
    }
}

/// Where the `k`-th character starts: the bytes of those before it.
pub open spec fn offset(s: Seq<char>, k: int) -> nat
    decreases k,
{
    if k <= 0 || k > s.len() {
        0
    } else {
        offset(s, k - 1) + width(s[k - 1])
    }
}

/// How many bytes a text takes.
pub open spec fn size(s: Seq<char>) -> nat {
    offset(s, s.len() as int)
}

/// Of the first `k` characters, how many lie in the first `at` bytes.
pub open spec fn fitting(s: Seq<char>, at: int, k: int) -> int
    decreases k,
{
    if k <= 0 {
        0
    } else if offset(s, k) <= at {
        k
    } else {
        fitting(s, at, k - 1)
    }
}

/// How many characters lie whole in the first `at` bytes.
pub open spec fn index(s: Seq<char>, at: int) -> int {
    fitting(s, at, s.len() as int)
}

/// Offsets grow with every character.
pub proof fn lemma_offset_mono(s: Seq<char>, i: int, j: int)
    requires
        0 <= i <= j <= s.len(),
    ensures
        offset(s, i) + (j - i) <= offset(s, j) <= offset(s, i) + 4 * (j - i),
    decreases j - i,
{
    if i < j {
        lemma_offset_mono(s, i, j - 1);
    }
}

/// Offsets depend on what comes before alone.
pub proof fn lemma_offset_prefix(s: Seq<char>, t: Seq<char>, k: int)
    requires
        0 <= k <= s.len(),
        k <= t.len(),
        forall|i: int| 0 <= i < k ==> s[i] == t[i],
    ensures
        offset(s, k) == offset(t, k),
    decreases k,
{
    if k > 0 {
        lemma_offset_prefix(s, t, k - 1);
    }
}

/// A text of two parts is as long as both.
pub proof fn lemma_offset_concat(s: Seq<char>, t: Seq<char>, k: int)
    requires
        0 <= k <= t.len(),
    ensures
        offset(s + t, s.len() + k) == size(s) + offset(t, k),
    decreases k,
{
    if k > 0 {
        lemma_offset_concat(s, t, k - 1);
        assert((s + t)[s.len() + k - 1] == t[k - 1]);
    } else {
        lemma_offset_prefix(s + t, s, s.len() as int);
    }
}

/// The number of whole characters is the greatest whose bytes fit.
pub proof fn lemma_index(s: Seq<char>, at: int)
    requires
        0 <= at,
    ensures
        0 <= index(s, at) <= s.len(),
        offset(s, index(s, at)) <= at,
        index(s, at) < s.len() ==> at < offset(s, index(s, at) + 1),
{
    lemma_fitting(s, at, s.len() as int);
}

proof fn lemma_fitting(s: Seq<char>, at: int, k: int)
    requires
        0 <= at,
        0 <= k <= s.len(),
    ensures
        0 <= fitting(s, at, k) <= k,
        offset(s, fitting(s, at, k)) <= at,
        fitting(s, at, k) < k ==> at < offset(s, fitting(s, at, k) + 1),
    decreases k,
{
    if k > 0 && offset(s, k) > at {
        lemma_fitting(s, at, k - 1);
    }
}

/// Any number of characters whose bytes fit, while one more would not, is the
/// number of whole characters.
pub proof fn lemma_index_is(s: Seq<char>, at: int, k: int)
    requires
        0 <= k <= s.len(),
        offset(s, k) <= at,
        k < s.len() ==> at < offset(s, k + 1),
    ensures
        index(s, at) == k,
{
    lemma_index(s, at);
    let i = index(s, at);
    if i < k {
        lemma_offset_mono(s, i + 1, k);
    } else if k < i {
        lemma_offset_mono(s, k + 1, i);
    }
}

/// Going from a character to its byte and back leads to the same character.
pub proof fn law_index_of_offset(s: Seq<char>, k: int)
    requires
        0 <= k <= s.len(),
    ensures
        index(s, offset(s, k) as int) == k,
{
    lemma_index_is(s, offset(s, k) as int, k);
}

/// How many characters lie whole in the first `at` bytes.
pub fn index_at(v: &Vec<char>, at: usize) -> (r: usize)
    ensures
        r == index(v@, at as int),
        r <= v@.len(),
{
    let n: usize = v.len();
    let mut k: usize = 0;
    let mut o: usize = 0;
    while k < n && width_of(v[k]) <= at - o
        invariant
            k <= n == v@.len(),
            o <= at,
            o == offset(v@, k as int),
        decreases n - k,
    {
        o = o + width_of(v[k]);
        k = k + 1;
    }
    proof {
        lemma_index_is(v@, at as int, k as int);
    }
    k
}

/// Where the `k`-th character starts.
pub fn offset_of(v: &Vec<char>, k: usize) -> (r: usize)
    requires
        k <= v@.len(),
        offset(v@, k as int) <= usize::MAX,
    ensures
        r == offset(v@, k as int),
{
    let mut i: usize = 0;
    let mut o: usize = 0;
    while i < k
        invariant
            i <= k <= v@.len(),
            o == offset(v@, i as int),
            offset(v@, k as int) <= usize::MAX,
        decreases k - i,
    {
        proof {
            lemma_offset_mono(v@, i + 1, k as int);
        }
        o = o + width_of(v[i]);
        i = i + 1;
    }
    o
}

/// Clamp a byte index to the nearest char boundary at or below it.
pub fn clamp_boundary(s: &str, i: usize) -> (r: usize)
    ensures
        r == offset(s@, index(s@, i as int)),
        r <= i,
{
    let v = chars(s);
    let k: usize = index_at(&v, i);
    proof {
        lemma_index(s@, i as int);
    }
    offset_of(&v, k)
}

proof fn lemma_encoded_width(c: char)
    ensures
        encode_scalar(c as u32).len() == width(c),
{
}

proof fn lemma_size_cons(s: Seq<char>, k: int)
    requires
        0 < k <= s.len(),
    ensures
        offset(s, k) == width(s[0]) + offset(s.drop_first(), k - 1),
    decreases k,
{
    if k > 1 {
        lemma_size_cons(s, k - 1);
        assert(s.drop_first()[k - 2] == s[k - 1]);
    } else {
        assert(offset(s, 1) == offset(s, 0) + width(s[0]));
    }
}

/// The size of a text is the number of bytes that encode it.
pub proof fn law_size_counts_bytes(s: Seq<char>)
    ensures
        size(s) == encode_utf8(s).len(),
    decreases s.len(),
{
    if s.len() > 0 {
        law_size_counts_bytes(s.drop_first());
        lemma_encoded_width(s[0]);
        lemma_size_cons(s, s.len() as int);
    }
}

/// The offset of every character is a boundary of the bytes that encode the text,
/// and every boundary is the offset of a character.
pub proof fn law_offsets_are_boundaries(s: Seq<char>, at: int)
    ensures
        is_char_boundary(encode_utf8(s), at) <==> exists|k: int| 0 <= k <= s.len() && #[trigger] offset(s, k) == at,
    decreases s.len(),
{
    let b = encode_utf8(s);
    encode_utf8_valid_utf8(s);
    law_size_counts_bytes(s);
    if at == 0 {
        assert(offset(s, 0) == at);
    } else if at < 0 || b.len() < at {
        assert forall|k: int| 0 <= k <= s.len() implies #[trigger] offset(s, k) != at by {
            lemma_offset_mono(s, k, s.len() as int);
        }
    } else {
        let t = s.drop_first();
        encode_utf8_first_scalar(s);
        lemma_encoded_width(s[0]);
        assert(pop_first_scalar(b) =~= encode_utf8(t));
        law_offsets_are_boundaries(t, at - width(s[0]));
        if is_char_boundary(b, at) {
            let j = choose|j: int| 0 <= j <= t.len() && #[trigger] offset(t, j) == at - width(s[0]);
            lemma_size_cons(s, j + 1);
            assert(offset(s, j + 1) == at);
        }
        if exists|k: int| 0 <= k <= s.len() && #[trigger] offset(s, k) == at {
            let k = choose|k: int| 0 <= k <= s.len() && #[trigger] offset(s, k) == at;
            lemma_size_cons(s, k);
            assert(offset(t, k - 1) == at - width(s[0]));
        }
    }
}

/// The byte index of a character column (clamped to the end of the line).
pub fn col_to_byte(line: &str, col: usize) -> (r: usize)
    ensures
        r == offset(line@, if col < line@.len() { col as int } else { line@.len() as int }),
{
    let v = chars(line);
    let n: usize = v.len();
    let k: usize = if col < n {
        col
    } else {
        n
    };
    let bytes = line.as_bytes();
    let size: usize = bytes.len();
    proof {
        law_size_counts_bytes(line@);
        lemma_offset_mono(line@, k as int, n as int);
    }
    offset_of(&v, k)
}

/// The character column of a byte index within a line.
pub fn byte_to_col(line: &str, byte: usize) -> (r: usize)
    requires
        byte >= size(line@) || exists|k: int| 0 <= k <= line@.len() && #[trigger] offset(line@, k) == byte,
    ensures
        r == index(line@, byte as int),
        r <= line@.len(),
{
    let v = chars(line);
    index_at(&v, byte)
}

/// A column's byte leads back to the column.
pub proof fn law_col_round_trip(s: Seq<char>, col: int)
    requires
        0 <= col <= s.len(),
    ensures
        index(s, offset(s, col) as int) == col,
        offset(s, col) <= size(s),
{
    law_index_of_offset(s, col);
    lemma_offset_mono(s, col, s.len() as int);
}

} // verus!
