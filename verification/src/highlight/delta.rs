//! The net change between two texts, as one edit.

use vstd::prelude::*;

use crate::text::{chars, same};
use crate::utf8::{law_size_counts_bytes, lemma_offset_mono, offset, offset_of, size, width, width_of};

verus! {

/// A position in a text: the row, and the column in bytes.
#[derive(Clone, Copy, PartialEq, Eq, Structural, Debug)]
pub struct Point {
    pub row: usize,
    pub column: usize,
}

/// A change to a text: the bytes that it takes out and those that it puts in.
#[derive(Clone, Copy, PartialEq, Eq, Structural, Debug)]
pub struct TextEdit {
    pub start_byte: usize,
    pub old_end_byte: usize,
    pub new_end_byte: usize,
    pub start_position: Point,
    pub old_end_position: Point,
    pub new_end_position: Point,
}

impl View for TextEdit {
    type V = Seq<int>;

    open spec fn view(&self) -> Seq<int> {
        seq![
            self.start_byte as int,
            self.old_end_byte as int,
            self.new_end_byte as int,
            self.start_position.row as int,
            self.start_position.column as int,
            self.old_end_position.row as int,
            self.old_end_position.column as int,
            self.new_end_position.row as int,
            self.new_end_position.column as int,
        ]
    }
}

/// The row of a character: the line endings before it.
pub open spec fn row(s: Seq<char>, k: int) -> int
    decreases k,
{
    if k <= 0 || k > s.len() {
        0
    } else {
        row(s, k - 1) + if s[k - 1] == '\n' { 1int } else { 0 }
    }
}

/// The column of a character, in bytes since the last line ending before it.
pub open spec fn column(s: Seq<char>, k: int) -> int
    decreases k,
{
    if k <= 0 || k > s.len() || s[k - 1] == '\n' {
        0
    } else {
        column(s, k - 1) + width(s[k - 1])
    }
}

/// Whether two texts begin with the same `p` characters and end with the same `e`
/// others.
pub open spec fn same_ends(old_text: Seq<char>, new_text: Seq<char>, p: int, e: int) -> bool {
    &&& 0 <= p
    &&& 0 <= e
    &&& p + e <= old_text.len()
    &&& p + e <= new_text.len()
    &&& old_text.take(p) == new_text.take(p)
    &&& old_text.skip(old_text.len() - e) == new_text.skip(new_text.len() - e)
}

/// The edit that replaces all but the first `p` and the last `e` characters.
pub open spec fn edit_between(old_text: Seq<char>, new_text: Seq<char>, p: int, e: int) -> Seq<int> {
    let oe = old_text.len() - e;
    let ne = new_text.len() - e;
    seq![
        offset(old_text, p) as int,
        offset(old_text, oe) as int,
        offset(new_text, ne) as int,
        row(old_text, p),
        column(old_text, p),
        row(old_text, oe),
        column(old_text, oe),
        row(new_text, ne),
        column(new_text, ne),
    ]
}

/// Whether an edit leads from one text to another.
pub open spec fn describes(edit: Seq<int>, old_text: Seq<char>, new_text: Seq<char>) -> bool {
    exists|p: int, e: int| #[trigger]
        same_ends(old_text, new_text, p, e) && edit == edit_between(old_text, new_text, p, e)
}

/// How many characters two texts begin with in common, from `i` on.
pub open spec fn common_prefix(a: Seq<char>, b: Seq<char>, i: int) -> int
    decreases a.len() - i,
{
    if 0 <= i < a.len() && i < b.len() && a[i] == b[i] {
        common_prefix(a, b, i + 1)
    } else {
        i
    }
}

/// How many characters two texts end with in common, from `i` on and at most `max`.
pub open spec fn common_suffix(a: Seq<char>, b: Seq<char>, max: int, i: int) -> int
    decreases max - i,
{
    if 0 <= i < max && i < a.len() && i < b.len() && a[a.len() - 1 - i] == b[b.len() - 1 - i] {
        common_suffix(a, b, max, i + 1)
    } else {
        i
    }
}

/// The common beginning and end of two texts, as long as they can be.
pub open spec fn ends(old_text: Seq<char>, new_text: Seq<char>) -> (int, int) {
    let p = common_prefix(old_text, new_text, 0);
    let shorter = if old_text.len() < new_text.len() { old_text.len() } else { new_text.len() };
    (p, common_suffix(old_text, new_text, shorter - p, 0))
}

proof fn lemma_prefix(a: Seq<char>, b: Seq<char>, i: int)
    requires
        0 <= i <= a.len(),
        i <= b.len(),
        forall|k: int| 0 <= k < i ==> a[k] == b[k],
    ensures
        ({
            let p = common_prefix(a, b, i);
            &&& i <= p <= a.len()
            &&& p <= b.len()
            &&& forall|k: int| 0 <= k < p ==> a[k] == b[k]
        }),
    decreases a.len() - i,
{
    if i < a.len() && i < b.len() && a[i] == b[i] {
        lemma_prefix(a, b, i + 1);
    }
}

proof fn lemma_suffix(a: Seq<char>, b: Seq<char>, max: int, i: int)
    requires
        0 <= i <= max,
        max <= a.len(),
        max <= b.len(),
        forall|k: int| 0 <= k < i ==> #[trigger] a[a.len() - 1 - k] == b[b.len() - 1 - k],
    ensures
        ({
            let e = common_suffix(a, b, max, i);
            &&& i <= e <= max
            &&& forall|k: int| 0 <= k < e ==> #[trigger] a[a.len() - 1 - k] == b[b.len() - 1 - k]
        }),
    decreases max - i,
{
    if i < max && a[a.len() - 1 - i] == b[b.len() - 1 - i] {
        lemma_suffix(a, b, max, i + 1);
    }
}

/// The edit between two texts leads from the one to the other: it keeps what they
/// begin and end with, and replaces what lies between.
pub proof fn law_edit_describes_change(old_text: Seq<char>, new_text: Seq<char>)
    ensures
        ({
            let (p, e) = ends(old_text, new_text);
            &&& same_ends(old_text, new_text, p, e)
            &&& describes(edit_between(old_text, new_text, p, e), old_text, new_text)
            &&& new_text == old_text.take(p) + new_text.subrange(p, new_text.len() - e) + old_text.skip(
                old_text.len() - e,
            )
        }),
{
    let (p, e) = ends(old_text, new_text);
    let shorter = if old_text.len() < new_text.len() { old_text.len() } else { new_text.len() };
    lemma_prefix(old_text, new_text, 0);
    lemma_suffix(old_text, new_text, shorter - p, 0);
    assert(old_text.take(p) =~= new_text.take(p));
    let was = old_text.skip(old_text.len() - e);
    let now = new_text.skip(new_text.len() - e);
    assert forall|i: int| 0 <= i < e implies #[trigger] was[i] == now[i] by {
        assert(old_text[old_text.len() - 1 - (e - 1 - i)] == new_text[new_text.len() - 1 - (e - 1 - i)]);
    }
    assert(was =~= now);
    assert(same_ends(old_text, new_text, p, e));
    assert(new_text =~= old_text.take(p) + new_text.subrange(p, new_text.len() - e) + old_text.skip(
        old_text.len() - e,
    ));
}

proof fn lemma_point_bounds(s: Seq<char>, k: int)
    requires
        0 <= k <= s.len(),
    ensures
        0 <= row(s, k) <= offset(s, k),
        0 <= column(s, k) <= offset(s, k),
    decreases k,
{
    if k > 0 {
        lemma_point_bounds(s, k - 1);
        assert(offset(s, k) == offset(s, k - 1) + width(s[k - 1]));
    }
}

/// Whether every byte, row and column of an edit fits in 32 bits.
pub open spec fn narrow(edit: Seq<int>) -> bool {
    forall|i: int| 0 <= i < edit.len() ==> 0 <= #[trigger] edit[i] <= u32::MAX
}

/// The edit between two texts whose bytes can be counted in 32 bits is narrow.
pub proof fn law_edit_of_small_texts_is_narrow(old_text: Seq<char>, new_text: Seq<char>)
    requires
        size(old_text) <= u32::MAX,
        size(new_text) <= u32::MAX,
    ensures
        ({
            let (p, e) = ends(old_text, new_text);
            narrow(edit_between(old_text, new_text, p, e))
        }),
{
    let (p, e) = ends(old_text, new_text);
    law_edit_describes_change(old_text, new_text);
    let oe = old_text.len() - e;
    let ne = new_text.len() - e;
    lemma_point_bounds(old_text, p);
    lemma_point_bounds(old_text, oe);
    lemma_point_bounds(new_text, ne);
    lemma_offset_mono(old_text, p, old_text.len() as int);
    lemma_offset_mono(old_text, oe, old_text.len() as int);
    lemma_offset_mono(new_text, ne, new_text.len() as int);
}

/// The position (row, byte-column) of a character.
pub fn point_at(v: &Vec<char>, k: usize) -> (r: Point)
    requires
        k <= v@.len(),
        offset(v@, k as int) <= usize::MAX,
    ensures
        r.row == row(v@, k as int),
        r.column == column(v@, k as int),
{
    let mut r: usize = 0;
    let mut c: usize = 0;
    let mut i: usize = 0;
    while i < k
        invariant
            i <= k <= v@.len(),
            offset(v@, k as int) <= usize::MAX,
            r == row(v@, i as int),
            c == column(v@, i as int),
        decreases k - i,
    {
        proof {
            lemma_point_bounds(v@, i as int);
            lemma_point_bounds(v@, i + 1);
            lemma_offset_mono(v@, i + 1, k as int);
        }
        if v[i] == '\n' {
            r = r + 1;
            c = 0;
        } else {
            c = c + width_of(v[i]);
        }
        i = i + 1;
    }
    Point { row: r, column: c }
}

/// A single edit describing the net change between `old_text` and `new_text` as a
/// common-prefix/suffix diff (None if identical). The offsets are those of whole
/// characters, so a parser never sees a split codepoint.
pub fn text_edit(old_text: &str, new_text: &str) -> (r: Option<TextEdit>)
    ensures
        match r {
            Some(t) => {
                let (p, e) = ends(old_text@, new_text@);
                old_text@ != new_text@ && t@ == edit_between(old_text@, new_text@, p, e)
            },
            None => old_text@ == new_text@,
        },
{
    if same(old_text, new_text) {
        return None;
    }
    let a = chars(old_text);
    let b = chars(new_text);
    let n: usize = a.len();
    let m: usize = b.len();
    let old_bytes = old_text.as_bytes();
    let old_size: usize = old_bytes.len();
    let new_bytes = new_text.as_bytes();
    let new_size: usize = new_bytes.len();
    let mut p: usize = 0;
    while p < n && p < m && a[p] == b[p]
        invariant
            p <= n == a@.len(),
            p <= m == b@.len(),
            common_prefix(a@, b@, 0) == common_prefix(a@, b@, p as int),
        decreases n - p,
    {
        p = p + 1;
    }
    let shorter: usize = if n < m {
        n
    } else {
        m
    };
    let max: usize = shorter - p;
    let mut e: usize = 0;
    while e < max && a[n - 1 - e] == b[m - 1 - e]
        invariant
            e <= max <= n == a@.len(),
            max <= m == b@.len(),
            common_suffix(a@, b@, max as int, 0) == common_suffix(a@, b@, max as int, e as int),
        decreases max - e,
    {
        e = e + 1;
    }
    proof {
        law_size_counts_bytes(old_text@);
        law_size_counts_bytes(new_text@);
        lemma_offset_mono(a@, p as int, n as int);
        lemma_offset_mono(a@, n - e, n as int);
        lemma_offset_mono(b@, m - e, m as int);
    }
    let t = TextEdit {
        start_byte: offset_of(&a, p),
        old_end_byte: offset_of(&a, n - e),
        new_end_byte: offset_of(&b, m - e),
        start_position: point_at(&a, p),
        old_end_position: point_at(&a, n - e),
        new_end_position: point_at(&b, m - e),
    };
    assert(t@ =~= edit_between(old_text@, new_text@, p as int, e as int));
    Some(t)
}

/// A row counts the line endings before it: none where there is none, one more behind each.
pub proof fn law_rows_count_line_endings(s: Seq<char>, j: int, k: int)
    requires
        0 <= j <= k <= s.len(),
        forall|i: int| j <= i < k ==> #[trigger] s[i] != '\n',
    ensures
        row(s, 0) == 0,
        row(s, k) == row(s, j),
        k < s.len() && s[k] == '\n' ==> row(s, k + 1) == row(s, j) + 1,
    decreases k - j,
{
    if j < k {
        law_rows_count_line_endings(s, j, k - 1);
        assert(s[k - 1] != '\n');
    }
}

/// A column counts the bytes since the last line ending, or since the start of the text.
pub proof fn law_columns_count_bytes_of_the_line(s: Seq<char>, j: int, k: int)
    requires
        0 <= j <= k <= s.len(),
        j == 0 || s[j - 1] == '\n',
        forall|i: int| j <= i < k ==> #[trigger] s[i] != '\n',
    ensures
        column(s, k) == offset(s, k) - offset(s, j),
    decreases k - j,
{
    if j < k {
        law_columns_count_bytes_of_the_line(s, j, k - 1);
        assert(s[k - 1] != '\n');
    }
}

/// What two texts have in common at their ends is as long as it can be: behind the beginning
/// they differ, and before the end they differ unless the beginning reaches there.
pub proof fn law_common_ends_are_the_longest(old_text: Seq<char>, new_text: Seq<char>)
    ensures
        ({
            let (p, e) = ends(old_text, new_text);
            &&& p < old_text.len() && p < new_text.len() ==> old_text[p] != new_text[p]
            &&& p + e < old_text.len() && p + e < new_text.len() ==> old_text[old_text.len() - 1 - e]
                != new_text[new_text.len() - 1 - e]
        }),
{
    lemma_prefix(old_text, new_text, 0);
    let p = common_prefix(old_text, new_text, 0);
    let shorter = if old_text.len() < new_text.len() { old_text.len() } else { new_text.len() };
    lemma_prefix_stops(old_text, new_text, 0);
    lemma_suffix_stops(old_text, new_text, shorter - p, 0);
}

proof fn lemma_prefix_stops(a: Seq<char>, b: Seq<char>, i: int)
    requires
        0 <= i,
    ensures
        ({
            let p = common_prefix(a, b, i);
            p < a.len() && p < b.len() ==> a[p] != b[p]
        }),
    decreases a.len() - i,
{
    if i < a.len() && i < b.len() && a[i] == b[i] {
        lemma_prefix_stops(a, b, i + 1);
    }
}

proof fn lemma_suffix_stops(a: Seq<char>, b: Seq<char>, max: int, i: int)
    requires
        0 <= i,
    ensures
        ({
            let e = common_suffix(a, b, max, i);
            e < max && e < a.len() && e < b.len() ==> a[a.len() - 1 - e] != b[b.len() - 1 - e]
        }),
    decreases max - i,
{
    if i < max && i < a.len() && i < b.len() && a[a.len() - 1 - i] == b[b.len() - 1 - i] {
        lemma_suffix_stops(a, b, max, i + 1);
    }
}

} // verus!
