//! Text as sequences of characters: the few operations on strings that the rest
//! of the library is written with, each with an exact meaning.

use vstd::prelude::*;
use vstd::string::StringExecFns;

verus! {

// ---------------------------------------------------------------------------
// Characters
// ---------------------------------------------------------------------------

/// Unicode's `White_Space` property.
pub open spec fn white_space(c: char) -> bool {
    ||| c == ' '
    ||| '\u{9}' <= c <= '\u{d}'
    ||| c == '\u{85}'
    ||| c == '\u{a0}'
    ||| c == '\u{1680}'
    ||| '\u{2000}' <= c <= '\u{200a}'
    ||| c == '\u{2028}'
    ||| c == '\u{2029}'
    ||| c == '\u{202f}'
    ||| c == '\u{205f}'
    ||| c == '\u{3000}'
}

/// Whether `c` is white space.
pub fn is_whitespace(c: char) -> (b: bool)
    ensures
        b == white_space(c),
{
    c == ' ' || ('\u{9}' <= c && c <= '\u{d}') || c == '\u{85}' || c == '\u{a0}' || c == '\u{1680}'
        || ('\u{2000}' <= c && c <= '\u{200a}') || c == '\u{2028}' || c == '\u{2029}'
        || c == '\u{202f}' || c == '\u{205f}' || c == '\u{3000}'
}

/// An ASCII digit.
pub open spec fn ascii_digit(c: char) -> bool {
    '0' <= c <= '9'
}

/// Whether `c` is an ASCII digit.
pub fn is_digit(c: char) -> (b: bool)
    ensures
        b == ascii_digit(c),
{
    '0' <= c && c <= '9'
}

/// An ASCII letter.
pub open spec fn ascii_letter(c: char) -> bool {
    'a' <= c <= 'z' || 'A' <= c <= 'Z'
}

/// `c` with an ASCII capital letter made small.
pub open spec fn ascii_lower(c: char) -> char {
    if 'A' <= c <= 'Z' {
        (c as u32 + 32) as char
    } else {
        c
    }
}

/// `c` with an ASCII capital letter made small.
pub fn to_ascii_lower(c: char) -> (r: char)
    ensures
        r == ascii_lower(c),
{
    if 'A' <= c && c <= 'Z' {
        ((c as u8) + 32) as char
    } else {
        c
    }
}

/// What `char::is_alphanumeric` answers: a letter or a number of any script.
pub uninterp spec fn alphanumeric(c: char) -> bool;

/// `char::is_alphanumeric` answers by the character alone: a letter or a number of any
/// script, so no white space. Among the ASCII characters the letters and the digits
/// are alphanumeric and no others.
pub assume_specification[ char::is_alphanumeric ](c: char) -> (b: bool)
    ensures
        b == alphanumeric(c),
        b ==> !white_space(c),
        c <= '\u{7f}' ==> b == (ascii_letter(c) || ascii_digit(c)),
;

/// What `char::to_lowercase` yields.
pub uninterp spec fn lowercase(c: char) -> Seq<char>;

/// Collects `char::to_lowercase`, which maps by the character alone. An ASCII
/// character has its ASCII small letter, or itself, as its only image.
#[verifier::external_body]
pub(crate) fn lower(c: char) -> (r: Vec<char>)
    ensures
        r@ == lowercase(c),
        c <= '\u{7f}' ==> r@ == seq![ascii_lower(c)],
{
    c.to_lowercase().collect()
}

// ---------------------------------------------------------------------------
// Strings and vectors of characters
// ---------------------------------------------------------------------------

/// `String::push` appends one character.
pub assume_specification[ String::push ](s: &mut String, c: char)
    ensures
        final(s)@ == old(s)@.push(c),
;

/// The texts of a sequence of strings.
pub open spec fn texts(v: Seq<String>) -> Seq<Seq<char>> {
    Seq::new(v.len(), |i: int| v[i]@)
}

/// The characters of `s`.
pub fn chars(s: &str) -> (r: Vec<char>)
    ensures
        r@ == s@,
{
    let mut out: Vec<char> = Vec::new();
    for c in it: s.chars()
        invariant
            out@ == it.seq().take(it.index() as int),
            it.seq() == s@,
    {
        out.push(c);
    }
    out
}

/// The string of characters `v[from..to]`.
pub fn from_range(v: &Vec<char>, from: usize, to: usize) -> (r: String)
    requires
        from <= to <= v@.len(),
    ensures
        r@ == v@.subrange(from as int, to as int),
{
    let mut out = String::new();
    let mut i: usize = from;
    while i < to
        invariant
            from <= i <= to <= v@.len(),
            out@ == v@.subrange(from as int, i as int),
        decreases to - i,
    {
        out.push(v[i]);
        i = i + 1;
    }
    out
}

/// The string of the characters of `v`.
pub fn from_chars(v: &Vec<char>) -> (r: String)
    ensures
        r@ == v@,
{
    let n: usize = v.len();
    let r = from_range(v, 0, n);
    assert(v@.subrange(0, n as int) =~= v@);
    r
}

/// Whether two texts are equal.
pub fn same(a: &str, b: &str) -> (r: bool)
    ensures
        r == (a@ == b@),
{
    a.to_owned() == b.to_owned()
}

/// Whether `v` holds exactly the characters of `s`.
pub fn vec_is(v: &Vec<char>, s: &str) -> (r: bool)
    ensures
        r == (v@ == s@),
{
    let w = chars(s);
    if v.len() != w.len() {
        return false;
    }
    let mut i: usize = 0;
    while i < v.len()
        invariant
            i <= v@.len(),
            v@.len() == w@.len(),
            w@ == s@,
            forall|k: int| 0 <= k < i ==> v@[k] == w@[k],
        decreases v@.len() - i,
    {
        if v[i] != w[i] {
            return false;
        }
        i = i + 1;
    }
    assert(v@ =~= s@);
    true
}

/// The concatenation of two texts.
pub fn join2(a: &str, b: &str) -> (r: String)
    ensures
        r@ == a@ + b@,
{
    let mut out = a.to_owned();
    out.append(b);
    out
}

/// The concatenation of three texts.
pub fn join3(a: &str, b: &str, c: &str) -> (r: String)
    ensures
        r@ == a@ + b@ + c@,
{
    let mut out = a.to_owned();
    out.append(b);
    out.append(c);
    out
}


// ---------------------------------------------------------------------------
// Runs, trimming and prefixes
// ---------------------------------------------------------------------------

/// How many characters at the start of `s` satisfy `p`, up to the first that does not.
pub open spec fn run(s: Seq<char>, p: spec_fn(char) -> bool) -> nat
    decreases s.len(),
{
    if s.len() > 0 && p(s[0]) {
        1 + run(s.skip(1), p)
    } else {
        0
    }
}

/// How many characters at the end of `s` satisfy `p`, back to the last that does not.
pub open spec fn run_back(s: Seq<char>, p: spec_fn(char) -> bool) -> nat
    decreases s.len(),
{
    if s.len() > 0 && p(s.last()) {
        1 + run_back(s.drop_last(), p)
    } else {
        0
    }
}

/// A run is the longest prefix of characters that satisfy `p`.
pub proof fn lemma_run(s: Seq<char>, p: spec_fn(char) -> bool, n: nat)
    requires
        n <= s.len(),
        forall|k: int| 0 <= k < n ==> p(#[trigger] s[k]),
        n < s.len() ==> !p(s[n as int]),
    ensures
        run(s, p) == n,
    decreases n,
{
    if n > 0 {
        let t = s.skip(1);
        assert forall|k: int| 0 <= k < n - 1 implies p(#[trigger] t[k]) by {
            assert(t[k] == s[k + 1]);
        }
        lemma_run(t, p, (n - 1) as nat);
        assert(p(s[0]));
    }
}

/// What a run consists of.
pub proof fn lemma_run_is(s: Seq<char>, p: spec_fn(char) -> bool)
    ensures
        run(s, p) <= s.len(),
        forall|k: int| 0 <= k < run(s, p) ==> p(#[trigger] s[k]),
        run(s, p) < s.len() ==> !p(s[run(s, p) as int]),
    decreases s.len(),
{
    if s.len() > 0 && p(s[0]) {
        let t = s.skip(1);
        lemma_run_is(t, p);
        assert forall|k: int| 0 <= k < run(s, p) implies p(#[trigger] s[k]) by {
            if k > 0 {
                assert(t[k - 1] == s[k]);
            }
        }
        if run(s, p) < s.len() {
            assert(t[run(t, p) as int] == s[run(s, p) as int]);
        }
    }
}

/// A run at the end is the longest suffix of characters that satisfy `p`.
pub proof fn lemma_run_back_holds(s: Seq<char>, p: spec_fn(char) -> bool)
    ensures
        run_back(s, p) <= s.len(),
        forall|k: int| s.len() - run_back(s, p) <= k < s.len() ==> p(#[trigger] s[k]),
        run_back(s, p) < s.len() ==> !p(s[s.len() - run_back(s, p) - 1]),
    decreases s.len(),
{
    if s.len() > 0 && p(s.last()) {
        lemma_run_back_holds(s.drop_last(), p);
        assert forall|k: int| s.len() - run_back(s, p) <= k < s.len() implies p(#[trigger] s[k]) by {
            if k < s.len() - 1 {
                assert(s.drop_last()[k] == s[k]);
            }
        }
    }
}

/// The run at the end is the longest suffix of characters that satisfy `p`.
pub proof fn lemma_run_back(s: Seq<char>, p: spec_fn(char) -> bool, n: nat)
    requires
        n <= s.len(),
        forall|k: int| s.len() - n <= k < s.len() ==> p(#[trigger] s[k]),
        n < s.len() ==> !p(s[s.len() - n - 1]),
    ensures
        run_back(s, p) == n,
    decreases n,
{
    if n > 0 {
        let t = s.drop_last();
        assert forall|k: int| t.len() - (n - 1) <= k < t.len() implies p(#[trigger] t[k]) by {
            assert(t[k] == s[k]);
        }
        lemma_run_back(t, p, (n - 1) as nat);
        assert(p(s[s.len() - 1]));
    }
}

/// White space as a predicate on characters.
pub open spec fn ws() -> spec_fn(char) -> bool {
    |c: char| white_space(c)
}

/// `s` without its leading white space.
pub open spec fn trim_start(s: Seq<char>) -> Seq<char> {
    s.skip(run(s, ws()) as int)
}

/// `s` without its trailing white space.
pub open spec fn trim_end(s: Seq<char>) -> Seq<char> {
    s.take(s.len() - run_back(s, ws()))
}

/// `s` without leading and trailing white space.
pub open spec fn trim(s: Seq<char>) -> Seq<char> {
    trim_end(trim_start(s))
}

/// How many characters of white space `v` starts with, from `from` on.
pub fn ws_run(v: &Vec<char>) -> (n: usize)
    ensures
        n <= v@.len(),
        n == run(v@, ws()),
{
    let mut i: usize = 0;
    while i < v.len() && is_whitespace(v[i])
        invariant
            i <= v@.len(),
            forall|k: int| 0 <= k < i ==> ws()(#[trigger] v@[k]),
        decreases v@.len() - i,
    {
        i = i + 1;
    }
    proof {
        lemma_run(v@, ws(), i as nat);
    }
    i
}

/// The length of `v` without its trailing white space.
pub fn trimmed_len(v: &Vec<char>) -> (n: usize)
    ensures
        n <= v@.len(),
        n == v@.len() - run_back(v@, ws()),
        v@.take(n as int) == trim_end(v@),
{
    let mut i: usize = v.len();
    while i > 0 && is_whitespace(v[i - 1])
        invariant
            i <= v@.len(),
            forall|k: int| i <= k < v@.len() ==> ws()(#[trigger] v@[k]),
        decreases i,
    {
        i = i - 1;
    }
    proof {
        lemma_run_back(v@, ws(), (v@.len() - i) as nat);
    }
    i
}

/// The characters of `v[from..to]`.
pub fn slice(v: &Vec<char>, from: usize, to: usize) -> (r: Vec<char>)
    requires
        from <= to <= v@.len(),
    ensures
        r@ == v@.subrange(from as int, to as int),
{
    let mut out: Vec<char> = Vec::new();
    let mut i: usize = from;
    while i < to
        invariant
            from <= i <= to <= v@.len(),
            out@ == v@.subrange(from as int, i as int),
        decreases to - i,
    {
        out.push(v[i]);
        i = i + 1;
    }
    out
}

/// `s` without its leading white space.
pub fn trim_start_str(s: &str) -> (r: String)
    ensures
        r@ == trim_start(s@),
{
    let v = chars(s);
    let n: usize = ws_run(&v);
    let len: usize = v.len();
    from_range(&v, n, len)
}

/// `s` without its trailing white space.
pub fn trim_end_str(s: &str) -> (r: String)
    ensures
        r@ == trim_end(s@),
{
    let v = chars(s);
    let n: usize = trimmed_len(&v);
    from_range(&v, 0, n)
}

/// `s` without leading and trailing white space.
pub fn trim_str(s: &str) -> (r: String)
    ensures
        r@ == trim(s@),
{
    let v = chars(s);
    let n: usize = ws_run(&v);
    let len: usize = v.len();
    let w = slice(&v, n, len);
    let m: usize = trimmed_len(&w);
    from_range(&w, 0, m)
}

/// `s` starts with `p`.
pub open spec fn starts_with(s: Seq<char>, p: Seq<char>) -> bool {
    p.len() <= s.len() && s.take(p.len() as int) == p
}

/// Whether the characters `v` start with `p`.
pub fn vec_starts_with(v: &Vec<char>, p: &Vec<char>) -> (r: bool)
    ensures
        r == starts_with(v@, p@),
{
    if p.len() > v.len() {
        return false;
    }
    let mut i: usize = 0;
    while i < p.len()
        invariant
            i <= p@.len() <= v@.len(),
            forall|k: int| 0 <= k < i ==> v@[k] == p@[k],
        decreases p@.len() - i,
    {
        if v[i] != p[i] {
            assert(v@.take(p@.len() as int)[i as int] != p@[i as int]);
            return false;
        }
        i = i + 1;
    }
    assert(v@.take(p@.len() as int) =~= p@);
    true
}

/// Whether `s` starts with `p`.
pub fn str_starts_with(s: &str, p: &str) -> (r: bool)
    ensures
        r == starts_with(s@, p@),
{
    let v = chars(s);
    let w = chars(p);
    vec_starts_with(&v, &w)
}

/// `s` ends with `p`.
pub open spec fn ends_with(s: Seq<char>, p: Seq<char>) -> bool {
    p.len() <= s.len() && s.skip(s.len() - p.len()) == p
}

/// Whether `s` ends with `p`.
pub fn str_ends_with(s: &str, p: &str) -> (r: bool)
    ensures
        r == ends_with(s@, p@),
{
    let v = chars(s);
    let w = chars(p);
    if w.len() > v.len() {
        return false;
    }
    let n: usize = v.len();
    let tail = slice(&v, n - w.len(), n);
    assert(tail@ =~= v@.skip(v@.len() - w@.len()));
    vec_is(&tail, p)
}

// ---------------------------------------------------------------------------
// Splitting and joining
// ---------------------------------------------------------------------------

/// Every character but `sep`.
pub open spec fn not_char(sep: char) -> spec_fn(char) -> bool {
    |c: char| c != sep
}

/// The pieces of `s` between the occurrences of `sep`: one more than there are
/// occurrences, empty ones among them.
pub open spec fn split(s: Seq<char>, sep: char) -> Seq<Seq<char>>
    decreases s.len(),
{
    let n = run(s, not_char(sep));
    if n >= s.len() {
        seq![s]
    } else {
        seq![s.take(n as int)] + split(s.skip(n as int + 1), sep)
    }
}

/// The pieces with `sep` between neighbours.
pub open spec fn join(parts: Seq<Seq<char>>, sep: char) -> Seq<char>
    decreases parts.len(),
{
    if parts.len() == 0 {
        Seq::empty()
    } else if parts.len() == 1 {
        parts[0]
    } else {
        parts[0].push(sep) + join(parts.skip(1), sep)
    }
}

/// Joining the pieces of a split gives the text back.
pub proof fn law_join_split(s: Seq<char>, sep: char)
    ensures
        split(s, sep).len() > 0,
        join(split(s, sep), sep) == s,
    decreases s.len(),
{
    let n = run(s, not_char(sep));
    lemma_run_is(s, not_char(sep));
    if n < s.len() {
        let rest = s.skip(n as int + 1);
        law_join_split(rest, sep);
        let parts = split(s, sep);
        assert(parts.skip(1) =~= split(rest, sep));
        assert(parts[0] == s.take(n as int));
        assert(s =~= s.take(n as int).push(sep) + rest);
    }
}

/// No piece of a split holds the separator.
pub proof fn lemma_split_pieces(s: Seq<char>, sep: char)
    ensures
        forall|i: int, k: int|
            0 <= i < split(s, sep).len() && 0 <= k < split(s, sep)[i].len()
                ==> #[trigger] split(s, sep)[i][k] != sep,
    decreases s.len(),
{
    let n = run(s, not_char(sep));
    lemma_run_is(s, not_char(sep));
    let parts = split(s, sep);
    if n < s.len() {
        let rest = s.skip(n as int + 1);
        lemma_split_pieces(rest, sep);
        assert forall|i: int, k: int|
            0 <= i < parts.len() && 0 <= k < parts[i].len() implies #[trigger] parts[i][k] != sep by {
            if i == 0 {
                assert(parts[0][k] == s[k]);
                assert(not_char(sep)(s[k]));
            } else {
                assert(parts[i] == split(rest, sep)[i - 1]);
                assert(split(rest, sep)[i - 1][k] != sep);
            }
        }
    } else {
        assert forall|i: int, k: int|
            0 <= i < parts.len() && 0 <= k < parts[i].len() implies #[trigger] parts[i][k] != sep by {
            assert(parts[0][k] == s[k]);
            assert(not_char(sep)(s[k]));
        }
    }
}

/// Splitting what was joined from pieces without the separator gives the pieces back.
pub proof fn law_split_join(parts: Seq<Seq<char>>, sep: char)
    requires
        parts.len() > 0,
        forall|i: int, k: int| 0 <= i < parts.len() && 0 <= k < parts[i].len() ==> #[trigger] parts[i][k] != sep,
    ensures
        split(join(parts, sep), sep) == parts,
    decreases parts.len(),
{
    let s = join(parts, sep);
    if parts.len() == 1 {
        assert forall|k: int| 0 <= k < s.len() implies not_char(sep)(#[trigger] s[k]) by {
            assert(parts[0][k] != sep);
        }
        lemma_run(s, not_char(sep), s.len());
        assert(split(s, sep) =~= parts);
    } else {
        let rest = parts.skip(1);
        assert forall|i: int, k: int| 0 <= i < rest.len() && 0 <= k < rest[i].len() implies #[trigger] rest[i][k] != sep by {
            assert(parts[i + 1][k] != sep);
        }
        law_split_join(rest, sep);
        let n = parts[0].len();
        assert forall|k: int| 0 <= k < n implies not_char(sep)(#[trigger] s[k]) by {
            assert(parts[0][k] != sep);
            assert(s[k] == parts[0][k]);
        }
        assert(s[n as int] == sep);
        lemma_run(s, not_char(sep), n);
        assert(s.take(n as int) =~= parts[0]);
        assert(s.skip(n as int + 1) =~= join(rest, sep));
        assert(seq![parts[0]] + rest =~= parts);
    }
}

/// A split grows by one character: the last piece takes it, or a new one opens.
proof fn lemma_split_step(s: Seq<char>, sep: char, c: char)
    ensures
        c == sep ==> split(s.push(c), sep) == split(s, sep).push(Seq::empty()),
        c != sep ==> split(s.push(c), sep) == split(s, sep).drop_last().push(split(s, sep).last().push(c)),
    decreases s.len(),
{
    let p = not_char(sep);
    let n = run(s, p);
    let t = s.push(c);
    lemma_run_is(s, p);
    law_join_split(s, sep);
    if n < s.len() {
        assert forall|k: int| 0 <= k < n implies p(#[trigger] t[k]) by {
            assert(t[k] == s[k]);
        }
        assert(t[n as int] == s[n as int]);
        lemma_run(t, p, n);
        let rest = s.skip(n as int + 1);
        lemma_split_step(rest, sep, c);
        law_join_split(rest, sep);
        assert(t.skip(n as int + 1) =~= rest.push(c));
        assert(t.take(n as int) =~= s.take(n as int));
        assert(split(t, sep) =~= seq![s.take(n as int)] + split(rest.push(c), sep));
        if c == sep {
            assert(split(t, sep) =~= split(s, sep).push(Seq::empty()));
        } else {
            assert(split(s, sep).last() == split(rest, sep).last());
            assert(split(t, sep) =~= split(s, sep).drop_last().push(split(s, sep).last().push(c)));
        }
    } else {
        assert(split(s, sep) =~= seq![s]);
        assert forall|k: int| 0 <= k < s.len() implies p(#[trigger] t[k]) by {
            assert(t[k] == s[k]);
        }
        if c == sep {
            lemma_run(t, p, s.len());
            assert(t.take(s.len() as int) =~= s);
            let e = t.skip(s.len() as int + 1);
            assert(e =~= Seq::<char>::empty());
            assert(split(e, sep) =~= seq![Seq::<char>::empty()]);
            assert(split(t, sep) =~= split(s, sep).push(Seq::empty()));
        } else {
            lemma_run(t, p, t.len());
            assert(split(t, sep) =~= seq![t]);
            assert(split(s, sep).drop_last().push(split(s, sep).last().push(c)) =~= seq![t]);
        }
    }
}

/// Splits `s` at every `sep`.
pub fn split_str(s: &str, sep: char) -> (r: Vec<String>)
    ensures
        texts(r@) == split(s@, sep),
{
    let v = chars(s);
    let mut out: Vec<String> = Vec::new();
    let mut cur = String::new();
    let mut i: usize = 0;
    proof {
        let e = v@.take(0);
        assert(split(e, sep) =~= seq![e]);
        assert(e =~= cur@);
        assert(texts(out@).push(cur@) =~= seq![cur@]);
    }
    while i < v.len()
        invariant
            i <= v@.len(),
            split(v@.take(i as int), sep) == texts(out@).push(cur@),
        decreases v@.len() - i,
    {
        let c = v[i];
        let ghost before = texts(out@).push(cur@);
        proof {
            assert(v@.take(i as int).push(c) =~= v@.take(i as int + 1));
            lemma_split_step(v@.take(i as int), sep, c);
        }
        if c == sep {
            out.push(cur);
            cur = String::new();
            assert(texts(out@).push(cur@) =~= before.push(Seq::empty()));
        } else {
            let ghost old_cur = cur@;
            cur.push(c);
            assert(texts(out@).push(cur@) =~= before.drop_last().push(old_cur.push(c)));
        }
        i = i + 1;
    }
    let ghost done = texts(out@).push(cur@);
    out.push(cur);
    assert(texts(out@) =~= done);
    assert(v@.take(i as int) =~= s@);
    out
}

/// Joining one more piece.
pub proof fn lemma_join_push(parts: Seq<Seq<char>>, sep: char, p: Seq<char>)
    ensures
        parts.len() == 0 ==> join(parts.push(p), sep) == p,
        parts.len() > 0 ==> join(parts.push(p), sep) == join(parts, sep).push(sep) + p,
    decreases parts.len(),
{
    if parts.len() > 0 {
        let rest = parts.skip(1);
        lemma_join_push(rest, sep, p);
        assert(parts.push(p).skip(1) =~= rest.push(p));
        if parts.len() == 1 {
            assert(rest.push(p) =~= seq![p]);
            assert(join(parts.push(p), sep) =~= join(parts, sep).push(sep) + p);
        } else {
            assert(join(parts.push(p), sep) =~= join(parts, sep).push(sep) + p);
        }
    }
}

/// Joins the pieces with `sep` between neighbours.
pub fn join_strs(parts: &Vec<String>, sep: char) -> (r: String)
    ensures
        r@ == join(texts(parts@), sep),
{
    let mut out = String::new();
    let mut i: usize = 0;
    while i < parts.len()
        invariant
            i <= parts@.len(),
            out@ == join(texts(parts@).take(i as int), sep),
        decreases parts@.len() - i,
    {
        proof {
            let t = texts(parts@);
            lemma_join_push(t.take(i as int), sep, t[i as int]);
            assert(t.take(i as int).push(t[i as int]) =~= t.take(i as int + 1));
        }
        if i > 0 {
            out.push(sep);
        }
        out.append(parts[i].as_str());
        i = i + 1;
        assert(out@ =~= join(texts(parts@).take(i as int), sep));
    }
    assert(texts(parts@).take(i as int) =~= texts(parts@));
    out
}

/// A line without the carriage return of its line ending.
pub open spec fn chomped(s: Seq<char>) -> Seq<char> {
    if s.len() > 0 && s.last() == '\r' {
        s.drop_last()
    } else {
        s
    }
}

/// The lines of `s`: each ends in a line feed, before which one carriage return
/// may stand; what follows the last line feed is a line unless it is empty.
pub open spec fn lines(s: Seq<char>) -> Seq<Seq<char>> {
    let p = split(s, '\n');
    let n = p.len() - 1;
    let full = Seq::new(n as nat, |i: int| chomped(p[i]));
    if p[n].len() == 0 {
        full
    } else {
        full.push(p[n])
    }
}

/// The lines of `s`.
pub fn lines_of(s: &str) -> (r: Vec<String>)
    ensures
        texts(r@) == lines(s@),
{
    let p = split_str(s, '\n');
    proof {
        law_join_split(s@, '\n');
    }
    let ghost parts = split(s@, '\n');
    assert(texts(p@).len() == p@.len());
    let n: usize = p.len() - 1;
    let mut out: Vec<String> = Vec::new();
    let mut i: usize = 0;
    while i < n
        invariant
            i <= n,
            n + 1 == p@.len() == parts.len(),
            parts == texts(p@),
            texts(out@) == Seq::new(i as nat, |k: int| chomped(parts[k])),
        decreases n - i,
    {
        let v = chars(p[i].as_str());
        assert(v@ == parts[i as int]);
        let len: usize = v.len();
        let ghost before = texts(out@);
        let m: usize = if len > 0 && v[len - 1] == '\r' { len - 1 } else { len };
        let line = from_range(&v, 0, m);
        assert(line@ =~= chomped(parts[i as int]));
        out.push(line);
        assert(texts(out@) =~= before.push(line@));
        i = i + 1;
        assert(texts(out@) =~= Seq::new(i as nat, |k: int| chomped(parts[k])));
    }
    let ghost full = texts(out@);
    if !p[n].as_str().is_empty() {
        out.push(p[n].clone());
        assert(texts(out@) =~= full.push(parts[n as int]));
    }
    assert(parts[n as int] == p@[n as int]@);
    out
}

// ---------------------------------------------------------------------------
// Numbers as text
// ---------------------------------------------------------------------------

/// The character of a decimal digit.
pub open spec fn digit_char(d: int) -> char {
    (('0' as u32) + d) as char
}

/// The decimal digits of `n`, without leading zeros.
pub open spec fn decimal(n: nat) -> Seq<char>
    decreases n,
{
    if n < 10 {
        seq![digit_char(n as int)]
    } else {
        decimal(n / 10).push(digit_char((n % 10) as int))
    }
}

/// The decimal form of an integer, with a sign where it is negative.
pub open spec fn decimal_int(n: int) -> Seq<char> {
    if n < 0 {
        seq!['-'] + decimal((-n) as nat)
    } else {
        decimal(n as nat)
    }
}

fn digit_of(d: u64) -> (c: char)
    requires
        d < 10,
    ensures
        c == digit_char(d as int),
{
    (48u8 + d as u8) as char
}

/// The decimal form of `n`.
pub fn show_u64(n: u64) -> (r: String)
    ensures
        r@ == decimal(n as nat),
    decreases n,
{
    if n < 10 {
        let mut out = String::new();
        out.push(digit_of(n));
        assert(out@ =~= decimal(n as nat));
        out
    } else {
        let mut out = show_u64(n / 10);
        out.push(digit_of(n % 10));
        out
    }
}

/// The decimal form of `n`.
pub fn show_i64(n: i64) -> (r: String)
    ensures
        r@ == decimal_int(n as int),
{
    if n < 0 {
        let mut out = String::new();
        out.push('-');
        let m: u64 = if n == i64::MIN { 9223372036854775808u64 } else { (-n) as u64 };
        let d = show_u64(m);
        out.append(d.as_str());
        assert(out@ =~= decimal_int(n as int));
        out
    } else {
        show_u64(n as u64)
    }
}

/// The value of a sequence of decimal digits.
pub open spec fn digits_value(s: Seq<char>) -> int
    decreases s.len(),
{
    if s.len() == 0 {
        0
    } else {
        digits_value(s.drop_last()) * 10 + (s.last() as int - '0' as int)
    }
}

/// One or more ASCII digits and nothing else.
pub open spec fn all_digits(s: Seq<char>) -> bool {
    s.len() > 0 && forall|i: int| 0 <= i < s.len() ==> ascii_digit(#[trigger] s[i])
}

/// The decimal form of a number is digits, and they have its value.
pub proof fn law_decimal_reads_back(n: nat)
    ensures
        all_digits(decimal(n)),
        digits_value(decimal(n)) == n,
    decreases n,
{
    reveal_with_fuel(digits_value, 2);
    if n < 10 {
        assert(decimal(n).drop_last() =~= Seq::empty());
    } else {
        law_decimal_reads_back(n / 10);
        assert(decimal(n).drop_last() =~= decimal(n / 10));
        assert forall|i: int| 0 <= i < decimal(n).len() implies ascii_digit(#[trigger] decimal(n)[i]) by {
            if i < decimal(n / 10).len() {
                assert(decimal(n)[i] == decimal(n / 10)[i]);
            }
        }
    }
}

/// The number that digits spell, where it lies in the range of `u64`.
pub open spec fn u64_of(s: Seq<char>) -> Option<u64> {
    if all_digits(s) && digits_value(s) <= u64::MAX {
        Some(digits_value(s) as u64)
    } else {
        None
    }
}

/// The number that the characters from `from` on spell, where it lies in the range of
/// `u64`.
pub fn parse_u64(v: &Vec<char>, from: usize) -> (r: Option<u64>)
    requires
        from <= v@.len(),
    ensures
        r == u64_of(v@.skip(from as int)),
{
    let ghost d = v@.skip(from as int);
    if from == v.len() {
        return None;
    }
    let mut i: usize = from;
    let mut acc: u128 = 0;
    let mut over = false;
    assert(d.take(0) =~= Seq::<char>::empty());
    while i < v.len()
        invariant
            from <= i <= v@.len(),
            d == v@.skip(from as int),
            d.len() > 0,
            forall|k: int| 0 <= k < i - from ==> ascii_digit(#[trigger] d[k]),
            !over ==> acc == digits_value(d.take(i - from)),
            acc <= u64::MAX,
            over ==> digits_value(d.take(i - from)) > u64::MAX,
        decreases v@.len() - i,
    {
        let c = v[i];
        assert(d[i - from] == c);
        if !is_digit(c) {
            assert(!ascii_digit(d[i - from]));
            return None;
        }
        proof {
            assert(d.take(i - from + 1).drop_last() =~= d.take(i - from));
            assert(d.take(i - from + 1).last() == c);
        }
        if !over {
            let next: u128 = acc * 10 + (c as u8 - 48u8) as u128;
            if next > 0xffff_ffff_ffff_ffff {
                over = true;
            } else {
                acc = next;
            }
        }
        i = i + 1;
    }
    assert(d.take(i - from) =~= d);
    assert(all_digits(d));
    if over {
        None
    } else {
        Some(acc as u64)
    }
}

/// The integer that `s` spells in decimal: digits, with at most one sign before them.
pub open spec fn int_of(s: Seq<char>) -> Option<int> {
    if s.len() > 0 && (s[0] == '+' || s[0] == '-') {
        if all_digits(s.skip(1)) {
            Some(if s[0] == '-' { -digits_value(s.skip(1)) } else { digits_value(s.skip(1)) })
        } else {
            None
        }
    } else if all_digits(s) {
        Some(digits_value(s))
    } else {
        None
    }
}

/// The integer that `s` spells, where it lies in the range of `i64`.
pub open spec fn i64_of(s: Seq<char>) -> Option<i64> {
    match int_of(s) {
        Some(n) if i64::MIN <= n <= i64::MAX => Some(n as i64),
        _ => None,
    }
}

/// The integer that the characters `v` spell, where it lies in the range of `i64`.
pub fn parse_i64(v: &Vec<char>) -> (r: Option<i64>)
    ensures
        r == i64_of(v@),
{
    let signed = v.len() > 0 && (v[0] == '+' || v[0] == '-');
    let negative = signed && v[0] == '-';
    let from: usize = if signed { 1 } else { 0 };
    let ghost d = if signed { v@.skip(1) } else { v@ };
    if from >= v.len() {
        assert(!all_digits(d));
        return None;
    }
    let mut i: usize = from;
    let mut acc: i128 = 0;
    let mut over = false;
    assert(d.take(0) =~= Seq::<char>::empty());
    while i < v.len()
        invariant
            from <= i <= v@.len(),
            signed == (v@.len() > 0 && (v@[0] == '+' || v@[0] == '-')),
            from == if signed { 1int } else { 0 },
            d == if signed { v@.skip(1) } else { v@ },
            d.len() > 0,
            forall|k: int| 0 <= k < i - from ==> ascii_digit(#[trigger] d[k]),
            !over ==> acc == digits_value(d.take(i - from)),
            !over ==> 0 <= acc <= 0x8000_0000_0000_0000,
            over ==> digits_value(d.take(i - from)) > 0x8000_0000_0000_0000,
        decreases v@.len() - i,
    {
        let c = v[i];
        assert(d[i - from] == c);
        if !is_digit(c) {
            assert(!ascii_digit(d[i - from]));
            return None;
        }
        proof {
            assert(d.take(i - from + 1).drop_last() =~= d.take(i - from));
            assert(d.take(i - from + 1).last() == c);
        }
        if !over {
            let x: i128 = (c as u8 - 48u8) as i128;
            let next: i128 = acc * 10 + x;
            if next > 0x8000_0000_0000_0000 {
                over = true;
            } else {
                acc = next;
            }
        }
        i = i + 1;
    }
    assert(d.take(i - from) =~= d);
    assert(all_digits(d));
    if over {
        return None;
    }
    if negative {
        Some((-acc) as i64)
    } else if acc == 0x8000_0000_0000_0000 {
        None
    } else {
        Some(acc as i64)
    }
}


/// Whether two lists hold the same texts in the same order.
pub fn same_all(a: &Vec<String>, b: &Vec<String>) -> (r: bool)
    ensures
        r == (texts(a@) == texts(b@)),
{
    let n: usize = a.len();
    if n != b.len() {
        assert(texts(a@).len() != texts(b@).len());
        return false;
    }
    let mut i: usize = 0;
    while i < n
        invariant
            i <= n == a@.len() == b@.len(),
            forall|k: int| 0 <= k < i ==> #[trigger] texts(a@)[k] == texts(b@)[k],
        decreases n - i,
    {
        if !same(a[i].as_str(), b[i].as_str()) {
            assert(texts(a@)[i as int] != texts(b@)[i as int]);
            return false;
        }
        i = i + 1;
    }
    assert(texts(a@) =~= texts(b@));
    true
}

/// Whether a text is one of a list.
pub fn is_among(v: &Vec<String>, t: &str) -> (r: bool)
    ensures
        r == texts(v@).contains(t@),
{
    let n: usize = v.len();
    let mut i: usize = 0;
    while i < n
        invariant
            i <= n == v@.len(),
            forall|k: int| 0 <= k < i ==> #[trigger] texts(v@)[k] != t@,
        decreases n - i,
    {
        if same(v[i].as_str(), t) {
            assert(texts(v@)[i as int] == t@);
            return true;
        }
        i = i + 1;
    }
    false
}

// ---------------------------------------------------------------------------
// Order
// ---------------------------------------------------------------------------

/// `a` comes before `b`: at the first difference it has the lower character, or
/// it ends there.
pub open spec fn before(a: Seq<char>, b: Seq<char>) -> bool
    decreases a.len(),
{
    if b.len() == 0 {
        false
    } else if a.len() == 0 {
        true
    } else {
        a[0] < b[0] || a[0] == b[0] && before(a.skip(1), b.skip(1))
    }
}

/// The order is total and strict.
pub proof fn lemma_before_total(a: Seq<char>, b: Seq<char>)
    ensures
        a == b ==> !before(a, b),
        a != b ==> before(a, b) != before(b, a),
    decreases a.len(),
{
    if a.len() > 0 && b.len() > 0 {
        lemma_before_total(a.skip(1), b.skip(1));
        if a[0] == b[0] && a.skip(1) == b.skip(1) {
            assert(a =~= seq![a[0]] + a.skip(1));
            assert(b =~= seq![b[0]] + b.skip(1));
        }
    } else if a.len() == 0 && b.len() == 0 {
        assert(a =~= b);
    }
}

/// The order is transitive.
pub proof fn lemma_before_trans(a: Seq<char>, b: Seq<char>, c: Seq<char>)
    requires
        before(a, b),
        before(b, c),
    ensures
        before(a, c),
    decreases a.len(),
{
    if a.len() > 0 && b.len() > 0 && c.len() > 0 && a[0] == b[0] && b[0] == c[0] {
        lemma_before_trans(a.skip(1), b.skip(1), c.skip(1));
    }
}

/// Whether `a` comes before `b`.
pub fn comes_before(a: &str, b: &str) -> (r: bool)
    ensures
        r == before(a@, b@),
{
    let v = chars(a);
    let w = chars(b);
    let mut i: usize = 0;
    assert(v@.skip(0) =~= v@);
    assert(w@.skip(0) =~= w@);
    while i < v.len() && i < w.len()
        invariant
            i <= v@.len(),
            i <= w@.len(),
            v@ == a@,
            w@ == b@,
            before(v@, w@) == before(v@.skip(i as int), w@.skip(i as int)),
        decreases v@.len() - i,
    {
        let ghost x = v@.skip(i as int);
        let ghost y = w@.skip(i as int);
        assert(x[0] == v@[i as int] && y[0] == w@[i as int]);
        assert(x.skip(1) =~= v@.skip(i as int + 1));
        assert(y.skip(1) =~= w@.skip(i as int + 1));
        if v[i] < w[i] {
            return true;
        }
        if w[i] < v[i] {
            return false;
        }
        i = i + 1;
    }
    i < w.len()
}

/// Each text comes before the next ones.
pub open spec fn ascending(s: Seq<Seq<char>>) -> bool {
    forall|i: int, j: int| 0 <= i < j < s.len() ==> before(#[trigger] s[i], #[trigger] s[j])
}

/// How many of the texts, from the `i`-th on, come before `t` without a gap.
pub open spec fn slot(s: Seq<Seq<char>>, t: Seq<char>, i: int) -> int
    decreases s.len() - i,
{
    if 0 <= i < s.len() && before(s[i], t) {
        slot(s, t, i + 1)
    } else {
        i
    }
}

/// Ascending texts with `t` among them.
pub open spec fn sort_in(s: Seq<Seq<char>>, t: Seq<char>) -> Seq<Seq<char>> {
    let p = slot(s, t, 0);
    if p < s.len() && s[p] == t {
        s
    } else {
        s.insert(p, t)
    }
}

/// The first `n` texts, each once, in ascending order.
pub open spec fn sorted_set(s: Seq<Seq<char>>, n: int) -> Seq<Seq<char>>
    decreases n,
{
    if n <= 0 || n > s.len() {
        Seq::empty()
    } else {
        sort_in(sorted_set(s, n - 1), s[n - 1])
    }
}

/// Where `t` belongs among ascending texts: how many come before it.
pub fn place_of(v: &Vec<String>, t: &str) -> (r: usize)
    requires
        ascending(texts(v@)),
    ensures
        r <= v@.len(),
        r == slot(texts(v@), t@, 0),
        forall|k: int| 0 <= k < r ==> before(#[trigger] texts(v@)[k], t@),
        forall|k: int| r <= k < v@.len() ==> !before(#[trigger] texts(v@)[k], t@),
{
    let mut i: usize = 0;
    while i < v.len() && comes_before(v[i].as_str(), t)
        invariant
            i <= v@.len(),
            slot(texts(v@), t@, 0) == slot(texts(v@), t@, i as int),
            forall|k: int| 0 <= k < i ==> before(#[trigger] texts(v@)[k], t@),
        decreases v@.len() - i,
    {
        i = i + 1;
    }
    proof {
        let s = texts(v@);
        assert forall|k: int| i <= k < v@.len() implies !before(#[trigger] s[k], t@) by {
            if before(s[k], t@) && k > i {
                lemma_before_trans(s[i as int], s[k], t@);
            }
        }
    }
    i
}

/// The texts, each once, in ascending order.
pub fn sorted_unique(v: &Vec<String>) -> (r: Vec<String>)
    ensures
        texts(r@) == sorted_set(texts(v@), v@.len() as int),
        ascending(texts(r@)),
        texts(r@).to_set() == texts(v@).to_set(),
{
    let mut out: Vec<String> = Vec::new();
    let mut i: usize = 0;
    assert(texts(out@).to_set() =~= texts(v@).take(0).to_set());
    assert(texts(out@) =~= sorted_set(texts(v@), 0));
    while i < v.len()
        invariant
            i <= v@.len(),
            ascending(texts(out@)),
            texts(out@) == sorted_set(texts(v@), i as int),
            texts(out@).to_set() == texts(v@).take(i as int).to_set(),
        decreases v@.len() - i,
    {
        let ghost t = v@[i as int]@;
        let ghost s = texts(out@);
        let p: usize = place_of(&out, v[i].as_str());
        proof {
            let a = texts(v@).take(i as int);
            let b = texts(v@).take(i as int + 1);
            assert(b =~= a.push(t));
            assert forall|x: Seq<char>| #[trigger] b.to_set().contains(x) == (a.to_set().contains(x) || x == t) by {
                if a.contains(x) {
                    let k = choose|k: int| 0 <= k < a.len() && a[k] == x;
                    assert(b[k] == x);
                }
                if x == t {
                    assert(b[i as int] == x);
                }
                if b.contains(x) {
                    let k = choose|k: int| 0 <= k < b.len() && b[k] == x;
                    if k < i {
                        assert(a[k] == x);
                    }
                }
            }
        }
        if p < out.len() && same(out[p].as_str(), v[i].as_str()) {
            assert(s[p as int] == t);
            assert(s.contains(t));
            assert(s.to_set() =~= texts(v@).take(i as int + 1).to_set());
        } else {
            out.insert(p, v[i].clone());
            proof {
                let n = texts(out@);
                assert(n =~= s.insert(p as int, t));
                assert forall|a: int, b: int| 0 <= a < b < n.len() implies before(#[trigger] n[a], #[trigger] n[b]) by {
                    let x = if a < p { a } else { a - 1 };
                    let y = if b < p { b } else { b - 1 };
                    if a == p {
                        assert(n[b] == s[y]);
                        assert(!before(s[y], t));
                        lemma_before_total(s[y], t);
                        if s[y] == t && y > p {
                            assert(before(s[p as int], s[y]));
                            assert(!before(s[p as int], t));
                        }
                    } else if b == p {
                        assert(n[a] == s[a]);
                    } else {
                        assert(n[a] == s[x] && n[b] == s[y]);
                    }
                }
                assert forall|x: Seq<char>| #[trigger] n.to_set().contains(x) == (s.to_set().contains(x) || x == t) by {
                    if s.contains(x) {
                        let k = choose|k: int| 0 <= k < s.len() && s[k] == x;
                        assert(n[if k < p { k } else { k + 1 }] == x);
                    }
                    if x == t {
                        assert(n[p as int] == x);
                    }
                    if n.contains(x) {
                        let k = choose|k: int| 0 <= k < n.len() && n[k] == x;
                        if k != p {
                            assert(s[if k < p { k } else { k - 1 }] == x);
                        }
                    }
                }
                assert(n.to_set() =~= texts(v@).take(i as int + 1).to_set());
            }
        }
        i = i + 1;
    }
    assert(texts(v@).take(i as int) =~= texts(v@));
    out
}

/// Trimming takes white space off both ends and nothing else: what is left is a stretch of
/// the text that neither starts nor ends with white space, and what went is white space.
pub proof fn law_trimming_takes_white_space_off(s: Seq<char>, a: int, b: int)
    requires
        0 <= a <= b <= s.len(),
        forall|k: int| 0 <= k < a ==> white_space(#[trigger] s[k]),
        forall|k: int| b <= k < s.len() ==> white_space(#[trigger] s[k]),
        a < b ==> !white_space(s[a]) && !white_space(s[b - 1]),
        a == b ==> a == s.len(),
    ensures
        trim(s) == s.subrange(a, b),
        trim_start(s) == s.skip(a),
        a < b ==> trim_end(s) == s.take(b),
        a == b ==> trim_end(s).len() == 0,
{
    assert forall|k: int| 0 <= k < a implies ws()(#[trigger] s[k]) by {}
    lemma_run(s, ws(), a as nat);
    let t = s.skip(a);
    assert(trim_start(s) == t);
    let n = (t.len() - (b - a)) as nat;
    assert forall|k: int| t.len() - n <= k < t.len() implies ws()(#[trigger] t[k]) by {
        assert(t[k] == s[k + a]);
    }
    if n < t.len() {
        assert(t[t.len() - n - 1] == s[b - 1]);
    }
    lemma_run_back(t, ws(), n);
    assert(trim(s) =~= s.subrange(a, b));
    if a < b {
        lemma_run_back(s, ws(), (s.len() - b) as nat);
    } else {
        lemma_run_back(s, ws(), s.len());
    }
}

/// Of two texts the one that has the lower character where they first differ comes first; of
/// two that do not differ the shorter.
pub proof fn law_first_difference_decides(a: Seq<char>, b: Seq<char>, k: int)
    requires
        0 <= k <= a.len(),
        k <= b.len(),
        forall|i: int| 0 <= i < k ==> #[trigger] a[i] == b[i],
    ensures
        k < a.len() && k < b.len() && a[k] < b[k] ==> before(a, b) && !before(b, a),
        k < a.len() && k < b.len() && a[k] > b[k] ==> before(b, a) && !before(a, b),
        k == a.len() && k < b.len() ==> before(a, b) && !before(b, a),
        k == a.len() && k == b.len() ==> !before(a, b),
    decreases k,
{
    if k > 0 {
        assert(a[0] == b[0]);
        assert forall|i: int| 0 <= i < k - 1 implies #[trigger] a.skip(1)[i] == b.skip(1)[i] by {
            assert(a.skip(1)[i] == a[i + 1]);
            assert(b.skip(1)[i] == b[i + 1]);
        }
        law_first_difference_decides(a.skip(1), b.skip(1), k - 1);
        if k < a.len() && k < b.len() {
            assert(a.skip(1)[k - 1] == a[k] && b.skip(1)[k - 1] == b[k]);
        }
    }
}

/// A text starts or ends with another where the characters there are the same.
pub proof fn law_ends_are_compared_by_character(s: Seq<char>, p: Seq<char>)
    ensures
        starts_with(s, p) <==> p.len() <= s.len() && forall|i: int| 0 <= i < p.len() ==> #[trigger] p[i] == s[i],
        ends_with(s, p) <==> p.len() <= s.len() && forall|i: int|
            0 <= i < p.len() ==> #[trigger] p[i] == s[s.len() - p.len() + i],
{
    if p.len() <= s.len() {
        let t = s.take(p.len() as int);
        let u = s.skip(s.len() - p.len());
        if forall|i: int| 0 <= i < p.len() ==> #[trigger] p[i] == s[i] {
            assert(t =~= p);
        }
        if forall|i: int| 0 <= i < p.len() ==> #[trigger] p[i] == s[s.len() - p.len() + i] {
            assert(u =~= p);
        }
        if t == p {
            assert forall|i: int| 0 <= i < p.len() implies #[trigger] p[i] == s[i] by {
                assert(t[i] == s[i]);
            }
        }
        if u == p {
            assert forall|i: int| 0 <= i < p.len() implies #[trigger] p[i] == s[s.len() - p.len() + i] by {
                assert(u[i] == s[s.len() - p.len() + i]);
            }
        }
    }
}

/// A line loses one carriage return before its line feed and no more; what stands behind the
/// last line feed keeps its own, and is no line where it is empty.
pub proof fn law_lines_lose_their_endings(s: Seq<char>, i: int)
    ensures
        ({
            let p = split(s, '\n');
            let n = p.len() - 1;
            &&& 0 <= i < n ==> i < lines(s).len()
            &&& 0 <= i < n && p[i].len() > 0 && p[i].last() == '\r' ==> lines(s)[i] == p[i].drop_last()
            &&& 0 <= i < n && (p[i].len() == 0 || p[i].last() != '\r') ==> lines(s)[i] == p[i]
            &&& p[n].len() == 0 ==> lines(s).len() == n
            &&& p[n].len() > 0 ==> lines(s).len() == n + 1 && lines(s)[n] == p[n]
        }),
{
    law_join_split(s, '\n');
}

/// A capital ASCII letter is made small: the letter of the same place. All else stays.
pub proof fn law_only_capitals_are_made_small(c: char)
    ensures
        'A' <= c <= 'Z' ==> 'a' <= ascii_lower(c) <= 'z' && ascii_lower(c) as int - 'a' as int == c as int - 'A' as int,
        !('A' <= c <= 'Z') ==> ascii_lower(c) == c,
{
}

/// A number is read with or without a sign, and a minus makes it negative.
pub proof fn law_signs_are_read(s: Seq<char>)
    requires
        all_digits(s),
    ensures
        int_of(s) == Some(digits_value(s)),
        int_of(seq!['-'] + s) == Some(-digits_value(s)),
        int_of(seq!['+'] + s) == Some(digits_value(s)),
        int_of(Seq::empty()) is None,
{
    assert((seq!['-'] + s).skip(1) =~= s);
    assert((seq!['+'] + s).skip(1) =~= s);
    assert(ascii_digit(s[0]));
}

/// Sorting keeps every text, each once: what is among the texts is among those sorted, and
/// nothing else is.
pub proof fn law_sorting_keeps_the_texts(s: Seq<Seq<char>>, n: int, t: Seq<char>)
    requires
        0 <= n <= s.len(),
    ensures
        sorted_set(s, n).contains(t) <==> exists|i: int| 0 <= i < n && #[trigger] s[i] == t,
    decreases n,
{
    if n > 0 {
        law_sorting_keeps_the_texts(s, n - 1, t);
        let was = sorted_set(s, n - 1);
        let now = sorted_set(s, n);
        let x = s[n - 1];
        lemma_slot_range(was, x, 0);
        let p = slot(was, x, 0);
        if p < was.len() && was[p] == x {
            assert(now == was);
            assert(was.contains(x));
        } else {
            assert(now == was.insert(p, x));
            assert(now[p] == x);
            if was.contains(t) {
                let k = choose|k: int| 0 <= k < was.len() && was[k] == t;
                let m = if k < p { k } else { k + 1 };
                assert(now[m] == t);
            }
            if now.contains(t) && t != x {
                let k = choose|k: int| 0 <= k < now.len() && now[k] == t;
                let m = if k < p { k } else { k - 1 };
                assert(was[m] == t);
            }
        }
        if now.contains(t) && t != x {
            let i = choose|i: int| 0 <= i < n - 1 && #[trigger] s[i] == t;
            assert(s[i] == t);
        }
    }
}

proof fn lemma_slot_range(s: Seq<Seq<char>>, t: Seq<char>, i: int)
    requires
        0 <= i <= s.len(),
    ensures
        i <= slot(s, t, i) <= s.len(),
    decreases s.len() - i,
{
    if i < s.len() && before(s[i], t) {
        lemma_slot_range(s, t, i + 1);
    }
}

} // verus!
