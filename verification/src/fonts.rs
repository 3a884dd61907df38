//! Which locale picks the fallback fonts, and which font a name or a file stands for.

use vstd::prelude::*;

use crate::text::{
    ascii_lower, before, chars, comes_before, ends_with, lemma_before_total, lemma_before_trans, lemma_run, run, same,
    str_ends_with, to_ascii_lower,
};

verus! {

/// A text with its ASCII letters in lower case.
pub open spec fn ascii_lowered(s: Seq<char>) -> Seq<char> {
    Seq::new(s.len(), |i: int| ascii_lower(s[i]))
}

/// Whether `t` occurs in `s`.
pub open spec fn occurs(s: Seq<char>, t: Seq<char>) -> bool {
    exists|i: int| 0 <= i && i + t.len() <= s.len() && #[trigger] s.subrange(i, i + t.len()) == t
}

/// Not a separator of the parts of a locale.
pub open spec fn not_tag_sep() -> spec_fn(char) -> bool {
    |c: char| c != '-' && c != '_'
}

/// The language of a locale.
pub open spec fn primary(locale: Seq<char>) -> Seq<char> {
    locale.take(run(locale, not_tag_sep()) as int)
}

/// The subtag that the fallback fonts go by.
pub open spec fn fallback_locale(locale: Seq<char>) -> Seq<char> {
    let p = ascii_lowered(primary(locale));
    let l = ascii_lowered(locale);
    if p != "zh"@ {
        p
    } else if occurs(l, "hk"@) {
        "zh-HK"@
    } else if occurs(l, "tw"@) || occurs(l, "hant"@) {
        "zh-TW"@
    } else {
        "zh-CN"@
    }
}

fn lower_range(v: &Vec<char>, n: usize) -> (r: String)
    requires
        n <= v@.len(),
    ensures
        r@ == ascii_lowered(v@.take(n as int)),
{
    let mut s = String::new();
    let mut i: usize = 0;
    while i < n
        invariant
            i <= n <= v@.len(),
            s@ == ascii_lowered(v@.take(i as int)),
        decreases n - i,
    {
        s.push(to_ascii_lower(v[i]));
        i = i + 1;
        assert(s@ =~= ascii_lowered(v@.take(i as int)));
    }
    s
}

fn occurs_in(s: &str, t: &str) -> (r: bool)
    ensures
        r == occurs(s@, t@),
{
    let v = chars(s);
    let w = chars(t);
    let n: usize = v.len();
    let m: usize = w.len();
    if m > n {
        return false;
    }
    let mut i: usize = 0;
    while i <= n - m
        invariant
            v@ == s@,
            w@ == t@,
            n == v@.len(),
            m == w@.len(),
            m <= n,
            i <= n - m + 1,
            forall|k: int| 0 <= k < i ==> #[trigger] s@.subrange(k, k + m) != t@,
        decreases n - m + 1 - i,
    {
        let mut k: usize = 0;
        while k < m && v[i + k] == w[k]
            invariant
                v@ == s@,
                w@ == t@,
                n == v@.len(),
                m == w@.len(),
                m <= n,
                i <= n - m,
                k <= m,
                forall|j: int| 0 <= j < k ==> v@[i + j] == #[trigger] w@[j],
            decreases m - k,
        {
            k = k + 1;
        }
        if k == m {
            assert(s@.subrange(i as int, i + m) =~= t@);
            return true;
        }
        assert(s@.subrange(i as int, i + m)[k as int] != t@[k as int]);
        if i == n - m {
            return false;
        }
        i = i + 1;
    }
    false
}

/// Reduce a locale to the subtag that Han-unification fallback matches on: the
/// primary language for everything except Chinese, where the region is kept
/// (`zh-TW`/`zh-HK` = Traditional, anything else = Simplified).
pub fn normalize_locale(locale: &str) -> (r: String)
    ensures
        r@ == fallback_locale(locale@),
{
    let v = chars(locale);
    let mut n: usize = 0;
    while n < v.len() && v[n] != '-' && v[n] != '_'
        invariant
            n <= v@.len(),
            forall|k: int| 0 <= k < n ==> not_tag_sep()(#[trigger] v@[k]),
        decreases v@.len() - n,
    {
        n = n + 1;
    }
    proof {
        lemma_run(v@, not_tag_sep(), n as nat);
    }
    let p = lower_range(&v, n);
    if !same(p.as_str(), "zh") {
        return p;
    }
    let l = lower_range(&v, v.len());
    assert(v@.take(v@.len() as int) =~= v@);
    if occurs_in(l.as_str(), "hk") {
        "zh-HK".to_owned()
    } else if occurs_in(l.as_str(), "tw") || occurs_in(l.as_str(), "hant") {
        "zh-TW".to_owned()
    } else {
        "zh-CN".to_owned()
    }
}

/// Whether a font spec is a file path to load from disk (vs. a family name that's
/// already in the shared font database, e.g. a system UI font referenced by name).
pub open spec fn font_path(s: Seq<char>) -> bool {
    s.contains('/') || s.contains('\\') || ends_with(s, ".ttf"@) || ends_with(s, ".ttc"@) || ends_with(s, ".otf"@)
}

/// Whether a font spec is a file path to load from disk (vs. a family name that's
/// already in the shared font database, e.g. a system UI font referenced by name).
pub fn is_font_path(s: &str) -> (r: bool)
    ensures
        r == font_path(s@),
{
    let v = chars(s);
    let mut i: usize = 0;
    while i < v.len()
        invariant
            i <= v@.len(),
            v@ == s@,
            forall|k: int| 0 <= k < i ==> v@[k] != '/' && v@[k] != '\\',
        decreases v@.len() - i,
    {
        if v[i] == '/' || v[i] == '\\' {
            assert(s@.contains(v@[i as int]));
            return true;
        }
        i = i + 1;
    }
    str_ends_with(s, ".ttf") || str_ends_with(s, ".ttc") || str_ends_with(s, ".otf")
}

/// How a host's font string (a file path or a family name) is to be addressed.
pub enum FontChoice {
    /// The default font.
    Default,
    /// A family that is already there (a system UI font), by its name.
    Family(String),
    /// A file to load, whose family is then addressed.
    File(String),
}

/// How a font string is to be addressed.
#[verifier::ext_equal]
pub ghost enum FontChoiceV {
    Default,
    Family(Seq<char>),
    File(Seq<char>),
}

impl View for FontChoice {
    type V = FontChoiceV;

    open spec fn view(&self) -> FontChoiceV {
        match self {
            FontChoice::Default => FontChoiceV::Default,
            FontChoice::Family(n) => FontChoiceV::Family(n@),
            FontChoice::File(p) => FontChoiceV::File(p@),
        }
    }
}

/// Resolve the host's font string: no font for an empty one, and a file to load when
/// needed.
pub fn resolve_family(font: &str) -> (r: FontChoice)
    ensures
        r@ == (if font@.len() == 0 {
            FontChoiceV::Default
        } else if font_path(font@) {
            FontChoiceV::File(font@)
        } else {
            FontChoiceV::Family(font@)
        }),
{
    if font.is_empty() {
        FontChoice::Default
    } else if is_font_path(font) {
        FontChoice::File(font.to_owned())
    } else {
        FontChoice::Family(font.to_owned())
    }
}

/// A face of a font file.
pub struct Face {
    /// Its first family name.
    pub family: Option<String>,
    pub monospaced: bool,
    pub upright: bool,
    pub weight: u16,
}

/// A face of a font file.
#[verifier::ext_equal]
pub ghost struct FaceV {
    pub family: Option<Seq<char>>,
    pub monospaced: bool,
    pub upright: bool,
    pub weight: u16,
}

impl View for Face {
    type V = FaceV;

    open spec fn view(&self) -> FaceV {
        FaceV {
            family: match self.family {
                Some(n) => Some(n@),
                None => None,
            },
            monospaced: self.monospaced,
            upright: self.upright,
            weight: self.weight,
        }
    }
}

/// Whether a face can be addressed by its family name. Private ('.'-prefixed) names
/// don't resolve by name and cause a silent fall back to a proportional default.
pub open spec fn addressable(f: FaceV) -> bool {
    f.family matches Some(n) && !(n.len() > 0 && n[0] == '.')
}

/// How far a weight is from Regular.
pub open spec fn off_regular(weight: u16) -> int {
    if weight >= 400 {
        weight - 400
    } else {
        400 - weight
    }
}

/// Whether a face is preferred over another: monospaced, then upright, then the weight
/// closest to Regular, then the name that comes first.
pub open spec fn preferred(a: FaceV, b: FaceV) -> bool {
    if a.monospaced != b.monospaced {
        a.monospaced
    } else if a.upright != b.upright {
        a.upright
    } else if off_regular(a.weight) != off_regular(b.weight) {
        off_regular(a.weight) < off_regular(b.weight)
    } else {
        before(a.family->0, b.family->0)
    }
}

/// The preferred one of the first `n` faces.
pub open spec fn best_face(faces: Seq<FaceV>, n: int) -> Option<int>
    decreases n,
{
    if n <= 0 || n > faces.len() {
        None
    } else {
        let b = best_face(faces, n - 1);
        if addressable(faces[n - 1]) && (b is None || preferred(faces[n - 1], faces[b->0])) {
            Some(n - 1)
        } else {
            b
        }
    }
}

/// Faces of a font file.
pub open spec fn faces_v(v: Seq<Face>) -> Seq<FaceV> {
    Seq::new(v.len(), |i: int| v[i]@)
}

/// The chosen face can be addressed and no addressable face is preferred over it; none
/// is chosen only where none can be addressed.
pub proof fn law_best_face_is_preferred(faces: Seq<FaceV>, n: int)
    requires
        0 <= n <= faces.len(),
    ensures
        match best_face(faces, n) {
            Some(b) => 0 <= b < n && addressable(faces[b]) && forall|i: int|
                0 <= i < n && addressable(#[trigger] faces[i]) ==> !preferred(faces[i], faces[b]),
            None => forall|i: int| 0 <= i < n ==> !addressable(#[trigger] faces[i]),
        },
    decreases n,
{
    if n > 0 {
        law_best_face_is_preferred(faces, n - 1);
        let f = faces[n - 1];
        if addressable(f) {
            lemma_before_total(f.family->0, f.family->0);
            if let Some(b) = best_face(faces, n - 1) {
                let g = faces[b];
                assert forall|i: int| 0 <= i < n - 1 && addressable(#[trigger] faces[i]) && preferred(f, g) implies !preferred(
                    faces[i],
                    f,
                ) by {
                    if preferred(faces[i], f) {
                        lemma_preferred_trans(faces[i], f, g);
                    }
                }
            }
        }
    }
}

proof fn lemma_preferred_trans(a: FaceV, b: FaceV, c: FaceV)
    requires
        preferred(a, b),
        preferred(b, c),
    ensures
        preferred(a, c),
{
    if a.monospaced == b.monospaced && b.monospaced == c.monospaced && a.upright == b.upright && b.upright == c.upright
        && off_regular(a.weight) == off_regular(b.weight) && off_regular(b.weight) == off_regular(c.weight) {
        lemma_before_trans(a.family->0, b.family->0, c.family->0);
    }
}

fn can_address(f: &Face) -> (r: bool)
    ensures
        r == addressable(f@),
{
    match &f.family {
        Some(n) => {
            let v = chars(n.as_str());
            !(v.len() > 0 && v[0] == '.')
        },
        None => false,
    }
}

fn weight_off(weight: u16) -> (r: u16)
    ensures
        r == off_regular(weight),
{
    if weight >= 400 {
        weight - 400
    } else {
        400 - weight
    }
}

fn is_preferred(a: &Face, b: &Face) -> (r: bool)
    requires
        addressable(a@),
        addressable(b@),
    ensures
        r == preferred(a@, b@),
{
    if a.monospaced != b.monospaced {
        return a.monospaced;
    }
    if a.upright != b.upright {
        return a.upright;
    }
    let x: u16 = weight_off(a.weight);
    let y: u16 = weight_off(b.weight);
    if x != y {
        return x < y;
    }
    match (&a.family, &b.family) {
        (Some(m), Some(n)) => comes_before(m.as_str(), n.as_str()),
        _ => false,
    }
}

/// The family to address among a file's faces: prefer monospaced, upright, weight
/// closest to Regular (400). None when no face can be addressed.
pub fn pick_family(faces: &Vec<Face>) -> (r: Option<String>)
    ensures
        match r {
            Some(name) => match best_face(faces_v(faces@), faces@.len() as int) {
                Some(b) => faces_v(faces@)[b].family == Some(name@),
                None => false,
            },
            None => best_face(faces_v(faces@), faces@.len() as int) is None,
        },
{
    let ghost fv = faces_v(faces@);
    let n: usize = faces.len();
    let mut best: Option<usize> = None;
    let mut i: usize = 0;
    while i < n
        invariant
            i <= n == faces@.len(),
            fv == faces_v(faces@),
            match best {
                Some(b) => best_face(fv, i as int) == Some(b as int) && b < i && addressable(fv[b as int]),
                None => best_face(fv, i as int) is None,
            },
        decreases n - i,
    {
        assert(fv[i as int] == faces@[i as int]@);
        if can_address(&faces[i]) {
            let better = match best {
                Some(b) => {
                    assert(fv[b as int] == faces@[b as int]@);
                    is_preferred(&faces[i], &faces[b])
                },
                None => true,
            };
            if better {
                best = Some(i);
            }
        }
        i = i + 1;
    }
    match best {
        Some(b) => {
            assert(fv[b as int] == faces@[b as int]@);
            match &faces[b].family {
                Some(name) => Some(name.clone()),
                None => None,
            }
        },
        None => None,
    }
}

/// The font families to use per inline style (each may be a distinct face, e.g.
/// "Inter SemiBold" for bold), where the host set them.
pub struct Faces {
    pub regular: Option<String>,
    pub bold: Option<String>,
    pub italic: Option<String>,
    pub bold_italic: Option<String>,
}

/// A name, if there is one.
pub open spec fn name_v(s: Option<String>) -> Option<Seq<char>> {
    match s {
        Some(t) => Some(t@),
        None => None,
    }
}

/// The family of a style: missing variants fall back toward Regular, and none is left
/// where that is missing too.
pub open spec fn face_of(f: Faces, bold: bool, italic: bool) -> Option<Seq<char>> {
    let regular = name_v(f.regular);
    let heavy = if f.bold is Some { name_v(f.bold) } else { regular };
    if bold && italic {
        if f.bold_italic is Some { name_v(f.bold_italic) } else { heavy }
    } else if bold {
        heavy
    } else if italic {
        if f.italic is Some { name_v(f.italic) } else { regular }
    } else {
        regular
    }
}

fn or_else<'a>(a: &'a Option<String>, b: &'a Option<String>) -> (r: &'a Option<String>)
    ensures
        name_v(*r) == (if a is Some { name_v(*a) } else { name_v(*b) }),
{
    if a.is_some() {
        a
    } else {
        b
    }
}

impl Faces {
    /// The family to use for a style.
    pub fn pick(&self, bold: bool, italic: bool) -> (r: Option<&str>)
        ensures
            match r {
                Some(n) => face_of(*self, bold, italic) == Some(n@),
                None => face_of(*self, bold, italic) is None,
            },
    {
        let heavy = or_else(&self.bold, &self.regular);
        let found = if bold && italic {
            or_else(&self.bold_italic, heavy)
        } else if bold {
            heavy
        } else if italic {
            or_else(&self.italic, &self.regular)
        } else {
            &self.regular
        };
        match found {
            Some(n) => Some(n.as_str()),
            None => None,
        }
    }
}

/// A locale that is not Chinese goes by its language alone, in small letters.
pub proof fn law_fallback_goes_by_the_language(locale: Seq<char>, n: int)
    requires
        0 <= n <= locale.len(),
        forall|i: int| 0 <= i < n ==> (#[trigger] locale[i]) != '-' && locale[i] != '_',
        n == locale.len() || locale[n] == '-' || locale[n] == '_',
        ascii_lowered(locale.take(n)) != "zh"@,
    ensures
        fallback_locale(locale).len() == n,
        forall|i: int| 0 <= i < n ==> #[trigger] fallback_locale(locale)[i] == ascii_lower(locale[i]),
{
    lemma_run(locale, not_tag_sep(), n as nat);
}

/// A Chinese locale goes by its script: that of Hong Kong, that of Taiwan or the traditional
/// one, and otherwise the simplified one.
pub proof fn law_chinese_goes_by_its_script(locale: Seq<char>, n: int)
    requires
        0 <= n <= locale.len(),
        forall|i: int| 0 <= i < n ==> (#[trigger] locale[i]) != '-' && locale[i] != '_',
        n == locale.len() || locale[n] == '-' || locale[n] == '_',
        ascii_lowered(locale.take(n)) == "zh"@,
    ensures
        ({
            let small = ascii_lowered(locale);
            let hk = occurs(small, "hk"@);
            let tw = occurs(small, "tw"@) || occurs(small, "hant"@);
            &&& hk ==> fallback_locale(locale) == "zh-HK"@
            &&& !hk && tw ==> fallback_locale(locale) == "zh-TW"@
            &&& !hk && !tw ==> fallback_locale(locale) == "zh-CN"@
        }),
{
    lemma_run(locale, not_tag_sep(), n as nat);
}

/// A font string with a separator or the ending of a font file is a path; any other is the
/// name of a family.
pub proof fn law_paths_are_told_from_names(s: Seq<char>)
    ensures
        s.contains('/') || s.contains('\\') ==> font_path(s),
        ends_with(s, ".ttf"@) || ends_with(s, ".ttc"@) || ends_with(s, ".otf"@) ==> font_path(s),
        !s.contains('/') && !s.contains('\\') && !ends_with(s, ".ttf"@) && !ends_with(s, ".ttc"@) && !ends_with(
            s,
            ".otf"@,
        ) ==> !font_path(s),
{
}

/// A monospaced face is preferred to any other; of two that are alike in this an upright one;
/// of two alike in both the one whose weight is closer to 400; and of two alike in all the one
/// whose name comes first.
pub proof fn law_faces_are_preferred(a: FaceV, b: FaceV)
    ensures
        a.monospaced && !b.monospaced ==> preferred(a, b) && !preferred(b, a),
        a.monospaced == b.monospaced && a.upright && !b.upright ==> preferred(a, b) && !preferred(b, a),
        a.monospaced == b.monospaced && a.upright == b.upright && 400 <= a.weight < b.weight ==> preferred(a, b)
            && !preferred(b, a),
        a.monospaced == b.monospaced && a.upright == b.upright && b.weight < a.weight <= 400 ==> preferred(a, b)
            && !preferred(b, a),
        a.monospaced == b.monospaced && a.upright == b.upright && a.weight == b.weight ==> preferred(a, b) == before(
            a.family->0,
            b.family->0,
        ),
{
}

/// A face can be addressed by a name that does not start with a dot.
pub proof fn law_private_names_are_passed_over(f: FaceV)
    ensures
        f.family is None ==> !addressable(f),
        f.family is Some && f.family->0.len() > 0 && f.family->0[0] == '.' ==> !addressable(f),
        f.family is Some && (f.family->0.len() == 0 || f.family->0[0] != '.') ==> addressable(f),
{
}

/// A style has its own face where there is one. Bold italic falls back to bold, and every
/// style to the regular face.
pub proof fn law_styles_fall_back_to_regular(f: Faces)
    ensures
        f.regular matches Some(n) ==> face_of(f, false, false) == Some(n@),
        f.bold matches Some(n) ==> face_of(f, true, false) == Some(n@),
        f.italic matches Some(n) ==> face_of(f, false, true) == Some(n@),
        f.bold_italic matches Some(n) ==> face_of(f, true, true) == Some(n@),
        f.bold is None ==> face_of(f, true, false) == face_of(f, false, false),
        f.italic is None ==> face_of(f, false, true) == face_of(f, false, false),
        f.bold_italic is None ==> face_of(f, true, true) == face_of(f, true, false),
        f.regular is None ==> face_of(f, false, false) is None,
{
}

} // verus!
