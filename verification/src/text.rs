//! Text primitives shared by the matcher, the templates and the form builders.
//!
//! Strings are reasoned about through their `Seq<char>` views.  The spec
//! functions here say what trimming, searching, splitting and replacing mean;
//! the executable functions work on `Vec<char>` copies and are proved
//! against them.
use vstd::prelude::*;

verus! {

broadcast use vstd::string::group_string_axioms;

/// Character classes that the library trims or splits by.
#[derive(Clone, Copy, PartialEq, Eq, Structural, Debug)]
pub enum CharClass {
    /// Unicode `White_Space`, the set that `char::is_whitespace` documents.
    Whitespace,
    /// Decoration stripped from the start of a form label:
    /// `-`, `*`, `|`, `║`, `│` and the space.
    LabelLead,
    /// Decoration stripped from the end of a form label:
    /// `:`, `|`, `║`, `│` and the space.
    LabelTail,
    /// Rules and frame pieces around a section heading:
    /// `-`, `=`, `─`, `═`, `╔`, `╗`, `╚`, `╝`, `║`, `│` and the space.
    SectionRule,
    /// ASCII punctuation, as `char::is_ascii_punctuation` documents it.
    AsciiPunct,
    /// Separators between the words of a description:
    /// whitespace, `,` and `.`.
    WordSep,
    /// The separator between the parts of a path: `/`.
    PathSep,
}

/// Unicode `White_Space`: U+0009..U+000D, U+0020, U+0085, U+00A0, U+1680,
/// U+2000..U+200A, U+2028, U+2029, U+202F, U+205F and U+3000.
pub open spec fn is_ws(c: char) -> bool {
    let u = c as u32;
    ||| (0x9 <= u && u <= 0xD)
    ||| u == 0x20
    ||| u == 0x85
    ||| u == 0xA0
    ||| u == 0x1680
    ||| (0x2000 <= u && u <= 0x200A)
    ||| u == 0x2028
    ||| u == 0x2029
    ||| u == 0x202F
    ||| u == 0x205F
    ||| u == 0x3000
}

/// ASCII punctuation: `!`..`/`, `:`..`@`, `[`..`` ` `` and `{`..`~`.
pub open spec fn is_ascii_punct(c: char) -> bool {
    let u = c as u32;
    ||| (0x21 <= u && u <= 0x2F)
    ||| (0x3A <= u && u <= 0x40)
    ||| (0x5B <= u && u <= 0x60)
    ||| (0x7B <= u && u <= 0x7E)
}

/// Membership of a character in a class.
pub open spec fn in_class(cls: CharClass, c: char) -> bool {
    let u = c as u32;
    match cls {
        CharClass::Whitespace => is_ws(c),
        CharClass::LabelLead => u == 0x2D || u == 0x2A || u == 0x7C || u == 0x2551 || u == 0x2502
            || u == 0x20,
        CharClass::LabelTail => u == 0x3A || u == 0x7C || u == 0x2551 || u == 0x2502 || u == 0x20,
        CharClass::SectionRule => u == 0x2D || u == 0x3D || u == 0x2500 || u == 0x2550 || u
            == 0x2554 || u == 0x2557 || u == 0x255A || u == 0x255D || u == 0x2551 || u == 0x2502
            || u == 0x20,
        CharClass::AsciiPunct => is_ascii_punct(c),
        CharClass::WordSep => is_ws(c) || u == 0x2C || u == 0x2E,
        CharClass::PathSep => u == 0x2F,
    }
}

/// Whether `c` belongs to the class `cls`.
pub fn class_has(cls: CharClass, c: char) -> (r: bool)
    ensures
        r == in_class(cls, c),
{
    let u = c as u32;
    let ws = (0x9 <= u && u <= 0xD) || u == 0x20 || u == 0x85 || u == 0xA0 || u == 0x1680 || (
    0x2000 <= u && u <= 0x200A) || u == 0x2028 || u == 0x2029 || u == 0x202F || u == 0x205F || u
        == 0x3000;
    match cls {
        CharClass::Whitespace => ws,
        CharClass::LabelLead => u == 0x2D || u == 0x2A || u == 0x7C || u == 0x2551 || u == 0x2502
            || u == 0x20,
        CharClass::LabelTail => u == 0x3A || u == 0x7C || u == 0x2551 || u == 0x2502 || u == 0x20,
        CharClass::SectionRule => u == 0x2D || u == 0x3D || u == 0x2500 || u == 0x2550 || u
            == 0x2554 || u == 0x2557 || u == 0x255A || u == 0x255D || u == 0x2551 || u == 0x2502
            || u == 0x20,
        CharClass::AsciiPunct => (0x21 <= u && u <= 0x2F) || (0x3A <= u && u <= 0x40) || (0x5B
            <= u && u <= 0x60) || (0x7B <= u && u <= 0x7E),
        CharClass::WordSep => ws || u == 0x2C || u == 0x2E,
        CharClass::PathSep => u == 0x2F,
    }
}

/// `s` with the leading characters of class `cls` removed.
pub open spec fn trim_start_by(s: Seq<char>, cls: CharClass) -> Seq<char>
    decreases s.len(),
{
    if s.len() > 0 && in_class(cls, s[0]) {
        trim_start_by(s.drop_first(), cls)
    } else {
        s
    }
}

/// `s` with the trailing characters of class `cls` removed.
pub open spec fn trim_end_by(s: Seq<char>, cls: CharClass) -> Seq<char>
    decreases s.len(),
{
    if s.len() > 0 && in_class(cls, s.last()) {
        trim_end_by(s.drop_last(), cls)
    } else {
        s
    }
}

/// `s` with the characters of class `cls` removed from both ends.
pub open spec fn trim_by(s: Seq<char>, cls: CharClass) -> Seq<char> {
    trim_end_by(trim_start_by(s, cls), cls)
}

/// `str::trim`: whitespace removed from both ends.
pub open spec fn trim(s: Seq<char>) -> Seq<char> {
    trim_by(s, CharClass::Whitespace)
}

/// Trimming the start leaves a suffix that starts outside the class.
pub proof fn lemma_trim_start_suffix(s: Seq<char>, cls: CharClass)
    ensures
        trim_start_by(s, cls).len() <= s.len(),
        trim_start_by(s, cls) == s.skip(s.len() - trim_start_by(s, cls).len()),
        trim_start_by(s, cls).len() > 0 ==> !in_class(cls, trim_start_by(s, cls)[0]),
    decreases s.len(),
{
    if s.len() > 0 && in_class(cls, s[0]) {
        let r = trim_start_by(s.drop_first(), cls);
        lemma_trim_start_suffix(s.drop_first(), cls);
        assert(s.drop_first().skip(s.drop_first().len() - r.len()) =~= s.skip(s.len() - r.len()));
    } else {
        assert(s.skip(0) =~= s);
    }
}

/// Trimming the end leaves a prefix that ends outside the class.
pub proof fn lemma_trim_end_prefix(s: Seq<char>, cls: CharClass)
    ensures
        trim_end_by(s, cls).len() <= s.len(),
        trim_end_by(s, cls) == s.take(trim_end_by(s, cls).len() as int),
        trim_end_by(s, cls).len() > 0 ==> !in_class(cls, trim_end_by(s, cls).last()),
    decreases s.len(),
{
    if s.len() > 0 && in_class(cls, s.last()) {
        let r = trim_end_by(s.drop_last(), cls);
        lemma_trim_end_prefix(s.drop_last(), cls);
        assert(s.drop_last().take(r.len() as int) =~= s.take(r.len() as int));
    } else {
        assert(s.take(s.len() as int) =~= s);
    }
}

/// Trimming both ends leaves a part of the text that starts and ends
/// outside the class: character `j` of it is character `j + off` of `s`.
pub proof fn lemma_trim_by_part(s: Seq<char>, cls: CharClass) -> (off: int)
    ensures
        0 <= off,
        off + trim_by(s, cls).len() <= s.len(),
        forall|j: int| 0 <= j < trim_by(s, cls).len() ==> #[trigger] trim_by(s, cls)[j] == s[j + off],
        trim_by(s, cls).len() > 0 ==> !in_class(cls, trim_by(s, cls)[0]) && !in_class(
            cls,
            trim_by(s, cls).last(),
        ),
{
    let a = trim_start_by(s, cls);
    lemma_trim_start_suffix(s, cls);
    lemma_trim_end_prefix(a, cls);
    let off = s.len() - a.len();
    let b = trim_by(s, cls);
    assert forall|j: int| 0 <= j < b.len() implies #[trigger] b[j] == s[j + off] by {
        assert(b[j] == a[j]);
        assert(a[j] == s.skip(off)[j]);
    }
    if b.len() > 0 {
        assert(b[0] == a[0]);
    }
    off
}

/// `s` begins with `p`.
pub open spec fn starts_with(s: Seq<char>, p: Seq<char>) -> bool {
    p.len() <= s.len() && s.subrange(0, p.len() as int) == p
}

/// `s` ends with `p`.
pub open spec fn ends_with(s: Seq<char>, p: Seq<char>) -> bool {
    p.len() <= s.len() && s.subrange(s.len() - p.len(), s.len() as int) == p
}

/// `pat` occurs in `s` starting at index `i`.
pub open spec fn occurs_at(s: Seq<char>, pat: Seq<char>, i: int) -> bool {
    0 <= i && i + pat.len() <= s.len() && s.subrange(i, i + pat.len()) == pat
}

/// The first index at or after `from` where `pat` occurs in `s`.
pub open spec fn find_from(s: Seq<char>, pat: Seq<char>, from: nat) -> Option<nat>
    decreases s.len() + 1 - from,
{
    if from + pat.len() > s.len() {
        None
    } else if occurs_at(s, pat, from as int) {
        Some(from)
    } else {
        find_from(s, pat, from + 1)
    }
}

/// The first index where `pat` occurs in `s` (`str::find`, counted in characters).
pub open spec fn find(s: Seq<char>, pat: Seq<char>) -> Option<nat> {
    find_from(s, pat, 0)
}

/// `pat` occurs somewhere in `s` (`str::contains`).
pub open spec fn contains(s: Seq<char>, pat: Seq<char>) -> bool {
    find(s, pat) is Some
}

/// Every non-overlapping occurrence of `pat` in `s`, taken from left to
/// right, replaced by `rep` (`str::replace` for a non-empty pattern).
pub open spec fn replace_all(s: Seq<char>, pat: Seq<char>, rep: Seq<char>) -> Seq<char>
    decreases s.len(),
{
    if pat.len() == 0 || s.len() < pat.len() {
        s
    } else if s.subrange(0, pat.len() as int) == pat {
        rep + replace_all(s.skip(pat.len() as int), pat, rep)
    } else {
        seq![s[0]] + replace_all(s.drop_first(), pat, rep)
    }
}

/// What `str::to_lowercase` returns for a string: the full Unicode lowercase
/// mapping of each character, with the context rule for a final sigma.
pub uninterp spec fn lowercase(s: Seq<char>) -> Seq<char>;

/// `str::to_lowercase`.
///
/// Trusted: the result is what the standard library's lowercase mapping gives
/// for `s`; it is named by `lowercase` and nothing more is claimed of it.
#[verifier::external_body]
pub(crate) fn to_lowercase(s: &str) -> (r: String)
    ensures
        r@ == lowercase(s@),
{
    s.to_lowercase()
}

/// `String::push`.
///
/// Trusted: appends one character to the string, as the standard library
/// documents.
#[verifier::external_body]
pub(crate) fn push_char(s: &mut String, c: char)
    ensures
        final(s)@ == old(s)@.push(c),
{
    s.push(c)
}

/// The characters of `s`, in order.
pub fn chars_of(s: &str) -> (v: Vec<char>)
    ensures
        v@ == s@,
{
    let mut v: Vec<char> = Vec::new();
    for c in it: s.chars()
        invariant
            v@ == it.seq().take(it.index()),
    {
        v.push(c);
    }
    v
}

/// The string whose characters are `v`.
pub fn string_of(v: &[char]) -> (s: String)
    ensures
        s@ == v@,
{
    let mut s = String::new();
    let mut i: usize = 0;
    while i < v.len()
        invariant
            i <= v@.len(),
            s@ == v@.take(i as int),
        decreases v@.len() - i,
    {
        push_char(&mut s, v[i]);
        i = i + 1;
        assert(s@ =~= v@.take(i as int));
    }
    assert(v@.take(i as int) =~= v@);
    s
}

/// The characters `v[lo..hi]` as a new vector.
pub fn copy_range(v: &[char], lo: usize, hi: usize) -> (r: Vec<char>)
    requires
        lo <= hi <= v@.len(),
    ensures
        r@ == v@.subrange(lo as int, hi as int),
{
    let mut r: Vec<char> = Vec::new();
    let mut i: usize = lo;
    while i < hi
        invariant
            lo <= i <= hi <= v@.len(),
            r@ == v@.subrange(lo as int, i as int),
        decreases hi - i,
    {
        r.push(v[i]);
        i = i + 1;
        assert(r@ =~= v@.subrange(lo as int, i as int));
    }
    r
}

/// `a` followed by `b`.
pub fn concat_chars(a: &[char], b: &[char]) -> (r: Vec<char>)
    ensures
        r@ == a@ + b@,
{
    let mut r = copy_range(a, 0, a.len());
    let mut i: usize = 0;
    while i < b.len()
        invariant
            i <= b@.len(),
            r@ == a@ + b@.take(i as int),
        decreases b@.len() - i,
    {
        r.push(b[i]);
        i = i + 1;
        assert(r@ =~= a@ + b@.take(i as int));
    }
    assert(b@.take(i as int) =~= b@);
    assert(a@.subrange(0, a@.len() as int) =~= a@);
    r
}

/// Whether two character sequences are equal.
pub fn chars_eq(a: &[char], b: &[char]) -> (r: bool)
    ensures
        r == (a@ == b@),
{
    if a.len() != b.len() {
        return false;
    }
    let mut i: usize = 0;
    while i < a.len()
        invariant
            a@.len() == b@.len(),
            i <= a@.len(),
            forall|j: int| 0 <= j < i ==> a@[j] == b@[j],
        decreases a@.len() - i,
    {
        if a[i] != b[i] {
            return false;
        }
        i = i + 1;
    }
    assert(a@ =~= b@);
    true
}

/// Whether `pat` occurs in `s` at index `i`.
pub fn matches_at(s: &[char], pat: &[char], i: usize) -> (r: bool)
    ensures
        r == occurs_at(s@, pat@, i as int),
{
    if i > s.len() || pat.len() > s.len() - i {
        return false;
    }
    let mut k: usize = 0;
    while k < pat.len()
        invariant
            i + pat@.len() <= s.len(),
            k <= pat@.len(),
            forall|j: int| 0 <= j < k ==> s@[i + j] == pat@[j],
        decreases pat@.len() - k,
    {
        assert(i + k < s.len());
        if s[i + k] != pat[k] {
            assert(s@.subrange(i as int, i + pat@.len())[k as int] != pat@[k as int]);
            return false;
        }
        k = k + 1;
    }
    assert(s@.subrange(i as int, i + pat@.len()) =~= pat@);
    true
}

/// Whether `s` begins with `p`.
pub fn has_prefix(s: &[char], p: &[char]) -> (r: bool)
    ensures
        r == starts_with(s@, p@),
{
    matches_at(s, p, 0)
}

/// Whether `s` ends with `p`.
pub fn has_suffix(s: &[char], p: &[char]) -> (r: bool)
    ensures
        r == ends_with(s@, p@),
{
    if p.len() > s.len() {
        return false;
    }
    matches_at(s, p, s.len() - p.len())
}

/// The first index at or after `from` where `pat` occurs in `s`.
pub fn find_chars(s: &[char], pat: &[char], from: usize) -> (r: Option<usize>)
    ensures
        match r {
            Some(i) => find_from(s@, pat@, from as nat) == Some(i as nat),
            None => find_from(s@, pat@, from as nat) is None,
        },
{
    let mut i: usize = from;
    while i <= s.len() && pat.len() <= s.len() - i
        invariant
            from <= i,
            find_from(s@, pat@, from as nat) == find_from(s@, pat@, i as nat),
        decreases s@.len() + 1 - i,
    {
        if matches_at(s, pat, i) {
            return Some(i);
        }
        if i == s.len() {
            assert(find_from(s@, pat@, (i + 1) as nat) is None);
            return None;
        }
        i = i + 1;
    }
    None
}

/// Whether `pat` occurs in `s`.
pub fn contains_chars(s: &[char], pat: &[char]) -> (r: bool)
    ensures
        r == contains(s@, pat@),
{
    find_chars(s, pat, 0).is_some()
}

/// The index just past the leading run of class `cls` in `s`.
pub fn lead_len(s: &[char], cls: CharClass) -> (i: usize)
    ensures
        i <= s@.len(),
        trim_start_by(s@, cls) == s@.skip(i as int),
{
    let mut i: usize = 0;
    assert(s@.skip(0) =~= s@);
    while i < s.len() && class_has(cls, s[i])
        invariant
            i <= s@.len(),
            trim_start_by(s@, cls) == trim_start_by(s@.skip(i as int), cls),
        decreases s@.len() - i,
    {
        assert(s@.skip(i as int).drop_first() =~= s@.skip(i + 1));
        i = i + 1;
    }
    i
}

/// The index where the trailing run of class `cls` in `s` begins.
pub fn trail_start(s: &[char], cls: CharClass) -> (j: usize)
    ensures
        j <= s@.len(),
        trim_end_by(s@, cls) == s@.take(j as int),
{
    let mut j: usize = s.len();
    assert(s@.take(j as int) =~= s@);
    while j > 0 && class_has(cls, s[j - 1])
        invariant
            j <= s@.len(),
            trim_end_by(s@, cls) == trim_end_by(s@.take(j as int), cls),
        decreases j,
    {
        assert(s@.take(j as int).drop_last() =~= s@.take(j - 1));
        j = j - 1;
    }
    j
}

/// `s` with the leading characters of class `cls` removed.
pub fn trim_start_chars(s: &[char], cls: CharClass) -> (r: Vec<char>)
    ensures
        r@ == trim_start_by(s@, cls),
{
    let i = lead_len(s, cls);
    let r = copy_range(s, i, s.len());
    assert(r@ =~= s@.skip(i as int));
    r
}

/// `s` with the trailing characters of class `cls` removed.
pub fn trim_end_chars(s: &[char], cls: CharClass) -> (r: Vec<char>)
    ensures
        r@ == trim_end_by(s@, cls),
{
    let j = trail_start(s, cls);
    let r = copy_range(s, 0, j);
    assert(r@ =~= s@.take(j as int));
    r
}

/// `s` with the characters of class `cls` removed from both ends.
pub fn trim_chars_by(s: &[char], cls: CharClass) -> (r: Vec<char>)
    ensures
        r@ == trim_by(s@, cls),
{
    let a = trim_start_chars(s, cls);
    trim_end_chars(&a, cls)
}

/// `s` with whitespace removed from both ends.
pub fn trim_chars(s: &[char]) -> (r: Vec<char>)
    ensures
        r@ == trim(s@),
{
    trim_chars_by(s, CharClass::Whitespace)
}

/// `s` with every occurrence of `pat` replaced by `rep`.
pub fn replace_chars(s: &[char], pat: &[char], rep: &[char]) -> (r: Vec<char>)
    requires
        pat@.len() > 0,
    ensures
        r@ == replace_all(s@, pat@, rep@),
{
    let mut r: Vec<char> = Vec::new();
    let mut i: usize = 0;
    assert(s@.skip(0) =~= s@);
    assert(r@ + replace_all(s@, pat@, rep@) =~= replace_all(s@, pat@, rep@));
    while i < s.len() && pat.len() <= s.len() - i
        invariant
            pat@.len() > 0,
            i <= s@.len(),
            replace_all(s@, pat@, rep@) == r@ + replace_all(s@.skip(i as int), pat@, rep@),
        decreases s@.len() - i,
    {
        let ghost rest = s@.skip(i as int);
        if matches_at(s, pat, i) {
            assert(rest.subrange(0, pat@.len() as int) =~= s@.subrange(i as int, i + pat@.len()));
            assert(rest.skip(pat@.len() as int) =~= s@.skip(i + pat@.len()));
            let mut k: usize = 0;
            let ghost r0 = r@;
            while k < rep.len()
                invariant
                    k <= rep@.len(),
                    r@ == r0 + rep@.take(k as int),
                decreases rep@.len() - k,
            {
                r.push(rep[k]);
                k = k + 1;
                assert(r@ =~= r0 + rep@.take(k as int));
            }
            assert(rep@.take(k as int) =~= rep@);
            assert(r0 + (rep@ + replace_all(s@.skip(i + pat@.len()), pat@, rep@)) =~= r@
                + replace_all(s@.skip(i + pat@.len()), pat@, rep@));
            i = i + pat.len();
        } else {
            assert(rest.subrange(0, pat@.len() as int) =~= s@.subrange(i as int, i + pat@.len()));
            assert(rest.drop_first() =~= s@.skip(i + 1));
            let ghost r0 = r@;
            r.push(s[i]);
            assert(r0 + (seq![s@[i as int]] + replace_all(s@.skip(i + 1), pat@, rep@)) =~= r@
                + replace_all(s@.skip(i + 1), pat@, rep@));
            i = i + 1;
        }
    }
    let tail = copy_range(s, i, s.len());
    assert(tail@ =~= s@.skip(i as int));
    let out = concat_chars(&r, &tail);
    out
}

/// The number of bytes that UTF-8 takes for `c`.
pub open spec fn utf8_width(c: char) -> nat {
    let u = c as u32;
    if u <= 0x7F {
        1
    } else if u <= 0x7FF {
        2
    } else if u <= 0xFFFF {
        3
    } else {
        4
    }
}

/// The number of bytes that UTF-8 takes for `s` (what `str::len` returns).
pub open spec fn byte_len(s: Seq<char>) -> nat
    decreases s.len(),
{
    if s.len() == 0 {
        0
    } else {
        utf8_width(s[0]) + byte_len(s.drop_first())
    }
}

/// `byte_len` is the length of the UTF-8 encoding.
pub proof fn lemma_byte_len_encoding(s: Seq<char>)
    ensures
        vstd::utf8::encode_utf8(s).len() == byte_len(s),
    decreases s.len(),
{
    if s.len() > 0 {
        let c = s[0];
        vstd::utf8::char_is_scalar(c);
        lemma_byte_len_encoding(s.drop_first());
    }
}

/// The number of bytes of `s` (`str::len`).
pub fn str_byte_len(s: &str) -> (n: usize)
    ensures
        n == byte_len(s@),
{
    proof {
        lemma_byte_len_encoding(s@);
    }
    let b = s.as_bytes();
    b.len()
}

/// The index of the first line feed in `s`, or its length when it has none.
pub open spec fn line_end(s: Seq<char>) -> nat
    decreases s.len(),
{
    if s.len() == 0 || s[0] == '\n' {
        0
    } else {
        1 + line_end(s.drop_first())
    }
}

/// `line_end` is the first line feed, or the end.
pub proof fn lemma_line_end(s: Seq<char>)
    ensures
        line_end(s) <= s.len(),
        line_end(s) < s.len() ==> s[line_end(s) as int] == '\n',
        forall|j: int| 0 <= j < line_end(s) ==> s[j] != '\n',
    decreases s.len(),
{
    if s.len() > 0 && s[0] != '\n' {
        lemma_line_end(s.drop_first());
        assert forall|j: int| 0 <= j < line_end(s) implies s[j] != '\n' by {
            if j > 0 {
                assert(s[j] == s.drop_first()[j - 1]);
            }
        }
    }
}

/// A position with no line feed before it and a line feed or the end at it
/// is `line_end`.
pub proof fn lemma_line_end_at(s: Seq<char>, k: int)
    requires
        0 <= k <= s.len(),
        forall|j: int| 0 <= j < k ==> s[j] != '\n',
        k == s.len() || s[k] == '\n',
    ensures
        line_end(s) == k,
    decreases s.len(),
{
    if k > 0 {
        assert(s[0] != '\n');
        assert forall|j: int| 0 <= j < k - 1 implies s.drop_first()[j] != '\n' by {
            assert(s.drop_first()[j] == s[j + 1]);
        }
        if k < s.len() {
            assert(s.drop_first()[k - 1] == s[k]);
        }
        lemma_line_end_at(s.drop_first(), k - 1);
    }
}

/// A line without the carriage return that ends it, if any.
pub open spec fn strip_cr(l: Seq<char>) -> Seq<char> {
    if l.len() > 0 && l.last() == '\r' {
        l.drop_last()
    } else {
        l
    }
}

/// The lines of `s`, as `str::lines` gives them: split at each line feed,
/// a carriage return just before a line feed dropped, and no empty line
/// after a final line feed.
pub open spec fn lines(s: Seq<char>) -> Seq<Seq<char>>
    decreases s.len(),
{
    if s.len() == 0 {
        seq![]
    } else {
        let e = line_end(s);
        if e < s.len() {
            proof {
                lemma_line_end(s);
            }
            seq![strip_cr(s.take(e as int))] + lines(s.skip(e as int + 1))
        } else {
            seq![s]
        }
    }
}

/// The lines of `s` (`str::lines`).
pub fn lines_of(s: &[char]) -> (r: Vec<Vec<char>>)
    ensures
        r@.len() == lines(s@).len(),
        forall|i: int| 0 <= i < r@.len() ==> #[trigger] r@[i]@ == lines(s@)[i],
{
    let mut r: Vec<Vec<char>> = Vec::new();
    let mut start: usize = 0;
    let ghost mut done: Seq<Seq<char>> = seq![];
    assert(s@.skip(0) =~= s@);
    while start < s.len()
        invariant
            start <= s@.len(),
            lines(s@) == done + lines(s@.skip(start as int)),
            r@.len() == done.len(),
            forall|i: int| 0 <= i < r@.len() ==> #[trigger] r@[i]@ == done[i],
        decreases s@.len() - start,
    {
        let ghost rest = s@.skip(start as int);
        let mut i: usize = start;
        while i < s.len() && s[i] != '\n'
            invariant
                start <= i <= s@.len(),
                rest == s@.skip(start as int),
                forall|j: int| 0 <= j < i - start ==> rest[j] != '\n',
            decreases s@.len() - i,
        {
            i = i + 1;
        }
        proof {
            lemma_line_end_at(rest, i - start);
        }
        if i < s.len() {
            let mut end: usize = i;
            if end > start && s[end - 1] == '\r' {
                end = end - 1;
            }
            let line = copy_range(s, start, end);
            proof {
                assert(rest.take(i - start) =~= s@.subrange(start as int, i as int));
                assert(rest.skip(i - start + 1) =~= s@.skip(i + 1));
                assert(line@ =~= strip_cr(rest.take(i - start)));
                assert(lines(rest) == seq![line@] + lines(s@.skip(i + 1)));
                assert(done + lines(rest) =~= done.push(line@) + lines(s@.skip(i + 1)));
                done = done.push(line@);
            }
            r.push(line);
            start = i + 1;
        } else {
            let line = copy_range(s, start, s.len());
            proof {
                assert(line@ =~= rest);
                assert(lines(rest) == seq![line@]);
                assert(s@.skip(s@.len() as int) =~= Seq::<char>::empty());
                assert(done + lines(rest) =~= done.push(line@) + lines(s@.skip(s@.len() as int)));
                done = done.push(line@);
            }
            r.push(line);
            start = s.len();
        }
    }
    assert(s@.skip(start as int) =~= Seq::<char>::empty());
    assert(done + lines(s@.skip(start as int)) =~= done);
    r
}

/// Where `pat` is found at or after `from`, it lies within `s`.
pub proof fn lemma_find_from_range(s: Seq<char>, pat: Seq<char>, from: nat)
    ensures
        find_from(s, pat, from) matches Some(i) ==> from <= i && i + pat.len() <= s.len()
            && occurs_at(s, pat, i as int),
        find_from(s, pat, from) is None ==> forall|i: int|
            from <= i ==> !occurs_at(s, pat, i),
    decreases s.len() + 1 - from,
{
    if from + pat.len() <= s.len() && !occurs_at(s, pat, from as int) {
        lemma_find_from_range(s, pat, from + 1);
    }
}

/// The first occurrence at or after `from` is found.
pub proof fn lemma_find_first(s: Seq<char>, pat: Seq<char>, from: nat, i: nat)
    requires
        from <= i,
        occurs_at(s, pat, i as int),
        forall|j: int| from <= j < i ==> !occurs_at(s, pat, j),
    ensures
        find_from(s, pat, from) == Some(i),
    decreases i - from,
{
    if from < i {
        lemma_find_first(s, pat, from + 1, i);
    }
}

/// Replacing a pattern that does not occur changes nothing.
pub proof fn lemma_replace_absent(s: Seq<char>, pat: Seq<char>, rep: Seq<char>)
    requires
        pat.len() > 0,
        !contains(s, pat),
    ensures
        replace_all(s, pat, rep) == s,
    decreases s.len(),
{
    if s.len() >= pat.len() {
        lemma_find_from_range(s, pat, 0);
        assert(!occurs_at(s, pat, 0));
        let t = s.drop_first();
        lemma_find_from_range(t, pat, 0);
        if find(t, pat) is Some {
            let i = find(t, pat)->0 as int;
            assert(s.subrange(i + 1, i + 1 + pat.len()) =~= t.subrange(i, i + pat.len()));
            assert(occurs_at(s, pat, i + 1));
        }
        lemma_replace_absent(t, pat, rep);
        assert(seq![s[0]] + t =~= s);
    }
}

/// The pieces of `s` between characters of class `cls` (`str::split` with a
/// character predicate): one more piece than there are separators, empty
/// pieces included.
pub open spec fn split_by(s: Seq<char>, cls: CharClass) -> Seq<Seq<char>>
    decreases s.len(),
{
    if s.len() == 0 {
        seq![seq![]]
    } else {
        let rest = split_by(s.drop_last(), cls);
        if in_class(cls, s.last()) {
            rest.push(seq![])
        } else {
            rest.update(rest.len() - 1, rest.last().push(s.last()))
        }
    }
}

/// A split has at least one piece.
pub proof fn lemma_split_nonempty(s: Seq<char>, cls: CharClass)
    ensures
        split_by(s, cls).len() >= 1,
    decreases s.len(),
{
    if s.len() > 0 {
        lemma_split_nonempty(s.drop_last(), cls);
    }
}

/// The pieces of `s` between characters of class `cls`.
pub fn split_chars(s: &[char], cls: CharClass) -> (r: Vec<Vec<char>>)
    ensures
        r@.len() == split_by(s@, cls).len(),
        forall|i: int| 0 <= i < r@.len() ==> #[trigger] r@[i]@ == split_by(s@, cls)[i],
{
    let mut r: Vec<Vec<char>> = Vec::new();
    let mut cur: Vec<char> = Vec::new();
    let mut i: usize = 0;
    assert(s@.take(0) =~= Seq::<char>::empty());
    while i < s.len()
        invariant
            i <= s@.len(),
            r@.len() + 1 == split_by(s@.take(i as int), cls).len(),
            forall|k: int| 0 <= k < r@.len() ==> #[trigger] r@[k]@ == split_by(s@.take(i as int), cls)[k],
            cur@ == split_by(s@.take(i as int), cls).last(),
        decreases s@.len() - i,
    {
        proof {
            lemma_split_nonempty(s@.take(i as int), cls);
        }
        assert(s@.take(i + 1).drop_last() =~= s@.take(i as int));
        assert(s@.take(i + 1).last() == s@[i as int]);
        let c = s[i];
        if class_has(cls, c) {
            r.push(cur);
            cur = Vec::new();
            assert(cur@ =~= Seq::<char>::empty());
        } else {
            cur.push(c);
        }
        i = i + 1;
    }
    assert(s@.take(i as int) =~= s@);
    proof {
        lemma_split_nonempty(s@, cls);
    }
    r.push(cur);
    r
}

/// The parts joined, with `sep` between each two.
pub open spec fn join(parts: Seq<Seq<char>>, sep: Seq<char>) -> Seq<char>
    decreases parts.len(),
{
    if parts.len() == 0 {
        seq![]
    } else if parts.len() == 1 {
        parts[0]
    } else {
        join(parts.drop_last(), sep) + sep + parts.last()
    }
}

} // verus!
