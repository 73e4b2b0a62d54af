//! Where a canonical word occurs in a text: as a whole token, or as a
//! component of a camelCase, PascalCase, snake_case or kebab-case identifier.
//! The comparison ignores case; the characters around an occurrence decide
//! whether it stands at a boundary.
use vstd::prelude::*;
use crate::ordering::vec_views;
use crate::text::{
    alphanumeric_char, char_lower_of, char_to_lower, is_alphanumeric, is_upper_case, same_chars,
    upper_case_char,
};

verus! {

/// Two characters are equal without regard to case.
pub open spec fn same_letter(a: char, b: char) -> bool {
    char_lower_of(a) == char_lower_of(b)
}

/// An ASCII decimal digit.
pub open spec fn is_digit(c: char) -> bool {
    '0' <= c && c <= '9'
}

/// An ASCII letter or digit.
pub open spec fn ascii_alphanumeric(c: char) -> bool {
    ('a' <= c && c <= 'z') || ('A' <= c && c <= 'Z') || is_digit(c)
}

/// A character that belongs to a token: a letter, a digit or an underscore.
pub open spec fn word_char(c: char) -> bool {
    ascii_alphanumeric(c) || c == '_' || alphanumeric_char(c)
}

/// A character that glues the parts of a compound identifier together: an
/// uppercase letter, an underscore, a hyphen or a digit.
pub open spec fn joiner(c: char) -> bool {
    upper_case_char(c) || c == '_' || c == '-' || is_digit(c)
}

/// An occurrence may start at `s`: at the start of a token, right after a
/// joiner, or where an uppercase letter opens a camelCase part.
pub open spec fn opens_at(t: Seq<char>, s: int) -> bool {
    s == 0 || !word_char(t[s - 1]) || joiner(t[s - 1]) || upper_case_char(t[s])
}

/// An occurrence may end at `e`: at the end of a token, or right before a
/// joiner.
pub open spec fn closes_at(t: Seq<char>, e: int) -> bool {
    e == t.len() || !word_char(t[e]) || joiner(t[e])
}

/// The non-empty word `w` occurs in `t` at position `p`.
pub open spec fn occurs_at(t: Seq<char>, w: Seq<char>, p: int) -> bool {
    &&& w.len() > 0
    &&& 0 <= p
    &&& p + w.len() <= t.len()
    &&& forall|i: int| 0 <= i < w.len() ==> same_letter(#[trigger] t[p + i], w[i])
    &&& opens_at(t, p)
    &&& closes_at(t, p + w.len())
}

/// The lowercase forms of the characters of `w`, one vector per character.
pub open spec fn folds_of(w: Seq<char>, f: Seq<Vec<char>>) -> bool {
    &&& f.len() == w.len()
    &&& forall|i: int| 0 <= i < w.len() ==> (#[trigger] f[i])@ == char_lower_of(w[i])
}

/// The lowercase forms of the characters of `w`.
pub(crate) fn fold_chars(w: &Vec<char>) -> (r: Vec<Vec<char>>)
    ensures
        folds_of(w@, r@),
{
    let mut r: Vec<Vec<char>> = Vec::new();
    let mut i: usize = 0;
    while i < w.len()
        invariant
            i <= w@.len(),
            r@.len() == i,
            forall|j: int| 0 <= j < i ==> (#[trigger] r@[j])@ == char_lower_of(w@[j]),
        decreases w@.len() - i,
    {
        r.push(char_to_lower(w[i]));
        i += 1;
    }
    r
}

fn is_digit_char(c: char) -> (r: bool)
    ensures
        r == is_digit(c),
{
    '0' <= c && c <= '9'
}

fn is_word_char(c: char) -> (r: bool)
    ensures
        r == word_char(c),
{
    ('a' <= c && c <= 'z') || ('A' <= c && c <= 'Z') || is_digit_char(c) || c == '_'
        || is_alphanumeric(c)
}

fn is_joiner(c: char) -> (r: bool)
    ensures
        r == joiner(c),
{
    c == '_' || c == '-' || is_digit_char(c) || is_upper_case(c)
}

/// What the matcher needs to know of each character of a text: its
/// lowercase form, and whether it is a word character, a joiner, and
/// uppercase.
pub struct TextClasses {
    pub folded: Vec<Vec<char>>,
    pub word: Vec<bool>,
    pub joiner: Vec<bool>,
    pub upper: Vec<bool>,
}

/// The four vectors have one entry per character.
pub open spec fn classes_well_formed(c: &TextClasses) -> bool {
    &&& c.word@.len() == c.folded@.len()
    &&& c.joiner@.len() == c.folded@.len()
    &&& c.upper@.len() == c.folded@.len()
}

/// `c` describes the characters of `t`.
pub open spec fn classes_of(t: Seq<char>, c: &TextClasses) -> bool {
    &&& classes_well_formed(c)
    &&& c.folded@.len() == t.len()
    &&& forall|i: int|
        0 <= i < t.len() ==> (#[trigger] c.folded@[i])@ == char_lower_of(t[i]) && c.word@[i]
            == word_char(t[i]) && c.joiner@[i] == joiner(t[i]) && c.upper@[i] == upper_case_char(
            t[i],
        )
}

/// A word whose characters have the lowercase forms `wf` occurs at `p` of a
/// text with the character classes given: the lowercase forms agree, the
/// occurrence opens at the start of a token, after a joiner or on an
/// uppercase character, and it closes at the end of a token or before a
/// joiner.
pub open spec fn occurs_by_classes(
    tf: Seq<Seq<char>>,
    word: Seq<bool>,
    join: Seq<bool>,
    upper: Seq<bool>,
    wf: Seq<Seq<char>>,
    p: int,
) -> bool {
    &&& wf.len() > 0
    &&& 0 <= p
    &&& p + wf.len() <= tf.len()
    &&& forall|i: int| 0 <= i < wf.len() ==> tf[p + i] == #[trigger] wf[i]
    &&& (p == 0 || !word[p - 1] || join[p - 1] || upper[p])
    &&& (p + wf.len() == tf.len() || !word[p + wf.len()] || join[p + wf.len()])
}

/// The classes of each character of `t`.
pub(crate) fn text_classes(t: &Vec<char>) -> (r: TextClasses)
    ensures
        classes_of(t@, &r),
{
    let mut r = TextClasses { folded: Vec::new(), word: Vec::new(), joiner: Vec::new(), upper: Vec::new() };
    let mut i: usize = 0;
    while i < t.len()
        invariant
            i <= t@.len(),
            classes_well_formed(&r),
            r.folded@.len() == i,
            forall|j: int| 0 <= j < i ==> (#[trigger] r.folded@[j])@ == char_lower_of(t@[j]),
            forall|j: int| 0 <= j < i ==> #[trigger] r.word@[j] == word_char(t@[j]),
            forall|j: int| 0 <= j < i ==> #[trigger] r.joiner@[j] == joiner(t@[j]),
            forall|j: int| 0 <= j < i ==> #[trigger] r.upper@[j] == upper_case_char(t@[j]),
        decreases t@.len() - i,
    {
        let c = t[i];
        r.folded.push(char_to_lower(c));
        r.word.push(is_word_char(c));
        r.joiner.push(is_joiner(c));
        r.upper.push(is_upper_case(c));
        assert(r.folded@[i as int]@ == char_lower_of(t@[i as int]));
        assert(r.word@[i as int] == word_char(t@[i as int]));
        assert(r.joiner@[i as int] == joiner(t@[i as int]));
        assert(r.upper@[i as int] == upper_case_char(t@[i as int]));
        i += 1;
    }
    r
}

/// Whether a word whose characters have the lowercase forms `wf` occurs at
/// `p` of the text that `c` describes.
pub fn occurs_in_classes(c: &TextClasses, wf: &Vec<Vec<char>>, p: usize) -> (r: bool)
    requires
        classes_well_formed(c),
    ensures
        r == occurs_by_classes(
            vec_views(c.folded@),
            c.word@,
            c.joiner@,
            c.upper@,
            vec_views(wf@),
            p as int,
        ),
{
    let n = c.folded.len();
    if wf.len() == 0 || p > n || wf.len() > n - p {
        return false;
    }
    let mut i: usize = 0;
    while i < wf.len()
        invariant
            i <= wf@.len(),
            p + wf@.len() <= n,
            n == c.folded@.len(),
            forall|j: int| 0 <= j < i ==> vec_views(c.folded@)[p + j] == #[trigger] vec_views(wf@)[j],
        decreases wf@.len() - i,
    {
        if !same_chars(&c.folded[p + i], &wf[i]) {
            assert(vec_views(c.folded@)[p + i] != vec_views(wf@)[i as int]);
            return false;
        }
        i += 1;
    }
    let opens = p == 0 || !c.word[p - 1] || c.joiner[p - 1] || c.upper[p];
    let e = p + wf.len();
    let closes = e == n || !c.word[e] || c.joiner[e];
    opens && closes
}

/// On the classes of a text, `occurs_by_classes` is `occurs_at`.
pub proof fn lemma_occurs_by_classes(t: Seq<char>, c: &TextClasses, w: Seq<char>, wf: Seq<Vec<char>>, p: int)
    requires
        classes_of(t, c),
        folds_of(w, wf),
    ensures
        occurs_by_classes(vec_views(c.folded@), c.word@, c.joiner@, c.upper@, vec_views(wf), p)
            == occurs_at(t, w, p),
{
    let tf = vec_views(c.folded@);
    let wv = vec_views(wf);
    if w.len() > 0 && 0 <= p && p + w.len() <= t.len() {
        assert forall|i: int| 0 <= i < w.len() implies (tf[p + i] == wv[i]) == same_letter(
            t[p + i],
            w[i],
        ) by {
            assert(tf[p + i] == c.folded@[p + i]@);
            assert(wv[i] == wf[i]@);
            assert(c.folded@[p + i]@ == char_lower_of(t[p + i]));
            assert(wf[i]@ == char_lower_of(w[i]));
        }
        if forall|i: int| 0 <= i < wv.len() ==> tf[p + i] == #[trigger] wv[i] {
            assert forall|i: int| 0 <= i < w.len() implies same_letter(#[trigger] t[p + i], w[i]) by {
                assert(tf[p + i] == wv[i]);
            }
        }
        if forall|i: int| 0 <= i < w.len() ==> same_letter(#[trigger] t[p + i], w[i]) {
            assert forall|i: int| 0 <= i < wv.len() implies tf[p + i] == #[trigger] wv[i] by {
                assert(same_letter(t[p + i], w[i]));
            }
        }
        if p > 0 {
            assert(c.folded@[p - 1]@ == char_lower_of(t[p - 1]));
        }
        assert(c.folded@[p]@ == char_lower_of(t[p]));
        if p + w.len() < t.len() {
            assert(c.folded@[p + w.len()]@ == char_lower_of(t[p + w.len()]));
        }
    }
}

} // verus!
