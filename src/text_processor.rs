//! Masking with asterisks or with numbered placeholders, and decoding of
//! placeholder text.
use vstd::prelude::*;
use crate::decoder::{decode_chars, decoded};
use crate::case_utils::{case_kind, case_kind_of, suffix_of, CaseKind};
use crate::matcher::{
    classes_of, fold_chars, lemma_occurs_by_classes, occurs_at, occurs_in_classes, text_classes,
};
use crate::ordering::{canonical_table, canonical_words, vec_views, word_views};
use crate::text::{chars_of, string_of};

verus! {

/// The character of a decimal digit.
pub open spec fn digit_char(d: int) -> char {
    if d == 0 {
        '0'
    } else if d == 1 {
        '1'
    } else if d == 2 {
        '2'
    } else if d == 3 {
        '3'
    } else if d == 4 {
        '4'
    } else if d == 5 {
        '5'
    } else if d == 6 {
        '6'
    } else if d == 7 {
        '7'
    } else if d == 8 {
        '8'
    } else {
        '9'
    }
}

/// The decimal notation of `n`, without leading zeros.
pub open spec fn decimal(n: nat) -> Seq<char>
    decreases n,
{
    if n < 10 {
        seq![digit_char(n as int)]
    } else {
        decimal(n / 10).push(digit_char((n % 10) as int))
    }
}

/// The text that opens every placeholder.
pub open spec fn field_marker() -> Seq<char> {
    seq!['F', 'I', 'E', 'L', 'D', '_']
}

/// The placeholder for a span of the word with field number `n`.
pub open spec fn placeholder(n: nat, span: Seq<char>) -> Seq<char> {
    field_marker() + decimal(n) + suffix_of(case_kind(span))
}

/// `n` asterisks.
pub open spec fn stars(n: nat) -> Seq<char> {
    Seq::new(n, |i: int| '*')
}

/// What replaces a span: asterisks, one per character, when `field` is zero;
/// else the placeholder for field number `field`.
pub open spec fn cover(span: Seq<char>, field: nat) -> Seq<char> {
    if field == 0 {
        stars(span.len())
    } else {
        placeholder(field, span)
    }
}

/// `w` occurs in `t` at `p` on characters that no earlier pass wrote: what
/// earlier passes wrote is marked in `marks`.
pub open spec fn hit_at(t: Seq<char>, marks: Seq<bool>, w: Seq<char>, p: int) -> bool {
    &&& occurs_at(t, w, p)
    &&& forall|i: int| p <= i < p + w.len() ==> !#[trigger] marks[i]
}

/// `t` from position `p` on, with each unmarked occurrence of `w` covered;
/// the occurrences are taken from left to right and do not overlap.
pub open spec fn rewrite_from(t: Seq<char>, marks: Seq<bool>, w: Seq<char>, field: nat, p: int) -> Seq<
    char,
>
    decreases t.len() - p,
{
    if p < 0 || p >= t.len() {
        seq![]
    } else if hit_at(t, marks, w, p) {
        cover(t.subrange(p, p + w.len()), field) + rewrite_from(t, marks, w, field, p + w.len())
    } else {
        seq![t[p]] + rewrite_from(t, marks, w, field, p + 1)
    }
}

/// The marks of what `rewrite_from` writes: set on the covers, kept on the
/// copied characters.
pub open spec fn marks_from(t: Seq<char>, marks: Seq<bool>, w: Seq<char>, field: nat, p: int) -> Seq<
    bool,
>
    decreases t.len() - p,
{
    if p < 0 || p >= t.len() {
        seq![]
    } else if hit_at(t, marks, w, p) {
        Seq::new(cover(t.subrange(p, p + w.len()), field).len(), |i: int| true) + marks_from(
            t,
            marks,
            w,
            field,
            p + w.len(),
        )
    } else {
        seq![marks[p]] + marks_from(t, marks, w, field, p + 1)
    }
}

/// `t` with each unmarked occurrence of `w` covered.
pub open spec fn rewrite(t: Seq<char>, marks: Seq<bool>, w: Seq<char>, field: nat) -> Seq<char> {
    rewrite_from(t, marks, w, field, 0)
}

/// The marks after a pass.
pub open spec fn rewrite_marks(t: Seq<char>, marks: Seq<bool>, w: Seq<char>, field: nat) -> Seq<
    bool,
> {
    marks_from(t, marks, w, field, 0)
}

/// No position marked.
pub open spec fn unmarked(n: nat) -> Seq<bool> {
    Seq::new(n, |i: int| false)
}

/// The field number that the pass for entry `k` of the table writes: none
/// (zero) when masking with asterisks.
pub open spec fn field_for(fields: bool, k: int) -> nat {
    if fields {
        (k + 1) as nat
    } else {
        0
    }
}

/// `t`, marked where earlier passes wrote, after the passes for entries `k`,
/// `k + 1`, ... of `table`. Each pass works on the text that the one before
/// left, and what a pass writes is not matched again.
pub open spec fn mask_from(
    t: Seq<char>,
    marks: Seq<bool>,
    table: Seq<Seq<char>>,
    fields: bool,
    k: int,
) -> Seq<char>
    decreases table.len() - k,
{
    if k < 0 || k >= table.len() {
        t
    } else {
        let f = field_for(fields, k);
        mask_from(
            rewrite(t, marks, table[k], f),
            rewrite_marks(t, marks, table[k], f),
            table,
            fields,
            k + 1,
        )
    }
}

/// `text` with every occurrence of every word covered by asterisks.
pub open spec fn masked(text: Seq<char>, words: Seq<Seq<char>>) -> Seq<char> {
    mask_from(text, unmarked(text.len()), canonical_table(words), false, 0)
}

/// `text` with every occurrence of every word replaced by its placeholder.
pub open spec fn masked_with_fields(text: Seq<char>, words: Seq<Seq<char>>) -> Seq<char> {
    mask_from(text, unmarked(text.len()), canonical_table(words), true, 0)
}

fn digit_char_exec(d: usize) -> (r: char)
    requires
        d < 10,
    ensures
        r == digit_char(d as int),
{
    if d == 0 {
        '0'
    } else if d == 1 {
        '1'
    } else if d == 2 {
        '2'
    } else if d == 3 {
        '3'
    } else if d == 4 {
        '4'
    } else if d == 5 {
        '5'
    } else if d == 6 {
        '6'
    } else if d == 7 {
        '7'
    } else if d == 8 {
        '8'
    } else {
        '9'
    }
}

fn decimal_exec(n: usize) -> (r: Vec<char>)
    ensures
        r@ == decimal(n as nat),
    decreases n,
{
    if n < 10 {
        let mut r: Vec<char> = Vec::new();
        r.push(digit_char_exec(n));
        assert(r@ =~= seq![digit_char(n as int)]);
        r
    } else {
        let mut r = decimal_exec(n / 10);
        r.push(digit_char_exec(n % 10));
        r
    }
}

/// Appends the characters of `s`.
pub(crate) fn push_all(out: &mut Vec<char>, s: &Vec<char>)
    ensures
        final(out)@ == old(out)@ + s@,
{
    let mut i: usize = 0;
    while i < s.len()
        invariant
            i <= s@.len(),
            out@ == old(out)@ + s@.take(i as int),
        decreases s@.len() - i,
    {
        out.push(s[i]);
        i += 1;
        assert(s@.take(i as int) =~= s@.take(i - 1).push(s@[i - 1]));
    }
    assert(s@.take(s@.len() as int) =~= s@);
}

fn push_cover(out: &mut Vec<char>, t: &Vec<char>, p: usize, len: usize, field: usize)
    requires
        p + len <= t@.len(),
    ensures
        final(out)@ == old(out)@ + cover(t@.subrange(p as int, p + len), field as nat),
{
    let ghost span = t@.subrange(p as int, p + len);
    if field == 0 {
        let mut i: usize = 0;
        while i < len
            invariant
                i <= len,
                out@ == old(out)@ + stars(i as nat),
            decreases len - i,
        {
            out.push('*');
            i += 1;
            assert(stars(i as nat) =~= stars((i - 1) as nat).push('*'));
        }
    } else {
        let mut piece: Vec<char> = Vec::new();
        let mut i: usize = 0;
        while i < len
            invariant
                i <= len,
                p + len <= t.len(),
                piece@ == t@.subrange(p as int, p + i),
            decreases len - i,
        {
            piece.push(t[p + i]);
            i += 1;
            assert(t@.subrange(p as int, p + i) =~= t@.subrange(p as int, p + i - 1).push(
                t@[p + i - 1],
            ));
        }
        let kind = case_kind_of(&piece);
        let marker = vec!['F', 'I', 'E', 'L', 'D', '_'];
        assert(marker@ =~= field_marker());
        push_all(out, &marker);
        let digits = decimal_exec(field);
        push_all(out, &digits);
        match kind {
            CaseKind::AllUpper => {
                out.push('_');
                out.push('A');
            },
            CaseKind::FirstUpper => {
                out.push('_');
                out.push('F');
            },
            CaseKind::Lower => {},
        }
        assert(out@ =~= old(out)@ + placeholder(field as nat, span));
    }
}

/// No position in `p..p + len` is marked.
fn unmarked_run(marks: &Vec<bool>, p: usize, len: usize) -> (r: bool)
    requires
        p + len <= marks@.len(),
    ensures
        r == forall|i: int| p <= i < p + len ==> !#[trigger] marks@[i],
{
    let mut i: usize = p;
    while i < p + len
        invariant
            p <= i <= p + len,
            p + len <= marks.len(),
            forall|j: int| p <= j < i ==> !#[trigger] marks@[j],
        decreases p + len - i,
    {
        if marks[i] {
            return false;
        }
        i += 1;
    }
    true
}

/// One pass: `t` with each unmarked occurrence of `w` covered, and the new
/// marks.
fn rewrite_exec(t: &Vec<char>, marks: &Vec<bool>, w: &Vec<char>, field: usize) -> (r: (
    Vec<char>,
    Vec<bool>,
))
    requires
        marks@.len() == t@.len(),
    ensures
        r.0@ == rewrite(t@, marks@, w@, field as nat),
        r.1@ == rewrite_marks(t@, marks@, w@, field as nat),
        r.1@.len() == r.0@.len(),
{
    let wf = fold_chars(w);
    let classes = text_classes(t);
    let mut out: Vec<char> = Vec::new();
    let mut out_marks: Vec<bool> = Vec::new();
    let mut p: usize = 0;
    while p < t.len()
        invariant
            p <= t@.len(),
            marks@.len() == t@.len(),
            crate::matcher::folds_of(w@, wf@),
            classes_of(t@, &classes),
            out_marks@.len() == out@.len(),
            rewrite(t@, marks@, w@, field as nat) == out@ + rewrite_from(
                t@,
                marks@,
                w@,
                field as nat,
                p as int,
            ),
            rewrite_marks(t@, marks@, w@, field as nat) == out_marks@ + marks_from(
                t@,
                marks@,
                w@,
                field as nat,
                p as int,
            ),
        decreases t@.len() - p,
    {
        proof {
            lemma_occurs_by_classes(t@, &classes, w@, wf@, p as int);
        }
        if occurs_in_classes(&classes, &wf, p) && unmarked_run(marks, p, w.len()) {
            let ghost before = out@;
            let ghost before_marks = out_marks@;
            push_cover(&mut out, t, p, w.len(), field);
            let ghost n = out@.len() - before.len();
            let mut i: usize = out_marks.len();
            while i < out.len()
                invariant
                    before_marks.len() <= i <= out@.len(),
                    out_marks@.len() == i,
                    before_marks.len() == before.len(),
                    out_marks@ == before_marks + Seq::new((i - before_marks.len()) as nat, |j: int| true),
                decreases out@.len() - i,
            {
                out_marks.push(true);
                i += 1;
                assert(out_marks@ =~= before_marks + Seq::new((i - before_marks.len()) as nat, |j: int| true));
            }
            p += w.len();
        } else {
            out.push(t[p]);
            out_marks.push(marks[p]);
            p += 1;
        }
    }
    assert(out@ =~= out@ + rewrite_from(t@, marks@, w@, field as nat, p as int));
    assert(out_marks@ =~= out_marks@ + marks_from(t@, marks@, w@, field as nat, p as int));
    (out, out_marks)
}

/// All passes, one per entry of `table`, in order.
fn mask_all(text: &String, table: &Vec<Vec<char>>, fields: bool) -> (r: Vec<char>)
    ensures
        r@ == mask_from(text@, unmarked(text@.len()), vec_views(table@), fields, 0),
{
    let ghost tv = vec_views(table@);
    let mut t = chars_of(text.as_str());
    let mut marks: Vec<bool> = Vec::new();
    while marks.len() < t.len()
        invariant
            marks@.len() <= t@.len(),
            marks@ == unmarked(marks@.len()),
        decreases t@.len() - marks@.len(),
    {
        marks.push(false);
        assert(marks@ =~= unmarked(marks@.len()));
    }
    let mut k: usize = 0;
    while k < table.len()
        invariant
            k <= table@.len(),
            tv == vec_views(table@),
            marks@.len() == t@.len(),
            mask_from(text@, unmarked(text@.len()), tv, fields, 0) == mask_from(
                t@,
                marks@,
                tv,
                fields,
                k as int,
            ),
        decreases table@.len() - k,
    {
        let field: usize = if fields {
            k + 1
        } else {
            0
        };
        let (t2, m2) = rewrite_exec(&t, &marks, &table[k], field);
        t = t2;
        marks = m2;
        k += 1;
    }
    t
}

/// Masks every occurrence of `mask_words` in `text` with asterisks, one per
/// character of the occurrence. Longer words go first, and what one word's
/// pass wrote is not matched by a later word.
pub fn mask_text(text: String, mask_words: &Vec<String>) -> (r: String)
    ensures
        r@ == masked(text@, word_views(mask_words@)),
{
    let table = canonical_words(mask_words);
    let t = mask_all(&text, &table, false);
    string_of(&t)
}

/// Replaces every occurrence of `mask_words` in `text` by `FIELD_<n>`, where
/// `n` is the word's field number, followed by `_A` or `_F` as the case of the
/// occurrence asks. Longer words go first, and a placeholder is not matched
/// by a later word.
pub fn mask_text_with_fields(text: String, mask_words: &Vec<String>) -> (r: String)
    ensures
        r@ == masked_with_fields(text@, word_views(mask_words@)),
{
    let table = canonical_words(mask_words);
    let t = mask_all(&text, &table, true);
    string_of(&t)
}

/// Replaces every placeholder `FIELD_<n>`, `FIELD_<n>_F` or `FIELD_<n>_A` of
/// a field of `mask_words` by that word in lowercase, capitalized or
/// uppercase; all other text is kept as it is.
pub fn decode_obfuscated_text(text: String, mask_words: &Vec<String>) -> (r: String)
    ensures
        r@ == decoded(text@, word_views(mask_words@)),
{
    let table = canonical_words(mask_words);
    let t = chars_of(text.as_str());
    let d = decode_chars(&t, &table);
    string_of(&d)
}

} // verus!
