//! Properties that hold of the masking and decoding functions for all inputs.
use vstd::prelude::*;
use crate::matcher::occurs_at;
use crate::ordering::{canonical_table, covers_words, distinct_forms, from_first_seen, lemma_table_of_prefix, seen_among};
use crate::text::lower_of;
use crate::decoder::{decode_from, decoded, token_at};
use crate::round_trip::lemma_decode_literal;
use crate::text_processor::{
    hit_at, marks_from, mask_from, masked, masked_with_fields, rewrite, rewrite_from, rewrite_marks,
    unmarked,
};

verus! {

/// A pass writes as many marks as characters.
pub proof fn lemma_marks_len(t: Seq<char>, m: Seq<bool>, w: Seq<char>, field: nat, p: int)
    ensures
        marks_from(t, m, w, field, p).len() == rewrite_from(t, m, w, field, p).len(),
    decreases t.len() - p,
{
    if 0 <= p < t.len() {
        if hit_at(t, m, w, p) {
            lemma_marks_len(t, m, w, field, p + w.len());
        } else {
            lemma_marks_len(t, m, w, field, p + 1);
        }
    }
}

/// A pass over a text in which the word does not occur copies the text and
/// its marks.
proof fn lemma_rewrite_without_occurrence(t: Seq<char>, m: Seq<bool>, w: Seq<char>, field: nat, p: int)
    requires
        0 <= p <= t.len(),
        m.len() == t.len(),
        forall|q: int| p <= q < t.len() ==> !occurs_at(t, w, q),
    ensures
        rewrite_from(t, m, w, field, p) == t.subrange(p, t.len() as int),
        marks_from(t, m, w, field, p) == m.subrange(p, m.len() as int),
    decreases t.len() - p,
{
    if p < t.len() {
        lemma_rewrite_without_occurrence(t, m, w, field, p + 1);
        assert(t.subrange(p, t.len() as int) =~= seq![t[p]] + t.subrange(p + 1, t.len() as int));
        assert(m.subrange(p, m.len() as int) =~= seq![m[p]] + m.subrange(p + 1, m.len() as int));
    } else {
        assert(t.subrange(p, t.len() as int) =~= seq![]);
        assert(m.subrange(p, m.len() as int) =~= seq![]);
    }
}

proof fn lemma_mask_from_without_occurrence(
    t: Seq<char>,
    m: Seq<bool>,
    table: Seq<Seq<char>>,
    fields: bool,
    k: int,
)
    requires
        0 <= k,
        m.len() == t.len(),
        forall|j: int, q: int| k <= j < table.len() ==> !#[trigger] occurs_at(t, table[j], q),
    ensures
        mask_from(t, m, table, fields, k) == t,
    decreases table.len() - k,
{
    if k < table.len() {
        let w = table[k];
        let f = crate::text_processor::field_for(fields, k);
        assert forall|q: int| 0 <= q < t.len() implies !occurs_at(t, w, q) by {
            assert(!occurs_at(t, table[k], q));
        }
        lemma_rewrite_without_occurrence(t, m, w, f, 0);
        assert(t.subrange(0, t.len() as int) =~= t);
        assert(m.subrange(0, m.len() as int) =~= m);
        assert(rewrite(t, m, w, f) == t);
        assert(rewrite_marks(t, m, w, f) == m);
        lemma_mask_from_without_occurrence(t, m, table, fields, k + 1);
    }
}

/// Masking a text in which no canonical word occurs, with asterisks or with
/// placeholders, returns the text unchanged.
pub proof fn mask_keeps_text_without_occurrences(text: Seq<char>, words: Seq<Seq<char>>)
    requires
        forall|k: int, p: int|
            0 <= k < canonical_table(words).len() ==> !#[trigger] occurs_at(
                text,
                canonical_table(words)[k],
                p,
            ),
    ensures
        masked(text, words) == text,
        masked_with_fields(text, words) == text,
{
    let table = canonical_table(words);
    assert forall|j: int, q: int| 0 <= j < table.len() implies !#[trigger] occurs_at(
        text,
        table[j],
        q,
    ) by {
        assert(!occurs_at(text, canonical_table(words)[j], q));
    }
    lemma_mask_from_without_occurrence(text, unmarked(text.len()), table, false, 0);
    lemma_mask_from_without_occurrence(text, unmarked(text.len()), table, true, 0);
}

/// An asterisk pass keeps the length, and each character is kept or becomes
/// an asterisk.
proof fn lemma_star_pass(t: Seq<char>, m: Seq<bool>, w: Seq<char>, p: int)
    requires
        0 <= p <= t.len(),
    ensures
        rewrite_from(t, m, w, 0, p).len() == t.len() - p,
        forall|i: int|
            0 <= i < t.len() - p ==> #[trigger] rewrite_from(t, m, w, 0, p)[i] == t[p + i]
                || rewrite_from(t, m, w, 0, p)[i] == '*',
    decreases t.len() - p,
{
    if p < t.len() {
        if hit_at(t, m, w, p) {
            lemma_star_pass(t, m, w, p + w.len());
        } else {
            lemma_star_pass(t, m, w, p + 1);
        }
    }
}

proof fn lemma_star_passes(t: Seq<char>, m: Seq<bool>, table: Seq<Seq<char>>, k: int)
    requires
        0 <= k,
        m.len() == t.len(),
    ensures
        mask_from(t, m, table, false, k).len() == t.len(),
        forall|i: int|
            0 <= i < t.len() ==> #[trigger] mask_from(t, m, table, false, k)[i] == t[i] || mask_from(
                t,
                m,
                table,
                false,
                k,
            )[i] == '*',
    decreases table.len() - k,
{
    if k < table.len() {
        let u = rewrite(t, m, table[k], 0);
        let um = rewrite_marks(t, m, table[k], 0);
        lemma_star_pass(t, m, table[k], 0);
        lemma_marks_len(t, m, table[k], 0, 0);
        lemma_star_passes(u, um, table, k + 1);
        assert forall|i: int| 0 <= i < t.len() implies #[trigger] mask_from(t, m, table, false, k)[i]
            == t[i] || mask_from(t, m, table, false, k)[i] == '*' by {
            assert(mask_from(t, m, table, false, k) == mask_from(u, um, table, false, k + 1));
            assert(u[i] == t[0 + i] || u[i] == '*');
        }
    }
}

/// Masking with asterisks keeps the text's length: each occurrence becomes as
/// many asterisks as it has characters, and every other character stays.
pub proof fn asterisk_masking_keeps_length(text: Seq<char>, words: Seq<Seq<char>>)
    ensures
        masked(text, words).len() == text.len(),
        forall|i: int|
            0 <= i < text.len() ==> #[trigger] masked(text, words)[i] == text[i] || masked(
                text,
                words,
            )[i] == '*',
{
    lemma_star_passes(text, unmarked(text.len()), canonical_table(words), 0);
}

/// Field numbers depend on the word collection alone. Each non-empty word,
/// in whatever case it is written, has exactly one entry of its lowercase form
/// in the canonical table, and the pass for entry `k` writes field number
/// `k + 1` into every text; so all occurrences of a word carry one number.
/// No two entries share a lowercase form, so distinct words never share a
/// number; and each entry is a non-empty word of the collection.
pub proof fn field_numbers_are_stable(words: Seq<Seq<char>>)
    ensures
        forall|i: int|
            0 <= i < words.len() && #[trigger] words[i].len() > 0 ==> exists|k: int|
                0 <= k < canonical_table(words).len() && lower_of(
                    #[trigger] canonical_table(words)[k],
                ) == lower_of(words[i]),
        forall|k1: int, k2: int|
            0 <= k1 < canonical_table(words).len() && 0 <= k2 < canonical_table(words).len()
                && lower_of(#[trigger] canonical_table(words)[k1]) == lower_of(
                #[trigger] canonical_table(words)[k2],
            ) ==> k1 == k2,
        forall|k: int|
            0 <= k < canonical_table(words).len() ==> (#[trigger] canonical_table(words)[k]).len()
                > 0 && words.contains(canonical_table(words)[k]),
        forall|t: Seq<char>, m: Seq<bool>, k: int|
            0 <= k < canonical_table(words).len() ==> #[trigger] mask_from(
                t,
                m,
                canonical_table(words),
                true,
                k,
            ) == mask_from(
                rewrite(t, m, canonical_table(words)[k], (k + 1) as nat),
                rewrite_marks(t, m, canonical_table(words)[k], (k + 1) as nat),
                canonical_table(words),
                true,
                k + 1,
            ),
{
    let table = canonical_table(words);
    lemma_table_of_prefix(words, words.len() as int);
    assert(covers_words(words, table, words.len() as int));
    assert(distinct_forms(table));
    assert forall|k: int| 0 <= k < table.len() implies (#[trigger] table[k]).len() > 0
        && words.contains(table[k]) by {
        assert(from_first_seen(words, table, words.len() as int));
        assert(seen_among(words, table[k], words.len() as int));
        let i = choose|i: int|
            0 <= i < words.len() && crate::ordering::first_seen(words, i) && table[k]
                == #[trigger] words[i];
        assert(words[i] == table[k]);
    }
}

/// Decoding a text that holds no placeholder of the collection's fields
/// returns it unchanged.
pub proof fn decode_keeps_text_without_placeholders(text: Seq<char>, words: Seq<Seq<char>>)
    requires
        forall|r: int| !token_at(text, r, canonical_table(words).len() as int),
    ensures
        decoded(text, words) == text,
{
    let table = canonical_table(words);
    lemma_decode_literal(text, table, 0, text.len() as int);
    assert(text.subrange(0, text.len() as int) =~= text);
    assert(decode_from(text, table, text.len() as int) =~= seq![]);
}

proof fn lemma_mask_from_empty(m: Seq<bool>, table: Seq<Seq<char>>, fields: bool, k: int)
    requires
        0 <= k,
    ensures
        mask_from(seq![], m, table, fields, k) == Seq::<char>::empty(),
    decreases table.len() - k,
{
    if k < table.len() {
        let f = crate::text_processor::field_for(fields, k);
        assert(rewrite(seq![], m, table[k], f) == Seq::<char>::empty());
        lemma_mask_from_empty(rewrite_marks(seq![], m, table[k], f), table, fields, k + 1);
    }
}

/// Empty text, or an empty word collection, comes back unchanged from each
/// operation.
pub proof fn empty_inputs_are_kept(text: Seq<char>, words: Seq<Seq<char>>)
    ensures
        masked(seq![], words) == Seq::<char>::empty(),
        masked_with_fields(seq![], words) == Seq::<char>::empty(),
        decoded(seq![], words) == Seq::<char>::empty(),
        masked(text, seq![]) == text,
        masked_with_fields(text, seq![]) == text,
        decoded(text, seq![]) == text,
{
    lemma_mask_from_empty(unmarked(0), canonical_table(words), false, 0);
    lemma_mask_from_empty(unmarked(0), canonical_table(words), true, 0);
    let none: Seq<Seq<char>> = seq![];
    assert(canonical_table(none).len() == 0);
    assert forall|r: int| !token_at(text, r, 0) by {
        if token_at(text, r, 0) {
            assert(crate::decoder::digit_value(text[r + 6]) >= 1);
        }
    }
    decode_keeps_text_without_placeholders(text, none);
}

} // verus!
