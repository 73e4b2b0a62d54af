//! The canonical word table: the caller's words deduplicated without regard
//! to case, ordered by descending length, ties kept in encounter order. A
//! word's field number is its position in the table plus one.
use vstd::prelude::*;
use vstd::utf8::encode_utf8;
use crate::text::{chars_of, lower_of, same_chars, to_lower};

verus! {

/// The character sequences of a list of strings.
pub open spec fn word_views(v: Seq<String>) -> Seq<Seq<char>> {
    v.map_values(|s: String| s@)
}

/// The character sequences of a list of character vectors.
pub open spec fn vec_views(v: Seq<Vec<char>>) -> Seq<Seq<char>> {
    v.map_values(|w: Vec<char>| w@)
}

/// Word `i` enters the table: it is not empty, and no earlier non-empty word
/// has the same lowercase form.
pub open spec fn first_seen(words: Seq<Seq<char>>, i: int) -> bool {
    &&& 0 <= i < words.len()
    &&& words[i].len() > 0
    &&& forall|j: int|
        0 <= j < i && #[trigger] words[j].len() > 0 ==> lower_of(words[j]) != lower_of(words[i])
}

/// The length of `w` in UTF-8 bytes.
pub open spec fn byte_len(w: Seq<char>) -> nat {
    encode_utf8(w).len()
}

/// Places `w` after every entry that is at least as long as it, lengths
/// counted in UTF-8 bytes.
pub open spec fn insert_by_length(table: Seq<Seq<char>>, w: Seq<char>) -> Seq<Seq<char>>
    decreases table.len(),
{
    if table.len() == 0 {
        seq![w]
    } else if byte_len(table[0]) < byte_len(w) {
        seq![w] + table
    } else {
        seq![table[0]] + insert_by_length(table.drop_first(), w)
    }
}

/// The table built from the first `n` words.
pub open spec fn table_of_prefix(words: Seq<Seq<char>>, n: int) -> Seq<Seq<char>>
    decreases n,
{
    if n <= 0 {
        seq![]
    } else if first_seen(words, n - 1) {
        insert_by_length(table_of_prefix(words, n - 1), words[n - 1])
    } else {
        table_of_prefix(words, n - 1)
    }
}

/// The canonical table of a word collection given in encounter order.
pub open spec fn canonical_table(words: Seq<Seq<char>>) -> Seq<Seq<char>> {
    table_of_prefix(words, words.len() as int)
}

/// Inserting at the first entry shorter than `w` is `insert_by_length`.
proof fn lemma_insert_at_first_shorter(table: Seq<Seq<char>>, w: Seq<char>, k: int)
    requires
        0 <= k <= table.len(),
        forall|m: int| 0 <= m < k ==> byte_len(#[trigger] table[m]) >= byte_len(w),
        k < table.len() ==> byte_len(table[k]) < byte_len(w),
    ensures
        insert_by_length(table, w) == table.insert(k, w),
    decreases table.len(),
{
    if table.len() == 0 {
        assert(table.insert(k, w) =~= seq![w]);
    } else if k == 0 {
        assert(table.insert(k, w) =~= seq![w] + table);
    } else {
        let rest = table.drop_first();
        assert forall|m: int| 0 <= m < k - 1 implies byte_len(#[trigger] rest[m]) >= byte_len(w) by {
            assert(rest[m] == table[m + 1]);
        }
        lemma_insert_at_first_shorter(rest, w, k - 1);
        assert(table.insert(k, w) =~= seq![table[0]] + rest.insert(k - 1, w));
    }
}

/// The canonical table of `words`, as character vectors.
pub(crate) fn canonical_words(words: &Vec<String>) -> (r: Vec<Vec<char>>)
    ensures
        vec_views(r@) == canonical_table(word_views(words@)),
{
    let ghost ws = word_views(words@);
    let mut table: Vec<Vec<char>> = Vec::new();
    let mut keys: Vec<Vec<char>> = Vec::new();
    let mut table_bytes: Vec<usize> = Vec::new();
    let mut sizes: Vec<usize> = Vec::new();
    let mut i: usize = 0;
    while i < words.len()
        invariant
            i <= words@.len(),
            ws == word_views(words@),
            vec_views(table@) == table_of_prefix(ws, i as int),
            table_bytes@.len() == table@.len(),
            forall|m: int| 0 <= m < table@.len() ==> (#[trigger] table_bytes@[m]) == byte_len(table@[m]@),
            keys@.len() == i,
            sizes@.len() == i,
            forall|j: int| 0 <= j < i ==> (#[trigger] sizes@[j]) == ws[j].len(),
            forall|j: int| 0 <= j < i ==> (#[trigger] keys@[j])@ == lower_of(ws[j]),
        decreases words@.len() - i,
    {
        let w = chars_of(words[i].as_str());
        let key = chars_of(to_lower(words[i].as_str()).as_str());
        assert(w@ == ws[i as int]);
        let w_len = w.len();
        let w_bytes = words[i].as_str().as_bytes().len();
        assert(w_bytes == byte_len(w@));
        let mut kept: bool = w_len > 0;
        let mut j: usize = 0;
        while j < i && kept
            invariant
                j <= i,
                i < words@.len(),
                keys@.len() == i,
                sizes@.len() == i,
                forall|m: int| 0 <= m < i ==> (#[trigger] sizes@[m]) == ws[m].len(),
                forall|m: int| 0 <= m < i ==> (#[trigger] keys@[m])@ == lower_of(ws[m]),
                key@ == lower_of(ws[i as int]),
                kept ==> ws[i as int].len() > 0,
                kept ==> forall|m: int|
                    0 <= m < j && #[trigger] ws[m].len() > 0 ==> lower_of(ws[m]) != lower_of(ws[i as int]),
                !kept ==> !first_seen(ws, i as int),
            decreases i - j,
        {
            if sizes[j] > 0 && same_chars(&keys[j], &key) {
                kept = false;
            }
            j += 1;
        }
        if kept {
            let mut k: usize = 0;
            while k < table.len() && table_bytes[k] >= w_bytes
                invariant
                    k <= table@.len(),
                    w_bytes == byte_len(w@),
                    table_bytes@.len() == table@.len(),
                    forall|m: int| 0 <= m < table@.len() ==> (#[trigger] table_bytes@[m]) == byte_len(table@[m]@),
                    forall|m: int| 0 <= m < k ==> byte_len(#[trigger] vec_views(table@)[m]) >= byte_len(w@),
                decreases table@.len() - k,
            {
                assert(vec_views(table@)[k as int] == table@[k as int]@);
                k += 1;
            }
            proof {
                if k < table@.len() {
                    assert(vec_views(table@)[k as int] == table@[k as int]@);
                    assert(table_bytes@[k as int] == byte_len(table@[k as int]@));
                }
                lemma_insert_at_first_shorter(vec_views(table@), w@, k as int);
            }
            let ghost before = table@;
            let ghost before_bytes = table_bytes@;
            table.insert(k, w);
            table_bytes.insert(k, w_bytes);
            assert(vec_views(table@) =~= vec_views(before).insert(k as int, ws[i as int]));
            assert forall|m: int| 0 <= m < table@.len() implies (#[trigger] table_bytes@[m]) == byte_len(table@[m]@) by {
                if m < k {
                    assert(table_bytes@[m] == before_bytes[m] && table@[m] == before[m]);
                } else if m > k {
                    assert(table_bytes@[m] == before_bytes[m - 1] && table@[m] == before[m - 1]);
                }
            }
        }
        keys.push(key);
        sizes.push(w_len);
        i += 1;
    }
    table
}

/// `insert_by_length` puts `w` somewhere into the table and moves nothing else.
proof fn lemma_insert_by_length_position(table: Seq<Seq<char>>, w: Seq<char>) -> (k: int)
    ensures
        0 <= k <= table.len(),
        insert_by_length(table, w) == table.insert(k, w),
    decreases table.len(),
{
    if table.len() == 0 {
        assert(table.insert(0, w) =~= seq![w]);
        0
    } else if byte_len(table[0]) < byte_len(w) {
        assert(table.insert(0, w) =~= seq![w] + table);
        0
    } else {
        let rest = table.drop_first();
        let j = lemma_insert_by_length_position(rest, w);
        assert(table.insert(j + 1, w) =~= seq![table[0]] + rest.insert(j, w));
        j + 1
    }
}

/// `e` is a first-seen word among the first `n`.
pub open spec fn seen_among(words: Seq<Seq<char>>, e: Seq<char>, n: int) -> bool {
    exists|i: int| 0 <= i < n && first_seen(words, i) && e == #[trigger] words[i]
}

/// Each entry of `t` is a first-seen word among the first `n`.
pub open spec fn from_first_seen(words: Seq<Seq<char>>, t: Seq<Seq<char>>, n: int) -> bool {
    forall|k: int| 0 <= k < t.len() ==> seen_among(words, #[trigger] t[k], n)
}

/// Each non-empty word among the first `n` has an entry of its lowercase form.
pub open spec fn covers_words(words: Seq<Seq<char>>, t: Seq<Seq<char>>, n: int) -> bool {
    forall|i: int|
        0 <= i < n && #[trigger] words[i].len() > 0 ==> exists|k: int|
            0 <= k < t.len() && lower_of(#[trigger] t[k]) == lower_of(words[i])
}

/// No two entries of `t` have the same lowercase form.
pub open spec fn distinct_forms(t: Seq<Seq<char>>) -> bool {
    forall|k1: int, k2: int|
        0 <= k1 < t.len() && 0 <= k2 < t.len() && k1 != k2 ==> lower_of(#[trigger] t[k1])
            != lower_of(#[trigger] t[k2])
}

proof fn lemma_insert_from_first_seen(words: Seq<Seq<char>>, t: Seq<Seq<char>>, n: int, k0: int)
    requires
        0 < n <= words.len(),
        0 <= k0 <= t.len(),
        first_seen(words, n - 1),
        from_first_seen(words, t, n - 1),
    ensures
        from_first_seen(words, t.insert(k0, words[n - 1]), n),
{
    let u = t.insert(k0, words[n - 1]);
    assert forall|k: int| 0 <= k < u.len() implies seen_among(words, #[trigger] u[k], n) by {
        if k < k0 {
            assert(u[k] == t[k]);
            assert(seen_among(words, t[k], n - 1));
            let i = choose|i: int| 0 <= i < n - 1 && first_seen(words, i) && t[k] == #[trigger] words[i];
            assert(0 <= i < n && first_seen(words, i) && u[k] == words[i]);
        } else if k == k0 {
            assert(u[k] == words[n - 1]);
            assert(0 <= n - 1 < n && first_seen(words, n - 1) && u[k] == words[n - 1]);
        } else {
            assert(u[k] == t[k - 1]);
            assert(seen_among(words, t[k - 1], n - 1));
            let i = choose|i: int|
                0 <= i < n - 1 && first_seen(words, i) && t[k - 1] == #[trigger] words[i];
            assert(0 <= i < n && first_seen(words, i) && u[k] == words[i]);
        }
    }
}

proof fn lemma_insert_covers(words: Seq<Seq<char>>, t: Seq<Seq<char>>, n: int, k0: int)
    requires
        0 < n <= words.len(),
        0 <= k0 <= t.len(),
        covers_words(words, t, n - 1),
    ensures
        covers_words(words, t.insert(k0, words[n - 1]), n),
{
    let u = t.insert(k0, words[n - 1]);
    assert forall|i: int| 0 <= i < n && #[trigger] words[i].len() > 0 implies exists|k: int|
        0 <= k < u.len() && lower_of(#[trigger] u[k]) == lower_of(words[i]) by {
        if i == n - 1 {
            assert(u[k0] == words[n - 1]);
        } else {
            let k = choose|k: int| 0 <= k < t.len() && lower_of(#[trigger] t[k]) == lower_of(words[i]);
            if k < k0 {
                assert(u[k] == t[k]);
            } else {
                assert(u[k + 1] == t[k]);
            }
        }
    }
}

proof fn lemma_insert_distinct(words: Seq<Seq<char>>, t: Seq<Seq<char>>, n: int, k0: int)
    requires
        0 < n <= words.len(),
        0 <= k0 <= t.len(),
        first_seen(words, n - 1),
        from_first_seen(words, t, n - 1),
        distinct_forms(t),
    ensures
        distinct_forms(t.insert(k0, words[n - 1])),
{
    let u = t.insert(k0, words[n - 1]);
    assert forall|k1: int, k2: int| 0 <= k1 < u.len() && 0 <= k2 < u.len() && k1 != k2 implies lower_of(
        #[trigger] u[k1],
    ) != lower_of(#[trigger] u[k2]) by {
        if k1 != k0 && k2 != k0 {
            let o1 = if k1 < k0 {
                k1
            } else {
                k1 - 1
            };
            let o2 = if k2 < k0 {
                k2
            } else {
                k2 - 1
            };
            assert(u[k1] == t[o1]);
            assert(u[k2] == t[o2]);
        } else {
            let other = if k1 == k0 {
                k2
            } else {
                k1
            };
            let o = if other < k0 {
                other
            } else {
                other - 1
            };
            assert(u[other] == t[o]);
            assert(seen_among(words, t[o], n - 1));
            let i = choose|i: int| 0 <= i < n - 1 && first_seen(words, i) && t[o] == #[trigger] words[i];
            assert(words[i].len() > 0);
            assert(lower_of(words[i]) != lower_of(words[n - 1]));
        }
    }
}

proof fn lemma_skip_covers(words: Seq<Seq<char>>, t: Seq<Seq<char>>, n: int)
    requires
        0 < n <= words.len(),
        !first_seen(words, n - 1),
        covers_words(words, t, n - 1),
    ensures
        covers_words(words, t, n),
{
    assert forall|i: int| 0 <= i < n && #[trigger] words[i].len() > 0 implies exists|k: int|
        0 <= k < t.len() && lower_of(#[trigger] t[k]) == lower_of(words[i]) by {
        if i == n - 1 {
            let j = choose|j: int|
                0 <= j < n - 1 && #[trigger] words[j].len() > 0 && lower_of(words[j]) != lower_of(
                    words[n - 1],
                ) == false;
            let k = choose|k: int| 0 <= k < t.len() && lower_of(#[trigger] t[k]) == lower_of(words[j]);
            assert(lower_of(t[k]) == lower_of(words[i]));
        }
    }
}

/// What the table built from the first `n` words holds: first-seen words
/// only; for each non-empty word an entry of the same lowercase form; and no
/// two entries of the same lowercase form.
pub proof fn lemma_table_of_prefix(words: Seq<Seq<char>>, n: int)
    requires
        0 <= n <= words.len(),
    ensures
        from_first_seen(words, table_of_prefix(words, n), n),
        covers_words(words, table_of_prefix(words, n), n),
        distinct_forms(table_of_prefix(words, n)),
    decreases n,
{
    if n > 0 {
        lemma_table_of_prefix(words, n - 1);
        let old_t = table_of_prefix(words, n - 1);
        let w = words[n - 1];
        if first_seen(words, n - 1) {
            let k0 = lemma_insert_by_length_position(old_t, w);
            lemma_insert_from_first_seen(words, old_t, n, k0);
            lemma_insert_covers(words, old_t, n, k0);
            lemma_insert_distinct(words, old_t, n, k0);
            assert(table_of_prefix(words, n) == old_t.insert(k0, w));
        } else {
            assert(table_of_prefix(words, n) == old_t);
            assert forall|k: int| 0 <= k < old_t.len() implies seen_among(words, #[trigger] old_t[k], n) by {
                assert(seen_among(words, old_t[k], n - 1));
                let i = choose|i: int|
                    0 <= i < n - 1 && first_seen(words, i) && old_t[k] == #[trigger] words[i];
                assert(0 <= i < n && first_seen(words, i) && old_t[k] == words[i]);
            }
            assert(from_first_seen(words, old_t, n));
            lemma_skip_covers(words, old_t, n);
        }
    } else {
        assert(table_of_prefix(words, n).len() == 0);
    }
}

} // verus!
