//! Decoding undoes placeholder masking where the matches stand apart.
use vstd::prelude::*;
use crate::case_utils::{case_kind, suffix_of, CaseKind};
use crate::decoder::{
    decode_from, decoded, digit_value, digits_end, digits_value, lemma_digits_bounds, marker_at,
    rendering, suffix_at, token_at, token_case, token_digits_end, token_end, token_field,
};
use crate::matcher::{is_digit, joiner, occurs_at, word_char};
use crate::ordering::canonical_table;
use crate::text_processor::{
    decimal, digit_char, field_marker, hit_at, mask_from, masked_with_fields, placeholder, rewrite,
    rewrite_from, rewrite_marks, unmarked,
};

verus! {

/// The position `i` lies outside `t`, or holds a character that is neither a
/// word character nor a joiner.
pub open spec fn plain_edge(t: Seq<char>, i: int) -> bool {
    i < 0 || i >= t.len() || (!word_char(t[i]) && !joiner(t[i]))
}

/// Every occurrence of `w` in `t` stands apart from the characters around it
/// and is written as `w` in lowercase, capitalized or in uppercase.
pub open spec fn separate_occurrences(t: Seq<char>, w: Seq<char>) -> bool {
    forall|p: int|
        #[trigger] occurs_at(t, w, p) ==> plain_edge(t, p - 1) && plain_edge(t, p + w.len())
            && t.subrange(p, p + w.len()) == rendering(w, case_kind(t.subrange(p, p + w.len())))
}

/// Every occurrence of `w` in `t` on unmarked characters stands apart and is
/// written in one of the three case forms.
pub open spec fn separate_hits(t: Seq<char>, m: Seq<bool>, w: Seq<char>) -> bool {
    forall|p: int|
        #[trigger] hit_at(t, m, w, p) ==> plain_edge(t, p - 1) && plain_edge(t, p + w.len())
            && t.subrange(p, p + w.len()) == rendering(w, case_kind(t.subrange(p, p + w.len())))
}

/// The first character that a pass writes from `p` on.
proof fn lemma_rewrite_head(u: Seq<char>, um: Seq<bool>, w: Seq<char>, f: nat, p: int)
    requires
        0 <= p < u.len(),
        f >= 1,
    ensures
        rewrite_from(u, um, w, f, p).len() > 0,
        rewrite_from(u, um, w, f, p)[0] == if hit_at(u, um, w, p) {
            'F'
        } else {
            u[p]
        },
{
    if hit_at(u, um, w, p) {
        let span = u.subrange(p, p + w.len());
        assert(placeholder(f, span)[0] == 'F');
    }
}

/// Without an occurrence in `p..j` a pass copies those characters.
proof fn lemma_rewrite_literal(u: Seq<char>, um: Seq<bool>, w: Seq<char>, f: nat, p: int, j: int)
    requires
        0 <= p <= j <= u.len(),
        forall|r: int| p <= r < j ==> !hit_at(u, um, w, r),
    ensures
        rewrite_from(u, um, w, f, p) == u.subrange(p, j) + rewrite_from(u, um, w, f, j),
    decreases j - p,
{
    if p < j {
        lemma_rewrite_literal(u, um, w, f, p + 1, j);
        assert(u.subrange(p, j) =~= seq![u[p]] + u.subrange(p + 1, j));
    } else {
        assert(u.subrange(p, j) =~= seq![]);
    }
}

/// The first occurrence of `w` in `p..lim`, or `lim`.
spec fn next_occurrence(u: Seq<char>, um: Seq<bool>, w: Seq<char>, p: int, lim: int) -> int
    decreases lim - p,
{
    if p >= lim {
        lim
    } else if hit_at(u, um, w, p) {
        p
    } else {
        next_occurrence(u, um, w, p + 1, lim)
    }
}

proof fn lemma_next_occurrence(u: Seq<char>, um: Seq<bool>, w: Seq<char>, p: int, lim: int)
    requires
        p <= lim,
    ensures
        p <= next_occurrence(u, um, w, p, lim) <= lim,
        forall|r: int| p <= r < next_occurrence(u, um, w, p, lim) ==> !hit_at(u, um, w, r),
        next_occurrence(u, um, w, p, lim) < lim ==> hit_at(u, um, w, next_occurrence(u, um, w, p, lim)),
    decreases lim - p,
{
    if p < lim && !hit_at(u, um, w, p) {
        lemma_next_occurrence(u, um, w, p + 1, lim);
    }
}

/// The character `t[q + d]` for a marker at `q`.
proof fn lemma_marker_chars(t: Seq<char>, q: int)
    requires
        marker_at(t, q),
    ensures
        t[q] == 'F' && t[q + 1] == 'I' && t[q + 2] == 'E' && t[q + 3] == 'L' && t[q + 4] == 'D'
            && t[q + 5] == '_',
{
    let s = t.subrange(q, q + 6);
    assert(s[0] == t[q] && s[1] == t[q + 1] && s[2] == t[q + 2]);
    assert(s[3] == t[q + 3] && s[4] == t[q + 4] && s[5] == t[q + 5]);
}

/// No placeholder starts where a pass copied a character.
proof fn lemma_no_token_at_copy(
    u: Seq<char>,
    um: Seq<bool>,
    w: Seq<char>,
    f: nat,
    n: int,
    t1: Seq<char>,
    p: int,
    q: int,
)
    requires
        f >= 1,
        0 <= p < u.len(),
        0 <= q <= t1.len(),
        !hit_at(u, um, w, p),
        !token_at(u, p, n),
        t1.subrange(q, t1.len() as int) == rewrite_from(u, um, w, f, p),
    ensures
        !token_at(t1, q, n),
{
    let lim = if p + 7 <= u.len() {
        p + 7
    } else {
        u.len() as int
    };
    lemma_next_occurrence(u, um, w, p + 1, lim);
    let j = next_occurrence(u, um, w, p + 1, lim);
    lemma_rewrite_literal(u, um, w, f, p, j);
    let rest = rewrite_from(u, um, w, f, j);
    assert(t1.subrange(q, t1.len() as int) == u.subrange(p, j) + rest);
    if token_at(t1, q, n) {
        lemma_marker_chars(t1, q);
        let tail = t1.subrange(q, t1.len() as int);
        if j < lim {
            lemma_rewrite_head(u, um, w, f, j);
            assert(tail[j - p] == t1[q + (j - p)]);
            assert(tail[j - p] == rest[0]);
            assert(t1[q + (j - p)] == 'F');
        } else if j == p + 7 {
            assert forall|d: int| 0 <= d < 6 implies #[trigger] t1.subrange(q, q + 6)[d]
                == u.subrange(p, p + 6)[d] by {
                assert(tail[d] == t1[q + d]);
                assert(tail[d] == u.subrange(p, j)[d]);
            }
            assert(u.subrange(p, p + 6) =~= t1.subrange(q, q + 6));
            assert(tail[6] == u.subrange(p, j)[6]);
            assert(u[p + 6] == t1[q + 6]);
            assert(token_at(u, p, n));
        } else {
            assert(rest.len() == 0);
            assert(t1.len() - q == j - p);
        }
    }
}

/// The number that a run of decimal digits writes.
spec fn num_value(s: Seq<char>) -> int
    decreases s.len(),
{
    if s.len() == 0 {
        0
    } else {
        num_value(s.drop_last()) * 10 + digit_value(s.last())
    }
}

proof fn lemma_decimal(n: nat)
    requires
        n >= 1,
    ensures
        decimal(n).len() >= 1,
        decimal(n)[0] != '0',
        forall|i: int| 0 <= i < decimal(n).len() ==> is_digit(#[trigger] decimal(n)[i]),
        num_value(decimal(n)) == n,
    decreases n,
{
    let s = decimal(n);
    if n >= 10 {
        let m = n / 10;
        lemma_decimal(m);
        assert(s.drop_last() =~= decimal(m));
        assert(s[0] == decimal(m)[0]);
        assert(forall|i: int| 0 <= i < decimal(m).len() ==> s[i] == decimal(m)[i]);
        assert(s.last() == digit_char((n % 10) as int));
        assert(digit_value(digit_char((n % 10) as int)) == n % 10);
        assert(m * 10 + n % 10 == n);
    } else {
        assert(s.drop_last() =~= seq![]);
        assert(num_value(seq![]) == 0);
        assert(digit_value(digit_char(n as int)) == n);
    }
}

proof fn lemma_num_value_prefix(s: Seq<char>, m: int)
    requires
        0 <= m <= s.len(),
        forall|i: int| 0 <= i < s.len() ==> is_digit(#[trigger] s[i]),
    ensures
        0 <= num_value(s.take(m)) <= num_value(s),
        m < s.len() ==> num_value(s.take(m + 1)) == num_value(s.take(m)) * 10 + digit_value(s[m]),
    decreases s.len(),
{
    if s.len() == 0 {
        assert(s.take(m) =~= s);
    } else {
        let t = s.drop_last();
        assert(num_value(s) == num_value(t) * 10 + digit_value(s.last()));
        if m == s.len() {
            lemma_num_value_prefix(t, t.len() as int);
            assert(t.take(t.len() as int) =~= t);
            assert(s.take(m) =~= s);
        } else {
            lemma_num_value_prefix(t, m);
            assert(t.take(m) =~= s.take(m));
            lemma_num_value_prefix(t, t.len() as int);
            assert(t.take(t.len() as int) =~= t);
            assert(s.take(m + 1).drop_last() =~= s.take(m));
            assert(s.take(m + 1).last() == s[m]);
        }
    }
}

/// Reading the digits of `s`, written at `i0` and followed by a non-digit,
/// gives the number `s` writes, when it is at most `n`.
proof fn lemma_read_digits(t: Seq<char>, i0: int, s: Seq<char>, m: int, n: int)
    requires
        0 <= i0,
        i0 + s.len() <= t.len(),
        1 <= m <= s.len(),
        forall|i: int| 0 <= i < s.len() ==> is_digit(#[trigger] s[i]),
        forall|i: int| 0 <= i < s.len() ==> t[i0 + i] == #[trigger] s[i],
        i0 + s.len() < t.len() ==> !is_digit(t[i0 + s.len()]),
        num_value(s) <= n,
    ensures
        digits_end(t, i0 + m, num_value(s.take(m)), n) == i0 + s.len(),
        digits_value(t, i0 + m, num_value(s.take(m)), n) == num_value(s),
    decreases s.len() - m,
{
    if m < s.len() {
        lemma_num_value_prefix(s, m);
        lemma_num_value_prefix(s, m + 1);
        assert(t[i0 + m] == s[m]);
        lemma_read_digits(t, i0, s, m + 1, n);
    } else {
        assert(s.take(m) =~= s);
    }
}

/// A marker at `q` followed by the decimal notation of `f`, with no digit
/// after it, is a placeholder of field `f`.
proof fn lemma_field_digits(t: Seq<char>, q: int, f: nat, n: int)
    requires
        1 <= f <= n,
        0 <= q,
        marker_at(t, q),
        q + 6 + decimal(f).len() <= t.len(),
        forall|i: int| 0 <= i < decimal(f).len() ==> t[q + 6 + i] == #[trigger] decimal(f)[i],
        q + 6 + decimal(f).len() < t.len() ==> !is_digit(t[q + 6 + decimal(f).len()]),
    ensures
        token_at(t, q, n),
        token_field(t, q, n) == f,
        token_digits_end(t, q, n) == q + 6 + decimal(f).len(),
{
    let s = decimal(f);
    lemma_decimal(f);
    assert(t[q + 6] == s[0]);
    lemma_num_value_prefix(s, 0);
    lemma_num_value_prefix(s, 1);
    assert(s.take(0) =~= seq![]);
    assert(num_value(seq![]) == 0);
    assert(num_value(s.take(1)) == digit_value(s[0]));
    lemma_read_digits(t, q + 6, s, 1, n);
}

/// No placeholder of fields `1..=n` starts inside an unmarked occurrence of
/// `w`.
pub open spec fn no_token_inside(u: Seq<char>, um: Seq<bool>, w: Seq<char>, n: int) -> bool {
    forall|p: int, r: int|
        #![trigger hit_at(u, um, w, p), token_at(u, r, n)]
        hit_at(u, um, w, p) && p <= r < p + w.len() ==> !token_at(u, r, n)
}

/// Where no placeholder starts in `p..j`, decoding copies those characters.
pub proof fn lemma_decode_literal(u: Seq<char>, table: Seq<Seq<char>>, p: int, j: int)
    requires
        0 <= p <= j <= u.len(),
        forall|r: int| p <= r < j ==> !token_at(u, r, table.len() as int),
    ensures
        decode_from(u, table, p) == u.subrange(p, j) + decode_from(u, table, j),
    decreases j - p,
{
    if p < j {
        lemma_decode_literal(u, table, p + 1, j);
        assert(u.subrange(p, j) =~= seq![u[p]] + u.subrange(p + 1, j));
    } else {
        assert(u.subrange(p, j) =~= seq![]);
    }
}

/// The digits that `digits_end` takes are digits.
proof fn lemma_digits_taken(t: Seq<char>, i: int, v: int, n: int)
    requires
        0 <= i,
    ensures
        forall|x: int| i <= x < digits_end(t, i, v, n) ==> is_digit(#[trigger] t[x]),
        i <= digits_end(t, i, v, n),
    decreases t.len() - i,
{
    if 0 <= i < t.len() && is_digit(t[i]) && v * 10 + digit_value(t[i]) <= n {
        lemma_digits_taken(t, i + 1, v * 10 + digit_value(t[i]), n);
    }
}

/// `a` from `i` and `b` from `j` hold the same `len` characters.
spec fn agree(a: Seq<char>, i: int, b: Seq<char>, j: int, len: int) -> bool {
    &&& 0 <= i
    &&& 0 <= j
    &&& 0 <= len
    &&& i + len <= a.len()
    &&& j + len <= b.len()
    &&& forall|d: int| 0 <= d < len ==> a[i + d] == #[trigger] b[j + d]
}

/// Digits read the same way in two texts that agree up to where the reading
/// stops.
proof fn lemma_digits_agree(a: Seq<char>, i: int, b: Seq<char>, j: int, v: int, n: int, len: int)
    requires
        agree(a, i, b, j, len),
        digits_end(a, i, v, n) < i + len || (i + len == a.len() && j + len == b.len()),
    ensures
        digits_end(b, j, v, n) - j == digits_end(a, i, v, n) - i,
        digits_value(b, j, v, n) == digits_value(a, i, v, n),
    decreases len,
{
    lemma_digits_taken(a, i, v, n);
    if len > 0 {
        assert(a[i + 0] == b[j + 0]);
        if is_digit(a[i]) && v * 10 + digit_value(a[i]) <= n {
            assert forall|d: int| 0 <= d < len - 1 implies a[i + 1 + d] == #[trigger] b[j + 1 + d] by {
                assert(a[i + (d + 1)] == b[j + (d + 1)]);
            }
            lemma_digits_agree(a, i + 1, b, j + 1, v * 10 + digit_value(a[i]), n, len - 1);
        }
    }
}

/// Whether a placeholder starts at `i` depends on the seven characters there.
proof fn lemma_token_at_agree(a: Seq<char>, i: int, b: Seq<char>, j: int, n: int, len: int)
    requires
        agree(a, i, b, j, len),
        len >= 7 || (i + len == a.len() && j + len == b.len()),
    ensures
        token_at(a, i, n) == token_at(b, j, n),
{
    if len >= 7 {
        assert forall|d: int| 0 <= d < 6 implies #[trigger] a.subrange(i, i + 6)[d] == b.subrange(
            j,
            j + 6,
        )[d] by {
            assert(a[i + d] == b[j + d]);
        }
        assert(a.subrange(i, i + 6) =~= b.subrange(j, j + 6));
        assert(a[i + 6] == b[j + 6]);
    }
}

/// The characters of a marker and of the digits after it are word
/// characters.
proof fn lemma_token_chars(t: Seq<char>, q: int, n: int)
    requires
        token_at(t, q, n),
    ensures
        forall|x: int| q <= x < token_digits_end(t, q, n) ==> word_char(#[trigger] t[x]),
        q + 7 <= token_digits_end(t, q, n) <= t.len(),
{
    lemma_marker_chars(t, q);
    lemma_digits_taken(t, q + 7, digit_value(t[q + 6]), n);
    lemma_digits_bounds(t, q + 7, digit_value(t[q + 6]), n);
    assert forall|x: int| q <= x < token_digits_end(t, q, n) implies word_char(#[trigger] t[x]) by {
        if x >= q + 7 {
            assert(is_digit(t[x]));
        }
    }
}

/// The common ground of the lemmas below: `t1` from `q` on is what a
/// placeholder pass of `w` writes for `u` from `p` on.
spec fn pass_state(
    u: Seq<char>,
    um: Seq<bool>,
    w: Seq<char>,
    table: Seq<Seq<char>>,
    f: nat,
    t1: Seq<char>,
    p: int,
    q: int,
) -> bool {
    &&& 1 <= f <= table.len()
    &&& table[f - 1] == w
    &&& separate_hits(u, um, w)
    &&& no_token_inside(u, um, w, table.len() as int)
    &&& 0 <= p <= u.len()
    &&& 0 <= q <= t1.len()
    &&& t1.subrange(q, t1.len() as int) == rewrite_from(u, um, w, f, p)
}

/// An occurrence at `p` became a placeholder of field `f` that records the
/// occurrence's case.
proof fn lemma_placeholder_token(
    u: Seq<char>,
    um: Seq<bool>,
    w: Seq<char>,
    table: Seq<Seq<char>>,
    f: nat,
    t1: Seq<char>,
    p: int,
    q: int,
)
    requires
        pass_state(u, um, w, table, f, t1, p, q),
        p < u.len(),
        hit_at(u, um, w, p),
    ensures
        token_at(t1, q, table.len() as int),
        token_field(t1, q, table.len() as int) == f,
        token_case(t1, q, table.len() as int) == case_kind(u.subrange(p, p + w.len())),
        pass_state(
            u,
            um,
            w,
            table,
            f,
            t1,
            p + w.len(),
            token_end(t1, q, table.len() as int),
        ),
{
    let n = table.len() as int;
    let r = rewrite_from(u, um, w, f, p);
    let tail = t1.subrange(q, t1.len() as int);
    let pe = p + w.len();
    let span = u.subrange(p, pe);
    let kind = case_kind(span);
    let dec = decimal(f);
    let ph = placeholder(f, span);
    let rest = rewrite_from(u, um, w, f, pe);
    assert(t1.len() - q == r.len());
    lemma_decimal(f);
    assert(r == ph + rest);
    assert(ph == field_marker() + dec + suffix_of(kind));
    assert forall|d: int| 0 <= d < ph.len() implies t1[q + d] == #[trigger] ph[d] by {
        assert(tail[d] == t1[q + d]);
    }
    assert(t1.subrange(q, q + 6) =~= field_marker()) by {
        assert forall|d: int| 0 <= d < 6 implies t1.subrange(q, q + 6)[d] == field_marker()[d] by {
            assert(ph[d] == field_marker()[d]);
        }
    }
    assert forall|i: int| 0 <= i < dec.len() implies t1[q + 6 + i] == #[trigger] dec[i] by {
        assert(ph[6 + i] == dec[i]);
    }
    let e = q + 6 + dec.len();
    let qe = q + ph.len();
    if pe < u.len() {
        lemma_rewrite_head(u, um, w, f, pe);
        assert(tail[ph.len() as int] == rest[0]);
        assert(t1[qe] == rest[0]);
    } else {
        assert(rest.len() == 0);
    }
    assert(plain_edge(u, pe));
    if kind == CaseKind::Lower {
        assert(qe == e);
        lemma_field_digits(t1, q, f, n);
        assert(!suffix_at(t1, e, 'A'));
        assert(!suffix_at(t1, e, 'F'));
        assert(token_case(t1, q, n) == CaseKind::Lower);
    } else {
        assert(t1[e] == ph[6 + dec.len() as int]);
        assert(t1[e + 1] == ph[7 + dec.len() as int]);
        lemma_field_digits(t1, q, f, n);
        if kind == CaseKind::AllUpper {
            assert(token_case(t1, q, n) == CaseKind::AllUpper);
        } else {
            assert(!suffix_at(t1, e, 'A'));
            if token_at(t1, e + 1, n) {
                lemma_marker_chars(t1, e + 1);
                assert(e + 2 == qe);
            }
            assert(token_case(t1, q, n) == CaseKind::FirstUpper);
        }
    }
    assert(token_end(t1, q, n) == qe);
    assert(t1.subrange(qe, t1.len() as int) =~= rest) by {
        assert forall|d: int| 0 <= d < rest.len() implies #[trigger] t1.subrange(
            qe,
            t1.len() as int,
        )[d] == rest[d] by {
            assert(tail[ph.len() + d] == t1[qe + d]);
        }
    }
}

/// What a pass copied from `p` up to the next occurrence, and what follows.
proof fn lemma_copied_run(
    u: Seq<char>,
    um: Seq<bool>,
    w: Seq<char>,
    table: Seq<Seq<char>>,
    f: nat,
    t1: Seq<char>,
    p: int,
    q: int,
) -> (s: int)
    requires
        pass_state(u, um, w, table, f, t1, p, q),
        p < u.len(),
        !hit_at(u, um, w, p),
    ensures
        p < s <= u.len(),
        forall|x: int| p <= x < s ==> !hit_at(u, um, w, x),
        agree(u, p, t1, q, s - p),
        s < u.len() ==> t1[q + (s - p)] == 'F' && plain_edge(u, s - 1),
        s == u.len() ==> t1.len() - q == s - p,
{
    let r = rewrite_from(u, um, w, f, p);
    let tail = t1.subrange(q, t1.len() as int);
    lemma_next_occurrence(u, um, w, p, u.len() as int);
    let s = next_occurrence(u, um, w, p, u.len() as int);
    let len = s - p;
    lemma_rewrite_literal(u, um, w, f, p, s);
    let rest = rewrite_from(u, um, w, f, s);
    assert(r == u.subrange(p, s) + rest);
    assert(agree(u, p, t1, q, len)) by {
        assert forall|d: int| 0 <= d < len implies u[p + d] == #[trigger] t1[q + d] by {
            assert(tail[d] == t1[q + d]);
            assert(r[d] == u.subrange(p, s)[d]);
        }
    }
    if s < u.len() {
        lemma_rewrite_head(u, um, w, f, s);
        assert(tail[len] == rest[0]);
        assert(hit_at(u, um, w, s));
    } else {
        assert(rest.len() == 0);
    }
    s
}

/// A placeholder that stood in the pass's input at `p` stands, unchanged, in
/// its output at `q`.
proof fn lemma_copied_token(
    u: Seq<char>,
    um: Seq<bool>,
    w: Seq<char>,
    table: Seq<Seq<char>>,
    f: nat,
    t1: Seq<char>,
    p: int,
    q: int,
)
    requires
        pass_state(u, um, w, table, f, t1, p, q),
        p < u.len(),
        !hit_at(u, um, w, p),
        token_at(u, p, table.len() as int),
    ensures
        token_at(t1, q, table.len() as int),
        token_field(t1, q, table.len() as int) == token_field(u, p, table.len() as int),
        token_case(t1, q, table.len() as int) == token_case(u, p, table.len() as int),
        token_end(t1, q, table.len() as int) - q == token_end(u, p, table.len() as int) - p,
        pass_state(
            u,
            um,
            w,
            table,
            f,
            t1,
            token_end(u, p, table.len() as int),
            token_end(t1, q, table.len() as int),
        ),
{
    let n = table.len() as int;
    let r = rewrite_from(u, um, w, f, p);
    let tail = t1.subrange(q, t1.len() as int);
    let s = lemma_copied_run(u, um, w, table, f, t1, p, q);
    let len = s - p;
    lemma_token_chars(u, p, n);
    let e = token_digits_end(u, p, n);
    let v0 = digit_value(u[p + 6]);
    assert(s < u.len() ==> s - 1 >= e) by {
        if s < u.len() && s - 1 < e {
            assert(word_char(u[s - 1]));
        }
    }
    lemma_token_at_agree(u, p, t1, q, n, len);
    assert(u[p + 6] == t1[q + 6]);
    assert(agree(u, p + 7, t1, q + 7, len - 7)) by {
        assert forall|d: int| 0 <= d < len - 7 implies u[p + 7 + d] == #[trigger] t1[q + 7 + d] by {
            assert(u[p + (7 + d)] == t1[q + (7 + d)]);
        }
    }
    lemma_digits_agree(u, p + 7, t1, q + 7, v0, n, len - 7);
    let e1 = token_digits_end(t1, q, n);
    assert(e1 - q == e - p);
    assert(suffix_at(u, e, 'A') == suffix_at(t1, e1, 'A') && suffix_at(u, e, 'F') == suffix_at(
        t1,
        e1,
        'F',
    )) by {
        if e < s {
            assert(u[p + (e - p)] == t1[q + (e - p)]);
        }
        if e + 1 < s {
            assert(u[p + (e + 1 - p)] == t1[q + (e + 1 - p)]);
        }
    }
    if suffix_at(u, e, 'F') {
        assert(s < u.len() ==> s >= e + 3) by {
            if s < u.len() && s < e + 3 {
                assert(s - 1 == e || s - 1 == e + 1);
            }
        }
        if s >= e + 8 || s == u.len() {
            assert(agree(u, e + 1, t1, e1 + 1, s - (e + 1))) by {
                assert forall|d: int| 0 <= d < s - (e + 1) implies u[e + 1 + d] == #[trigger] t1[e1
                    + 1 + d] by {
                    assert(u[p + (e + 1 - p + d)] == t1[q + (e + 1 - p + d)]);
                }
            }
            lemma_token_at_agree(u, e + 1, t1, e1 + 1, n, s - (e + 1));
        } else {
            if token_at(u, e + 1, n) {
                lemma_marker_chars(u, e + 1);
                assert(word_char(u[s - 1]));
            }
            if token_at(t1, e1 + 1, n) {
                lemma_marker_chars(t1, e1 + 1);
                assert(t1[q + len] == 'F');
            }
        }
    }
    assert(token_case(t1, q, n) == token_case(u, p, n));
    let te = token_end(u, p, n);
    assert(te <= s);
    assert(token_end(t1, q, n) == q + (te - p));
    lemma_rewrite_literal(u, um, w, f, p, te);
    let rest2 = rewrite_from(u, um, w, f, te);
    assert(r == u.subrange(p, te) + rest2);
    assert(t1.subrange(q + (te - p), t1.len() as int) =~= rest2) by {
        assert forall|d: int| 0 <= d < rest2.len() implies #[trigger] t1.subrange(
            q + (te - p),
            t1.len() as int,
        )[d] == rest2[d] by {
            assert(tail[(te - p) + d] == t1[q + (te - p) + d]);
        }
    }
}

/// Decoding the output of one placeholder pass from a position the pass
/// reached gives what decoding its input gives from the matching position,
/// where the word's occurrences stand apart, are written in one of the three
/// case forms, and hold no placeholder.
proof fn lemma_decode_pass(
    u: Seq<char>,
    um: Seq<bool>,
    w: Seq<char>,
    table: Seq<Seq<char>>,
    f: nat,
    t1: Seq<char>,
    p: int,
    q: int,
)
    requires
        pass_state(u, um, w, table, f, t1, p, q),
    ensures
        decode_from(t1, table, q) == decode_from(u, table, p),
    decreases u.len() - p,
{
    let n = table.len() as int;
    let r = rewrite_from(u, um, w, f, p);
    let tail = t1.subrange(q, t1.len() as int);
    assert(t1.len() - q == r.len());
    if p >= u.len() {
    } else if hit_at(u, um, w, p) {
        let pe = p + w.len();
        let span = u.subrange(p, pe);
        lemma_placeholder_token(u, um, w, table, f, t1, p, q);
        lemma_decode_pass(u, um, w, table, f, t1, pe, token_end(t1, q, n));
        assert(rendering(table[token_field(t1, q, n) - 1], token_case(t1, q, n)) == span);
        assert forall|x: int| p <= x < pe implies !token_at(u, x, n) by {
            assert(hit_at(u, um, w, p));
        }
        lemma_decode_literal(u, table, p, pe);
    } else if token_at(u, p, n) {
        lemma_copied_token(u, um, w, table, f, t1, p, q);
        lemma_token_chars(u, p, n);
        lemma_decode_pass(u, um, w, table, f, t1, token_end(u, p, n), token_end(t1, q, n));
    } else {
        lemma_no_token_at_copy(u, um, w, f, n, t1, p, q);
        assert(r == seq![u[p]] + rewrite_from(u, um, w, f, p + 1));
        assert(t1[q] == r[0]);
        assert forall|d: int| 0 <= d < t1.len() - (q + 1) implies #[trigger] t1.subrange(
            q + 1,
            t1.len() as int,
        )[d] == rewrite_from(u, um, w, f, p + 1)[d] by {
            assert(tail[d + 1] == t1[q + 1 + d]);
            assert(r[d + 1] == rewrite_from(u, um, w, f, p + 1)[d]);
        }
        assert(t1.subrange(q + 1, t1.len() as int) =~= rewrite_from(u, um, w, f, p + 1));
        lemma_decode_pass(u, um, w, table, f, t1, p + 1, q + 1);
    }
}

/// `text` after the placeholder passes for the first `k` entries of `table`,
/// with the marks of what those passes wrote.
pub open spec fn passes(text: Seq<char>, table: Seq<Seq<char>>, k: int) -> (Seq<char>, Seq<bool>)
    decreases k,
{
    if k <= 0 {
        (text, unmarked(text.len()))
    } else {
        let prev = passes(text, table, k - 1);
        (
            rewrite(prev.0, prev.1, table[k - 1], k as nat),
            rewrite_marks(prev.0, prev.1, table[k - 1], k as nat),
        )
    }
}

proof fn lemma_mask_from_passes(text: Seq<char>, table: Seq<Seq<char>>, k: int)
    requires
        0 <= k <= table.len(),
    ensures
        mask_from(passes(text, table, k).0, passes(text, table, k).1, table, true, k) == passes(
            text,
            table,
            table.len() as int,
        ).0,
    decreases table.len() - k,
{
    if k < table.len() {
        lemma_mask_from_passes(text, table, k + 1);
    }
}

proof fn lemma_decode_passes(text: Seq<char>, table: Seq<Seq<char>>, k: int)
    requires
        0 <= k <= table.len(),
        forall|j: int|
            0 <= j < table.len() ==> separate_hits(
                #[trigger] passes(text, table, j).0,
                passes(text, table, j).1,
                table[j],
            ),
        forall|j: int|
            0 <= j < table.len() ==> no_token_inside(
                #[trigger] passes(text, table, j).0,
                passes(text, table, j).1,
                table[j],
                table.len() as int,
            ),
    ensures
        decode_from(passes(text, table, k).0, table, 0) == decode_from(text, table, 0),
    decreases k,
{
    if k > 0 {
        let u = passes(text, table, k - 1).0;
        let um = passes(text, table, k - 1).1;
        let t1 = passes(text, table, k).0;
        assert(separate_hits(u, um, table[k - 1]));
        assert(no_token_inside(u, um, table[k - 1], table.len() as int));
        assert(t1.subrange(0, t1.len() as int) =~= t1);
        lemma_decode_pass(u, um, table[k - 1], table, k as nat, t1, 0, 0);
        lemma_decode_passes(text, table, k - 1);
    }
}

/// Decoding undoes placeholder masking when the matches stand apart. The
/// conditions: the text holds no placeholder of the collection's fields; and
/// each match, as found by its pass in the text that the passes before it
/// left (outside what they wrote), has neither a word character nor a joiner
/// on either side, is written as its word in lowercase, capitalized or in
/// uppercase, and holds no placeholder.
pub proof fn placeholder_round_trip(text: Seq<char>, words: Seq<Seq<char>>)
    requires
        forall|r: int| !token_at(text, r, canonical_table(words).len() as int),
        forall|k: int|
            0 <= k < canonical_table(words).len() ==> separate_hits(
                #[trigger] passes(text, canonical_table(words), k).0,
                passes(text, canonical_table(words), k).1,
                canonical_table(words)[k],
            ),
        forall|k: int|
            0 <= k < canonical_table(words).len() ==> no_token_inside(
                #[trigger] passes(text, canonical_table(words), k).0,
                passes(text, canonical_table(words), k).1,
                canonical_table(words)[k],
                canonical_table(words).len() as int,
            ),
    ensures
        decoded(masked_with_fields(text, words), words) == text,
{
    let table = canonical_table(words);
    let n = table.len() as int;
    lemma_mask_from_passes(text, table, 0);
    lemma_decode_passes(text, table, n);
    lemma_decode_literal(text, table, 0, text.len() as int);
    assert(text.subrange(0, text.len() as int) =~= text);
    assert(decode_from(text, table, text.len() as int) =~= seq![]);
}

/// For a collection with one canonical word, the round trip stated over the
/// text alone: where the text holds no placeholder of field 1, and each
/// occurrence of the word has neither a word character nor a joiner on
/// either side and is written as the word in lowercase, capitalized or in
/// uppercase, decoding the placeholder-masked text gives back the text.
pub proof fn single_word_round_trip(text: Seq<char>, words: Seq<Seq<char>>)
    requires
        canonical_table(words).len() == 1,
        forall|r: int| !token_at(text, r, 1),
        separate_occurrences(text, canonical_table(words)[0]),
    ensures
        decoded(masked_with_fields(text, words), words) == text,
{
    let table = canonical_table(words);
    let st = passes(text, table, 0);
    assert(st == (text, unmarked(text.len())));
    assert forall|k: int| 0 <= k < table.len() implies separate_hits(
        #[trigger] passes(text, table, k).0,
        passes(text, table, k).1,
        table[k],
    ) by {
        assert(k == 0);
        assert forall|p: int| #[trigger] hit_at(st.0, st.1, table[0], p) implies plain_edge(
            st.0,
            p - 1,
        ) && plain_edge(st.0, p + table[0].len()) && st.0.subrange(p, p + table[0].len())
            == rendering(table[0], case_kind(st.0.subrange(p, p + table[0].len()))) by {
            assert(occurs_at(text, table[0], p));
        }
    }
    assert forall|k: int| 0 <= k < table.len() implies no_token_inside(
        #[trigger] passes(text, table, k).0,
        passes(text, table, k).1,
        table[k],
        table.len() as int,
    ) by {
        assert(k == 0);
    }
    placeholder_round_trip(text, words);
}

} // verus!
