//! Recognition of `FIELD_<n>[_A|_F]` placeholders in one left-to-right scan,
//! and their replacement by the word of field `n` in the recorded case.
use vstd::prelude::*;
use crate::case_utils::{capitalize_first, capitalized, CaseKind};
use crate::matcher::is_digit;
use crate::ordering::{canonical_table, vec_views};
use crate::text::{chars_of, lower_of, string_of, to_lower, to_upper, upper_of};
use crate::text_processor::{field_marker, push_all};

verus! {

/// The value of a decimal digit character.
pub open spec fn digit_value(c: char) -> int {
    if c == '1' {
        1
    } else if c == '2' {
        2
    } else if c == '3' {
        3
    } else if c == '4' {
        4
    } else if c == '5' {
        5
    } else if c == '6' {
        6
    } else if c == '7' {
        7
    } else if c == '8' {
        8
    } else if c == '9' {
        9
    } else {
        0
    }
}

/// `FIELD_` stands in `t` at `p`.
pub open spec fn marker_at(t: Seq<char>, p: int) -> bool {
    0 <= p && p + 6 <= t.len() && t.subrange(p, p + 6) == field_marker()
}

/// Where the digits that extend the number `v` from position `i` on stop:
/// a digit is taken while the number stays at most `n`.
pub open spec fn digits_end(t: Seq<char>, i: int, v: int, n: int) -> int
    decreases t.len() - i,
{
    if 0 <= i < t.len() && is_digit(t[i]) && v * 10 + digit_value(t[i]) <= n {
        digits_end(t, i + 1, v * 10 + digit_value(t[i]), n)
    } else {
        i
    }
}

/// The number that the digits read by `digits_end` make.
pub open spec fn digits_value(t: Seq<char>, i: int, v: int, n: int) -> int
    decreases t.len() - i,
{
    if 0 <= i < t.len() && is_digit(t[i]) && v * 10 + digit_value(t[i]) <= n {
        digits_value(t, i + 1, v * 10 + digit_value(t[i]), n)
    } else {
        v
    }
}

/// A placeholder for one of fields `1..=n` starts at `p`: `FIELD_` and a
/// first digit that is not zero and is at most `n`.
pub open spec fn token_at(t: Seq<char>, p: int, n: int) -> bool {
    &&& marker_at(t, p)
    &&& p + 6 < t.len()
    &&& is_digit(t[p + 6])
    &&& t[p + 6] != '0'
    &&& digit_value(t[p + 6]) <= n
}

/// The field number of the placeholder at `p`: the longest run of digits
/// whose value is at most `n`.
pub open spec fn token_field(t: Seq<char>, p: int, n: int) -> int {
    digits_value(t, p + 7, digit_value(t[p + 6]), n)
}

/// Where the digits of the placeholder at `p` end.
pub open spec fn token_digits_end(t: Seq<char>, p: int, n: int) -> int {
    digits_end(t, p + 7, digit_value(t[p + 6]), n)
}

/// `_` and then `c` stand at `e`.
pub open spec fn suffix_at(t: Seq<char>, e: int, c: char) -> bool {
    0 <= e && e + 2 <= t.len() && t[e] == '_' && t[e + 1] == c
}

/// The case that the placeholder at `p` records. `_F` counts as a suffix
/// only where the `F` does not begin a further placeholder.
pub open spec fn token_case(t: Seq<char>, p: int, n: int) -> CaseKind {
    let e = token_digits_end(t, p, n);
    if suffix_at(t, e, 'A') {
        CaseKind::AllUpper
    } else if suffix_at(t, e, 'F') && !token_at(t, e + 1, n) {
        CaseKind::FirstUpper
    } else {
        CaseKind::Lower
    }
}

/// Where the placeholder at `p` ends, its suffix included.
pub open spec fn token_end(t: Seq<char>, p: int, n: int) -> int {
    if token_case(t, p, n) == CaseKind::Lower {
        token_digits_end(t, p, n)
    } else {
        token_digits_end(t, p, n) + 2
    }
}

/// A canonical word written in a case category.
pub open spec fn rendering(w: Seq<char>, k: CaseKind) -> Seq<char> {
    match k {
        CaseKind::Lower => lower_of(w),
        CaseKind::FirstUpper => capitalized(lower_of(w)),
        CaseKind::AllUpper => upper_of(w),
    }
}

/// `t` from `p` on, with each placeholder replaced by its word and every
/// other character kept.
pub open spec fn decode_from(t: Seq<char>, table: Seq<Seq<char>>, p: int) -> Seq<char>
    decreases t.len() - p,
    via decode_from_decreases
{
    if p < 0 || p >= t.len() {
        seq![]
    } else if token_at(t, p, table.len() as int) {
        let n = table.len() as int;
        rendering(table[token_field(t, p, n) - 1], token_case(t, p, n)) + decode_from(
            t,
            table,
            token_end(t, p, n),
        )
    } else {
        seq![t[p]] + decode_from(t, table, p + 1)
    }
}

/// `text` decoded against the word collection `words`.
pub open spec fn decoded(text: Seq<char>, words: Seq<Seq<char>>) -> Seq<char> {
    decode_from(text, canonical_table(words), 0)
}

#[via_fn]
proof fn decode_from_decreases(t: Seq<char>, table: Seq<Seq<char>>, p: int) {
    let n = table.len() as int;
    if 0 <= p < t.len() && token_at(t, p, n) {
        lemma_digits_bounds(t, p + 7, digit_value(t[p + 6]), n);
    }
}

/// The digits read stay within the text, and the number they make within
/// `v..=n`.
pub proof fn lemma_digits_bounds(t: Seq<char>, i: int, v: int, n: int)
    requires
        0 <= i <= t.len(),
        1 <= v <= n,
    ensures
        i <= digits_end(t, i, v, n) <= t.len(),
        v <= digits_value(t, i, v, n) <= n,
    decreases t.len() - i,
{
    if 0 <= i < t.len() && is_digit(t[i]) && v * 10 + digit_value(t[i]) <= n {
        lemma_digits_bounds(t, i + 1, v * 10 + digit_value(t[i]), n);
    }
}

fn digit_value_exec(c: char) -> (r: usize)
    ensures
        r == digit_value(c),
{
    if c == '1' {
        1
    } else if c == '2' {
        2
    } else if c == '3' {
        3
    } else if c == '4' {
        4
    } else if c == '5' {
        5
    } else if c == '6' {
        6
    } else if c == '7' {
        7
    } else if c == '8' {
        8
    } else if c == '9' {
        9
    } else {
        0
    }
}

/// A placeholder's field number, and where its digits end.
struct Token {
    field: usize,
    digits_end: usize,
}

/// Reads the placeholder at `p`.
fn parse_token(t: &Vec<char>, p: usize, n: usize) -> (r: Option<Token>)
    ensures
        r is Some <==> token_at(t@, p as int, n as int),
        r matches Some(tok) ==> tok.field == token_field(t@, p as int, n as int)
            && tok.digits_end == token_digits_end(t@, p as int, n as int),
{
    if p >= t.len() || t.len() - p < 7 {
        return None;
    }
    if !(t[p] == 'F' && t[p + 1] == 'I' && t[p + 2] == 'E' && t[p + 3] == 'L' && t[p + 4] == 'D'
        && t[p + 5] == '_') {
        assert(!marker_at(t@, p as int)) by {
            if marker_at(t@, p as int) {
                let s = t@.subrange(p as int, p + 6);
                assert(s[0] == t@[p as int] && s[1] == t@[p + 1] && s[2] == t@[p + 2]);
                assert(s[3] == t@[p + 3] && s[4] == t@[p + 4] && s[5] == t@[p + 5]);
            }
        }
        return None;
    }
    assert(t@.subrange(p as int, p + 6) =~= field_marker());
    let c = t[p + 6];
    if !('1' <= c && c <= '9') {
        return None;
    }
    let first = digit_value_exec(c);
    if first > n {
        return None;
    }
    let mut v: usize = first;
    let mut i: usize = p + 7;
    while i < t.len() && '0' <= t[i] && t[i] <= '9' && (v as u128) * 10 + (digit_value_exec(t[i])
        as u128) <= (n as u128)
        invariant
            p + 7 <= i <= t@.len(),
            1 <= v <= n,
            digits_end(t@, p + 7, first as int, n as int) == digits_end(t@, i as int, v as int, n as int),
            digits_value(t@, p + 7, first as int, n as int) == digits_value(
                t@,
                i as int,
                v as int,
                n as int,
            ),
        decreases t@.len() - i,
    {
        let d = digit_value_exec(t[i]);
        v = v * 10 + d;
        i += 1;
    }
    Some(Token { field: v, digits_end: i })
}

/// The three renderings of each table entry, indexed like the table.
pub open spec fn renderings_of(
    table: Seq<Seq<char>>,
    lowers: Seq<Vec<char>>,
    caps: Seq<Vec<char>>,
    uppers: Seq<Vec<char>>,
) -> bool {
    &&& lowers.len() == table.len()
    &&& caps.len() == table.len()
    &&& uppers.len() == table.len()
    &&& forall|k: int|
        0 <= k < table.len() ==> (#[trigger] lowers[k])@ == rendering(table[k], CaseKind::Lower)
    &&& forall|k: int|
        0 <= k < table.len() ==> (#[trigger] caps[k])@ == rendering(table[k], CaseKind::FirstUpper)
    &&& forall|k: int|
        0 <= k < table.len() ==> (#[trigger] uppers[k])@ == rendering(table[k], CaseKind::AllUpper)
}

/// `t` with each placeholder of a field of `table` replaced by its word.
pub(crate) fn decode_chars(t: &Vec<char>, table: &Vec<Vec<char>>) -> (r: Vec<char>)
    ensures
        r@ == decode_from(t@, vec_views(table@), 0),
{
    let ghost tv = vec_views(table@);
    let n = table.len();
    let mut lowers: Vec<Vec<char>> = Vec::new();
    let mut caps: Vec<Vec<char>> = Vec::new();
    let mut uppers: Vec<Vec<char>> = Vec::new();
    let mut k: usize = 0;
    while k < n
        invariant
            k <= n,
            n == table@.len(),
            tv == vec_views(table@),
            lowers@.len() == k && caps@.len() == k && uppers@.len() == k,
            forall|m: int|
                0 <= m < k ==> (#[trigger] lowers@[m])@ == rendering(tv[m], CaseKind::Lower),
            forall|m: int|
                0 <= m < k ==> (#[trigger] caps@[m])@ == rendering(tv[m], CaseKind::FirstUpper),
            forall|m: int|
                0 <= m < k ==> (#[trigger] uppers@[m])@ == rendering(tv[m], CaseKind::AllUpper),
        decreases n - k,
    {
        let word = string_of(&table[k]);
        let low = to_lower(word.as_str());
        let cap = capitalize_first(low.as_str());
        let up = to_upper(word.as_str());
        lowers.push(chars_of(low.as_str()));
        caps.push(chars_of(cap.as_str()));
        uppers.push(chars_of(up.as_str()));
        assert(word@ == tv[k as int]);
        assert(lowers@[k as int]@ == rendering(tv[k as int], CaseKind::Lower));
        assert(caps@[k as int]@ == rendering(tv[k as int], CaseKind::FirstUpper));
        assert(uppers@[k as int]@ == rendering(tv[k as int], CaseKind::AllUpper));
        k += 1;
    }

    let mut out: Vec<char> = Vec::new();
    let mut p: usize = 0;
    while p < t.len()
        invariant
            p <= t@.len(),
            n == tv.len(),
            renderings_of(tv, lowers@, caps@, uppers@),
            decode_from(t@, tv, 0) == out@ + decode_from(t@, tv, p as int),
        decreases t@.len() - p,
    {
        match parse_token(t, p, n) {
            Some(tok) => {
                let field = tok.field;
                let e = tok.digits_end;
                proof {
                    lemma_digits_bounds(t@, p + 7, digit_value(t@[p + 6]), n as int);
                }
                if t.len() - e >= 2 && t[e] == '_' && t[e + 1] == 'A' {
                    push_all(&mut out, &uppers[field - 1]);
                    p = e + 2;
                } else if t.len() - e >= 2 && t[e] == '_' && t[e + 1] == 'F' && parse_token(
                    t,
                    e + 1,
                    n,
                ).is_none() {
                    push_all(&mut out, &caps[field - 1]);
                    p = e + 2;
                } else {
                    push_all(&mut out, &lowers[field - 1]);
                    p = e;
                }
            },
            None => {
                out.push(t[p]);
                p += 1;
            },
        }
    }
    assert(out@ =~= out@ + decode_from(t@, tv, p as int));
    out
}

} // verus!
