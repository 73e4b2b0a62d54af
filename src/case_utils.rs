//! Case categories of matched words, and the renderings of a word in each.
use vstd::prelude::*;
use crate::text::{
    alphabetic_char, chars_of, is_alphabetic, is_upper_case, push_char, to_upper, upper_case_char,
    upper_of,
};

verus! {

/// The case category of a matched span.
#[derive(Clone, Copy, Debug, PartialEq, Eq, Structural)]
pub enum CaseKind {
    Lower,
    FirstUpper,
    AllUpper,
}

/// Every alphabetic character of `s` is uppercase.
pub open spec fn all_upper(s: Seq<char>) -> bool {
    forall|i: int| 0 <= i < s.len() ==> !alphabetic_char(#[trigger] s[i]) || upper_case_char(s[i])
}

/// The category of a span: all uppercase when it has more than one character
/// and every letter is uppercase; first-upper when its first character is
/// uppercase; lowercase otherwise.
pub open spec fn case_kind(s: Seq<char>) -> CaseKind {
    if s.len() > 1 && all_upper(s) {
        CaseKind::AllUpper
    } else if s.len() > 0 && upper_case_char(s[0]) {
        CaseKind::FirstUpper
    } else {
        CaseKind::Lower
    }
}

/// The placeholder suffix that records a case category.
pub open spec fn suffix_of(k: CaseKind) -> Seq<char> {
    match k {
        CaseKind::AllUpper => seq!['_', 'A'],
        CaseKind::FirstUpper => seq!['_', 'F'],
        CaseKind::Lower => seq![],
    }
}

/// `s` with its first character uppercased and the rest kept.
pub open spec fn capitalized(s: Seq<char>) -> Seq<char> {
    if s.len() == 0 {
        s
    } else {
        upper_of(seq![s[0]]) + s.drop_first()
    }
}

/// The category of a span whose characters are uppercase where `upper` is
/// set and alphabetic where `alpha` is set.
pub open spec fn kind_from_flags(upper: Seq<bool>, alpha: Seq<bool>) -> CaseKind {
    if upper.len() > 1 && forall|i: int| 0 <= i < upper.len() ==> !alpha[i] || #[trigger] upper[i] {
        CaseKind::AllUpper
    } else if upper.len() > 0 && upper[0] {
        CaseKind::FirstUpper
    } else {
        CaseKind::Lower
    }
}

/// Classifies a span from the uppercase and alphabetic flags of its
/// characters.
pub fn case_kind_from_flags(upper: &Vec<bool>, alpha: &Vec<bool>) -> (r: CaseKind)
    requires
        upper@.len() == alpha@.len(),
    ensures
        r == kind_from_flags(upper@, alpha@),
{
    if upper.len() == 0 {
        return CaseKind::Lower;
    }
    let mut all: bool = true;
    let mut i: usize = 0;
    while i < upper.len()
        invariant
            i <= upper@.len(),
            upper@.len() == alpha@.len(),
            all == (forall|j: int| 0 <= j < i ==> !alpha@[j] || #[trigger] upper@[j]),
        decreases upper@.len() - i,
    {
        if alpha[i] && !upper[i] {
            all = false;
        }
        i += 1;
    }
    if all && upper.len() > 1 {
        CaseKind::AllUpper
    } else if upper[0] {
        CaseKind::FirstUpper
    } else {
        CaseKind::Lower
    }
}

/// Classifies the characters of `s`.
pub(crate) fn case_kind_of(s: &Vec<char>) -> (r: CaseKind)
    ensures
        r == case_kind(s@),
{
    let mut upper: Vec<bool> = Vec::new();
    let mut alpha: Vec<bool> = Vec::new();
    let mut i: usize = 0;
    while i < s.len()
        invariant
            i <= s@.len(),
            upper@.len() == i,
            alpha@.len() == i,
            forall|j: int| 0 <= j < i ==> #[trigger] upper@[j] == upper_case_char(s@[j]),
            forall|j: int| 0 <= j < i ==> #[trigger] alpha@[j] == alphabetic_char(s@[j]),
        decreases s@.len() - i,
    {
        upper.push(is_upper_case(s[i]));
        alpha.push(is_alphabetic(s[i]));
        i += 1;
    }
    let r = case_kind_from_flags(&upper, &alpha);
    assert((forall|j: int| 0 <= j < upper@.len() ==> !alpha@[j] || #[trigger] upper@[j]) == all_upper(
        s@,
    )) by {
        if forall|j: int| 0 <= j < upper@.len() ==> !alpha@[j] || #[trigger] upper@[j] {
            assert forall|j: int| 0 <= j < s@.len() implies !alphabetic_char(#[trigger] s@[j])
                || upper_case_char(s@[j]) by {
                assert(!alpha@[j] || upper@[j]);
            }
        }
        if all_upper(s@) {
            assert forall|j: int| 0 <= j < upper@.len() implies !alpha@[j] || #[trigger] upper@[j] by {
                assert(!alphabetic_char(s@[j]) || upper_case_char(s@[j]));
            }
        }
    }
    r
}

/// The case suffix of a word: `"_A"` when it has more than one character and
/// all its letters are uppercase, `"_F"` when its first character is
/// uppercase, and `""` otherwise.
pub fn determine_case_suffix(word: &str) -> (r: &'static str)
    ensures
        r@ == suffix_of(case_kind(word@)),
{
    let cs = chars_of(word);
    proof {
        reveal_strlit("_A");
        reveal_strlit("_F");
        reveal_strlit("");
    }
    match case_kind_of(&cs) {
        CaseKind::AllUpper => "_A",
        CaseKind::FirstUpper => "_F",
        CaseKind::Lower => "",
    }
}

/// `s` with its first character uppercased.
pub fn capitalize_first(s: &str) -> (r: String)
    ensures
        r@ == capitalized(s@),
{
    let cs = chars_of(s);
    if cs.len() == 0 {
        return String::new();
    }
    let mut first = String::new();
    push_char(&mut first, cs[0]);
    let mut r = to_upper(first.as_str());
    let mut i: usize = 1;
    while i < cs.len()
        invariant
            1 <= i <= cs@.len(),
            cs@ == s@,
            r@ == upper_of(seq![cs@[0]]) + cs@.subrange(1, i as int),
        decreases cs@.len() - i,
    {
        push_char(&mut r, cs[i]);
        i += 1;
        assert(cs@.subrange(1, i as int) =~= cs@.subrange(1, i - 1).push(cs@[i - 1]));
    }
    assert(first@ =~= seq![cs@[0]]);
    assert(cs@.subrange(1, cs@.len() as int) =~= cs@.drop_first());
    r
}

} // verus!
