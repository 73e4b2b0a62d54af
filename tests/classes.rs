use text_masker::case_utils::{case_kind_from_flags, CaseKind};
use text_masker::matcher::{occurs_in_classes, TextClasses};

fn folds(s: &str) -> Vec<Vec<char>> {
    s.chars().map(|c| vec![c]).collect()
}

#[test]
fn case_kind_from_given_flags() {
    assert_eq!(case_kind_from_flags(&vec![true, true], &vec![true, true]), CaseKind::AllUpper);
    assert_eq!(case_kind_from_flags(&vec![true, false], &vec![true, false]), CaseKind::AllUpper);
    assert_eq!(case_kind_from_flags(&vec![true, false], &vec![true, true]), CaseKind::FirstUpper);
    assert_eq!(case_kind_from_flags(&vec![true], &vec![true]), CaseKind::FirstUpper);
    assert_eq!(case_kind_from_flags(&vec![false, true], &vec![true, true]), CaseKind::Lower);
    assert_eq!(case_kind_from_flags(&vec![], &vec![]), CaseKind::Lower);
}

#[test]
fn occurrence_from_given_classes() {
    // "a-bc": the hyphen joins, so "bc" opens after it.
    let kebab = TextClasses {
        folded: folds("a-bc"),
        word: vec![true, false, true, true],
        joiner: vec![false, true, false, false],
        upper: vec![false, false, false, false],
    };
    assert!(occurs_in_classes(&kebab, &folds("bc"), 2));
    assert!(!occurs_in_classes(&kebab, &folds("bc"), 1));
    assert!(occurs_in_classes(&kebab, &folds("a"), 0));
    assert!(!occurs_in_classes(&kebab, &folds(""), 0));
    // "abc": "bc" follows a plain lowercase letter unless it opens uppercase.
    let mut plain = TextClasses {
        folded: folds("abc"),
        word: vec![true, true, true],
        joiner: vec![false, false, false],
        upper: vec![false, false, false],
    };
    assert!(!occurs_in_classes(&plain, &folds("bc"), 1));
    assert!(!occurs_in_classes(&plain, &folds("ab"), 0));
    plain.upper[1] = true;
    assert!(occurs_in_classes(&plain, &folds("bc"), 1));
}
