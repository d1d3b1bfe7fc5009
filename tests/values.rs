use git_revision::ascii::{eq_ignore_ascii_case, parse_decimal};
use git_revision::delegate::{ReflogLookup, SiblingBranch, Traversal};

#[test]
fn sibling_branch_parse_ignores_case() {
    assert_eq!(SiblingBranch::parse(b"U"), Some(SiblingBranch::Upstream));
    assert_eq!(SiblingBranch::parse(b"u"), Some(SiblingBranch::Upstream));
    assert_eq!(SiblingBranch::parse(b"upstream"), Some(SiblingBranch::Upstream));
    assert_eq!(SiblingBranch::parse(b"UpStReAm"), Some(SiblingBranch::Upstream));
    assert_eq!(SiblingBranch::parse(b"Push"), Some(SiblingBranch::Push));
    assert_eq!(SiblingBranch::parse(b"PUSH"), Some(SiblingBranch::Push));
    assert_eq!(SiblingBranch::parse(b"other"), None);
    assert_eq!(SiblingBranch::parse(b""), None);
    assert_eq!(SiblingBranch::parse(b"pus"), None);
    assert_eq!(SiblingBranch::parse(b"upstreams"), None);
}

#[test]
fn reflog_entries_are_newest_first() {
    assert_eq!(ReflogLookup::Entry(0).entry_index(3), Some(2));
    assert_eq!(ReflogLookup::Entry(1).entry_index(3), Some(1));
    assert_eq!(ReflogLookup::Entry(2).entry_index(3), Some(0));
    assert_eq!(ReflogLookup::Entry(3).entry_index(3), None);
    assert_eq!(ReflogLookup::Entry(0).entry_index(0), None);
    assert_eq!(ReflogLookup::Date(git_date::Time::new(42, 0)).entry_index(3), None);
}

#[test]
fn traversal_values_compare_by_variant_and_count() {
    assert_eq!(Traversal::NthParent(1), Traversal::NthParent(1));
    assert_ne!(Traversal::NthParent(1), Traversal::NthAncestor(1));
}

#[test]
fn ascii_case_folding() {
    assert!(eq_ignore_ascii_case(b"HeAd", b"head"));
    assert!(!eq_ignore_ascii_case(b"head", b"heads"));
    assert!(!eq_ignore_ascii_case(b"[", b"{"));
    assert!(eq_ignore_ascii_case(b"", b""));
}

#[test]
fn decimal_numbers() {
    assert_eq!(parse_decimal(b"0"), Some(0));
    assert_eq!(parse_decimal(b"1234"), Some(1234));
    assert_eq!(parse_decimal(b"18446744073709551615"), Some(usize::MAX));
    assert_eq!(parse_decimal(b"18446744073709551616"), None);
    assert_eq!(parse_decimal(b""), None);
    assert_eq!(parse_decimal(b"12a"), None);
}
