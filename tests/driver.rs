use git_revision::delegate::{CallLog, Kind, Navigate, PeelTo, ReflogLookup, Relation, Revision, SiblingBranch, Traversal};
use git_revision::driver::{parse, Error};

/// A delegate that records each call and rejects the names listed in `reject`.
#[derive(Default)]
struct Recorder {
    calls: Vec<String>,
    reject: Vec<String>,
}

impl Recorder {
    fn answer(&mut self, call: String) -> Option<()> {
        let rejected = self.reject.contains(&call);
        self.calls.push(call);
        if rejected {
            None
        } else {
            Some(())
        }
    }
}

// The call log is ghost state: it exists for the proofs only and is never
// read when the tests run.
impl CallLog for Recorder {
    fn calls(&self) -> git_revision::trace::CallHistory {
        unreachable!()
    }
}

impl Revision for Recorder {
    fn find_ref(&mut self, name: &[u8]) -> Option<()> {
        let call = format!("find_ref({})", String::from_utf8_lossy(name));
        self.answer(call)
    }

    fn disambiguate_prefix(&mut self, prefix: git_hash::Prefix) -> Option<()> {
        let call = format!("disambiguate_prefix({}, {})", prefix, prefix.hex_len());
        self.answer(call)
    }

    fn reflog(&mut self, query: ReflogLookup) -> Option<()> {
        let call = match query {
            ReflogLookup::Entry(n) => format!("reflog(Entry({}))", n),
            ReflogLookup::Date(t) => format!("reflog(Date({}, {}))", t.seconds_since_unix_epoch, t.offset_in_seconds),
        };
        self.answer(call)
    }

    fn nth_checked_out_branch(&mut self, branch_no: usize) -> Option<()> {
        self.answer(format!("nth_checked_out_branch({})", branch_no))
    }

    fn sibling_branch(&mut self, kind: SiblingBranch) -> Option<()> {
        self.answer(format!("sibling_branch({:?})", kind))
    }
}

impl Kind for Recorder {
    fn kind(&mut self, kind: Relation) -> Option<()> {
        self.answer(format!("kind({:?})", kind))
    }
}

impl Navigate for Recorder {
    fn traverse(&mut self, kind: Traversal) -> Option<()> {
        self.answer(format!("traverse({:?})", kind))
    }

    fn peel_until(&mut self, kind: PeelTo<'_>) -> Option<()> {
        let call = match kind {
            PeelTo::Path(p) => format!("peel_until(Path({}))", String::from_utf8_lossy(p)),
            other => format!("peel_until({:?})", other),
        };
        self.answer(call)
    }

    fn find(&mut self, regex: &[u8], negated: bool) -> Option<()> {
        self.answer(format!("find({}, {})", String::from_utf8_lossy(regex), negated))
    }
}

fn run(input: &str) -> (Result<Relation, Error>, Vec<String>) {
    run_rejecting(input, &[])
}

fn run_rejecting(input: &str, reject: &[&str]) -> (Result<Relation, Error>, Vec<String>) {
    let mut d = Recorder {
        calls: Vec::new(),
        reject: reject.iter().map(|s| s.to_string()).collect(),
    };
    let r = parse(input.as_bytes(), &mut d);
    (r, d.calls)
}

#[test]
fn plain_name_is_one_ref_lookup() {
    assert_eq!(run("main"), (Ok(Relation::Single), vec!["find_ref(main)".to_string()]));
}

#[test]
fn ancestor_after_name() {
    assert_eq!(
        run("main~2"),
        (Ok(Relation::Single), vec!["find_ref(main)".to_string(), "traverse(NthAncestor(2))".to_string()])
    );
}

#[test]
fn upstream_without_name_uses_head_implicitly() {
    assert_eq!(run("@{upstream}"), (Ok(Relation::Single), vec!["sibling_branch(Upstream)".to_string()]));
}

#[test]
fn reflog_entry_after_head() {
    assert_eq!(
        run("HEAD@{2}"),
        (Ok(Relation::Single), vec!["find_ref(HEAD)".to_string(), "reflog(Entry(2))".to_string()])
    );
}

#[test]
fn rejected_ref_stops_the_parse() {
    assert_eq!(
        run_rejecting("doesnotexist~1", &["find_ref(doesnotexist)"]),
        (Err(Error::Rejected), vec!["find_ref(doesnotexist)".to_string()])
    );
    assert_eq!(
        run_rejecting("doesnotexist", &["find_ref(doesnotexist)"]),
        (Err(Error::Rejected), vec!["find_ref(doesnotexist)".to_string()])
    );
}

#[test]
fn two_dot_range_sets_relation_between_anchors() {
    assert_eq!(
        run("a..b"),
        (
            Ok(Relation::Range),
            vec!["find_ref(a)".to_string(), "kind(Range)".to_string(), "find_ref(b)".to_string()]
        )
    );
}

#[test]
fn three_dot_range_is_merge_base() {
    assert_eq!(
        run("a...b"),
        (
            Ok(Relation::MergeBase),
            vec!["find_ref(a)".to_string(), "kind(MergeBase)".to_string(), "find_ref(b)".to_string()]
        )
    );
}

#[test]
fn empty_range_sides_are_head() {
    assert_eq!(
        run("..b"),
        (
            Ok(Relation::Range),
            vec!["find_ref(HEAD)".to_string(), "kind(Range)".to_string(), "find_ref(b)".to_string()]
        )
    );
    assert_eq!(
        run("a.."),
        (
            Ok(Relation::Range),
            vec!["find_ref(a)".to_string(), "kind(Range)".to_string(), "find_ref(HEAD)".to_string()]
        )
    );
}

#[test]
fn leading_caret_sets_range_first() {
    assert_eq!(
        run("^a"),
        (Ok(Relation::Range), vec!["kind(Range)".to_string(), "find_ref(a)".to_string()])
    );
}

#[test]
fn relation_is_set_at_most_once() {
    let (r, calls) = run("a..b..c");
    assert_eq!(r, Err(Error::RelationSetTwice));
    assert_eq!(calls, vec!["find_ref(a)", "kind(Range)", "find_ref(b)"]);
    let (r, calls) = run("^a..b");
    assert_eq!(r, Err(Error::RelationSetTwice));
    assert_eq!(calls, vec!["kind(Range)", "find_ref(a)"]);
    assert_eq!(calls.iter().filter(|c| c.starts_with("kind(")).count(), 1);
}

#[test]
fn rejected_relation_stops_the_parse() {
    assert_eq!(
        run_rejecting("a..b", &["kind(Range)"]),
        (Err(Error::Rejected), vec!["find_ref(a)".to_string(), "kind(Range)".to_string()])
    );
}

#[test]
fn zero_counts_never_reach_the_delegate() {
    assert_eq!(run("main~0"), (Err(Error::ZeroCount), vec!["find_ref(main)".to_string()]));
    assert_eq!(run("main^0"), (Err(Error::ZeroCount), vec!["find_ref(main)".to_string()]));
    assert_eq!(run("@{-0}"), (Err(Error::ZeroCount), vec![]));
}

#[test]
fn traversal_counts_default_to_one() {
    let (r, calls) = run("main^~^3~4");
    assert_eq!(r, Ok(Relation::Single));
    assert_eq!(
        calls,
        vec![
            "find_ref(main)",
            "traverse(NthParent(1))",
            "traverse(NthAncestor(1))",
            "traverse(NthParent(3))",
            "traverse(NthAncestor(4))"
        ]
    );
}

#[test]
fn count_too_large_is_rejected_locally() {
    assert_eq!(run("main~99999999999999999999999"), (Err(Error::InvalidNumber), vec!["find_ref(main)".to_string()]));
    assert_eq!(run("@{99999999999999999999999}"), (Err(Error::InvalidNumber), vec![]));
}

#[test]
fn message_search_needs_a_pattern() {
    assert_eq!(run(":/"), (Err(Error::EmptyRegex), vec![]));
    assert_eq!(run(":/!-"), (Err(Error::EmptyRegex), vec![]));
    assert_eq!(run("main^{/}"), (Err(Error::EmptyRegex), vec!["find_ref(main)".to_string()]));
}

#[test]
fn message_search_forms() {
    assert_eq!(run(":/fix bug"), (Ok(Relation::Single), vec!["find(fix bug, false)".to_string()]));
    assert_eq!(run(":/!-wip"), (Ok(Relation::Single), vec!["find(wip, true)".to_string()]));
    assert_eq!(run(":/!!bang"), (Ok(Relation::Single), vec!["find(!bang, false)".to_string()]));
    assert_eq!(run(":/!x"), (Err(Error::Unexpected), vec![]));
    assert_eq!(
        run("main^{/fix}"),
        (Ok(Relation::Single), vec!["find_ref(main)".to_string(), "find(fix, false)".to_string()])
    );
}

#[test]
fn peel_targets() {
    assert_eq!(
        run("v1.0^{}"),
        (Ok(Relation::Single), vec!["find_ref(v1.0)".to_string(), "peel_until(RecursiveTagObject)".to_string()])
    );
    assert_eq!(
        run("v1.0^{commit}"),
        (Ok(Relation::Single), vec!["find_ref(v1.0)".to_string(), "peel_until(ObjectKind(Commit))".to_string()])
    );
    assert_eq!(
        run("v1.0^{tree}"),
        (Ok(Relation::Single), vec!["find_ref(v1.0)".to_string(), "peel_until(ObjectKind(Tree))".to_string()])
    );
    assert_eq!(
        run("main^{object}"),
        (Ok(Relation::Single), vec!["find_ref(main)".to_string(), "peel_until(ExistingObject)".to_string()])
    );
    assert_eq!(run("main^{foo}"), (Err(Error::InvalidObjectKind), vec!["find_ref(main)".to_string()]));
    assert_eq!(run("main^{commit"), (Err(Error::UnclosedBrace), vec!["find_ref(main)".to_string()]));
}

#[test]
fn empty_path_is_the_tree_of_the_anchor() {
    assert_eq!(
        run("main:"),
        (Ok(Relation::Single), vec!["find_ref(main)".to_string(), "peel_until(Path())".to_string()])
    );
    assert_eq!(
        run("main:src/../lib.rs"),
        (Ok(Relation::Single), vec!["find_ref(main)".to_string(), "peel_until(Path(src/../lib.rs))".to_string()])
    );
}

#[test]
fn hex_names_are_object_prefixes() {
    assert_eq!(run("abcd1234"), (Ok(Relation::Single), vec!["disambiguate_prefix(abcd1234, 8)".to_string()]));
    assert_eq!(run("abc"), (Ok(Relation::Single), vec!["find_ref(abc)".to_string()]));
    assert_eq!(run("abcdefg"), (Ok(Relation::Single), vec!["find_ref(abcdefg)".to_string()]));
}

#[test]
fn at_sign_alone_is_head() {
    assert_eq!(
        run("@~1"),
        (Ok(Relation::Single), vec!["find_ref(HEAD)".to_string(), "traverse(NthAncestor(1))".to_string()])
    );
}

#[test]
fn checked_out_branches_and_siblings() {
    assert_eq!(run("@{-1}"), (Ok(Relation::Single), vec!["nth_checked_out_branch(1)".to_string()]));
    assert_eq!(run("@{push}"), (Ok(Relation::Single), vec!["sibling_branch(Push)".to_string()]));
    assert_eq!(
        run("main@{U}"),
        (Ok(Relation::Single), vec!["find_ref(main)".to_string(), "sibling_branch(Upstream)".to_string()])
    );
    assert_eq!(run("main@{-1}"), (Err(Error::Unexpected), vec!["find_ref(main)".to_string()]));
    assert_eq!(run("main@{2"), (Err(Error::UnclosedBrace), vec!["find_ref(main)".to_string()]));
}

#[test]
fn reflog_by_date() {
    assert_eq!(
        run("main@{1979-02-26 18:30:00}"),
        (Ok(Relation::Single), vec!["find_ref(main)".to_string(), "reflog(Date(42, 1800))".to_string()])
    );
    assert_eq!(run("main@{no such date}"), (Err(Error::InvalidDate), vec!["find_ref(main)".to_string()]));
}

#[test]
fn empty_and_malformed_specifications() {
    assert_eq!(run(""), (Err(Error::Empty), vec![]));
    assert_eq!(run("^"), (Err(Error::Unexpected), vec!["kind(Range)".to_string()]));
    assert_eq!(run("~1"), (Err(Error::Unexpected), vec![]));
    assert_eq!(run("main~1x"), (Err(Error::Unexpected), vec!["find_ref(main)".to_string(), "traverse(NthAncestor(1))".to_string()]));
}

#[test]
fn ranges_of_navigated_revisions() {
    let (r, calls) = run("a~1..b^2");
    assert_eq!(r, Ok(Relation::Range));
    assert_eq!(
        calls,
        vec!["find_ref(a)", "traverse(NthAncestor(1))", "kind(Range)", "find_ref(b)", "traverse(NthParent(2))"]
    );
    let (r, calls) = run("main^...topic~3");
    assert_eq!(r, Ok(Relation::MergeBase));
    assert_eq!(
        calls,
        vec!["find_ref(main)", "traverse(NthParent(1))", "kind(MergeBase)", "find_ref(topic)", "traverse(NthAncestor(3))"]
    );
    let (r, calls) = run_rejecting("a~1..b^2", &["traverse(NthParent(2))"]);
    assert_eq!(r, Err(Error::Rejected));
    assert_eq!(calls.len(), 5);
}

#[test]
fn zero_counts_anywhere_in_a_revision_fail() {
    assert_eq!(
        run("main~1~0"),
        (Err(Error::ZeroCount), vec!["find_ref(main)".to_string(), "traverse(NthAncestor(1))".to_string()])
    );
    assert_eq!(run("@{u}~0"), (Err(Error::ZeroCount), vec!["sibling_branch(Upstream)".to_string()]));
    let (r, calls) = run("a..b~0");
    assert_eq!(r, Err(Error::ZeroCount));
    assert_eq!(calls, vec!["find_ref(a)", "kind(Range)", "find_ref(b)"]);
}

#[test]
fn empty_patterns_after_a_name_fail() {
    assert_eq!(run("main^{/!-}"), (Err(Error::EmptyRegex), vec!["find_ref(main)".to_string()]));
    assert_eq!(run("main~1^{/}"), (Err(Error::EmptyRegex), vec!["find_ref(main)".to_string(), "traverse(NthAncestor(1))".to_string()]));
}

#[test]
fn second_relation_fails_whatever_the_sides() {
    let (r, calls) = run("@{u}..b..c");
    assert_eq!(r, Err(Error::RelationSetTwice));
    assert_eq!(calls, vec!["sibling_branch(Upstream)", "kind(Range)", "find_ref(b)"]);
    let (r, calls) = run("a^{}..b..c");
    assert_eq!(r, Err(Error::RelationSetTwice));
    assert_eq!(calls, vec!["find_ref(a)", "peel_until(RecursiveTagObject)", "kind(Range)", "find_ref(b)"]);
}
