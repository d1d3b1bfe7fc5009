//! The values exchanged with a resolution backend, and the capability traits
//! such a backend implements.
use vstd::prelude::*;

use crate::ascii::{eq_ignore_ascii_case, eq_ignore_case};
use crate::trace::{peel_target, Call, CallHistory, Step};
use git_object::Kind as ObjectKind;

verus! {

/// The kind of sibling branch to obtain.
#[derive(PartialEq, Eq, Structural, Debug, Hash, Ord, PartialOrd, Clone, Copy)]
pub enum SiblingBranch {
    /// The upstream branch as configured in `branch.<name>.remote` or `branch.<name>.merge`.
    Upstream,
    /// The upstream branch to which we would push.
    Push,
}

/// The bytes of `u`.
pub open spec fn word_u() -> Seq<u8> {
    seq![117u8]
}

/// The bytes of `upstream`.
pub open spec fn word_upstream() -> Seq<u8> {
    seq![117u8, 112u8, 115u8, 116u8, 114u8, 101u8, 97u8, 109u8]
}

/// The bytes of `push`.
pub open spec fn word_push() -> Seq<u8> {
    seq![112u8, 117u8, 115u8, 104u8]
}

/// What `SiblingBranch::parse` yields for `input`.
pub open spec fn sibling_branch_of(input: Seq<u8>) -> Option<SiblingBranch> {
    if eq_ignore_case(input, word_u()) || eq_ignore_case(input, word_upstream()) {
        Some(SiblingBranch::Upstream)
    } else if eq_ignore_case(input, word_push()) {
        Some(SiblingBranch::Push)
    } else {
        None
    }
}

impl SiblingBranch {
    /// Parse `input` as branch representation, if possible.
    pub fn parse(input: &[u8]) -> (r: Option<SiblingBranch>)
        ensures
            r == sibling_branch_of(input@),
    {
        let u: [u8; 1] = [117u8];
        let upstream: [u8; 8] = [117u8, 112u8, 115u8, 116u8, 114u8, 101u8, 97u8, 109u8];
        let push: [u8; 4] = [112u8, 117u8, 115u8, 104u8];
        assert(u@ =~= word_u());
        assert(upstream@ =~= word_upstream());
        assert(push@ =~= word_push());
        if eq_ignore_ascii_case(input, u.as_slice()) || eq_ignore_ascii_case(input, upstream.as_slice()) {
            Some(SiblingBranch::Upstream)
        } else if eq_ignore_ascii_case(input, push.as_slice()) {
            Some(SiblingBranch::Push)
        } else {
            None
        }
    }
}


/// How the anchors of a specification combine.
#[derive(PartialEq, Eq, Structural, Debug, Hash, Ord, PartialOrd, Clone, Copy)]
pub enum Relation {
    /// One revision; what a specification is when no relation was set.
    Single,
    /// Commits reachable from the second anchor but not from the first, as in `a..b` or `^a`.
    Range,
    /// Commits reachable from either anchor but not from both, as in `a...b`.
    MergeBase,
}

/// Define how to traverse the commit graph.
#[derive(PartialEq, Eq, Structural, Debug, Hash, Ord, PartialOrd, Clone, Copy)]
pub enum Traversal {
    /// Select the given parent commit of the currently selected commit, start at `1` for the first parent.
    /// The value will never be `0`.
    NthParent(usize),
    /// Select the given ancestor of the currently selected commit, start at `1` for the first ancestor.
    /// The value will never be `0`.
    NthAncestor(usize),
}

impl Traversal {
    /// How many steps the traversal takes.
    pub open spec fn count(self) -> nat {
        match self {
            Traversal::NthParent(n) => n as nat,
            Traversal::NthAncestor(n) => n as nat,
        }
    }
}

/// A lookup into the reflog of a reference.
#[derive(PartialEq, Eq, Debug, Hash, Ord, PartialOrd, Clone, Copy)]
pub enum ReflogLookup {
    /// Lookup by entry, where `0` is the most recent entry, and `1` is the older one behind `0`.
    Entry(usize),
    /// The entry at or before the given time.
    Date(git_date::Time),
}

/// Where `Entry(n)` stands in a log of `len` entries kept in the order they
/// were written, oldest first.
pub open spec fn entry_slot(n: int, len: int) -> Option<int> {
    if 0 <= n < len {
        Some(len - 1 - n)
    } else {
        None
    }
}

impl ReflogLookup {
    /// For a lookup by entry, the index of that entry in a log of `log_len`
    /// entries kept in the order they were written (oldest first); `None` when
    /// the log is too short or the lookup goes by date.
    pub fn entry_index(&self, log_len: usize) -> (r: Option<usize>)
        ensures
            match *self {
                ReflogLookup::Entry(n) => match entry_slot(n as int, log_len as int) {
                    Some(k) => r == Some(k as usize),
                    None => r is None,
                },
                ReflogLookup::Date(_) => r is None,
            },
    {
        match self {
            ReflogLookup::Entry(n) => {
                if *n < log_len {
                    Some(log_len - 1 - *n)
                } else {
                    None
                }
            },
            ReflogLookup::Date(_) => None,
        }
    }
}

/// Entry lookups are ordered by age: entry `0` is the last one written, and
/// of two entries in a log the one with the smaller number was written no
/// earlier than the other.
pub proof fn lemma_entries_newest_first(i: int, j: int, len: int)
    requires
        0 <= i < j < len,
    ensures
        entry_slot(0, len) == Some(len - 1),
        entry_slot(i, len) matches Some(a) && entry_slot(j, len) matches Some(b) && a > b,
{
}

/// Define where a tag object should be peeled to.
#[derive(PartialEq, Eq, Debug, Hash, Ord, PartialOrd, Clone, Copy)]
pub enum PeelTo<'a> {
    /// An object of the given kind.
    ObjectKind(ObjectKind),
    /// Ensure the object at hand exists, without imposing any restrictions to its type.
    ExistingObject,
    /// Follow an annotated tag object recursively until an object is found.
    RecursiveTagObject,
    /// The path to drill into as seen relative to the current tree-ish.
    ///
    /// Note that the path can be relative, and `./` and `../` prefixes are seen as relative to the current
    /// working directory.
    ///
    /// The path may be empty, which makes it refer to the tree at the current revision, similar to `^{tree}`.
    Path(&'a [u8]),
}

/// The calls a delegate has answered so far, in order, each with its answer.
/// Every method of the capability traits appends the call it answered.
pub trait CallLog {
    spec fn calls(&self) -> CallHistory;
}

/// Usually the first methods to call when parsing a rev-spec to set an anchoring revision (which is typically a `Commit` object).
/// Methods can be called multiple time to either try input or to parse another rev-spec that is part of a range.
///
/// In one case they will not be called at all, e.g. `@{[-]n}` indicates the current branch (what `HEAD` dereferences to),
/// without ever naming it, and so does `@{upstream}` or `@{<date>}`.
pub trait Revision: CallLog {
    /// Resolve `name` as reference which might not be a valid reference name. The name may be partial like `main` or full like
    /// `refs/heads/main` solely depending on the users input.
    /// Symbolic referenced should be followed till their object, but objects **must not yet** be peeled.
    fn find_ref(&mut self, name: &[u8]) -> (r: Option<()>)
        ensures
            final(self).calls() == old(self).calls().push(Step { call: Call::FindRef(name@), accepted: r is Some }),
    ;

    /// An object prefix to disambiguate, returning `None` if it is ambiguous or wasn't found at all.
    fn disambiguate_prefix(&mut self, prefix: git_hash::Prefix) -> (r: Option<()>)
        ensures
            final(self).calls() == old(self).calls().push(Step { call: Call::DisambiguatePrefix(prefix), accepted: r is Some }),
    ;

    /// Lookup the reflog of the previously set reference, or dereference `HEAD` to its reference
    /// to obtain the ref name (as opposed to `HEAD` itself).
    /// If there is no such reflog entry, return `None`.
    fn reflog(&mut self, query: ReflogLookup) -> (r: Option<()>)
        ensures
            final(self).calls() == old(self).calls().push(Step { call: Call::Reflog(query), accepted: r is Some }),
    ;

    /// When looking at `HEAD`, `branch_no` is the non-null checkout in the path, e.g. `1` means the last branch checked out,
    /// `2` is the one before that.
    /// Return `None` if there is no branch as the checkout history (via the reflog) isn't long enough.
    fn nth_checked_out_branch(&mut self, branch_no: usize) -> (r: Option<()>)
        requires
            branch_no >= 1,
        ensures
            final(self).calls() == old(self).calls().push(Step { call: Call::NthCheckedOutBranch(branch_no), accepted: r is Some }),
    ;

    /// Lookup the previously set branch or dereference `HEAD` to its reference to use its name to lookup the sibling branch of `kind`
    /// in the configuration (typically in `refs/remotes/…`). The sibling branches are always local tracking branches.
    /// Return `None` of no such configuration exists and no sibling could be found, which is also the case for all reference outside
    /// of `refs/heads/`.
    fn sibling_branch(&mut self, kind: SiblingBranch) -> (r: Option<()>)
        ensures
            final(self).calls() == old(self).calls().push(Step { call: Call::SiblingBranch(kind), accepted: r is Some }),
    ;
}

/// Combine one or more specs into a range of multiple.
pub trait Kind: CallLog {
    /// Set the kind of the spec, which happens only once if it happens at all.
    /// In case this method isn't called, assume `Single`, which is never passed.
    /// Reject a kind by returning `None` to stop the parsing.
    ///
    /// Note that ranges don't necessarily assure that a second specification will be parsed.
    /// If `^rev` is given, this method is called with `Relation::Range`
    /// and no second specification is provided.
    fn kind(&mut self, kind: Relation) -> (r: Option<()>)
        requires
            !(kind is Single),
        ensures
            final(self).calls() == old(self).calls().push(Step { call: Call::Kind(kind), accepted: r is Some }),
    ;
}

/// Once an anchor is set one can adjust it using traversal methods.
pub trait Navigate: CallLog {
    /// Adjust the current revision to traverse the graph according to `kind`, whose count is never `0`.
    fn traverse(&mut self, kind: Traversal) -> (r: Option<()>)
        requires
            kind.count() >= 1,
        ensures
            final(self).calls() == old(self).calls().push(Step { call: Call::Traverse(kind), accepted: r is Some }),
    ;

    /// Peel the current object until it reached `kind` or `None` if the chain does not contain such object.
    fn peel_until(&mut self, kind: PeelTo<'_>) -> (r: Option<()>)
        ensures
            final(self).calls() == old(self).calls().push(Step { call: Call::PeelUntil(peel_target(kind)), accepted: r is Some }),
    ;

    /// Find the first revision/commit whose message matches the given `regex` (which is never empty).
    /// If `negated` is `true`, the first non-match will be a match.
    ///
    /// If no revision is known yet, find the _youngest_ matching commit from _any_ reference, including `HEAD`.
    /// Otherwise, only find commits reachable from the set revision.
    fn find(&mut self, regex: &[u8], negated: bool) -> (r: Option<()>)
        requires
            regex@.len() > 0,
        ensures
            final(self).calls() == old(self).calls().push(Step { call: Call::Find(regex@, negated), accepted: r is Some }),
    ;
}

} // verus!
