//! A ghost record of the calls the driver makes on a delegate, and the
//! recording wrappers through which every such call goes.
use vstd::prelude::*;

use crate::delegate::{Kind, Navigate, PeelTo, ReflogLookup, Relation, Revision, SiblingBranch, Traversal};
use git_object::Kind as ObjectKind;

verus! {

/// Where a peel call asked to go, as a plain value.
pub enum PeelTarget {
    /// Peel until an object of this kind.
    ObjectKind(ObjectKind),
    /// Only make sure the object exists.
    ExistingObject,
    /// Follow annotated tags until a non-tag.
    RecursiveTagObject,
    /// Descend into the tree along this path.
    Path(Seq<u8>),
}

/// The model of a `PeelTo` value.
pub open spec fn peel_target(p: PeelTo) -> PeelTarget {
    match p {
        PeelTo::ObjectKind(k) => PeelTarget::ObjectKind(k),
        PeelTo::ExistingObject => PeelTarget::ExistingObject,
        PeelTo::RecursiveTagObject => PeelTarget::RecursiveTagObject,
        PeelTo::Path(p) => PeelTarget::Path(p@),
    }
}

/// One call on a delegate, with what it was handed.
pub enum Call {
    /// `Revision::find_ref` with this name.
    FindRef(Seq<u8>),
    /// `Revision::disambiguate_prefix` with this prefix.
    DisambiguatePrefix(git_hash::Prefix),
    /// `Revision::reflog` with this query.
    Reflog(ReflogLookup),
    /// `Revision::nth_checked_out_branch` with this number.
    NthCheckedOutBranch(usize),
    /// `Revision::sibling_branch` with this kind.
    SiblingBranch(SiblingBranch),
    /// `Kind::kind` with this relation.
    Kind(Relation),
    /// `Navigate::traverse` with this step.
    Traverse(Traversal),
    /// `Navigate::peel_until` with this target.
    PeelUntil(PeelTarget),
    /// `Navigate::find` with this pattern and negation.
    Find(Seq<u8>, bool),
}

/// A call and whether the delegate accepted it.
pub struct Step {
    pub call: Call,
    pub accepted: bool,
}

/// A delegate's log of calls.
pub type CallHistory = Seq<Step>;

/// What the protocol demands of a single call's arguments.
pub open spec fn call_allowed(c: Call) -> bool {
    match c {
        Call::Kind(k) => !(k is Single),
        Call::Traverse(t) => t.count() >= 1,
        Call::Find(regex, _) => regex.len() > 0,
        Call::NthCheckedOutBranch(n) => n >= 1,
        _ => true,
    }
}

/// Every call in `t` had arguments the protocol allows, and the relation was
/// set at most once.
pub open spec fn well_formed(t: Seq<Step>) -> bool {
    &&& forall|i: int| 0 <= i < t.len() ==> call_allowed(#[trigger] t[i].call)
    &&& forall|i: int, j: int|
        0 <= i < t.len() && 0 <= j < t.len() && (#[trigger] t[i].call is Kind) && (#[trigger] t[j].call is Kind)
            ==> i == j
}

/// Whether `t` holds a call that set the relation.
pub open spec fn sets_relation(t: Seq<Step>) -> bool {
    exists|i: int| 0 <= i < t.len() && (#[trigger] t[i].call is Kind)
}

/// Every call in `t` was accepted.
pub open spec fn all_accepted(t: Seq<Step>) -> bool {
    forall|i: int| 0 <= i < t.len() ==> (#[trigger] t[i]).accepted
}

/// The last call in `t` was rejected, and every call before it accepted.
pub open spec fn rejected_last(t: Seq<Step>) -> bool {
    t.len() > 0 && !t.last().accepted && all_accepted(t.drop_last())
}

/// `new` extends `old` by calls none of which sets the relation.
pub open spec fn extends_without_relation(old: Seq<Step>, new: Seq<Step>) -> bool {
    &&& old.len() <= new.len()
    &&& new.subrange(0, old.len() as int) == old
    &&& forall|i: int| old.len() <= i < new.len() ==> !(#[trigger] new[i].call is Kind)
}

/// `new` is `old` followed by calls with allowed arguments, none of which
/// sets the relation; when `rejected`, the last of them was rejected and the
/// others accepted, else all of them were accepted.
pub open spec fn appended(old: Seq<Step>, new: Seq<Step>, rejected: bool) -> bool {
    &&& extends_without_relation(old, new)
    &&& forall|i: int| old.len() <= i < new.len() ==> call_allowed((#[trigger] new[i]).call)
    &&& if rejected {
        &&& new.len() > old.len()
        &&& !new.last().accepted
        &&& forall|i: int| old.len() <= i < new.len() - 1 ==> (#[trigger] new[i]).accepted
    } else {
        forall|i: int| old.len() <= i < new.len() ==> (#[trigger] new[i]).accepted
    }
}

/// An unchanged trace has had nothing appended.
pub proof fn lemma_appended_refl(t: Seq<Step>)
    ensures
        appended(t, t, false),
{
    assert(t.subrange(0, t.len() as int) =~= t);
}

/// Accepted calls followed by more calls are, together, calls appended.
pub proof fn lemma_appended_trans(a: Seq<Step>, b: Seq<Step>, c: Seq<Step>, rejected: bool)
    requires
        appended(a, b, false),
        appended(b, c, rejected),
    ensures
        appended(a, c, rejected),
{
    assert(c.subrange(0, a.len() as int) =~= b.subrange(0, a.len() as int));
    assert forall|i: int| a.len() <= i < c.len() implies !(#[trigger] c[i].call is Kind) && call_allowed(c[i].call) by {
        if i < b.len() {
            assert(c[i] == c.subrange(0, b.len() as int)[i]);
        }
    }
    if rejected {
        assert forall|i: int| a.len() <= i < c.len() - 1 implies (#[trigger] c[i]).accepted by {
            if i < b.len() {
                assert(c[i] == c.subrange(0, b.len() as int)[i]);
            }
        }
    } else {
        assert forall|i: int| a.len() <= i < c.len() implies (#[trigger] c[i]).accepted by {
            if i < b.len() {
                assert(c[i] == c.subrange(0, b.len() as int)[i]);
            }
        }
    }
}

/// One call that does not set the relation, appended.
pub proof fn lemma_appended_step(t: Seq<Step>, step: Step)
    requires
        !(step.call is Kind),
        call_allowed(step.call),
    ensures
        appended(t, t.push(step), !step.accepted),
{
    assert(t.push(step).subrange(0, t.len() as int) =~= t);
}

/// Records `find_ref`.
pub(crate) fn call_find_ref<D: Revision>(d: &mut D, name: &[u8]) -> (ok: bool)
    ensures
        final(d).calls() == old(d).calls().push(Step { call: Call::FindRef(name@), accepted: ok }),
{
    let r = d.find_ref(name);
    r.is_some()
}

/// Records `disambiguate_prefix`.
pub(crate) fn call_disambiguate_prefix<D: Revision>(
    d: &mut D,
    prefix: git_hash::Prefix,
) -> (ok: bool)
    ensures
        final(d).calls() == old(d).calls().push(Step { call: Call::DisambiguatePrefix(prefix), accepted: ok }),
{
    let r = d.disambiguate_prefix(prefix);
    r.is_some()
}

/// Records `reflog`.
pub(crate) fn call_reflog<D: Revision>(d: &mut D, query: ReflogLookup) -> (ok: bool)
    ensures
        final(d).calls() == old(d).calls().push(Step { call: Call::Reflog(query), accepted: ok }),
{
    let r = d.reflog(query);
    r.is_some()
}

/// Records `nth_checked_out_branch`.
pub(crate) fn call_nth_checked_out_branch<D: Revision>(d: &mut D, n: usize) -> (ok: bool)
    requires
        n >= 1,
    ensures
        final(d).calls() == old(d).calls().push(Step { call: Call::NthCheckedOutBranch(n), accepted: ok }),
{
    let r = d.nth_checked_out_branch(n);
    r.is_some()
}

/// Records `sibling_branch`.
pub(crate) fn call_sibling_branch<D: Revision>(d: &mut D, kind: SiblingBranch) -> (ok: bool)
    ensures
        final(d).calls() == old(d).calls().push(Step { call: Call::SiblingBranch(kind), accepted: ok }),
{
    let r = d.sibling_branch(kind);
    r.is_some()
}

/// Records `kind`.
pub(crate) fn call_kind<D: Kind>(d: &mut D, kind: Relation) -> (ok: bool)
    requires
        !(kind is Single),
    ensures
        final(d).calls() == old(d).calls().push(Step { call: Call::Kind(kind), accepted: ok }),
{
    let r = d.kind(kind);
    r.is_some()
}

/// Records `traverse`.
pub(crate) fn call_traverse<D: Navigate>(d: &mut D, kind: Traversal) -> (ok: bool)
    requires
        kind.count() >= 1,
    ensures
        final(d).calls() == old(d).calls().push(Step { call: Call::Traverse(kind), accepted: ok }),
{
    let r = d.traverse(kind);
    r.is_some()
}

/// Records `peel_until`.
pub(crate) fn call_peel_until<D: Navigate>(d: &mut D, kind: PeelTo) -> (ok: bool)
    ensures
        final(d).calls() == old(d).calls().push(Step { call: Call::PeelUntil(peel_target(kind)), accepted: ok }),
{
    let r = d.peel_until(kind);
    r.is_some()
}

/// Records `find`.
pub(crate) fn call_find<D: Navigate>(d: &mut D, regex: &[u8], negated: bool) -> (ok: bool)
    requires
        regex@.len() > 0,
    ensures
        final(d).calls() == old(d).calls().push(Step { call: Call::Find(regex@, negated), accepted: ok }),
{
    let r = d.find(regex, negated);
    r.is_some()
}

} // verus!
