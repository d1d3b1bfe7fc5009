//! The grammar driver: reads a revision specification left to right and
//! issues the matching calls on a delegate, stopping at the first rejection.
use vstd::prelude::*;
use vstd::slice::slice_subrange;

use crate::ascii::{all_digits, decimal, eq_bytes, is_digit, parse_decimal};
use crate::delegate::{sibling_branch_of, Kind, Navigate, PeelTo, ReflogLookup, Relation, Revision, SiblingBranch, Traversal};
use crate::outside::{is_hex_prefix, object_kind_of, prefix_of, object_kind_from_bytes, parse_date, prefix_from_hex};
use crate::trace::{
    PeelTarget, appended, call_disambiguate_prefix, call_find, call_find_ref, call_kind, call_nth_checked_out_branch,
    call_peel_until, call_reflog, call_sibling_branch, call_traverse, lemma_appended_refl, lemma_appended_step,
    lemma_appended_trans, Call, Step, all_accepted, call_allowed, rejected_last, sets_relation, well_formed,
};

verus! {

/// Why a specification could not be resolved.
#[derive(PartialEq, Eq, Structural, Debug, Clone, Copy)]
pub enum Error {
    /// The specification is empty.
    Empty,
    /// The delegate rejected a call.
    Rejected,
    /// A traversal or checkout count was `0`.
    ZeroCount,
    /// A message search was given no pattern.
    EmptyRegex,
    /// The relation between anchors was to be set a second time.
    RelationSetTwice,
    /// `^{...}` named no object kind.
    InvalidObjectKind,
    /// `@{...}` held text that is no date.
    InvalidDate,
    /// A count does not fit in `usize`.
    InvalidNumber,
    /// A `{` was not closed.
    UnclosedBrace,
    /// Text that the grammar does not allow at its position.
    Unexpected,
}

/// Whether `r` says that the delegate rejected a call.
pub open spec fn is_rejection<T>(r: Result<T, Error>) -> bool {
    r matches Err(Error::Rejected)
}

/// Whether a range operator `..` starts at `i`.
pub open spec fn range_at(s: Seq<u8>, i: int) -> bool {
    0 <= i && i + 1 < s.len() && s[i] == 46u8 && s[i + 1] == 46u8
}

/// Whether the name of a reference or object ends before `i`.
pub open spec fn name_stop(s: Seq<u8>, i: int) -> bool {
    ||| s[i] == 126u8
    ||| s[i] == 94u8
    ||| s[i] == 58u8
    ||| (s[i] == 64u8 && i + 1 < s.len() && s[i + 1] == 123u8)
    ||| range_at(s, i)
}

/// Whether `s[from..to]` is a name, not `@`, and what follows it, if
/// anything, is a navigation or a range operator.
pub open spec fn name_up_to(s: Seq<u8>, from: int, to: int) -> bool {
    &&& 0 <= from < to <= s.len()
    &&& forall|i: int| from <= i < to ==> !name_stop(s, i)
    &&& to == s.len() || (name_stop(s, to) && s[to] != 64u8)
    &&& s.subrange(from, to) != seq![64u8]
}

/// The call that sets the anchor named `name`: an object-id prefix when it is
/// spelled like one, else a reference.
pub open spec fn anchor_call(name: Seq<u8>) -> Call {
    if is_hex_prefix(name) {
        Call::DisambiguatePrefix(prefix_of(name))
    } else {
        Call::FindRef(name)
    }
}

/// Whether a range operator `..` starts at `i`.
fn is_range_at(s: &[u8], i: usize) -> (r: bool)
    ensures
        r == range_at(s@, i as int),
{
    i < s.len() && s.len() - i >= 2 && s[i] == 46u8 && s[i + 1] == 46u8
}

/// The end of the name that starts at `from`.
fn name_end(s: &[u8], from: usize) -> (r: usize)
    requires
        from <= s@.len(),
    ensures
        from <= r <= s@.len(),
        r < s@.len() ==> name_stop(s@, r as int),
        forall|i: int| from <= i < r ==> !name_stop(s@, i),
        r == name_end_at(s@, from as int),
{
    let mut i = from;
    while i < s.len()
        invariant
            from <= i <= s@.len(),
            forall|k: int| from <= k < i ==> !name_stop(s@, k),
        decreases s@.len() - i,
    {
        let b = s[i];
        if b == 126u8 || b == 94u8 || b == 58u8 || (b == 64u8 && i + 1 < s.len() && s[i + 1] == 123u8)
            || is_range_at(s, i) {
            proof {
                lemma_name_end(s@, from as int, i as int);
            }
            return i;
        }
        i = i + 1;
    }
    proof {
        lemma_name_end(s@, from as int, i as int);
    }
    i
}

/// The first position at or after `from` that holds `b`.
fn find_byte(s: &[u8], from: usize, b: u8) -> (r: Option<usize>)
    requires
        from <= s@.len(),
    ensures
        r matches Some(i) ==> from <= i < s@.len() && s@[i as int] == b,
        forall|k: int| from <= k < (if let Some(i) = r { i as int } else { s@.len() as int }) ==> s@[k] != b,
{
    let mut i = from;
    while i < s.len()
        invariant
            from <= i <= s@.len(),
            forall|k: int| from <= k < i ==> s@[k] != b,
        decreases s@.len() - i,
    {
        if s[i] == b {
            return Some(i);
        }
        i = i + 1;
    }
    None
}

/// The end of the run of decimal digits that starts at `from`.
pub open spec fn digit_run(s: Seq<u8>, from: int) -> int
    decreases s.len() - from,
{
    if 0 <= from < s.len() && is_digit(s[from]) {
        digit_run(s, from + 1)
    } else {
        from
    }
}

/// The traversal that `~n` or `^n` at `p` asks for, with the position after
/// it; an absent count is `1`. `None` when no traversal starts at `p` or its
/// count is `0` or does not fit in `usize`.
pub open spec fn step_at(s: Seq<u8>, p: int) -> Option<(Traversal, int)> {
    if 0 <= p < s.len() && (s[p] == 126u8 || (s[p] == 94u8 && !(p + 1 < s.len() && s[p + 1] == 123u8))) {
        let q = digit_run(s, p + 1);
        let n = if q == p + 1 {
            1
        } else {
            decimal(s.subrange(p + 1, q))
        };
        if 1 <= n <= usize::MAX {
            Some(
                (
                    if s[p] == 126u8 {
                        Traversal::NthAncestor(n as usize)
                    } else {
                        Traversal::NthParent(n as usize)
                    },
                    q,
                ),
            )
        } else {
            None
        }
    } else {
        None
    }
}

/// Whether a traversal with an explicit count of zero (`~0`, `^00`, ...)
/// starts at `p`.
pub open spec fn zero_step_at(s: Seq<u8>, p: int) -> bool {
    let q = digit_run(s, p + 1);
    &&& 0 <= p < s.len()
    &&& s[p] == 126u8 || (s[p] == 94u8 && !(p + 1 < s.len() && s[p + 1] == 123u8))
    &&& q > p + 1
    &&& decimal(s.subrange(p + 1, q)) == 0
}

/// Whether `s` is a name ending at `e` followed by a traversal with a count of
/// zero.
pub open spec fn name_then_zero_step(s: Seq<u8>, e: int) -> bool {
    name_up_to(s, 0, e) && zero_step_at(s, e)
}

/// The outcome of a name, set by the call `c`, followed by a zero count: the
/// one call, and the count refused when the call was accepted.
pub open spec fn zero_outcome(c: Call, t: Seq<Step>, r: Result<Relation, Error>) -> bool {
    &&& t == seq![Step { call: c, accepted: r == Err::<Relation, Error>(Error::ZeroCount) }]
    &&& r == Err::<Relation, Error>(Error::ZeroCount) || r == Err::<Relation, Error>(Error::Rejected)
}

/// The call that the navigation at `p` makes, when the driver accepts it by
/// itself (`nav_next(s, p) is Some`).
pub open spec fn nav_call(s: Seq<u8>, p: int) -> Call {
    if step_at(s, p) is Some {
        Call::Traverse(step_at(s, p)->Some_0.0)
    } else if s[p] == 58u8 {
        Call::PeelUntil(PeelTarget::Path(s.subrange(p + 1, s.len() as int)))
    } else {
        let c = close_of(s, p + 1)->Some_0;
        let content = s.subrange(p + 2, c);
        if content.len() > 0 && content[0] == 47u8 {
            Call::Find(search_of(s, p + 3, c)->Ok_0.0, search_of(s, p + 3, c)->Ok_0.1)
        } else if content.len() == 0 {
            Call::PeelUntil(PeelTarget::RecursiveTagObject)
        } else if content == seq![111u8, 98u8, 106u8, 101u8, 99u8, 116u8] {
            Call::PeelUntil(PeelTarget::ExistingObject)
        } else {
            Call::PeelUntil(PeelTarget::ObjectKind(object_kind_of(content)->Some_0))
        }
    }
}

/// The calls of the navigations that follow one another in `s` from `p` up
/// to the end of the text or a range operator, with the position where they
/// stop; `None` when the driver refuses one of them by itself.
pub open spec fn steps_from(s: Seq<u8>, p: int) -> Option<(Seq<Call>, int)>
    decreases s.len() - p,
{
    if p >= s.len() || range_at(s, p) {
        Some((Seq::empty(), p))
    } else {
        match nav_next(s, p) {
            Some(q) => if p < q <= s.len() {
                match steps_from(s, q) {
                    Some((cs, end)) => Some((seq![nav_call(s, p)] + cs, end)),
                    None => None,
                }
            } else {
                None
            },
            None => None,
        }
    }
}

/// A chain of navigations stops between where it starts and the end of the text.
proof fn lemma_steps_bounds(s: Seq<u8>, p: int)
    requires
        0 <= p <= s.len(),
        steps_from(s, p) is Some,
    ensures
        p <= steps_from(s, p)->Some_0.1 <= s.len(),
    decreases s.len() - p,
{
    if !(p >= s.len() || range_at(s, p)) {
        let q = nav_next(s, p)->Some_0;
        lemma_steps_bounds(s, q);
    }
}

proof fn lemma_digit_run(s: Seq<u8>, from: int, r: int)
    requires
        0 <= from <= r <= s.len(),
        r < s.len() ==> !is_digit(s[r]),
        forall|k: int| from <= k < r ==> is_digit(s[k]),
    ensures
        digit_run(s, from) == r,
    decreases r - from,
{
    if from < r {
        lemma_digit_run(s, from + 1, r);
    }
}

fn digits_end(s: &[u8], from: usize) -> (r: usize)
    requires
        from <= s@.len(),
    ensures
        from <= r <= s@.len(),
        r < s@.len() ==> !is_digit(s@[r as int]),
        forall|k: int| from <= k < r ==> is_digit(s@[k]),
        r == digit_run(s@, from as int),
{
    let mut i = from;
    while i < s.len()
        invariant
            from <= i <= s@.len(),
            forall|k: int| from <= k < i ==> is_digit(s@[k]),
        decreases s@.len() - i,
    {
        if s[i] < 48 || s[i] > 57 {
            proof {
                lemma_digit_run(s@, from as int, i as int);
            }
            return i;
        }
        i = i + 1;
    }
    proof {
        lemma_digit_run(s@, from as int, i as int);
    }
    i
}

/// Whether a message search `:/` starts at `p`.
pub open spec fn starts_search(s: Seq<u8>, p: int) -> bool {
    0 <= p && p + 1 < s.len() && s[p] == 58u8 && s[p + 1] == 47u8
}

/// A search pattern and its negation, or why there is none.
pub open spec fn pattern_of(p: Seq<u8>, negated: bool) -> Result<(Seq<u8>, bool), Error> {
    if p.len() == 0 {
        Err(Error::EmptyRegex)
    } else {
        Ok((p, negated))
    }
}

/// The search that the text `s[from..to]` asks for: a leading `!-` negates
/// it, `!!` stands for a literal `!`, any other leading `!` is reserved, and
/// the pattern must not be empty.
pub open spec fn search_of(s: Seq<u8>, from: int, to: int) -> Result<(Seq<u8>, bool), Error> {
    if to - from >= 1 && s[from] == 33u8 {
        if to - from >= 2 && s[from + 1] == 45u8 {
            pattern_of(s.subrange(from + 2, to), true)
        } else if to - from >= 2 && s[from + 1] == 33u8 {
            pattern_of(s.subrange(from + 1, to), false)
        } else {
            Err(Error::Unexpected)
        }
    } else {
        pattern_of(s.subrange(from, to), false)
    }
}

/// The outcome of a search asked for as `found`: without a pattern, its error
/// and no call; else one `find` call, and `done` when it was accepted.
pub open spec fn searched<T>(
    found: Result<(Seq<u8>, bool), Error>,
    old: Seq<Step>,
    new: Seq<Step>,
    r: Result<T, Error>,
    done: T,
) -> bool {
    match found {
        Err(e) => r == Err::<T, Error>(e) && new == old,
        Ok((p, negated)) => {
            &&& new == old.push(Step { call: Call::Find(p, negated), accepted: r is Ok })
            &&& r is Ok ==> r == Ok::<T, Error>(done)
            &&& r is Err ==> r == Err::<T, Error>(Error::Rejected)
        },
    }
}

/// Searches commit messages for the pattern in `s[from..to]`. A leading
/// `!-` negates the search, a leading `!!` stands for a literal `!`, and any
/// other leading `!` is reserved.
fn message_search<D: Navigate>(s: &[u8], from: usize, to: usize, d: &mut D) -> (r:
    Result<(), Error>)
    requires
        from <= to <= s@.len(),
    ensures
        appended(old(d).calls(), final(d).calls(), is_rejection(r)),
        !(r matches Err(Error::RelationSetTwice)),
        r is Ok ==> final(d).calls().len() == old(d).calls().len() + 1,
        searched(search_of(s@, from as int, to as int), old(d).calls(), final(d).calls(), r, ()),
{
    let ghost t0 = d.calls();
    proof {
        lemma_appended_refl(t0);
    }
    let mut start = from;
    let mut negated = false;
    if to - from >= 1 && s[from] == 33u8 {
        if to - from >= 2 && s[from + 1] == 45u8 {
            negated = true;
            start = from + 2;
        } else if to - from >= 2 && s[from + 1] == 33u8 {
            start = from + 1;
        } else {
            return Err(Error::Unexpected);
        }
    }
    if start == to {
        return Err(Error::EmptyRegex);
    }
    let regex = slice_subrange(s, start, to);
    let ok = call_find(d, regex, negated);
    proof {
        lemma_appended_step(t0, Step { call: Call::Find(regex@, negated), accepted: ok });
    }
    if ok {
        Ok(())
    } else {
        Err(Error::Rejected)
    }
}

/// Whether the `{` at `open` is closed by the `}` at `c`, the first after it.
pub open spec fn closes_at(s: Seq<u8>, open: int, c: int) -> bool {
    &&& 0 <= open < c < s.len()
    &&& s[c] == 125u8
    &&& forall|i: int| open < i < c ==> s[i] != 125u8
}

/// The call that `@{content}` asks for, or the error it makes; `named` says
/// whether a name came before the `@`. `None` for a date, whose value the
/// clock decides.
pub open spec fn brace_call(content: Seq<u8>, named: bool) -> Option<Result<Call, Error>> {
    if content.len() == 0 {
        Some(Err(Error::Unexpected))
    } else if digit_run(content, 0) == content.len() {
        if decimal(content) <= usize::MAX {
            Some(Ok(Call::Reflog(ReflogLookup::Entry(decimal(content) as usize))))
        } else {
            Some(Err(Error::InvalidNumber))
        }
    } else if content[0] == 45u8 {
        let rest = content.subrange(1, content.len() as int);
        if named {
            Some(Err(Error::Unexpected))
        } else if !(rest.len() > 0 && all_digits(rest) && decimal(rest) <= usize::MAX) {
            Some(Err(Error::InvalidNumber))
        } else if decimal(rest) == 0 {
            Some(Err(Error::ZeroCount))
        } else {
            Some(Ok(Call::NthCheckedOutBranch(decimal(rest) as usize)))
        }
    } else {
        match sibling_branch_of(content) {
            Some(k) => Some(Ok(Call::SiblingBranch(k))),
            None => None,
        }
    }
}

/// The outcome of one step asked for as `asked`: on an error, that error and
/// no call; else the call, and `done` when it was accepted.
pub open spec fn one_call<T>(asked: Result<Call, Error>, old: Seq<Step>, new: Seq<Step>, r: Result<T, Error>, done: T) -> bool {
    match asked {
        Err(e) => r == Err::<T, Error>(e) && new == old,
        Ok(c) => {
            &&& new == old.push(Step { call: c, accepted: r is Ok })
            &&& r is Ok ==> r == Ok::<T, Error>(done)
            &&& r is Err ==> r == Err::<T, Error>(Error::Rejected)
        },
    }
}

/// Whether `@{...}` without a name before it starts at `pos`, closed at `c`,
/// and asks for a call or an error fixed by the text.
pub open spec fn unnamed_braces(s: Seq<u8>, pos: int, c: int) -> bool {
    &&& 0 <= pos && pos + 1 < s.len()
    &&& s[pos] == 64u8
    &&& s[pos + 1] == 123u8
    &&& closes_at(s, pos + 1, c)
    &&& brace_call(s.subrange(pos + 2, c), false) is Some
}

/// Whether a name `s[pos..e]`, not `@`, followed by `@{...}` closed at `c`
/// starts at `pos`, and the braces ask for a call or an error fixed by the text.
pub open spec fn named_braces(s: Seq<u8>, pos: int, e: int, c: int) -> bool {
    &&& 0 <= pos < e && e + 1 < s.len()
    &&& forall|i: int| pos <= i < e ==> !name_stop(s, i)
    &&& s.subrange(pos, e) != seq![64u8]
    &&& s[e] == 64u8
    &&& s[e + 1] == 123u8
    &&& closes_at(s, e + 1, c)
    &&& brace_call(s.subrange(e + 2, c), true) is Some
}

/// The outcome of a name set by the call `anchor` and then a step asked for
/// as `asked`: the anchor's call first; when it was rejected, nothing more.
pub open spec fn anchored_call<T>(
    anchor: Call,
    asked: Result<Call, Error>,
    old: Seq<Step>,
    new: Seq<Step>,
    r: Result<T, Error>,
    done: T,
) -> bool {
    &&& new.len() > old.len()
    &&& new[old.len() as int].call == anchor
    &&& if new[old.len() as int].accepted {
        one_call(asked, old.push(Step { call: anchor, accepted: true }), new, r, done)
    } else {
        new == old.push(Step { call: anchor, accepted: false }) && r == Err::<T, Error>(Error::Rejected)
    }
}

/// What the `@{...}` of `unnamed_braces(s, pos, c)` asks for.
pub open spec fn braces_asked(s: Seq<u8>, pos: int, c: int) -> Result<Call, Error> {
    brace_call(s.subrange(pos + 2, c), false)->Some_0
}

/// Handles `{...}` after `@`, where `open` is the position of `{`; `named`
/// says whether a name came before the `@`. Returns the position after `}`.
fn at_braces<D: Revision>(s: &[u8], open: usize, named: bool, d: &mut D) -> (r:
    Result<usize, Error>)
    requires
        open < s@.len(),
        s@[open as int] == 123u8,
    ensures
        appended(old(d).calls(), final(d).calls(), is_rejection(r)),
        !(r matches Err(Error::RelationSetTwice)),
        r matches Ok(e) ==> open < e <= s@.len(),
        forall|c: int|
            #[trigger] closes_at(s@, open as int, c) && brace_call(s@.subrange(open + 1, c), named) is Some
                ==> one_call(
                brace_call(s@.subrange(open + 1, c), named)->Some_0,
                old(d).calls(),
                final(d).calls(),
                r,
                (c + 1) as usize,
            ),
        r matches Ok(e) ==> braces_next(s@, open as int, named) == Some(e as int),
{
    let ghost t0 = d.calls();
    proof {
        lemma_appended_refl(t0);
    }
    let len = s.len();
    let close = match find_byte(s, open + 1, 125u8) {
        Some(c) => c,
        None => {
            return Err(Error::UnclosedBrace);
        },
    };
    let content = slice_subrange(s, open + 1, close);
    proof {
        lemma_close_unique(s@, open as int, close as int);
        assert forall|c: int| #[trigger] closes_at(s@, open as int, c) implies c == close by {
            if c < close {
                assert(s@[c] == 125u8);
            }
            if c > close {
                assert(s@[close as int] == 125u8);
            }
        }
    }
    if content.len() == 0 {
        return Err(Error::Unexpected);
    }
    let ok;
    if digits_end(content, 0) == content.len() {
        let n = match parse_decimal(content) {
            Some(n) => n,
            None => {
                return Err(Error::InvalidNumber);
            },
        };
        ok = call_reflog(d, ReflogLookup::Entry(n));
        proof {
            lemma_appended_step(t0, Step { call: Call::Reflog(ReflogLookup::Entry(n)), accepted: ok });
        }
    } else if content[0] == 45u8 {
        if named {
            return Err(Error::Unexpected);
        }
        let n = match parse_decimal(slice_subrange(content, 1, content.len())) {
            Some(n) => n,
            None => {
                return Err(Error::InvalidNumber);
            },
        };
        if n == 0 {
            return Err(Error::ZeroCount);
        }
        ok = call_nth_checked_out_branch(d, n);
        proof {
            lemma_appended_step(t0, Step { call: Call::NthCheckedOutBranch(n), accepted: ok });
        }
    } else {
        match SiblingBranch::parse(content) {
            Some(kind) => {
                ok = call_sibling_branch(d, kind);
                proof {
                    lemma_appended_step(t0, Step { call: Call::SiblingBranch(kind), accepted: ok });
                }
            },
            None => {
                let time = match parse_date(content) {
                    Some(t) => t,
                    None => {
                        return Err(Error::InvalidDate);
                    },
                };
                ok = call_reflog(d, ReflogLookup::Date(time));
                proof {
                    lemma_appended_step(t0, Step { call: Call::Reflog(ReflogLookup::Date(time)), accepted: ok });
                }
            },
        }
    }
    if ok {
        assert(close < len);
        Ok(close + 1)
    } else {
        Err(Error::Rejected)
    }
}

/// The bytes of `HEAD`.
pub open spec fn word_head() -> Seq<u8> {
    seq![72u8, 69u8, 65u8, 68u8]
}

/// Sets the anchor by name: an object-id prefix when the name is four to
/// forty hexadecimal digits, `HEAD` for `@`, else a reference.
fn set_named_anchor<D: Revision>(name: &[u8], d: &mut D) -> (ok: bool)
    ensures
        appended(old(d).calls(), final(d).calls(), !ok),
        final(d).calls().len() == old(d).calls().len() + 1,
        name@ != seq![64u8] ==> final(d).calls() == old(d).calls().push(Step { call: anchor_call(name@), accepted: ok }),
{
    let ghost t0 = d.calls();
    let ok;
    if name.len() == 1 && name[0] == 64u8 {
        assert(name@ =~= seq![64u8]);
        let head: [u8; 4] = [72u8, 69u8, 65u8, 68u8];
        ok = call_find_ref(d, head.as_slice());
        proof {
            lemma_appended_step(t0, Step { call: Call::FindRef(head@), accepted: ok });
        }
    } else {
        match prefix_from_hex(name) {
            Some(prefix) => {
                ok = call_disambiguate_prefix(d, prefix);
                proof {
                    lemma_appended_step(t0, Step { call: Call::DisambiguatePrefix(prefix_of(name@)), accepted: ok });
                }
            },
            None => {
                ok = call_find_ref(d, name);
                proof {
                    lemma_appended_step(t0, Step { call: Call::FindRef(name@), accepted: ok });
                }
            },
        }
    }
    ok
}

/// Sets the anchor from the text at `pos`: a message search `:/...`, a
/// reflog or sibling lookup `@{...}` on `HEAD`, or a name optionally followed
/// by `@{...}`. Returns the position after the anchor.
fn parse_anchor<D: Revision + Navigate>(s: &[u8], pos: usize, d: &mut D) -> (r:
    Result<usize, Error>)
    requires
        pos < s@.len(),
    ensures
        appended(old(d).calls(), final(d).calls(), is_rejection(r)),
        !(r matches Err(Error::RelationSetTwice)),
        r matches Ok(e) ==> pos < e <= s@.len(),
        forall|e: int|
            #[trigger] name_up_to(s@, pos as int, e) ==> {
                &&& final(d).calls() == old(d).calls().push(
                    Step { call: anchor_call(s@.subrange(pos as int, e)), accepted: r is Ok },
                )
                &&& r is Ok ==> r == Ok::<usize, Error>(e as usize)
                &&& r is Err ==> r == Err::<usize, Error>(Error::Rejected)
            },
        starts_search(s@, pos as int) ==> searched(
            search_of(s@, pos + 2, s@.len() as int),
            old(d).calls(),
            final(d).calls(),
            r,
            s@.len() as usize,
        ),
        forall|c: int|
            #[trigger] unnamed_braces(s@, pos as int, c) ==> one_call(
                braces_asked(s@, pos as int, c),
                old(d).calls(),
                final(d).calls(),
                r,
                (c + 1) as usize,
            ),
        forall|e: int, c: int|
            #[trigger] named_braces(s@, pos as int, e, c) ==> anchored_call(
                anchor_call(s@.subrange(pos as int, e)),
                brace_call(s@.subrange(e + 2, c), true)->Some_0,
                old(d).calls(),
                final(d).calls(),
                r,
                (c + 1) as usize,
            ),
        r matches Ok(e) ==> anchor_next(s@, pos as int) == Some(e as int),
{
    let ghost t0 = d.calls();
    proof {
        lemma_appended_refl(t0);
    }
    let len = s.len();
    if s[pos] == 58u8 && pos + 1 < len && s[pos + 1] == 47u8 {
        assert(name_stop(s@, pos as int));
        return match message_search(s, pos + 2, len, d) {
            Ok(()) => Ok(len),
            Err(e) => Err(e),
        };
    }
    if s[pos] == 64u8 && pos + 1 < len && s[pos + 1] == 123u8 {
        assert(name_stop(s@, pos as int));
        return at_braces(s, pos + 1, false, d);
    }
    let end = name_end(s, pos);
    proof {
        assert forall|e: int, c: int| #[trigger] named_braces(s@, pos as int, e, c) implies end == e by {
            if end < e {
                assert(name_stop(s@, end as int));
            }
            if end > e {
                assert(name_stop(s@, e));
            }
        }
        assert forall|e: int| #[trigger] name_up_to(s@, pos as int, e) implies end == e by {
            if end < e {
                assert(name_stop(s@, end as int));
            }
            if end > e {
                assert(name_stop(s@, e));
            }
        }
    }
    if end == pos {
        return Err(Error::Unexpected);
    }
    let ok = set_named_anchor(slice_subrange(s, pos, end), d);
    if !ok {
        return Err(Error::Rejected);
    }
    if end < len && s[end] == 64u8 {
        let ghost t1 = d.calls();
        let r = at_braces(s, end + 1, true, d);
        proof {
            lemma_appended_trans(t0, t1, d.calls(), is_rejection(r));
        }
        return r;
    }
    Ok(end)
}

/// Reads an optional count after `~` or `^` at `at`; an absent count is `1`.
/// Returns the count and the position after it.
fn count_after(s: &[u8], at: usize) -> (r: Result<(usize, usize), Error>)
    requires
        at < s@.len(),
    ensures
        r matches Ok((n, e)) ==> n >= 1 && at < e <= s@.len(),
        r matches Err(e) ==> !(e is Rejected) && !(e is RelationSetTwice),
        ({
            let q = digit_run(s@, at + 1);
            let n = if q == at + 1 {
                1
            } else {
                decimal(s@.subrange(at + 1, q))
            };
            &&& r is Ok <==> 1 <= n <= usize::MAX
            &&& r matches Ok((m, e)) ==> m == n && e == q
            &&& n == 0 ==> r == Err::<(usize, usize), Error>(Error::ZeroCount)
        }),
{
    let len = s.len();
    let end = digits_end(s, at + 1);
    if end == at + 1 {
        return Ok((1, end));
    }
    match parse_decimal(slice_subrange(s, at + 1, end)) {
        Some(0) => Err(Error::ZeroCount),
        Some(n) => Ok((n, end)),
        None => Err(Error::InvalidNumber),
    }
}

/// Applies one navigation at `pos`: `~n`, `^n`, `^{...}` or `:path`.
/// Returns the position after it.
fn parse_navigation<D: Navigate>(s: &[u8], pos: usize, d: &mut D) -> (r: Result<
    usize,
    Error,
>)
    requires
        pos < s@.len(),
    ensures
        appended(old(d).calls(), final(d).calls(), is_rejection(r)),
        !(r matches Err(Error::RelationSetTwice)),
        r matches Ok(e) ==> pos < e <= s@.len(),
        step_at(s@, pos as int) matches Some((t, q)) ==> {
            &&& final(d).calls() == old(d).calls().push(Step { call: Call::Traverse(t), accepted: r is Ok })
            &&& r is Ok ==> r == Ok::<usize, Error>(q as usize)
            &&& r is Err ==> r == Err::<usize, Error>(Error::Rejected)
        },
        zero_step_at(s@, pos as int) ==> r == Err::<usize, Error>(Error::ZeroCount) && final(d).calls() == old(
            d,
        ).calls(),
        r matches Ok(e) ==> nav_next(s@, pos as int) == Some(e as int),
        nav_next(s@, pos as int) is Some ==> {
            &&& final(d).calls() == old(d).calls().push(Step { call: nav_call(s@, pos as int), accepted: r is Ok })
            &&& r is Err ==> r == Err::<usize, Error>(Error::Rejected)
        },
{
    let ghost t0 = d.calls();
    proof {
        lemma_appended_refl(t0);
    }
    let len = s.len();
    let b = s[pos];
    let ok;
    let next;
    if b == 126u8 || (b == 94u8 && !(pos + 1 < len && s[pos + 1] == 123u8)) {
        let (n, end) = match count_after(s, pos) {
            Ok(v) => v,
            Err(e) => {
                return Err(e);
            },
        };
        let step = if b == 126u8 {
            Traversal::NthAncestor(n)
        } else {
            Traversal::NthParent(n)
        };
        ok = call_traverse(d, step);
        proof {
            lemma_appended_step(t0, Step { call: Call::Traverse(step), accepted: ok });
        }
        next = end;
    } else if b == 94u8 {
        let close = match find_byte(s, pos + 2, 125u8) {
            Some(c) => c,
            None => {
                return Err(Error::UnclosedBrace);
            },
        };
        let content = slice_subrange(s, pos + 2, close);
        proof {
            lemma_close_unique(s@, pos + 1, close as int);
        }
        if content.len() > 0 && content[0] == 47u8 {
            let r = message_search(s, pos + 3, close, d);
            return match r {
                Ok(()) => Ok(close + 1),
                Err(e) => Err(e),
            };
        }
        let object: [u8; 6] = [111u8, 98u8, 106u8, 101u8, 99u8, 116u8];
        assert(object@ =~= seq![111u8, 98u8, 106u8, 101u8, 99u8, 116u8]);
        let target = if content.len() == 0 {
            PeelTo::RecursiveTagObject
        } else if eq_bytes(content, object.as_slice()) {
            PeelTo::ExistingObject
        } else {
            match object_kind_from_bytes(content) {
                Some(k) => PeelTo::ObjectKind(k),
                None => {
                    return Err(Error::InvalidObjectKind);
                },
            }
        };
        ok = call_peel_until(d, target);
        proof {
            lemma_appended_step(t0, Step { call: Call::PeelUntil(crate::trace::peel_target(target)), accepted: ok });
        }
        next = close + 1;
    } else if b == 58u8 {
        let path = slice_subrange(s, pos + 1, len);
        let target = PeelTo::Path(path);
        ok = call_peel_until(d, target);
        proof {
            lemma_appended_step(t0, Step { call: Call::PeelUntil(crate::trace::peel_target(target)), accepted: ok });
        }
        next = len;
    } else {
        return Err(Error::Unexpected);
    }
    if ok {
        Ok(next)
    } else {
        Err(Error::Rejected)
    }
}

/// Resolves one revision starting at `pos`: an anchor and the navigations
/// after it, up to the end of the text or a range operator. Returns where it
/// stopped.
fn parse_revision<D: Revision + Navigate>(s: &[u8], pos: usize, d: &mut D) -> (r:
    Result<usize, Error>)
    requires
        pos < s@.len(),
    ensures
        appended(old(d).calls(), final(d).calls(), is_rejection(r)),
        !(r matches Err(Error::RelationSetTwice)),
        r matches Ok(e) ==> pos < e <= s@.len() && (e == s@.len() || range_at(s@, e as int)),
        forall|e: int|
            #[trigger] name_up_to(s@, pos as int, e) && steps_from(s@, e) is Some ==> revision_outcome(
                revision_end(s@, e),
                revision_calls(s@, pos as int, e),
                old(d).calls(),
                final(d).calls(),
                r,
            ),
        starts_search(s@, pos as int) ==> searched(
            search_of(s@, pos + 2, s@.len() as int),
            old(d).calls(),
            final(d).calls(),
            r,
            s@.len() as usize,
        ),
        forall|e: int|
            #[trigger] name_up_to(s@, pos as int, e) && zero_step_at(s@, e) ==> {
                &&& final(d).calls() == old(d).calls().push(
                    Step {
                        call: anchor_call(s@.subrange(pos as int, e)),
                        accepted: r == Err::<usize, Error>(Error::ZeroCount),
                    },
                )
                &&& r == Err::<usize, Error>(Error::ZeroCount) || r == Err::<usize, Error>(Error::Rejected)
            },
        forall|c: int|
            #[trigger] unnamed_braces(s@, pos as int, c) && c + 1 == s@.len() ==> one_call(
                braces_asked(s@, pos as int, c),
                old(d).calls(),
                final(d).calls(),
                r,
                s@.len() as usize,
            ),
        forall|e: int, c: int|
            #[trigger] named_braces(s@, pos as int, e, c) && c + 1 == s@.len() ==> anchored_call(
                anchor_call(s@.subrange(pos as int, e)),
                brace_call(s@.subrange(e + 2, c), true)->Some_0,
                old(d).calls(),
                final(d).calls(),
                r,
                s@.len() as usize,
            ),
        r matches Ok(e) ==> rev_ok(s@, pos as int, e as int),
{
    let ghost t0 = d.calls();
    let ghost mut k: int = 0;
    let len = s.len();
    let anchored = parse_anchor(s, pos, d);
    proof {
        assert forall|e: int| #[trigger] name_up_to(s@, pos as int, e) && steps_from(s@, e) is Some implies {
            let planned = revision_calls(s@, pos as int, e);
            &&& d.calls().len() == t0.len() + 1
            &&& d.calls()[t0.len() as int].call == planned[0]
            &&& 1 <= planned.len()
        } by {}
    }
    let mut at = match anchored {
        Ok(e) => e,
        Err(e) => {
            return Err(e);
        },
    };
    proof {
        assert forall|e: int| #[trigger] name_up_to(s@, pos as int, e) && steps_from(s@, e) is Some implies steps_from(
            s@,
            at as int,
        ) == Some((steps_from(s@, e)->Some_0.0.skip(0), revision_end(s@, e))) by {
            assert(steps_from(s@, e)->Some_0.0.skip(0) =~= steps_from(s@, e)->Some_0.0);
        }
    }
    let ghost t_a = d.calls();
    let ghost a0: int = at as int;
    while at < len && !is_range_at(s, at)
        invariant
            forall|e: int|
                #[trigger] name_up_to(s@, pos as int, e) && zero_step_at(s@, e) ==> at == e && d.calls() == t0.push(
                    Step { call: anchor_call(s@.subrange(pos as int, e)), accepted: true },
                ),
            forall|c: int|
                #[trigger] unnamed_braces(s@, pos as int, c) && c + 1 == s@.len() ==> at == s@.len() && d.calls()
                    == t_a && one_call(braces_asked(s@, pos as int, c), t0, t_a, anchored, s@.len() as usize),
            forall|e: int, c: int|
                #[trigger] named_braces(s@, pos as int, e, c) && c + 1 == s@.len() ==> at == s@.len() && d.calls()
                    == t_a && anchored_call(
                    anchor_call(s@.subrange(pos as int, e)),
                    brace_call(s@.subrange(e + 2, c), true)->Some_0,
                    t0,
                    t_a,
                    anchored,
                    s@.len() as usize,
                ),
            anchor_next(s@, pos as int) == Some(a0),
            forall|e: int| #[trigger] navs_ok(s@, at as int, e) ==> navs_ok(s@, a0, e),
            starts_search(s@, pos as int) ==> at == s@.len() && d.calls() == t_a && searched(
                search_of(s@, pos + 2, s@.len() as int),
                t0,
                t_a,
                anchored,
                s@.len() as usize,
            ),
            pos < at <= s@.len(),
            len == s@.len(),
            t0 == old(d).calls(),
            appended(t0, d.calls(), false),
            forall|e: int|
                #[trigger] name_up_to(s@, pos as int, e) && steps_from(s@, e) is Some ==> revision_progress(
                    s@,
                    e,
                    revision_calls(s@, pos as int, e),
                    t0,
                    d.calls(),
                    at as int,
                    k,
                ),
        decreases s@.len() - at,
    {
        let ghost at0: int = at as int;
        let ghost t1 = d.calls();
        let r = parse_navigation(s, at, d);
        proof {
            lemma_appended_trans(t0, t1, d.calls(), is_rejection(r));
            assert forall|e: int| #[trigger] name_up_to(s@, pos as int, e) && steps_from(s@, e) is Some implies {
                let ts = steps_from(s@, e)->Some_0.0;
                let planned = revision_calls(s@, pos as int, e);
                &&& k + 1 < planned.len()
                &&& forall|i: int|
                    t0.len() <= i < d.calls().len() ==> (#[trigger] d.calls()[i]).call == planned[i - t0.len()]
                &&& r is Ok ==> steps_from(s@, r->Ok_0 as int) == Some((ts.skip(k + 1), revision_end(s@, e)))
                &&& r is Err ==> r == Err::<usize, Error>(Error::Rejected)
            } by {
                let ts = steps_from(s@, e)->Some_0.0;
                let planned = revision_calls(s@, pos as int, e);
                let rest = ts.skip(k);
                assert(rest.len() > 0);
                assert(rest[0] == ts[k]);
                assert(planned[k + 1] == nav_call(s@, at0));
                assert(ts.skip(k + 1) =~= rest.skip(1));
                assert(d.calls().len() == t1.len() + 1);
                assert forall|i: int| t0.len() <= i < d.calls().len() implies (#[trigger] d.calls()[i]).call == planned[i
                    - t0.len()] by {
                    if i < t1.len() {
                        assert(d.calls()[i] == t1[i]);
                    }
                }
            }
            k = k + 1;
        }
        proof {
            if let Ok(q) = r {
                assert forall|e: int| #[trigger] navs_ok(s@, q as int, e) implies navs_ok(s@, at0, e) by {
                    assert(q <= e);
                }
            }
        }
        match r {
            Ok(e) => {
                at = e;
            },
            Err(e) => {
                return Err(e);
            },
        }
    }
    assert(navs_ok(s@, at as int, at as int));
    Ok(at)
}

/// What the driver promises of the calls it made, whatever the delegate
/// answered: each call had arguments the protocol allows (counts of at least
/// one, non-empty search patterns, never `Single` as a relation), the relation
/// was set at most once, and the parse stopped at the first rejection.
pub open spec fn faithful(t: Seq<Step>, r: Result<Relation, Error>) -> bool {
    &&& well_formed(t)
    &&& if is_rejection(r) {
        rejected_last(t)
    } else {
        all_accepted(t)
    }
    &&& r matches Ok(k) ==> (if sets_relation(t) {
        exists|i: int| 0 <= i < t.len() && #[trigger] t[i] == Step { call: Call::Kind(k), accepted: true }
    } else {
        k is Single
    })
    &&& r matches Err(Error::RelationSetTwice) ==> sets_relation(t)
}

/// Every call in `t` had allowed arguments, none but the one at `kind_at` set
/// the relation, and either all were accepted or, when `rejected`, all but the
/// last.
pub open spec fn settled(t: Seq<Step>, kind_at: int, rejected: bool) -> bool {
    &&& forall|i: int| 0 <= i < t.len() ==> call_allowed((#[trigger] t[i]).call)
    &&& forall|i: int| 0 <= i < t.len() && i != kind_at ==> !(#[trigger] t[i].call is Kind)
    &&& if rejected {
        t.len() > 0 && !t.last().accepted && forall|i: int| 0 <= i < t.len() - 1 ==> (#[trigger] t[i]).accepted
    } else {
        forall|i: int| 0 <= i < t.len() ==> (#[trigger] t[i]).accepted
    }
}

/// Appending to a settled trace whose calls were all accepted keeps it settled.
proof fn lemma_settled_extend(a: Seq<Step>, b: Seq<Step>, kind_at: int, rejected: bool)
    requires
        settled(a, kind_at, false),
        kind_at < a.len(),
        appended(a, b, rejected),
    ensures
        settled(b, kind_at, rejected),
        0 <= kind_at ==> b[kind_at] == a[kind_at],
{
    assert forall|i: int| 0 <= i < a.len() implies #[trigger] b[i] == a[i] by {
        assert(b.subrange(0, a.len() as int)[i] == b[i]);
    }
    assert forall|i: int| 0 <= i < b.len() implies call_allowed((#[trigger] b[i]).call) by {
        if i < a.len() {
            assert(b[i] == a[i]);
        }
    }
    assert forall|i: int| 0 <= i < b.len() && i != kind_at implies !(#[trigger] b[i].call is Kind) by {
        if i < a.len() {
            assert(b[i] == a[i]);
        }
    }
    if rejected {
        assert forall|i: int| 0 <= i < b.len() - 1 implies (#[trigger] b[i]).accepted by {
            if i < a.len() {
                assert(b[i] == a[i]);
            }
        }
    } else {
        assert forall|i: int| 0 <= i < b.len() implies (#[trigger] b[i]).accepted by {
            if i < a.len() {
                assert(b[i] == a[i]);
            }
        }
    }
}

/// Appending the relation call to a settled trace without one keeps it settled.
proof fn lemma_settled_kind(t: Seq<Step>, step: Step)
    requires
        settled(t, -1, false),
        call_allowed(step.call),
        step.call is Kind,
    ensures
        settled(t.push(step), t.len() as int, !step.accepted),
        t.push(step)[t.len() as int] == step,
{
    let u = t.push(step);
    assert forall|i: int| 0 <= i < t.len() implies #[trigger] u[i] == t[i] by {}
    assert forall|i: int| 0 <= i < u.len() implies call_allowed((#[trigger] u[i]).call) by {
        if i < t.len() {
            assert(u[i] == t[i]);
        }
    }
    assert forall|i: int| 0 <= i < u.len() && i != t.len() implies !(#[trigger] u[i].call is Kind) by {
        assert(u[i] == t[i]);
    }
    if !step.accepted {
        assert forall|i: int| 0 <= i < u.len() - 1 implies (#[trigger] u[i]).accepted by {
            assert(u[i] == t[i]);
        }
    } else {
        assert forall|i: int| 0 <= i < u.len() implies (#[trigger] u[i]).accepted by {
            if i < t.len() {
                assert(u[i] == t[i]);
            }
        }
    }
}

/// A settled trace, with the single relation call of the parse (if any) at
/// `kind_at`, is faithful.
proof fn lemma_faithful(t: Seq<Step>, kind_at: int, r: Result<Relation, Error>)
    requires
        settled(t, kind_at, is_rejection(r)),
        r matches Ok(k) ==> (if 0 <= kind_at < t.len() {
            t[kind_at] == Step { call: Call::Kind(k), accepted: true }
        } else {
            k is Single
        }),
        r matches Err(Error::RelationSetTwice) ==> 0 <= kind_at < t.len() && t[kind_at].call is Kind,
    ensures
        faithful(t, r),
{
    if is_rejection(r) {
        assert forall|i: int| 0 <= i < t.drop_last().len() implies (#[trigger] t.drop_last()[i]).accepted by {
            assert(t.drop_last()[i] == t[i]);
        }
    }
    if let Ok(k) = r {
        if 0 <= kind_at < t.len() {
            assert(t[kind_at].call is Kind);
        } else {
            assert(!sets_relation(t));
        }
    }
}

/// The calls that resolve the revision at `from`: a name up to `e` followed
/// by navigations.
pub open spec fn revision_calls(s: Seq<u8>, from: int, e: int) -> Seq<Call> {
    seq![anchor_call(s.subrange(from, e))] + steps_from(s, e)->Some_0.0
}

/// Where the navigations after a name that ends at `e` stop.
pub open spec fn revision_end(s: Seq<u8>, e: int) -> int {
    steps_from(s, e)->Some_0.1
}

/// The calls in `new` after `old` follow `planned`: at least one, and no more.
pub open spec fn follows_plan(old: Seq<Step>, new: Seq<Step>, planned: Seq<Call>) -> bool {
    &&& 1 <= new.len() - old.len() <= planned.len()
    &&& forall|i: int| old.len() <= i < new.len() ==> (#[trigger] new[i]).call == planned[i - old.len()]
}

/// The calls that turned `old` into `new` follow `planned`, all of them when
/// `r` succeeds, which it does at `end`; otherwise a call was rejected.
pub open spec fn revision_outcome(
    end: int,
    planned: Seq<Call>,
    old: Seq<Step>,
    new: Seq<Step>,
    r: Result<usize, Error>,
) -> bool {
    &&& follows_plan(old, new, planned)
    &&& r is Ok ==> new.len() - old.len() == planned.len()
    &&& r is Ok ==> r == Ok::<usize, Error>(end as usize)
    &&& r is Err ==> r == Err::<usize, Error>(Error::Rejected)
}

/// `k` navigations of the revision whose name ends at `e` have been made and
/// `at` is where the others start.
pub open spec fn revision_progress(
    s: Seq<u8>,
    e: int,
    planned: Seq<Call>,
    t0: Seq<Step>,
    t: Seq<Step>,
    at: int,
    k: int,
) -> bool {
    &&& 0 <= k < planned.len()
    &&& steps_from(s, at) == Some((steps_from(s, e)->Some_0.0.skip(k), revision_end(s, e)))
    &&& t.len() == t0.len() + 1 + k
    &&& follows_plan(t0, t, planned)
}

/// Whether `s` is one revision: a name up to `e` and navigations up to its end.
pub open spec fn single_revision(s: Seq<u8>, e: int) -> bool {
    &&& name_up_to(s, 0, e)
    &&& steps_from(s, e) is Some
    &&& revision_end(s, e) == s.len()
}

/// The relation that the range operator at `m` sets, and where the text after
/// it starts: `...` is a merge base, `..` a range.
pub open spec fn range_split(s: Seq<u8>, m: int) -> (Relation, int) {
    if m + 2 < s.len() && s[m + 2] == 46u8 {
        (Relation::MergeBase, m + 3)
    } else {
        (Relation::Range, m + 2)
    }
}

/// Whether `s` starts with two revisions joined by a range operator, each a
/// name (ending at `e1` and `e2`) followed by navigations; after the second
/// comes the end of the text or another range operator.
pub open spec fn revision_range(s: Seq<u8>, e1: int, e2: int) -> bool {
    let m = revision_end(s, e1);
    &&& name_up_to(s, 0, e1)
    &&& steps_from(s, e1) is Some
    &&& m < s.len()
    &&& name_up_to(s, range_split(s, m).1, e2)
    &&& steps_from(s, e2) is Some
}

/// The calls that resolve the range `s` of `revision_range(s, e1, e2)`.
pub open spec fn range_plan(s: Seq<u8>, e1: int, e2: int) -> Seq<Call> {
    let split = range_split(s, revision_end(s, e1));
    revision_calls(s, 0, e1) + seq![Call::Kind(split.0)] + revision_calls(s, split.1, e2)
}

/// A range parse whose calls follow `planned`: all of them, with the relation
/// `k`, on success, which comes only when the text `ends` after them; all of
/// them and a refused second relation when it does not; else up to the
/// rejected one.
pub open spec fn range_outcome(
    planned: Seq<Call>,
    k: Relation,
    ends: bool,
    t: Seq<Step>,
    r: Result<Relation, Error>,
) -> bool {
    &&& follows_plan(Seq::empty(), t, planned)
    &&& r is Ok ==> ends && t.len() == planned.len() && r == Ok::<Relation, Error>(k)
    &&& r is Err ==> r == Err::<Relation, Error>(Error::Rejected) || (!ends && t.len() == planned.len() && r
        == Err::<Relation, Error>(Error::RelationSetTwice))
}

/// Whether `s` is `^` and then a name ending at `e` followed by navigations.
pub open spec fn excluded_revision(s: Seq<u8>, e: int) -> bool {
    &&& s.len() > 1
    &&& s[0] == 94u8
    &&& name_up_to(s, 1, e)
    &&& steps_from(s, e) is Some
}

/// The calls that resolve `^rev`: the relation first, then the revision.
pub open spec fn excluded_plan(s: Seq<u8>, e: int) -> Seq<Call> {
    seq![Call::Kind(Relation::Range)] + revision_calls(s, 1, e)
}

/// A parse whose calls follow `planned`: all of them on success, with the
/// relation `k`; else up to the rejected one.
pub open spec fn planned_outcome(planned: Seq<Call>, k: Relation, t: Seq<Step>, r: Result<Relation, Error>) -> bool {
    &&& follows_plan(Seq::empty(), t, planned)
    &&& r is Ok ==> t.len() == planned.len() && r == Ok::<Relation, Error>(k)
    &&& r is Err ==> r == Err::<Relation, Error>(Error::Rejected)
}

proof fn lemma_plan_prefix(t: Seq<Step>, a: Seq<Call>, b: Seq<Call>)
    requires
        follows_plan(Seq::empty(), t, a),
    ensures
        follows_plan(Seq::empty(), t, a + b),
{
    assert forall|i: int| 0 <= i < t.len() implies (#[trigger] t[i]).call == (a + b)[i] by {
        assert((a + b)[i] == a[i]);
    }
}

proof fn lemma_plan_push(t: Seq<Step>, a: Seq<Call>, step: Step)
    requires
        follows_plan(Seq::empty(), t, a),
        t.len() == a.len(),
    ensures
        follows_plan(Seq::empty(), t.push(step), a + seq![step.call]),
{
    assert(a.push(step.call) =~= a + seq![step.call]);
    assert forall|i: int| 0 <= i < t.len() + 1 implies (#[trigger] t.push(step)[i]).call == a.push(step.call)[i] by {
        if i < t.len() {
            assert(t.push(step)[i] == t[i]);
        }
    }
}

proof fn lemma_plan_concat(t0: Seq<Step>, t: Seq<Step>, a: Seq<Call>, b: Seq<Call>)
    requires
        follows_plan(Seq::empty(), t0, a),
        t0.len() == a.len(),
        follows_plan(t0, t, b),
        t.len() >= t0.len(),
        t.subrange(0, t0.len() as int) == t0,
    ensures
        follows_plan(Seq::empty(), t, a + b),
{
    assert forall|i: int| 0 <= i < t.len() implies (#[trigger] t[i]).call == (a + b)[i] by {
        if i < t0.len() {
            assert(t[i] == t.subrange(0, t0.len() as int)[i]);
        }
    }
}

/// Resolves the side of a range that is empty in the text to `HEAD`.
fn set_head<D: Revision>(d: &mut D) -> (ok: bool)
    ensures
        appended(old(d).calls(), final(d).calls(), !ok),
        final(d).calls() == old(d).calls().push(Step { call: Call::FindRef(word_head()), accepted: ok }),
{
    let ghost t0 = d.calls();
    let head: [u8; 4] = [72u8, 69u8, 65u8, 68u8];
    assert(head@ =~= word_head());
    let ok = call_find_ref(d, head.as_slice());
    proof {
        lemma_appended_step(t0, Step { call: Call::FindRef(head@), accepted: ok });
    }
    ok
}

/// Calls appended to a log that starts with `base` are, past `base`, calls
/// appended to what followed it.
proof fn lemma_rebase(base: Seq<Step>, t: Seq<Step>, c: Seq<Step>, rejected: bool)
    requires
        appended(base + t, c, rejected),
    ensures
        c == base + c.skip(base.len() as int),
        appended(t, c.skip(base.len() as int), rejected),
{
    let u = c.skip(base.len() as int);
    assert(c.subrange(0, (base + t).len() as int) == base + t);
    assert forall|i: int| 0 <= i < base.len() implies c[i] == base[i] by {
        assert(c.subrange(0, (base + t).len() as int)[i] == c[i]);
    }
    assert(c =~= base + u);
    assert(u.subrange(0, t.len() as int) =~= t) by {
        assert forall|i: int| 0 <= i < t.len() implies u[i] == t[i] by {
            assert(c.subrange(0, (base + t).len() as int)[base.len() + i] == c[base.len() + i]);
        }
    }
    assert forall|i: int| t.len() <= i < u.len() implies u[i] == #[trigger] c[base.len() + i] by {}
}

/// One call appended to a log that starts with `base`.
proof fn lemma_rebase_push(base: Seq<Step>, t: Seq<Step>, step: Step)
    ensures
        (base + t).push(step) == base + t.push(step),
        (base + t).push(step).skip(base.len() as int) == t.push(step),
{
    assert((base + t).push(step) =~= base + t.push(step));
    assert((base + t).push(step).skip(base.len() as int) =~= t.push(step));
}

/// The end of the name that starts at `from`.
pub open spec fn name_end_at(s: Seq<u8>, from: int) -> int
    decreases s.len() - from,
{
    if 0 <= from < s.len() && !name_stop(s, from) {
        name_end_at(s, from + 1)
    } else {
        from
    }
}

proof fn lemma_name_end(s: Seq<u8>, from: int, r: int)
    requires
        0 <= from <= r <= s.len(),
        r < s.len() ==> name_stop(s, r),
        forall|i: int| from <= i < r ==> !name_stop(s, i),
    ensures
        name_end_at(s, from) == r,
    decreases r - from,
{
    if from < r {
        lemma_name_end(s, from + 1, r);
    }
}

/// The `}` that closes the `{` at `open`, if any.
pub open spec fn close_of(s: Seq<u8>, open: int) -> Option<int> {
    if exists|c: int| closes_at(s, open, c) {
        Some(choose|c: int| closes_at(s, open, c))
    } else {
        None
    }
}

/// A `{` is closed by one `}` at most.
proof fn lemma_close_unique(s: Seq<u8>, open: int, c: int)
    requires
        closes_at(s, open, c),
    ensures
        close_of(s, open) == Some(c),
{
    let d = choose|d: int| closes_at(s, open, d);
    if d < c {
        assert(s[d] == 125u8);
    }
    if d > c {
        assert(s[c] == 125u8);
    }
}

/// Whether `^{content}`, with the content in `s[from..to]`, is a peel or a
/// message search the driver accepts by itself.
pub open spec fn peel_ok(s: Seq<u8>, from: int, to: int) -> bool {
    let content = s.subrange(from, to);
    ||| content.len() == 0
    ||| content == seq![111u8, 98u8, 106u8, 101u8, 99u8, 116u8]
    ||| object_kind_of(content) is Some
    ||| (content.len() > 0 && content[0] == 47u8 && search_of(s, from + 1, to) is Ok)
}

/// Where the navigation at `p` ends, when the driver accepts it by itself:
/// `~n` or `^n` with a count of at least one, `^{...}` closed and understood,
/// or `:path` up to the end. `None` when it refuses the text there.
pub open spec fn nav_next(s: Seq<u8>, p: int) -> Option<int> {
    if step_at(s, p) is Some {
        Some(step_at(s, p)->Some_0.1)
    } else if 0 <= p && p + 1 < s.len() && s[p] == 94u8 && s[p + 1] == 123u8 {
        match close_of(s, p + 1) {
            Some(c) => if peel_ok(s, p + 2, c) {
                Some(c + 1)
            } else {
                None
            },
            None => None,
        }
    } else if 0 <= p < s.len() && s[p] == 58u8 {
        Some(s.len() as int)
    } else {
        None
    }
}

/// Where `{...}` at `open` ends, when the driver accepts it by itself (a
/// date is accepted here: only the clock can refuse it).
pub open spec fn braces_next(s: Seq<u8>, open: int, named: bool) -> Option<int> {
    match close_of(s, open) {
        Some(c) => if brace_call(s.subrange(open + 1, c), named) matches Some(Err(_)) {
            None
        } else {
            Some(c + 1)
        },
        None => None,
    }
}

/// Where the anchor at `pos` ends, when the driver accepts it by itself.
pub open spec fn anchor_next(s: Seq<u8>, pos: int) -> Option<int> {
    let n = name_end_at(s, pos);
    if starts_search(s, pos) {
        if search_of(s, pos + 2, s.len() as int) is Ok {
            Some(s.len() as int)
        } else {
            None
        }
    } else if 0 <= pos && pos + 1 < s.len() && s[pos] == 64u8 && s[pos + 1] == 123u8 {
        braces_next(s, pos + 1, false)
    } else if n == pos {
        None
    } else if n < s.len() && s[n] == 64u8 {
        braces_next(s, n + 1, true)
    } else {
        Some(n)
    }
}

/// Whether the navigations from `a` are accepted one after the other and end
/// at `e`, the end of the text or a range operator.
pub open spec fn navs_ok(s: Seq<u8>, a: int, e: int) -> bool
    decreases s.len() - a,
{
    if a == e {
        e == s.len() || range_at(s, e)
    } else if 0 <= a < e <= s.len() && !range_at(s, a) {
        match nav_next(s, a) {
            Some(q) => a < q <= e && navs_ok(s, q, e),
            None => false,
        }
    } else {
        false
    }
}

/// Whether a navigation starts at `p` when the navigations from `a` are read
/// one after the other.
pub open spec fn navs_reach(s: Seq<u8>, a: int, p: int) -> bool
    decreases s.len() - a,
{
    if a == p {
        true
    } else if 0 <= a < p <= s.len() && !range_at(s, a) {
        match nav_next(s, a) {
            Some(q) => a < q <= p && navs_reach(s, q, p),
            None => false,
        }
    } else {
        false
    }
}

/// Whether the revision at `st` is accepted by the driver itself and ends at `e`.
pub open spec fn rev_ok(s: Seq<u8>, st: int, e: int) -> bool {
    anchor_next(s, st) is Some && navs_ok(s, anchor_next(s, st)->Some_0, e)
}

/// Whether `m` ends the first side of a range: empty, or a revision.
pub open spec fn left_side(s: Seq<u8>, m: int) -> bool {
    range_at(s, m) && ((m == 0) || rev_ok(s, 0, m))
}

/// Whether the driver, by itself, accepts the text `s`; every successful
/// parse is of such a text.
pub open spec fn accepts(s: Seq<u8>) -> bool {
    if s.len() > 0 && s[0] == 94u8 {
        rev_ok(s, 1, s.len() as int)
    } else {
        ||| rev_ok(s, 0, s.len() as int)
        ||| exists|m: int|
            #[trigger] left_side(s, m) && (range_split(s, m).1 == s.len() || rev_ok(
                s,
                range_split(s, m).1,
                s.len() as int,
            ))
    }
}

/// Whether a revision of `s` starts at `st`: at the start, after a leading
/// `^`, or after the range operator that ends an accepted first side.
pub open spec fn revision_start(s: Seq<u8>, st: int) -> bool {
    ||| st == 0
    ||| (st == 1 && s.len() > 0 && s[0] == 94u8)
    ||| exists|m: int| #[trigger] left_side(s, m) && st == range_split(s, m).1
}

/// Whether a navigation of `s` starts at `p`, reading from a revision's anchor.
pub open spec fn at_navigation(s: Seq<u8>, p: int) -> bool {
    exists|st: int|
        #[trigger] revision_start(s, st) && anchor_next(s, st) is Some && navs_reach(
            s,
            anchor_next(s, st)->Some_0,
            p,
        )
}

/// Whether the driver refuses, by itself, the navigation at `p`.
pub open spec fn refused_at_navigation(s: Seq<u8>, p: int) -> bool {
    at_navigation(s, p) && p < s.len() && !range_at(s, p) && nav_next(s, p) is None
}

/// Whether a navigation `~0` or `^0` (any number of zeros) starts at `p`.
pub open spec fn zero_count_at_navigation(s: Seq<u8>, p: int) -> bool {
    at_navigation(s, p) && zero_step_at(s, p)
}

/// Whether a message search `^{/...}` with an empty pattern starts at `p`.
pub open spec fn empty_search_at_navigation(s: Seq<u8>, p: int) -> bool {
    &&& at_navigation(s, p)
    &&& 0 <= p && p + 2 < s.len() && s[p] == 94u8 && s[p + 1] == 123u8 && s[p + 2] == 47u8
    &&& close_of(s, p + 1) is Some
    &&& search_of(s, p + 3, close_of(s, p + 1)->Some_0) == Err::<(Seq<u8>, bool), Error>(Error::EmptyRegex)
}

/// Whether a revision starting at `st` is a message search `:/` with an empty pattern.
pub open spec fn empty_search_anchor(s: Seq<u8>, st: int) -> bool {
    &&& revision_start(s, st)
    &&& starts_search(s, st)
    &&& search_of(s, st + 2, s.len() as int) == Err::<(Seq<u8>, bool), Error>(Error::EmptyRegex)
}

/// Whether the revision at `st`, after a leading `^` or a range operator,
/// ends at `e` before the end of the text, where only a second range operator
/// can stand.
pub open spec fn extra_range(s: Seq<u8>, st: int, e: int) -> bool {
    revision_start(s, st) && st != 0 && rev_ok(s, st, e) && e < s.len()
}

proof fn lemma_navs_unique(s: Seq<u8>, a: int, e1: int, e2: int)
    requires
        navs_ok(s, a, e1),
        navs_ok(s, a, e2),
    ensures
        e1 == e2,
    decreases s.len() - a,
{
    if a != e1 && a != e2 {
        let q = nav_next(s, a)->Some_0;
        lemma_navs_unique(s, q, e1, e2);
    }
}

proof fn lemma_navs_reach(s: Seq<u8>, a: int, e: int, p: int)
    requires
        navs_ok(s, a, e),
        navs_reach(s, a, p),
    ensures
        p <= e,
        p < e ==> nav_next(s, p) is Some,
        p == e ==> e == s.len() || range_at(s, e),
    decreases s.len() - a,
{
    if a != p {
        if a == e {
            assert(false);
        }
        let q = nav_next(s, a)->Some_0;
        lemma_navs_reach(s, q, e, p);
    }
}

/// With a leading `^`, or at a range operator or the end, no anchor starts.
proof fn lemma_no_anchor(s: Seq<u8>, st: int)
    requires
        0 <= st <= s.len(),
        st == s.len() || range_at(s, st) || (st == 0 && s.len() > 0 && s[0] == 94u8),
    ensures
        anchor_next(s, st) is None,
{
    if st < s.len() {
        assert(name_stop(s, st));
    }
}

/// In an accepted text, every revision that has an anchor is accepted, and
/// the one after a leading `^` or a range operator ends the text.
proof fn lemma_revision_accepted(s: Seq<u8>, st: int) -> (e: int)
    requires
        accepts(s),
        revision_start(s, st),
        anchor_next(s, st) is Some,
    ensures
        rev_ok(s, st, e),
        st != 0 ==> e == s.len(),
{
    if s.len() > 0 && s[0] == 94u8 {
        if st == 0 {
            lemma_no_anchor(s, 0);
        } else if st != 1 {
            let m = choose|m: int| #[trigger] left_side(s, m) && st == range_split(s, m).1;
            if m == 0 {
                assert(false);
            }
            lemma_no_anchor(s, 0);
            assert(false);
        }
        s.len() as int
    } else if rev_ok(s, 0, s.len() as int) {
        if st != 0 {
            let m = choose|m: int| #[trigger] left_side(s, m) && st == range_split(s, m).1;
            if m == 0 {
                lemma_no_anchor(s, 0);
            } else {
                lemma_navs_unique(s, anchor_next(s, 0)->Some_0, m, s.len() as int);
            }
            assert(false);
        }
        s.len() as int
    } else {
        let m0 = choose|m: int|
            #[trigger] left_side(s, m) && (range_split(s, m).1 == s.len() || rev_ok(
                s,
                range_split(s, m).1,
                s.len() as int,
            ));
        if st == 0 {
            if m0 == 0 {
                lemma_no_anchor(s, 0);
                assert(false);
            }
            m0
        } else {
            let m = choose|m: int| #[trigger] left_side(s, m) && st == range_split(s, m).1;
            if m == 0 || m0 == 0 {
                if m != m0 {
                    lemma_no_anchor(s, 0);
                    assert(false);
                }
            } else {
                lemma_navs_unique(s, anchor_next(s, 0)->Some_0, m, m0);
            }
            if st == s.len() {
                lemma_no_anchor(s, st);
                assert(false);
            }
            s.len() as int
        }
    }
}

/// A navigation that the driver refuses by itself fails every parse of the text.
pub proof fn lemma_refused_navigation_rejects(s: Seq<u8>, p: int)
    requires
        refused_at_navigation(s, p),
    ensures
        !accepts(s),
{
    if accepts(s) {
        let st = choose|st: int|
            #[trigger] revision_start(s, st) && anchor_next(s, st) is Some && navs_reach(
                s,
                anchor_next(s, st)->Some_0,
                p,
            );
        let e = lemma_revision_accepted(s, st);
        lemma_navs_reach(s, anchor_next(s, st)->Some_0, e, p);
    }
}

/// A traversal with a count of zero fails every parse of the text.
pub proof fn lemma_zero_count_rejects(s: Seq<u8>, p: int)
    requires
        zero_count_at_navigation(s, p),
    ensures
        !accepts(s),
{
    assert(is_digit(s[p + 1]));
    lemma_refused_navigation_rejects(s, p);
}

/// A message search `^{/}` with an empty pattern fails every parse of the text.
pub proof fn lemma_empty_search_rejects(s: Seq<u8>, p: int)
    requires
        empty_search_at_navigation(s, p),
    ensures
        !accepts(s),
{
    let c = close_of(s, p + 1)->Some_0;
    let content = s.subrange(p + 2, c);
    assert(content[0] == 47u8);
    assert(object_kind_of(content) is None);
    assert(content != seq![111u8, 98u8, 106u8, 101u8, 99u8, 116u8]);
    lemma_refused_navigation_rejects(s, p);
}

/// A message search `:/` with an empty pattern, as a revision, fails every
/// parse of the text.
pub proof fn lemma_empty_search_anchor_rejects(s: Seq<u8>, st: int)
    requires
        empty_search_anchor(s, st),
    ensures
        !accepts(s),
{
    if accepts(s) {
        if st == 0 && !(s.len() > 0 && s[0] == 94u8) && !rev_ok(s, 0, s.len() as int) {
            let m0 = choose|m: int|
                #[trigger] left_side(s, m) && (range_split(s, m).1 == s.len() || rev_ok(
                    s,
                    range_split(s, m).1,
                    s.len() as int,
                ));
            if m0 != 0 {
                assert(anchor_next(s, 0) is Some);
            }
        } else if st == 0 && s.len() > 0 && s[0] == 94u8 {
        } else if st == 0 {
        } else {
            assert(anchor_next(s, st) is None);
            if st == 1 && s[0] == 94u8 {
            } else {
                let m = choose|m: int| #[trigger] left_side(s, m) && st == range_split(s, m).1;
                if s.len() > 0 && s[0] == 94u8 {
                    lemma_no_anchor(s, 0);
                } else if !rev_ok(s, 0, s.len() as int) {
                    let m0 = choose|m: int|
                        #[trigger] left_side(s, m) && (range_split(s, m).1 == s.len() || rev_ok(
                            s,
                            range_split(s, m).1,
                            s.len() as int,
                        ));
                    if m == 0 || m0 == 0 {
                        if m != m0 {
                            lemma_no_anchor(s, 0);
                        }
                    } else {
                        lemma_navs_unique(s, anchor_next(s, 0)->Some_0, m, m0);
                    }
                } else {
                    if m == 0 {
                        lemma_no_anchor(s, 0);
                    } else {
                        lemma_navs_unique(s, anchor_next(s, 0)->Some_0, m, s.len() as int);
                    }
                }
            }
        }
    }
}

/// A second range operator, after the second side of a range or after
/// `^rev`, fails every parse of the text.
pub proof fn lemma_extra_range_rejects(s: Seq<u8>, st: int, e: int)
    requires
        extra_range(s, st, e),
    ensures
        !accepts(s),
{
    if accepts(s) {
        let e2 = lemma_revision_accepted(s, st);
        lemma_navs_unique(s, anchor_next(s, st)->Some_0, e, e2);
    }
}

/// Parses `input` as a revision specification, calling `delegate` for each
/// part in the order the text gives, and returns the relation between its
/// anchors together with the calls that the delegate's log gained.
#[verifier::rlimit(100)]
fn parse_recorded<D: Revision + Kind + Navigate>(input: &[u8], delegate: &mut D) -> (r: (
    Result<Relation, Error>,
    Ghost<Seq<Step>>,
))
    ensures
        final(delegate).calls() == old(delegate).calls() + r.1@,
        r.0 is Ok ==> accepts(input@),
        forall|e: int, c: int|
            #[trigger] named_braces(input@, 0, e, c) && c + 1 == input@.len() ==> anchored_call(
                anchor_call(input@.subrange(0, e)),
                brace_call(input@.subrange(e + 2, c), true)->Some_0,
                old(delegate).calls(),
                final(delegate).calls(),
                r.0,
                Relation::Single,
            ),
        forall|c: int|
            #[trigger] unnamed_braces(input@, 0, c) && c + 1 == input@.len() ==> one_call(
                braces_asked(input@, 0, c),
                old(delegate).calls(),
                final(delegate).calls(),
                r.0,
                Relation::Single,
            ),
        forall|e: int|
            #[trigger] name_then_zero_step(input@, e) ==> zero_outcome(
                anchor_call(input@.subrange(0, e)),
                r.1@,
                r.0,
            ),
        starts_search(input@, 0) ==> searched(
            search_of(input@, 2, input@.len() as int),
            old(delegate).calls(),
            final(delegate).calls(),
            r.0,
            Relation::Single,
        ),
        faithful(r.1@, r.0),
        input@.len() == 0 ==> r.0 == Err::<Relation, Error>(Error::Empty) && r.1@.len() == 0,
        forall|e: int|
            #[trigger] single_revision(input@, e) ==> planned_outcome(
                revision_calls(input@, 0, e),
                Relation::Single,
                r.1@,
                r.0,
            ),
        forall|e: int|
            #[trigger] excluded_revision(input@, e) ==> range_outcome(
                excluded_plan(input@, e),
                Relation::Range,
                revision_end(input@, e) == input@.len(),
                r.1@,
                r.0,
            ),
        forall|e1: int, e2: int|
            #[trigger] revision_range(input@, e1, e2) ==> range_outcome(
                range_plan(input@, e1, e2),
                range_split(input@, revision_end(input@, e1)).0,
                revision_end(input@, e2) == input@.len(),
                r.1@,
                r.0,
            ),
{
    let ghost base = delegate.calls();
    let mut trace: Ghost<Seq<Step>> = Ghost(Seq::empty());
    assert(base + trace@ =~= base);
    let ghost mut kind_at: int = -1;
    let len = input.len();
    if len == 0 {
        proof {
            lemma_faithful(trace@, kind_at, Err(Error::Empty));
        }
        return (Err(Error::Empty), trace);
    }
    let mut relation = Relation::Single;
    let mut pos: usize = 0;
    if input[0] == 94u8 {
        assert(name_stop(input@, 0));
        let ghost t0 = trace@;
        let ok = call_kind(delegate, Relation::Range);
        proof {
            lemma_rebase_push(base, t0, Step { call: Call::Kind(Relation::Range), accepted: ok });
        }
        trace = Ghost(delegate.calls().skip(base.len() as int));
        proof {
            let kc = seq![Call::Kind(Relation::Range)];
            assert(trace@ =~= seq![Step { call: Call::Kind(Relation::Range), accepted: ok }]);
            assert(follows_plan(Seq::empty(), trace@, kc));
            assert forall|e: int| #[trigger] excluded_revision(input@, e) implies follows_plan(
                Seq::empty(),
                trace@,
                excluded_plan(input@, e),
            ) by {
                lemma_plan_prefix(trace@, kc, revision_calls(input@, 1, e));
            }
        }
        proof {
            lemma_settled_kind(t0, Step { call: Call::Kind(Relation::Range), accepted: ok });
            kind_at = 0;
        }
        if !ok {
            proof {
                lemma_faithful(trace@, kind_at, Err(Error::Rejected));
            }
            return (Err(Error::Rejected), trace);
        }
        relation = Relation::Range;
        pos = 1;
        if pos == len {
            proof {
                lemma_faithful(trace@, kind_at, Err(Error::Unexpected));
            }
            return (Err(Error::Unexpected), trace);
        }
    }
    let ghost t1 = trace@;
    if is_range_at(input, pos) {
        assert(name_stop(input@, pos as int));
        let ok = set_head(delegate);
        proof {
            lemma_rebase(base, t1, delegate.calls(), !ok);
        }
        trace = Ghost(delegate.calls().skip(base.len() as int));
        proof {
            lemma_settled_extend(t1, trace@, kind_at, !ok);
        }
        if !ok {
            proof {
                lemma_faithful(trace@, kind_at, Err(Error::Rejected));
            }
            return (Err(Error::Rejected), trace);
        }
    } else {
        let r = parse_revision(input, pos, delegate);
        proof {
            lemma_rebase(base, t1, delegate.calls(), is_rejection(r));
        }
        trace = Ghost(delegate.calls().skip(base.len() as int));
        proof {
            lemma_settled_extend(t1, trace@, kind_at, is_rejection(r));
            assert forall|e: int| #[trigger] single_revision(input@, e) implies name_up_to(input@, pos as int, e) by {}
            assert forall|e1: int, e2: int| #[trigger] revision_range(input@, e1, e2) implies name_up_to(
                input@,
                pos as int,
                e1,
            ) && (r is Ok ==> r->Ok_0 == revision_end(input@, e1)) by {
                assert(name_up_to(input@, pos as int, e1));
                lemma_steps_bounds(input@, e1);
            }
            assert forall|e: int| #[trigger] excluded_revision(input@, e) implies {
                &&& follows_plan(Seq::empty(), trace@, excluded_plan(input@, e))
                &&& r is Ok ==> r->Ok_0 == revision_end(input@, e) && trace@.len() == excluded_plan(input@, e).len()
                &&& r is Err ==> r == Err::<usize, Error>(Error::Rejected)
            } by {
                assert(name_up_to(input@, pos as int, e));
                lemma_steps_bounds(input@, e);
                lemma_plan_concat(t1, trace@, seq![Call::Kind(Relation::Range)], revision_calls(input@, 1, e));
            }
            assert forall|e: int| #[trigger] name_then_zero_step(input@, e) implies {
                &&& trace@ == seq![
                    Step {
                        call: anchor_call(input@.subrange(0, e)),
                        accepted: r == Err::<usize, Error>(Error::ZeroCount),
                    },
                ]
                &&& r == Err::<usize, Error>(Error::ZeroCount) || r == Err::<usize, Error>(Error::Rejected)
            } by {
                assert(name_up_to(input@, pos as int, e));
                assert(base + t1 =~= base);
                assert(trace@ =~= seq![
                    Step {
                        call: anchor_call(input@.subrange(0, e)),
                        accepted: r == Err::<usize, Error>(Error::ZeroCount),
                    },
                ]);
            }
        }
        match r {
            Ok(e) => {
                pos = e;
            },
            Err(e) => {
                proof {
                    lemma_faithful(trace@, kind_at, Err(e));
                    assert forall|e1: int, e2: int| #[trigger] revision_range(input@, e1, e2) implies range_outcome(
                        range_plan(input@, e1, e2),
                        range_split(input@, revision_end(input@, e1)).0,
                        revision_end(input@, e2) == input@.len(),
                        trace@,
                        Err(e),
                    ) by {
                        let split = range_split(input@, revision_end(input@, e1));
                        let left = revision_calls(input@, 0, e1);
                        assert(name_up_to(input@, pos as int, e1));
                        lemma_plan_prefix(trace@, left, seq![Call::Kind(split.0)]);
                        lemma_plan_prefix(
                            trace@,
                            left + seq![Call::Kind(split.0)],
                            revision_calls(input@, split.1, e2),
                        );
                    }
                }
                return (Err(e), trace);
            },
        }
    }
    let ghost m: int = pos as int;
    if pos == len {
        proof {
            lemma_faithful(trace@, kind_at, Ok(relation));
        }
        return (Ok(relation), trace);
    }
    if relation != Relation::Single {
        proof {
            lemma_faithful(trace@, kind_at, Err(Error::RelationSetTwice));
        }
        return (Err(Error::RelationSetTwice), trace);
    }
    let merge = len - pos >= 3 && input[pos + 2] == 46u8;
    let k = if merge {
        Relation::MergeBase
    } else {
        Relation::Range
    };
    pos = if merge {
        pos + 3
    } else {
        pos + 2
    };
    let ghost t2 = trace@;
    let ok = call_kind(delegate, k);
    proof {
        lemma_rebase_push(base, t2, Step { call: Call::Kind(k), accepted: ok });
    }
    trace = Ghost(delegate.calls().skip(base.len() as int));
    proof {
        lemma_settled_kind(t2, Step { call: Call::Kind(k), accepted: ok });
        kind_at = t2.len() as int;
        assert forall|e1: int, e2: int| #[trigger] revision_range(input@, e1, e2) implies {
            &&& follows_plan(
                Seq::empty(),
                trace@,
                revision_calls(input@, 0, e1) + seq![Call::Kind(range_split(input@, revision_end(input@, e1)).0)],
            )
            &&& k == range_split(input@, revision_end(input@, e1)).0
            &&& pos == range_split(input@, revision_end(input@, e1)).1
        } by {
            assert(name_up_to(input@, 0, e1));
            lemma_plan_push(t2, revision_calls(input@, 0, e1), Step { call: Call::Kind(k), accepted: ok });
        }
    }
    if !ok {
        proof {
            lemma_faithful(trace@, kind_at, Err(Error::Rejected));
            assert forall|e1: int, e2: int| #[trigger] revision_range(input@, e1, e2) implies range_outcome(
                range_plan(input@, e1, e2),
                range_split(input@, revision_end(input@, e1)).0,
                revision_end(input@, e2) == input@.len(),
                trace@,
                Err(Error::Rejected),
            ) by {
                let split = range_split(input@, revision_end(input@, e1));
                lemma_plan_prefix(
                    trace@,
                    revision_calls(input@, 0, e1) + seq![Call::Kind(split.0)],
                    revision_calls(input@, split.1, e2),
                );
            }
        }
        return (Err(Error::Rejected), trace);
    }
    relation = k;
    let ghost t3 = trace@;
    if pos == len {
        let ok = set_head(delegate);
        proof {
            lemma_rebase(base, t3, delegate.calls(), !ok);
        }
        trace = Ghost(delegate.calls().skip(base.len() as int));
        proof {
            lemma_settled_extend(t3, trace@, kind_at, !ok);
        }
        if !ok {
            proof {
                lemma_faithful(trace@, kind_at, Err(Error::Rejected));
            }
            return (Err(Error::Rejected), trace);
        }
    } else {
        let r = parse_revision(input, pos, delegate);
        proof {
            lemma_rebase(base, t3, delegate.calls(), is_rejection(r));
        }
        trace = Ghost(delegate.calls().skip(base.len() as int));
        proof {
            lemma_settled_extend(t3, trace@, kind_at, is_rejection(r));
            assert forall|e1: int, e2: int| #[trigger] revision_range(input@, e1, e2) implies {
                &&& follows_plan(Seq::empty(), trace@, range_plan(input@, e1, e2))
                &&& r is Ok ==> trace@.len() == range_plan(input@, e1, e2).len() && r->Ok_0 == revision_end(
                    input@,
                    e2,
                )
                &&& r is Err ==> r == Err::<usize, Error>(Error::Rejected)
            } by {
                let split = range_split(input@, revision_end(input@, e1));
                let left = revision_calls(input@, 0, e1) + seq![Call::Kind(split.0)];
                let right = revision_calls(input@, split.1, e2);
                assert(name_up_to(input@, pos as int, e2));
                lemma_steps_bounds(input@, e2);
                lemma_plan_concat(t3, trace@, left, right);
            }
        }
        match r {
            Ok(e) => {
                if e != len {
                    proof {
                        lemma_faithful(trace@, kind_at, Err(Error::RelationSetTwice));
                    }
                    return (Err(Error::RelationSetTwice), trace);
                }
            },
            Err(e) => {
                proof {
                    lemma_faithful(trace@, kind_at, Err(e));
                }
                return (Err(e), trace);
            },
        }
    }
    proof {
        assert(left_side(input@, m));
    }
    proof {
        lemma_faithful(trace@, kind_at, Ok(relation));
    }
    (Ok(relation), trace)
}

/// The calls a delegate answered after its log was `before`.
pub open spec fn added_calls(before: Seq<Step>, after: Seq<Step>) -> Seq<Step> {
    after.skip(before.len() as int)
}

/// Parses `input` as a revision specification, calling `delegate` for each
/// part in the order the text gives, and returns the relation between its
/// anchors, `Single` when none was set. Everything it states of its calls is
/// stated over the delegate's own log: for every input, that the calls were
/// faithful to the protocol; and the exact calls and result for a name with
/// navigations, a zero count after a name, `@{...}` with or without a name, a
/// message search `:/`, `^rev`, and ranges `a..b` / `a...b` of named revisions
/// (including a refused second range operator).
pub fn parse<D: Revision + Kind + Navigate>(input: &[u8], delegate: &mut D) -> (r: Result<Relation, Error>)
    ensures
        final(delegate).calls().len() >= old(delegate).calls().len(),
        final(delegate).calls().subrange(0, old(delegate).calls().len() as int) == old(delegate).calls(),
        faithful(added_calls(old(delegate).calls(), final(delegate).calls()), r),
        r is Ok ==> accepts(input@),
        forall|p: int| #[trigger] refused_at_navigation(input@, p) ==> r is Err,
        forall|p: int| #[trigger] zero_count_at_navigation(input@, p) ==> r is Err,
        forall|p: int| #[trigger] empty_search_at_navigation(input@, p) ==> r is Err,
        forall|st: int| #[trigger] empty_search_anchor(input@, st) ==> r is Err,
        forall|st: int, e: int| #[trigger] extra_range(input@, st, e) ==> r is Err,
        input@.len() == 0 ==> r == Err::<Relation, Error>(Error::Empty) && final(delegate).calls() == old(
            delegate,
        ).calls(),
        forall|e: int|
            #[trigger] single_revision(input@, e) ==> planned_outcome(
                revision_calls(input@, 0, e),
                Relation::Single,
                added_calls(old(delegate).calls(), final(delegate).calls()),
                r,
            ),
        forall|e: int|
            #[trigger] name_then_zero_step(input@, e) ==> zero_outcome(
                anchor_call(input@.subrange(0, e)),
                added_calls(old(delegate).calls(), final(delegate).calls()),
                r,
            ),
        forall|c: int|
            #[trigger] unnamed_braces(input@, 0, c) && c + 1 == input@.len() ==> one_call(
                braces_asked(input@, 0, c),
                Seq::empty(),
                added_calls(old(delegate).calls(), final(delegate).calls()),
                r,
                Relation::Single,
            ),
        forall|e: int, c: int|
            #[trigger] named_braces(input@, 0, e, c) && c + 1 == input@.len() ==> anchored_call(
                anchor_call(input@.subrange(0, e)),
                brace_call(input@.subrange(e + 2, c), true)->Some_0,
                Seq::empty(),
                added_calls(old(delegate).calls(), final(delegate).calls()),
                r,
                Relation::Single,
            ),
        starts_search(input@, 0) ==> searched(
            search_of(input@, 2, input@.len() as int),
            Seq::empty(),
            added_calls(old(delegate).calls(), final(delegate).calls()),
            r,
            Relation::Single,
        ),
        forall|e: int|
            #[trigger] excluded_revision(input@, e) ==> range_outcome(
                excluded_plan(input@, e),
                Relation::Range,
                revision_end(input@, e) == input@.len(),
                added_calls(old(delegate).calls(), final(delegate).calls()),
                r,
            ),
        forall|e1: int, e2: int|
            #[trigger] revision_range(input@, e1, e2) ==> range_outcome(
                range_plan(input@, e1, e2),
                range_split(input@, revision_end(input@, e1)).0,
                revision_end(input@, e2) == input@.len(),
                added_calls(old(delegate).calls(), final(delegate).calls()),
                r,
            ),
{
    let ghost before = delegate.calls();
    let (r, trace) = parse_recorded(input, delegate);
    proof {
        assert forall|p: int| #[trigger] refused_at_navigation(input@, p) implies r is Err by {
            lemma_refused_navigation_rejects(input@, p);
        }
        assert forall|p: int| #[trigger] zero_count_at_navigation(input@, p) implies r is Err by {
            lemma_zero_count_rejects(input@, p);
        }
        assert forall|p: int| #[trigger] empty_search_at_navigation(input@, p) implies r is Err by {
            lemma_empty_search_rejects(input@, p);
        }
        assert forall|st: int| #[trigger] empty_search_anchor(input@, st) implies r is Err by {
            lemma_empty_search_anchor_rejects(input@, st);
        }
        assert forall|st: int, e: int| #[trigger] extra_range(input@, st, e) implies r is Err by {
            lemma_extra_range_rejects(input@, st, e);
        }
        assert forall|e: int, c: int| #[trigger]
            named_braces(input@, 0, e, c) && c + 1 == input@.len() implies anchored_call(
            anchor_call(input@.subrange(0, e)),
            brace_call(input@.subrange(e + 2, c), true)->Some_0,
            Seq::empty(),
            added_calls(before, delegate.calls()),
            r,
            Relation::Single,
        ) by {
            let t = delegate.calls();
            assert(t.skip(before.len() as int) =~= trace@);
            assert(t =~= before + trace@);
            let a = Step { call: anchor_call(input@.subrange(0, e)), accepted: true };
            if t[before.len() as int].accepted {
                if let Ok(call) = brace_call(input@.subrange(e + 2, c), true)->Some_0 {
                    let step = Step { call: call, accepted: r is Ok };
                    assert(trace@ =~= Seq::<Step>::empty().push(a).push(step));
                } else {
                    assert(trace@ =~= Seq::<Step>::empty().push(a));
                }
            } else {
                let b = Step { call: anchor_call(input@.subrange(0, e)), accepted: false };
                assert(trace@ =~= Seq::<Step>::empty().push(b));
            }
        }
        assert forall|c: int| #[trigger] unnamed_braces(input@, 0, c) && c + 1 == input@.len() implies one_call(
            braces_asked(input@, 0, c),
            Seq::empty(),
            added_calls(before, delegate.calls()),
            r,
            Relation::Single,
        ) by {
            if let Ok(call) = braces_asked(input@, 0, c) {
                let step = Step { call: call, accepted: r is Ok };
                assert(delegate.calls().skip(before.len() as int) =~= Seq::<Step>::empty().push(step));
            } else {
                assert(delegate.calls().skip(before.len() as int) =~= Seq::<Step>::empty());
            }
        }
        if starts_search(input@, 0) {
            let found = search_of(input@, 2, input@.len() as int);
            if let Ok((p, negated)) = found {
                let step = Step { call: Call::Find(p, negated), accepted: r is Ok };
                assert(delegate.calls().skip(before.len() as int) =~= Seq::<Step>::empty().push(step));
            } else {
                assert(delegate.calls().skip(before.len() as int) =~= Seq::<Step>::empty());
            }
        }
        assert(delegate.calls().skip(before.len() as int) =~= trace@);
        assert(delegate.calls().subrange(0, before.len() as int) =~= before);
        if input@.len() == 0 {
            assert(before + trace@ =~= before);
        }
    }
    r
}

/// Every traversal the driver asks for moves at least one step.
pub proof fn lemma_traversal_counts_positive(t: Seq<Step>, r: Result<Relation, Error>)
    requires
        faithful(t, r),
    ensures
        forall|i: int| 0 <= i < t.len() && (#[trigger] t[i]).call is Traverse ==> t[i].call->Traverse_0.count() >= 1,
{
    assert forall|i: int| 0 <= i < t.len() && (#[trigger] t[i]).call is Traverse implies t[i].call->Traverse_0.count()
        >= 1 by {
        assert(call_allowed(t[i].call));
    }
}

/// The relation is set at most once per parse, and never to `Single`.
pub proof fn lemma_relation_set_at_most_once(t: Seq<Step>, r: Result<Relation, Error>)
    requires
        faithful(t, r),
    ensures
        forall|i: int, j: int|
            0 <= i < t.len() && 0 <= j < t.len() && (#[trigger] t[i].call is Kind) && (#[trigger] t[j].call is Kind) ==> i
                == j,
        forall|i: int| 0 <= i < t.len() && (#[trigger] t[i]).call is Kind ==> !(t[i].call->Kind_0 is Single),
{
    assert forall|i: int| 0 <= i < t.len() && (#[trigger] t[i]).call is Kind implies !(t[i].call->Kind_0 is Single) by {
        assert(call_allowed(t[i].call));
    }
}

/// A message search is only ever asked for with a non-empty pattern.
pub proof fn lemma_search_patterns_non_empty(t: Seq<Step>, r: Result<Relation, Error>)
    requires
        faithful(t, r),
    ensures
        forall|i: int| 0 <= i < t.len() && (#[trigger] t[i]).call is Find ==> t[i].call->Find_0.len() > 0,
{
    assert forall|i: int| 0 <= i < t.len() && (#[trigger] t[i]).call is Find implies t[i].call->Find_0.len() > 0 by {
        assert(call_allowed(t[i].call));
    }
}

} // verus!
