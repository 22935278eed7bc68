//! The retention engine: which snapshots a cleaning pass may delete.
//!
//! The snapshots are taken newest first. Those younger than the policy's age
//! are kept whatever their number; of the others, those among the policy's
//! count of newest snapshots are kept too. The rest is returned for
//! deletion, newest first.

use crate::namer::{created_at, NameParseError, Namer};
use crate::pattern::Token;
use crate::reading::lemma_parse_sound;
use crate::timestamp::Timestamp;
use vstd::prelude::*;

verus! {

/// A span of time: whole seconds and the nanoseconds beyond them.
#[derive(Clone, Copy, Debug, PartialEq, Eq, Structural)]
pub struct Age {
    pub secs: u64,
    pub nanos: u32,
}

impl Age {
    /// The span in nanoseconds.
    pub open spec fn total_nanos(&self) -> int {
        self.secs * 1_000_000_000 + self.nanos
    }
}

/// Whether a snapshot taken at `taken` is younger at `now` than `keep_since`:
/// whether less time than that has passed since it was taken. Without an
/// age no snapshot is.
pub open spec fn younger_than(keep_since: Option<Age>, taken: Timestamp, now: Timestamp) -> bool {
    match keep_since {
        Some(age) => (now.seconds() - taken.seconds()) * 1_000_000_000 < age.total_nanos(),
        None => false,
    }
}

/// A policy that sets neither a count nor an age.
#[derive(Clone, Copy, Debug, PartialEq, Eq, Structural)]
pub struct InvalidPolicy;

/// What a cleaning pass must keep.
#[derive(Clone, Copy, Debug, PartialEq, Eq, Structural)]
pub struct RetentionPolicy {
    /// The number of newest snapshots that are kept whatever their age.
    pub keep_count: Option<usize>,
    /// Snapshots younger than this are kept whatever their number.
    pub keep_since: Option<Age>,
}

impl RetentionPolicy {
    /// A policy sets a count, an age, or both.
    pub open spec fn wf(&self) -> bool {
        self.keep_count is Some || self.keep_since is Some
    }

    /// Whether a snapshot taken at `taken` is protected by its age at `now`:
    /// whether less time than the policy's age has passed since.
    pub open spec fn protects(&self, taken: Timestamp, now: Timestamp) -> bool {
        younger_than(self.keep_since, taken, now)
    }

    /// The number of newest snapshots that the count keeps; none where the
    /// policy sets no count.
    pub open spec fn kept_by_count(&self) -> nat {
        match self.keep_count {
            Some(n) => n as nat,
            None => 0,
        }
    }

    /// The policy with the given count and age, of which one at least must
    /// be set.
    pub fn new(keep_count: Option<usize>, keep_since: Option<Age>) -> (r: Result<
        RetentionPolicy,
        InvalidPolicy,
    >)
        ensures
            match r {
                Ok(policy) => policy.wf() && policy.keep_count == keep_count && policy.keep_since
                    == keep_since,
                Err(_) => keep_count is None && keep_since is None,
            },
    {
        if keep_count.is_none() && keep_since.is_none() {
            Err(InvalidPolicy)
        } else {
            Ok(RetentionPolicy { keep_count, keep_since })
        }
    }

    /// Whether a snapshot taken at `taken` is protected by its age at `now`.
    pub fn is_protected(&self, taken: &Timestamp, now: &Timestamp) -> (r: bool)
        requires
            taken.wf(),
            now.wf(),
        ensures
            r == self.protects(*taken, *now),
    {
        match self.keep_since {
            None => false,
            Some(age) => {
                let then: u64 = taken.to_seconds();
                let current: u64 = now.to_seconds();
                if current < then {
                    true
                } else {
                    let elapsed: u128 = (current - then) as u128 * 1_000_000_000;
                    let limit: u128 = age.secs as u128 * 1_000_000_000 + age.nanos as u128;
                    elapsed < limit
                }
            },
        }
    }
}

/// A snapshot that the engine manages: its name and the moment that the
/// name gives.
#[derive(Debug, PartialEq, Eq)]
pub struct Snapshot {
    pub name: String,
    pub created_at: Timestamp,
}

impl Clone for Snapshot {
    fn clone(&self) -> (r: Snapshot)
        ensures
            r == *self,
    {
        Snapshot { name: self.name.clone(), created_at: self.created_at }
    }
}

/// A snapshot as the contracts see it.
pub struct SnapshotView {
    pub name: Seq<char>,
    pub created_at: Timestamp,
}

impl View for Snapshot {
    type V = SnapshotView;

    open spec fn view(&self) -> SnapshotView {
        SnapshotView { name: self.name@, created_at: self.created_at }
    }
}

/// The snapshots as the contracts see them.
pub open spec fn views(snapshots: Seq<Snapshot>) -> Seq<SnapshotView> {
    snapshots.map_values(|s: Snapshot| s@)
}

/// The names as the contracts see them.
pub open spec fn texts(names: Seq<String>) -> Seq<Seq<char>> {
    names.map_values(|s: String| s@)
}

/// Whether each of the snapshots was taken at a moment that exists.
pub open spec fn all_wf(snapshots: Seq<SnapshotView>) -> bool {
    forall|i: int| 0 <= i < snapshots.len() ==> (#[trigger] snapshots[i]).created_at.wf()
}

/// The managed snapshots among the entries of a directory: those whose name
/// reads as one, in the order of the listing.
pub open spec fn managed(names: Seq<Seq<char>>, prefix: Seq<char>, tokens: Seq<Token>) -> Seq<
    SnapshotView,
>
    decreases names.len(),
{
    if names.len() == 0 {
        Seq::empty()
    } else {
        let rest = managed(names.drop_last(), prefix, tokens);
        match created_at(prefix, tokens, names.last()) {
            Ok(t) => rest.push(SnapshotView { name: names.last(), created_at: t }),
            Err(_) => rest,
        }
    }
}

/// Where a snapshot taken `at` seconds after the start of year 0 goes into
/// snapshots that stand newest first: behind the last one that is not older.
pub open spec fn insertion_point(ordered: Seq<SnapshotView>, at: int) -> int
    decreases ordered.len(),
{
    if ordered.len() == 0 {
        0
    } else if ordered.last().created_at.seconds() >= at {
        ordered.len() as int
    } else {
        insertion_point(ordered.drop_last(), at)
    }
}

/// The snapshots, newest first. Snapshots taken at the same moment keep the
/// order they came in.
pub open spec fn by_recency(snapshots: Seq<SnapshotView>) -> Seq<SnapshotView>
    decreases snapshots.len(),
{
    if snapshots.len() == 0 {
        Seq::empty()
    } else {
        let rest = by_recency(snapshots.drop_last());
        let last = snapshots.last();
        rest.insert(insertion_point(rest, last.created_at.seconds()), last)
    }
}

/// The test that a snapshot is not protected by its age.
pub open spec fn unprotected(keep_since: Option<Age>, now: Timestamp) -> spec_fn(
    SnapshotView,
) -> bool {
    |s: SnapshotView| !younger_than(keep_since, s.created_at, now)
}

/// The number of snapshots at the head of `ordered` that the count keeps.
pub open spec fn kept_head(ordered: Seq<SnapshotView>, policy: RetentionPolicy) -> int {
    if policy.kept_by_count() < ordered.len() {
        policy.kept_by_count() as int
    } else {
        ordered.len() as int
    }
}

/// Of snapshots that stand newest first, those that may be deleted: the
/// ones behind the newest that the count keeps, but for those that their
/// age protects. They stand newest first.
pub open spec fn expired(ordered: Seq<SnapshotView>, policy: RetentionPolicy, now: Timestamp) -> Seq<
    SnapshotView,
> {
    ordered.skip(kept_head(ordered, policy)).filter(unprotected(policy.keep_since, now))
}

/// The snapshots that a cleaning pass deletes from a directory with the
/// entries `names`, newest first.
pub open spec fn selection(
    names: Seq<Seq<char>>,
    prefix: Seq<char>,
    tokens: Seq<Token>,
    policy: RetentionPolicy,
    now: Timestamp,
) -> Seq<SnapshotView> {
    expired(by_recency(managed(names, prefix, tokens)), policy, now)
}

/// Whether the snapshots stand newest first.
pub open spec fn is_newest_first(snapshots: Seq<SnapshotView>) -> bool {
    forall|i: int, j: int|
        0 <= i < j < snapshots.len() ==> (#[trigger] snapshots[i]).created_at.seconds() >= (
        #[trigger] snapshots[j]).created_at.seconds()
}

/// Every managed snapshot is an entry of the listing, and its name reads as
/// the moment it was taken at.
pub proof fn lemma_managed_entries(names: Seq<Seq<char>>, prefix: Seq<char>, tokens: Seq<Token>)
    ensures
        managed(names, prefix, tokens).len() <= names.len(),
        all_wf(managed(names, prefix, tokens)),
        forall|s: SnapshotView| #[trigger]
            managed(names, prefix, tokens).contains(s) ==> names.contains(s.name) && created_at(
                prefix,
                tokens,
                s.name,
            ) == Ok::<Timestamp, NameParseError>(s.created_at),
    decreases names.len(),
{
    if names.len() > 0 {
        let rest = managed(names.drop_last(), prefix, tokens);
        let all = managed(names, prefix, tokens);
        lemma_managed_entries(names.drop_last(), prefix, tokens);
        lemma_parse_sound(tokens, names.last().skip(prefix.len() as int + 1));
        assert forall|s: SnapshotView| #[trigger] all.contains(s) implies names.contains(s.name)
            && created_at(prefix, tokens, s.name) == Ok::<Timestamp, NameParseError>(
            s.created_at,
        ) by {
            let i = choose|i: int| 0 <= i < all.len() && all[i] == s;
            if i < rest.len() {
                assert(rest[i] == s);
                assert(rest.contains(s));
                let j = choose|j: int|
                    0 <= j < names.drop_last().len() && names.drop_last()[j] == s.name;
                assert(names[j] == s.name);
            } else {
                assert(names[names.len() - 1] == s.name);
            }
        }
    }
}

/// Every entry whose name reads as a snapshot's is managed.
pub proof fn lemma_managed_complete(
    names: Seq<Seq<char>>,
    prefix: Seq<char>,
    tokens: Seq<Token>,
    i: int,
)
    requires
        0 <= i < names.len(),
        created_at(prefix, tokens, names[i]) is Ok,
    ensures
        managed(names, prefix, tokens).contains(
            SnapshotView { name: names[i], created_at: created_at(prefix, tokens, names[i])->Ok_0 },
        ),
    decreases names.len(),
{
    let all = managed(names, prefix, tokens);
    let rest = managed(names.drop_last(), prefix, tokens);
    let s = SnapshotView { name: names[i], created_at: created_at(prefix, tokens, names[i])->Ok_0 };
    if i == names.len() - 1 {
        assert(all[all.len() - 1] == s);
    } else {
        lemma_managed_complete(names.drop_last(), prefix, tokens, i);
        let j = choose|j: int| 0 <= j < rest.len() && rest[j] == s;
        assert(all[j] == s);
    }
}

/// Where a snapshot goes into others: the ones behind it are older, the one
/// before it is not.
pub proof fn lemma_insertion_point(ordered: Seq<SnapshotView>, at: int)
    ensures
        0 <= insertion_point(ordered, at) <= ordered.len(),
        forall|j: int|
            insertion_point(ordered, at) <= j < ordered.len() ==> (
            #[trigger] ordered[j]).created_at.seconds() < at,
        insertion_point(ordered, at) > 0 ==> ordered[insertion_point(ordered, at)
            - 1].created_at.seconds() >= at,
    decreases ordered.len(),
{
    if ordered.len() > 0 && ordered.last().created_at.seconds() < at {
        lemma_insertion_point(ordered.drop_last(), at);
        assert forall|j: int| insertion_point(ordered, at) <= j < ordered.len() implies (
        #[trigger] ordered[j]).created_at.seconds() < at by {
            if j < ordered.len() - 1 {
                assert(ordered.drop_last()[j] == ordered[j]);
            }
        }
    }
}

/// Sorting by recency keeps every snapshot, as often as it came.
pub proof fn lemma_by_recency_permutes(snapshots: Seq<SnapshotView>)
    ensures
        by_recency(snapshots).to_multiset() == snapshots.to_multiset(),
        by_recency(snapshots).len() == snapshots.len(),
        forall|s: SnapshotView| #[trigger]
            by_recency(snapshots).contains(s) <==> snapshots.contains(s),
    decreases snapshots.len(),
{
    broadcast use {
        vstd::seq_lib::to_multiset_build,
        vstd::seq_lib::to_multiset_insert,
        vstd::seq_lib::to_multiset_len,
        vstd::seq_lib::to_multiset_contains,
    };

    if snapshots.len() > 0 {
        let rest = by_recency(snapshots.drop_last());
        let last = snapshots.last();
        lemma_by_recency_permutes(snapshots.drop_last());
        lemma_insertion_point(rest, last.created_at.seconds());
        assert(snapshots.drop_last().push(last) =~= snapshots);
    }
    assert forall|s: SnapshotView| #[trigger]
        by_recency(snapshots).contains(s) <==> snapshots.contains(s) by {
        assert(by_recency(snapshots).to_multiset().count(s) == snapshots.to_multiset().count(s));
    }
}

/// Sorting by recency puts the snapshots newest first.
pub proof fn lemma_by_recency_sorted(snapshots: Seq<SnapshotView>)
    ensures
        is_newest_first(by_recency(snapshots)),
    decreases snapshots.len(),
{
    if snapshots.len() > 0 {
        let rest = by_recency(snapshots.drop_last());
        let last = snapshots.last();
        let at = last.created_at.seconds();
        let p = insertion_point(rest, at);
        let all = by_recency(snapshots);
        lemma_by_recency_sorted(snapshots.drop_last());
        lemma_insertion_point(rest, at);
        assert forall|i: int, j: int| 0 <= i < j < all.len() implies (
        #[trigger] all[i]).created_at.seconds() >= (#[trigger] all[j]).created_at.seconds() by {
            let a = if i < p {
                rest[i]
            } else if i == p {
                last
            } else {
                rest[i - 1]
            };
            let b = if j < p {
                rest[j]
            } else if j == p {
                last
            } else {
                rest[j - 1]
            };
            assert(all[i] == a && all[j] == b);
            if i < p - 1 && j == p {
                assert(rest[i].created_at.seconds() >= rest[p - 1].created_at.seconds());
            }
        }
    }
}

/// The test that a snapshot was taken `at` seconds after the start of year 0.
pub open spec fn taken_at(at: int) -> spec_fn(SnapshotView) -> bool {
    |s: SnapshotView| s.created_at.seconds() == at
}

/// Sorting by recency is stable: snapshots taken at the same moment keep the
/// order they came in.
pub proof fn lemma_by_recency_stable(snapshots: Seq<SnapshotView>, at: int)
    ensures
        by_recency(snapshots).filter(taken_at(at)) == snapshots.filter(taken_at(at)),
    decreases snapshots.len(),
{
    reveal(Seq::filter);
    if snapshots.len() > 0 {
        let pred = taken_at(at);
        let rest = by_recency(snapshots.drop_last());
        let last = snapshots.last();
        let p = insertion_point(rest, last.created_at.seconds());
        lemma_by_recency_stable(snapshots.drop_last(), at);
        lemma_insertion_point(rest, last.created_at.seconds());
        let head = rest.take(p);
        let tail = rest.skip(p);
        assert(rest =~= head + tail);
        assert(rest.insert(p, last) =~= head.push(last) + tail);
        Seq::filter_distributes_over_add(head, tail, pred);
        Seq::filter_distributes_over_add(head.push(last), tail, pred);
        head.lemma_filter_push(last, pred);
        if pred(last) {
            assert(tail.filter(pred).len() == 0) by {
                if tail.filter(pred).len() > 0 {
                    let s = tail.filter(pred)[0];
                    tail.lemma_filter_pred(pred, 0);
                    assert(tail.filter(pred).contains(s));
                    tail.lemma_filter_contains_rev(pred, s);
                    let i = choose|i: int| 0 <= i < tail.len() && tail[i] == s;
                    assert(rest[p + i] == s);
                }
            }
            assert(head.filter(pred) + tail.filter(pred) =~= head.filter(pred));
            assert(head.filter(pred).push(last) + tail.filter(pred) =~= head.filter(pred).push(
                last,
            ));
        }
    }
}

/// Whatever the count, no snapshot that its age protects is deleted.
pub proof fn lemma_age_protection_overrides_count(
    ordered: Seq<SnapshotView>,
    policy: RetentionPolicy,
    now: Timestamp,
    s: SnapshotView,
)
    requires
        policy.protects(s.created_at, now),
    ensures
        !expired(ordered, policy, now).contains(s),
{
    let from = ordered.skip(kept_head(ordered, policy));
    let pred = unprotected(policy.keep_since, now);
    if from.filter(pred).contains(s) {
        let i = choose|i: int| 0 <= i < from.filter(pred).len() && from.filter(pred)[i] == s;
        from.lemma_filter_pred(pred, i);
    }
}

/// Every snapshot that is deleted is one of those given, stands behind the
/// newest that the count keeps, and is not protected by its age.
pub proof fn lemma_expired_among(
    ordered: Seq<SnapshotView>,
    policy: RetentionPolicy,
    now: Timestamp,
    s: SnapshotView,
)
    requires
        expired(ordered, policy, now).contains(s),
    ensures
        ordered.contains(s),
        !policy.protects(s.created_at, now),
        exists|i: int| policy.kept_by_count() <= i < ordered.len() && ordered[i] == s,
{
    let k = kept_head(ordered, policy);
    let from = ordered.skip(k);
    let pred = unprotected(policy.keep_since, now);
    from.lemma_filter_contains_rev(pred, s);
    let i = choose|i: int| 0 <= i < from.len() && from[i] == s;
    assert(ordered[k + i] == s);
    if policy.protects(s.created_at, now) {
        lemma_age_protection_overrides_count(ordered, policy, now, s);
    }
}

/// Every snapshot behind the newest that the count keeps is deleted, unless
/// its age protects it.
pub proof fn lemma_expired_holds(
    ordered: Seq<SnapshotView>,
    policy: RetentionPolicy,
    now: Timestamp,
    i: int,
)
    requires
        policy.kept_by_count() <= i < ordered.len(),
        !policy.protects(ordered[i].created_at, now),
    ensures
        expired(ordered, policy, now).contains(ordered[i]),
{
    let k = kept_head(ordered, policy);
    let from = ordered.skip(k);
    let pred = unprotected(policy.keep_since, now);
    assert(from[i - k] == ordered[i]);
    from.lemma_filter_contains(pred, i - k);
}

/// A higher count deletes no more: what is deleted under the higher count
/// is the tail of what is deleted under the lower one.
pub proof fn lemma_count_monotonic(
    ordered: Seq<SnapshotView>,
    keep_since: Option<Age>,
    lower: usize,
    higher: usize,
    now: Timestamp,
)
    requires
        lower <= higher,
    ensures
        ({
            let less = expired(
                ordered,
                RetentionPolicy { keep_count: Some(higher), keep_since },
                now,
            );
            let more = expired(
                ordered,
                RetentionPolicy { keep_count: Some(lower), keep_since },
                now,
            );
            less.len() <= more.len() && less.is_suffix_of(more)
        }),
{
    let low = RetentionPolicy { keep_count: Some(lower), keep_since };
    let high = RetentionPolicy { keep_count: Some(higher), keep_since };
    let a = kept_head(ordered, low);
    let b = kept_head(ordered, high);
    let pred = unprotected(keep_since, now);
    let between = ordered.subrange(a, b);
    assert(ordered.skip(a) =~= between + ordered.skip(b));
    Seq::filter_distributes_over_add(between, ordered.skip(b), pred);
    let more = expired(ordered, low, now);
    let less = expired(ordered, high, now);
    assert(more == between.filter(pred) + less);
    assert(less =~= more.subrange(more.len() - less.len(), more.len() as int));
}

/// With a count that no fewer than all snapshots meet, and no age, nothing
/// is deleted.
pub proof fn lemma_few_snapshots_all_kept(
    ordered: Seq<SnapshotView>,
    policy: RetentionPolicy,
    now: Timestamp,
)
    requires
        policy.keep_count matches Some(n) && ordered.len() <= n,
    ensures
        expired(ordered, policy, now).len() == 0,
{
    ordered.skip(kept_head(ordered, policy)).lemma_filter_len(unprotected(policy.keep_since, now));
}

/// Where their age protects all snapshots, nothing is deleted.
pub proof fn lemma_all_protected_all_kept(
    ordered: Seq<SnapshotView>,
    policy: RetentionPolicy,
    now: Timestamp,
)
    requires
        forall|i: int|
            0 <= i < ordered.len() ==> policy.protects((#[trigger] ordered[i]).created_at, now),
    ensures
        expired(ordered, policy, now).len() == 0,
{
    let gone = expired(ordered, policy, now);
    if gone.len() > 0 {
        assert(gone.contains(gone[0]));
        lemma_expired_among(ordered, policy, now, gone[0]);
    }
}

/// What is deleted of snapshots that stand newest first stands newest first.
pub proof fn lemma_expired_sorted(
    ordered: Seq<SnapshotView>,
    policy: RetentionPolicy,
    now: Timestamp,
)
    requires
        is_newest_first(ordered),
    ensures
        is_newest_first(expired(ordered, policy, now)),
{
    let k = kept_head(ordered, policy);
    let from = ordered.skip(k);
    assert(is_newest_first(from)) by {
        assert forall|i: int, j: int| 0 <= i < j < from.len() implies (
        #[trigger] from[i]).created_at.seconds() >= (#[trigger] from[j]).created_at.seconds() by {
            assert(from[i] == ordered[k + i] && from[j] == ordered[k + j]);
        }
    }
    lemma_filter_sorted(from, unprotected(policy.keep_since, now));
}

/// Leaving snapshots out keeps the others newest first.
pub proof fn lemma_filter_sorted(ordered: Seq<SnapshotView>, pred: spec_fn(SnapshotView) -> bool)
    requires
        is_newest_first(ordered),
    ensures
        is_newest_first(ordered.filter(pred)),
    decreases ordered.len(),
{
    reveal(Seq::filter);
    if ordered.len() > 0 {
        let rest = ordered.drop_last();
        let kept = rest.filter(pred);
        assert(is_newest_first(rest)) by {
            assert forall|i: int, j: int| 0 <= i < j < rest.len() implies (
            #[trigger] rest[i]).created_at.seconds() >= (
            #[trigger] rest[j]).created_at.seconds() by {
                assert(rest[i] == ordered[i] && rest[j] == ordered[j]);
            }
        }
        lemma_filter_sorted(rest, pred);
        if pred(ordered.last()) {
            let all = kept.push(ordered.last());
            assert forall|i: int, j: int| 0 <= i < j < all.len() implies (
            #[trigger] all[i]).created_at.seconds() >= (#[trigger] all[j]).created_at.seconds() by {
                if j == kept.len() {
                    assert(kept.contains(kept[i]));
                    rest.lemma_filter_contains_rev(pred, kept[i]);
                    let m = choose|m: int| 0 <= m < rest.len() && rest[m] == kept[i];
                    assert(ordered[m] == kept[i]);
                    assert(ordered[ordered.len() - 1] == all[j]);
                } else {
                    assert(all[i] == kept[i] && all[j] == kept[j]);
                }
            }
        }
    }
}

/// Age protection overrides the count: a snapshot that its age protects is
/// not selected for deletion, whatever the count.
pub proof fn lemma_protected_never_selected(
    names: Seq<Seq<char>>,
    prefix: Seq<char>,
    tokens: Seq<Token>,
    policy: RetentionPolicy,
    now: Timestamp,
    s: SnapshotView,
)
    requires
        policy.protects(s.created_at, now),
    ensures
        !selection(names, prefix, tokens, policy, now).contains(s),
{
    lemma_age_protection_overrides_count(
        by_recency(managed(names, prefix, tokens)),
        policy,
        now,
        s,
    );
}

/// The count is monotonic: with a higher count no more snapshots are
/// selected for deletion, and none that the lower count would have kept.
pub proof fn lemma_selection_count_monotonic(
    names: Seq<Seq<char>>,
    prefix: Seq<char>,
    tokens: Seq<Token>,
    keep_since: Option<Age>,
    lower: usize,
    higher: usize,
    now: Timestamp,
)
    requires
        lower <= higher,
    ensures
        ({
            let less = selection(
                names,
                prefix,
                tokens,
                RetentionPolicy { keep_count: Some(higher), keep_since },
                now,
            );
            let more = selection(
                names,
                prefix,
                tokens,
                RetentionPolicy { keep_count: Some(lower), keep_since },
                now,
            );
            less.len() <= more.len() && less.is_suffix_of(more)
        }),
{
    lemma_count_monotonic(
        by_recency(managed(names, prefix, tokens)),
        keep_since,
        lower,
        higher,
        now,
    );
}

/// Every snapshot selected for deletion is an entry of the listing whose
/// name reads as the moment it was taken at, and its age does not protect
/// it.
pub proof fn lemma_selected_are_managed(
    names: Seq<Seq<char>>,
    prefix: Seq<char>,
    tokens: Seq<Token>,
    policy: RetentionPolicy,
    now: Timestamp,
    s: SnapshotView,
)
    requires
        selection(names, prefix, tokens, policy, now).contains(s),
    ensures
        names.contains(s.name),
        created_at(prefix, tokens, s.name) == Ok::<Timestamp, NameParseError>(s.created_at),
        s.created_at.wf(),
        !policy.protects(s.created_at, now),
{
    let found = managed(names, prefix, tokens);
    lemma_expired_among(by_recency(found), policy, now, s);
    lemma_by_recency_permutes(found);
    lemma_managed_entries(names, prefix, tokens);
    assert(found.contains(s));
    let i = choose|i: int| 0 <= i < found.len() && found[i] == s;
    assert(found[i].created_at.wf());
}

/// An entry whose name does not read as a snapshot's is never selected for
/// deletion.
pub proof fn lemma_unreadable_never_selected(
    names: Seq<Seq<char>>,
    prefix: Seq<char>,
    tokens: Seq<Token>,
    policy: RetentionPolicy,
    now: Timestamp,
    name: Seq<char>,
)
    requires
        created_at(prefix, tokens, name) is Err,
    ensures
        forall|s: SnapshotView| #[trigger]
            selection(names, prefix, tokens, policy, now).contains(s) ==> s.name != name,
{
    assert forall|s: SnapshotView| #[trigger]
        selection(names, prefix, tokens, policy, now).contains(s) implies s.name != name by {
        lemma_selected_are_managed(names, prefix, tokens, policy, now, s);
    }
}

/// Where the listing has no more entries than the count keeps, and the
/// policy sets no age, nothing is selected for deletion.
pub proof fn lemma_within_count_nothing_selected(
    names: Seq<Seq<char>>,
    prefix: Seq<char>,
    tokens: Seq<Token>,
    policy: RetentionPolicy,
    now: Timestamp,
)
    requires
        policy.keep_since is None,
        policy.keep_count matches Some(n) && names.len() <= n,
    ensures
        selection(names, prefix, tokens, policy, now) == Seq::<SnapshotView>::empty(),
{
    let found = managed(names, prefix, tokens);
    lemma_managed_entries(names, prefix, tokens);
    lemma_by_recency_permutes(found);
    lemma_few_snapshots_all_kept(by_recency(found), policy, now);
    assert(selection(names, prefix, tokens, policy, now) =~= Seq::<SnapshotView>::empty());
}

/// The managed snapshots among the entries of a directory: those whose name
/// reads as one, in the order of the listing.
pub fn managed_snapshots(names: &Vec<String>, namer: &Namer) -> (r: Vec<Snapshot>)
    ensures
        views(r@) == managed(texts(names@), namer.prefix@, namer.pattern@),
        all_wf(views(r@)),
{
    let mut out: Vec<Snapshot> = Vec::new();
    let mut i: usize = 0;
    assert(texts(names@).take(0) =~= Seq::<Seq<char>>::empty());
    assert(views(out@) =~= Seq::<SnapshotView>::empty());
    while i < names.len()
        invariant
            i <= names.len(),
            views(out@) == managed(texts(names@).take(i as int), namer.prefix@, namer.pattern@),
            all_wf(views(out@)),
        decreases names.len() - i,
    {
        let ghost before = out@;
        proof {
            assert(texts(names@).take(i + 1).drop_last() =~= texts(names@).take(i as int));
            assert(texts(names@).take(i + 1).last() == names@[i as int]@);
        }
        match namer.parse(names[i].as_str()) {
            Ok(t) => {
                let snapshot = Snapshot { name: names[i].clone(), created_at: t };
                out.push(snapshot);
                assert(views(out@) =~= views(before).push(snapshot@));
            },
            Err(_) => {},
        }
        i = i + 1;
    }
    assert(texts(names@).take(i as int) =~= texts(names@));
    out
}

/// The snapshots, newest first. Snapshots taken at the same moment keep the
/// order they came in.
pub fn newest_first(snapshots: &Vec<Snapshot>) -> (r: Vec<Snapshot>)
    requires
        all_wf(views(snapshots@)),
    ensures
        views(r@) == by_recency(views(snapshots@)),
        is_newest_first(views(r@)),
        views(r@).to_multiset() == views(snapshots@).to_multiset(),
        all_wf(views(r@)),
{
    proof {
        lemma_by_recency_sorted(views(snapshots@));
        lemma_by_recency_permutes(views(snapshots@));
    }
    let mut out: Vec<Snapshot> = Vec::new();
    let mut i: usize = 0;
    assert(views(snapshots@).take(0) =~= Seq::<SnapshotView>::empty());
    assert(views(out@) =~= Seq::<SnapshotView>::empty());
    while i < snapshots.len()
        invariant
            i <= snapshots.len(),
            all_wf(views(snapshots@)),
            views(out@) == by_recency(views(snapshots@).take(i as int)),
            all_wf(views(out@)),
        decreases snapshots.len() - i,
    {
        let ghost before = out@;
        assert(views(snapshots@)[i as int].created_at.wf());
        let snapshot: Snapshot = snapshots[i].clone();
        let at: u64 = snapshot.created_at.to_seconds();
        let mut p: usize = out.len();
        assert(views(out@).take(p as int) =~= views(out@));
        while p > 0 && seconds_at(&out, p - 1) < at
            invariant
                p <= out.len(),
                out@ == before,
                all_wf(views(out@)),
                insertion_point(views(out@), at as int) == insertion_point(
                    views(out@).take(p as int),
                    at as int,
                ),
            decreases p,
        {
            proof {
                assert(views(out@).take(p as int).drop_last() =~= views(out@).take(p - 1));
            }
            p = p - 1;
        }
        out.insert(p, snapshot);
        proof {
            assert(views(before).take(p as int).len() == p);
            assert(views(out@) =~= views(before).insert(p as int, snapshot@));
            assert(views(snapshots@).take(i + 1).drop_last() =~= views(snapshots@).take(
                i as int,
            ));
            assert(views(snapshots@).take(i + 1).last() == snapshot@);
            assert forall|j: int| 0 <= j < views(out@).len() implies (#[trigger] views(
                out@,
            )[j]).created_at.wf() by {
                if j < p {
                    assert(views(out@)[j] == views(before)[j]);
                } else if j > p {
                    assert(views(out@)[j] == views(before)[j - 1]);
                }
            }
        }
        i = i + 1;
    }
    assert(views(snapshots@).take(i as int) =~= views(snapshots@));
    out
}

fn seconds_at(snapshots: &Vec<Snapshot>, i: usize) -> (r: u64)
    requires
        i < snapshots.len(),
        all_wf(views(snapshots@)),
    ensures
        r == views(snapshots@)[i as int].created_at.seconds(),
{
    assert(views(snapshots@)[i as int].created_at.wf());
    snapshots[i].created_at.to_seconds()
}

/// Of snapshots that stand newest first, those that may be deleted: the
/// ones behind the newest that the count keeps, but for those that their
/// age protects. They are returned newest first.
pub fn select_expired(ordered: &Vec<Snapshot>, policy: &RetentionPolicy, now: &Timestamp) -> (r:
    Vec<Snapshot>)
    requires
        all_wf(views(ordered@)),
        now.wf(),
    ensures
        views(r@) == expired(views(ordered@), *policy, *now),
        all_wf(views(r@)),
{
    let n: usize = ordered.len();
    let start: usize = match policy.keep_count {
        Some(k) => if k < n {
            k
        } else {
            n
        },
        None => 0,
    };
    let ghost pred = unprotected(policy.keep_since, *now);
    let ghost all = views(ordered@);
    let mut out: Vec<Snapshot> = Vec::new();
    let mut i: usize = start;
    proof {
        reveal(Seq::filter);
        assert(all.subrange(start as int, start as int) =~= Seq::<SnapshotView>::empty());
        assert(views(out@) =~= Seq::<SnapshotView>::empty());
    }
    while i < n
        invariant
            start <= i <= n == ordered.len(),
            all == views(ordered@),
            all_wf(all),
            now.wf(),
            pred == unprotected(policy.keep_since, *now),
            views(out@) == all.subrange(start as int, i as int).filter(pred),
            all_wf(views(out@)),
        decreases n - i,
    {
        let ghost before = out@;
        assert(all[i as int].created_at.wf());
        proof {
            assert(all.subrange(start as int, i + 1) =~= all.subrange(start as int, i as int).push(
                all[i as int],
            ));
            all.subrange(start as int, i as int).lemma_filter_push(all[i as int], pred);
        }
        if !policy.is_protected(&ordered[i].created_at, now) {
            let snapshot: Snapshot = ordered[i].clone();
            out.push(snapshot);
            assert(views(out@) =~= views(before).push(snapshot@));
        }
        i = i + 1;
    }
    assert(all.subrange(start as int, n as int) =~= all.skip(start as int));
    out
}

/// The snapshots that a cleaning pass deletes from a directory with the
/// entries `names`, newest first. An entry whose name does not read as a
/// snapshot's is neither counted nor deleted.
pub fn select_for_deletion(
    names: &Vec<String>,
    namer: &Namer,
    policy: &RetentionPolicy,
    now: &Timestamp,
) -> (r: Vec<Snapshot>)
    requires
        policy.wf(),
        now.wf(),
    ensures
        views(r@) == selection(texts(names@), namer.prefix@, namer.pattern@, *policy, *now),
        is_newest_first(views(r@)),
        r.len() <= names.len(),
        forall|k: int|
            0 <= k < r.len() ==> {
                let s = #[trigger] r[k];
                &&& texts(names@).contains(s.name@)
                &&& created_at(namer.prefix@, namer.pattern@, s.name@) == Ok::<
                    Timestamp,
                    NameParseError,
                >(s.created_at)
                &&& s.created_at.wf()
                &&& !policy.protects(s.created_at, *now)
            },
{
    let found: Vec<Snapshot> = managed_snapshots(names, namer);
    let ordered: Vec<Snapshot> = newest_first(&found);
    let gone: Vec<Snapshot> = select_expired(&ordered, policy, now);
    proof {
        let entries = texts(names@);
        lemma_managed_entries(entries, namer.prefix@, namer.pattern@);
        lemma_by_recency_permutes(views(found@));
        lemma_by_recency_sorted(views(found@));
        lemma_expired_sorted(views(ordered@), *policy, *now);
        views(ordered@).skip(kept_head(views(ordered@), *policy)).lemma_filter_len(
            unprotected(policy.keep_since, *now),
        );
        assert forall|k: int| 0 <= k < gone.len() implies {
            let s = #[trigger] gone[k];
            &&& entries.contains(s.name@)
            &&& created_at(namer.prefix@, namer.pattern@, s.name@) == Ok::<
                Timestamp,
                NameParseError,
            >(s.created_at)
            &&& s.created_at.wf()
            &&& !policy.protects(s.created_at, *now)
        } by {
            assert(views(gone@)[k] == gone[k]@);
            assert(views(gone@).contains(gone[k]@));
            lemma_selected_are_managed(
                entries,
                namer.prefix@,
                namer.pattern@,
                *policy,
                *now,
                gone[k]@,
            );
        }
    }
    gone
}

} // verus!
