//! Resolving a region while its initial scanning and its incremental
//! listening run at the same time.
//!
//! The locks of a region are held by a lock resolver outside this library,
//! which is known here by the region it serves. What happens to a lock event
//! is decided here, and what the lock resolver has to do is handed out as a
//! [`ResolverOp`].
use crate::keys::KeySet;
use vstd::prelude::*;
use vstd::slice::slice_to_vec;

verus! {

/// A timestamp of the cluster's clock.
#[derive(Clone, Copy, Debug, PartialEq, Eq, PartialOrd, Ord, Structural)]
pub struct TimeStamp(pub u64);

impl TimeStamp {
    /// Whether this timestamp is not later than the other.
    pub open spec fn at_most(self, other: TimeStamp) -> bool {
        self.0 <= other.0
    }

    /// The earlier of the two.
    pub open spec fn spec_min(self, other: TimeStamp) -> TimeStamp {
        if self.0 <= other.0 {
            self
        } else {
            other
        }
    }

    /// The earlier of the two.
    pub fn min(self, other: TimeStamp) -> (least: TimeStamp)
        ensures
            least == self.spec_min(other),
            least.0 <= self.0,
            least.0 <= other.0,
            least == self || least == other,
    {
        if self.0 <= other.0 {
            self
        } else {
            other
        }
    }
}

/// A call that the lock resolver of a region has to serve.
pub enum ResolverOp {
    /// Track the lock that the transaction of `start_ts` holds on `key`.
    TrackLock { region_id: u64, start_ts: TimeStamp, key: Vec<u8> },
    /// Untrack the lock on `key`, and report whether it was tracked.
    TryUntrackLock { region_id: u64, key: Vec<u8> },
    /// Advance the resolved timestamp as far as the tracked locks and `min_ts`
    /// allow, and report it.
    Resolve { region_id: u64, min_ts: TimeStamp },
    /// Report the resolved timestamp.
    ResolvedTs { region_id: u64 },
}

/// A timestamp, or the call that gets it.
pub enum Resolution {
    /// The timestamp is known without the lock resolver.
    Settled(TimeStamp),
    /// The lock resolver has to be asked.
    Ask(ResolverOp),
}

/// What a [`TwoPhaseResolver`] knows.
#[verifier::ext_equal]
pub ghost struct ResolverView {
    /// The region whose locks are resolved.
    pub region_id: u64,
    /// The locks that were released before they were seen.
    pub future_locks: Set<Seq<u8>>,
    /// The start of the initial scanning, while it runs.
    pub stable_ts: Option<TimeStamp>,
}

impl ResolverView {
    /// Released locks are remembered during the initial scanning only.
    pub open spec fn valid(self) -> bool {
        self.stable_ts is None ==> self.future_locks == Set::<Seq<u8>>::empty()
    }

    /// Whether a lock that is now seen goes on to the lock resolver.
    pub open spec fn tracks(self, key: Seq<u8>) -> bool {
        !self.future_locks.contains(key)
    }

    /// After a lock on `key` has been seen.
    pub open spec fn after_track(self, key: Seq<u8>) -> ResolverView {
        ResolverView { future_locks: self.future_locks.remove(key), ..self }
    }

    /// After the lock on `key` has been released, which the lock resolver had
    /// tracked or not.
    pub open spec fn after_untrack(self, key: Seq<u8>, was_tracked: bool) -> ResolverView {
        if !was_tracked && self.stable_ts is Some {
            ResolverView { future_locks: self.future_locks.insert(key), ..self }
        } else {
            self
        }
    }

    /// After the initial scanning has ended.
    pub open spec fn after_phase_one(self) -> ResolverView {
        ResolverView { future_locks: Set::empty(), stable_ts: None, ..self }
    }

    /// How the resolved timestamp is advanced to at most `min_ts`.
    pub open spec fn resolution(self, min_ts: TimeStamp) -> Resolution {
        match self.stable_ts {
            Some(stable_ts) => Resolution::Settled(min_ts.spec_min(stable_ts)),
            None => Resolution::Ask(ResolverOp::Resolve { region_id: self.region_id, min_ts }),
        }
    }

    /// How the resolved timestamp is read.
    pub open spec fn resolved(self) -> Resolution {
        match self.stable_ts {
            Some(stable_ts) => Resolution::Settled(stable_ts),
            None => Resolution::Ask(ResolverOp::ResolvedTs { region_id: self.region_id }),
        }
    }
}

/// Decides how lock events are resolved during the two phases of observing a
/// region, which run concurrently:
/// 1. The initial scanning.
/// 2. Listening to the incremental data.
///
/// - The resolved timestamp does not pass `stable_ts` while there is one, so
///   it does not run ahead of an initial scanning that has not finished.
/// - A lock that is released before it has been tracked is recorded, and
///   skipped when it is to be tracked later.
pub struct TwoPhaseResolver {
    region_id: u64,
    future_locks: KeySet,
    /// When `Some`, the start of the initial scanning, which is still running.
    stable_ts: Option<TimeStamp>,
}

impl View for TwoPhaseResolver {
    type V = ResolverView;

    closed spec fn view(&self) -> ResolverView {
        ResolverView {
            region_id: self.region_id,
            future_locks: self.future_locks@,
            stable_ts: self.stable_ts,
        }
    }
}

impl TwoPhaseResolver {
    /// Released locks are remembered during the initial scanning only.
    pub closed spec fn wf(&self) -> bool {
        self.future_locks.wf() && self@.valid()
    }

    /// A resolver that is in order remembers released locks during the initial
    /// scanning only.
    pub proof fn lemma_wf_is_valid(&self)
        requires
            self.wf(),
        ensures
            self@.valid(),
    {
    }

    /// A resolver for a region whose initial scanning starts at `stable_ts`,
    /// or which is not scanned.
    pub fn new(region_id: u64, stable_ts: Option<TimeStamp>) -> (resolver: Self)
        ensures
            resolver.wf(),
            resolver@ == (ResolverView { region_id, future_locks: Set::empty(), stable_ts }),
    {
        TwoPhaseResolver { region_id, future_locks: KeySet::new(), stable_ts }
    }

    /// A lock on `key` has been seen. Returns the call that tracks it, or
    /// `None` where the lock has been released already.
    pub fn track_lock(&mut self, start_ts: TimeStamp, key: Vec<u8>) -> (op: Option<ResolverOp>)
        requires
            old(self).wf(),
        ensures
            final(self).wf(),
            final(self)@ == old(self)@.after_track(key@),
            op == if old(self)@.tracks(key@) {
                Some(ResolverOp::TrackLock { region_id: old(self)@.region_id, start_ts, key })
            } else {
                None
            },
            op is None <==> old(self)@.future_locks.contains(key@),
            final(self)@.stable_ts == old(self)@.stable_ts,
            final(self)@.region_id == old(self)@.region_id,
    {
        let released = self.future_locks.remove(key.as_slice());
        assert(self.stable_ts is None ==> self.future_locks@ =~= Set::<Seq<u8>>::empty());
        if released {
            return None;
        }
        Some(ResolverOp::TrackLock { region_id: self.region_id, start_ts, key })
    }

    /// The lock on `key` has been released. Returns the call that untracks it;
    /// [`TwoPhaseResolver::lock_untracked`] takes the outcome.
    pub fn untrack_lock(&self, key: &[u8]) -> (op: ResolverOp)
        ensures
            op matches ResolverOp::TryUntrackLock { region_id, key: k } && region_id
                == self@.region_id && k@ == key@,
    {
        ResolverOp::TryUntrackLock { region_id: self.region_id, key: slice_to_vec(key) }
    }

    /// The lock resolver has been asked to untrack the lock on `key`.
    /// `was_tracked` says whether it had been tracking it.
    ///
    /// During the initial scanning every lock that was not tracked is
    /// recorded.
    pub fn lock_untracked(&mut self, key: &[u8], was_tracked: bool)
        requires
            old(self).wf(),
        ensures
            final(self).wf(),
            final(self)@ == old(self)@.after_untrack(key@, was_tracked),
            final(self)@.stable_ts == old(self)@.stable_ts,
            final(self)@.region_id == old(self)@.region_id,
    {
        if !was_tracked && self.stable_ts.is_some() {
            self.future_locks.insert(slice_to_vec(key));
        }
    }

    /// The timestamp up to which the region is resolved, given that nothing
    /// before `min_ts` is locked in memory.
    pub fn resolve(&self, min_ts: TimeStamp) -> (resolution: Resolution)
        ensures
            resolution == self@.resolution(min_ts),
            self@.stable_ts matches Some(stable_ts) ==> {
                &&& resolution matches Resolution::Settled(ts)
                &&& ts.0 <= stable_ts.0
                &&& ts.0 <= min_ts.0
                &&& ts == stable_ts || ts == min_ts
            },
            self@.stable_ts is None ==> resolution == Resolution::Ask(
                ResolverOp::Resolve { region_id: self@.region_id, min_ts },
            ),
    {
        if let Some(stable_ts) = self.stable_ts {
            return Resolution::Settled(min_ts.min(stable_ts));
        }
        Resolution::Ask(ResolverOp::Resolve { region_id: self.region_id, min_ts })
    }

    /// The timestamp up to which the region has been resolved.
    pub fn resolved_ts(&self) -> (resolution: Resolution)
        ensures
            resolution == self@.resolved(),
            self@.stable_ts matches Some(stable_ts) ==> resolution == Resolution::Settled(
                stable_ts,
            ),
            self@.stable_ts is None ==> resolution == Resolution::Ask(
                ResolverOp::ResolvedTs { region_id: self@.region_id },
            ),
    {
        if let Some(stable_ts) = self.stable_ts {
            return Resolution::Settled(stable_ts);
        }
        Resolution::Ask(ResolverOp::ResolvedTs { region_id: self.region_id })
    }

    /// The initial scanning has ended.
    pub fn phase_one_done(&mut self)
        requires
            old(self).wf(),
        ensures
            final(self).wf(),
            final(self)@ == old(self)@.after_phase_one(),
            final(self)@.future_locks == Set::<Seq<u8>>::empty(),
            final(self)@.stable_ts is None,
            final(self)@.region_id == old(self)@.region_id,
    {
        if !self.future_locks.is_empty() {
            self.future_locks.clear();
        }
        self.stable_ts = None;
    }
}

/// Every event keeps it that released locks are remembered during the initial
/// scanning only.
pub proof fn law_events_keep_validity(v: ResolverView, key: Seq<u8>, was_tracked: bool)
    requires
        v.valid(),
    ensures
        v.after_track(key).valid(),
        v.after_untrack(key, was_tracked).valid(),
        v.after_phase_one().valid(),
{
    assert(v.stable_ts is None ==> v.after_track(key).future_locks =~= Set::<Seq<u8>>::empty());
}

/// While the initial scanning runs, the resolved timestamp is the start of
/// the scanning, a resolution passes neither that nor `min_ts`, and the lock
/// resolver is not asked, so its own progress does not show.
pub proof fn law_resolution_stays_at_stable_ts(
    v: ResolverView,
    min_ts: TimeStamp,
    stable_ts: TimeStamp,
)
    requires
        v.stable_ts == Some(stable_ts),
    ensures
        v.resolution(min_ts) matches Resolution::Settled(ts) && ts.at_most(stable_ts) && ts.at_most(
            min_ts,
        ) && (ts == stable_ts || ts == min_ts),
        v.resolved() == Resolution::Settled(stable_ts),
{
}

/// A lock that is released during the initial scanning before it has been
/// tracked is skipped when it is seen afterwards. This happens once: the same
/// lock seen again goes on to the lock resolver.
pub proof fn law_released_lock_is_skipped_once(v: ResolverView, key: Seq<u8>)
    requires
        v.stable_ts is Some,
    ensures
        !v.after_untrack(key, false).tracks(key),
        v.after_untrack(key, false).after_track(key).tracks(key),
        v.tracks(key) ==> v.after_untrack(key, false).after_track(key) == v,
{
    let w = v.after_untrack(key, false).after_track(key);
    assert(v.tracks(key) ==> w.future_locks =~= v.future_locks);
}

/// What happens to the lock on one key does not change what happens to the
/// lock on another.
pub proof fn law_keys_are_independent(
    v: ResolverView,
    key: Seq<u8>,
    other: Seq<u8>,
    was_tracked: bool,
)
    requires
        key != other,
    ensures
        v.after_track(key).tracks(other) == v.tracks(other),
        v.after_untrack(key, was_tracked).tracks(other) == v.tracks(other),
{
}

/// In the second phase every lock that is seen goes on to the lock resolver,
/// releasing an untracked lock changes nothing, and timestamps come from the
/// lock resolver.
pub proof fn law_second_phase_is_transparent(
    v: ResolverView,
    key: Seq<u8>,
    was_tracked: bool,
    min_ts: TimeStamp,
)
    requires
        v.valid(),
        v.stable_ts is None,
    ensures
        v.tracks(key),
        v.after_track(key) == v,
        v.after_untrack(key, was_tracked) == v,
        v.resolution(min_ts) == Resolution::Ask(
            ResolverOp::Resolve { region_id: v.region_id, min_ts },
        ),
        v.resolved() == Resolution::Ask(ResolverOp::ResolvedTs { region_id: v.region_id }),
{
    assert(v.after_track(key).future_locks =~= v.future_locks);
}

/// The end of the initial scanning starts the second phase; ending it again
/// changes nothing.
pub proof fn law_phase_one_ends_once(v: ResolverView)
    ensures
        v.after_phase_one().stable_ts is None,
        v.after_phase_one().region_id == v.region_id,
        v.after_phase_one().after_phase_one() == v.after_phase_one(),
{
}

/// The resolver and the locks that its lock resolver holds, after a lock on
/// `key` has been seen.
pub open spec fn lock_seen(v: ResolverView, held: Set<Seq<u8>>, key: Seq<u8>) -> (
    ResolverView,
    Set<Seq<u8>>,
) {
    (
        v.after_track(key),
        if v.tracks(key) {
            held.insert(key)
        } else {
            held
        },
    )
}

/// The resolver and the locks that its lock resolver holds, after the lock on
/// `key` has been released.
pub open spec fn lock_released(v: ResolverView, held: Set<Seq<u8>>, key: Seq<u8>) -> (
    ResolverView,
    Set<Seq<u8>>,
) {
    (v.after_untrack(key, held.contains(key)), held.remove(key))
}

/// During the initial scanning it does not matter in which order a lock is
/// seen and released: either way no trace of it remains, provided that the
/// lock resolver holds the locks that it was told to track and not to untrack.
pub proof fn law_lock_events_commute(v: ResolverView, held: Set<Seq<u8>>, key: Seq<u8>)
    requires
        v.stable_ts is Some,
        v.tracks(key),
        !held.contains(key),
    ensures
        ({
            let seen = lock_seen(v, held, key);
            lock_released(seen.0, seen.1, key) == (v, held)
        }),
        ({
            let released = lock_released(v, held, key);
            lock_seen(released.0, released.1, key) == (v, held)
        }),
{
    let seen = lock_seen(v, held, key);
    let released = lock_released(v, held, key);
    assert(lock_released(seen.0, seen.1, key).0 =~= v);
    assert(lock_released(seen.0, seen.1, key).1 =~= held);
    assert(lock_seen(released.0, released.1, key).0 =~= v);
    assert(lock_seen(released.0, released.1, key).1 =~= held);
}

/// The earlier of two timestamps is one of them, and later than neither.
pub proof fn law_min_is_the_earlier(a: TimeStamp, b: TimeStamp)
    ensures
        a.spec_min(b) == a || a.spec_min(b) == b,
        a.spec_min(b).0 <= a.0,
        a.spec_min(b).0 <= b.0,
        a.at_most(b) <==> a.0 <= b.0,
{
}

/// Seeing a lock and releasing one, tracked or not, leave the region and the
/// start of its initial scanning as they were: only the end of the scanning
/// changes that. So neither changes what the region is resolved to.
pub proof fn law_lock_events_keep_stable_ts(
    v: ResolverView,
    key: Seq<u8>,
    was_tracked: bool,
    min_ts: TimeStamp,
)
    ensures
        v.after_track(key).stable_ts == v.stable_ts,
        v.after_track(key).region_id == v.region_id,
        v.after_track(key).resolution(min_ts) == v.resolution(min_ts),
        v.after_track(key).resolved() == v.resolved(),
        v.after_untrack(key, was_tracked).stable_ts == v.stable_ts,
        v.after_untrack(key, was_tracked).region_id == v.region_id,
        v.after_untrack(key, was_tracked).resolution(min_ts) == v.resolution(min_ts),
        v.after_untrack(key, was_tracked).resolved() == v.resolved(),
{
}

/// A released lock is recorded exactly where it was not tracked and the
/// initial scanning runs; a lock that has been seen is no longer recorded; and
/// neither changes what is recorded of other locks. A lock goes on to the lock
/// resolver exactly where it is not recorded. At the end of the scanning
/// nothing is recorded, and in the second phase nothing ever is.
pub proof fn law_records_released_locks(
    v: ResolverView,
    key: Seq<u8>,
    other: Seq<u8>,
    was_tracked: bool,
)
    ensures
        v.tracks(key) <==> !v.future_locks.contains(key),
        v.after_track(key).future_locks.contains(other) <==> other != key
            && v.future_locks.contains(other),
        v.after_untrack(key, was_tracked).future_locks.contains(other) <==> {
            ||| v.future_locks.contains(other)
            ||| other == key && !was_tracked && v.stable_ts is Some
        },
        !v.after_phase_one().future_locks.contains(other),
        v.after_phase_one().tracks(key),
        v.valid() <==> (v.stable_ts is Some || forall|k: Seq<u8>|
            !#[trigger] v.future_locks.contains(k)),
{
    if v.stable_ts is None && forall|k: Seq<u8>| !#[trigger] v.future_locks.contains(k) {
        assert(v.future_locks =~= Set::<Seq<u8>>::empty());
    }
}

/// What happens to the locks of a region.
pub ghost enum LockEvent {
    /// A lock on the key has been seen.
    Seen { key: Seq<u8> },
    /// The lock on the key has been released, which the lock resolver had
    /// tracked or not.
    Released { key: Seq<u8>, was_tracked: bool },
}

/// Whatever happens to its locks, a region stays at the start of its initial
/// scanning: after any events since a resolver was made, the resolved
/// timestamp is that start, and a resolution is the earlier of it and
/// `min_ts`. Where the region is not scanned, the lock resolver is asked.
///
/// `states` holds the resolver before the first event and after each event.
pub proof fn law_history_keeps_stable_ts(
    states: Seq<ResolverView>,
    events: Seq<LockEvent>,
    region_id: u64,
    start_ts: Option<TimeStamp>,
    min_ts: TimeStamp,
)
    requires
        states.len() == events.len() + 1,
        states[0] == (ResolverView { region_id, future_locks: Set::empty(), stable_ts: start_ts }),
        forall|i: int|
            0 <= i < events.len() ==> match #[trigger] events[i] {
                LockEvent::Seen { key } => states[i + 1] == states[i].after_track(key),
                LockEvent::Released { key, was_tracked } => states[i + 1]
                    == states[i].after_untrack(key, was_tracked),
            },
    ensures
        states.last().stable_ts == start_ts,
        states.last().region_id == region_id,
        match start_ts {
            Some(start) => {
                &&& states.last().resolved() == Resolution::Settled(start)
                &&& states.last().resolution(min_ts) matches Resolution::Settled(ts)
                &&& ts.0 <= start.0
                &&& ts.0 <= min_ts.0
                &&& ts == start || ts == min_ts
            },
            None => {
                &&& states.last().resolved() == Resolution::Ask(
                    ResolverOp::ResolvedTs { region_id },
                )
                &&& states.last().resolution(min_ts) == Resolution::Ask(
                    ResolverOp::Resolve { region_id, min_ts },
                )
            },
        },
    decreases events.len(),
{
    if events.len() > 0 {
        let n = events.len() - 1;
        assert forall|i: int| 0 <= i < n implies match #[trigger] events.drop_last()[i] {
            LockEvent::Seen { key } => states.drop_last()[i + 1]
                == states.drop_last()[i].after_track(key),
            LockEvent::Released { key, was_tracked } => states.drop_last()[i + 1]
                == states.drop_last()[i].after_untrack(key, was_tracked),
        } by {
            assert(events.drop_last()[i] == events[i]);
        }
        law_history_keeps_stable_ts(
            states.drop_last(),
            events.drop_last(),
            region_id,
            start_ts,
            min_ts,
        );
        assert(states.drop_last().last() == states[n]);
        assert(events[n] == events.last());
    }
}

/// During the initial scanning a lock that is seen goes on to the lock
/// resolver unless it was released untracked and has not been seen since. In
/// particular, a resolver that has just been made tracks every lock. Where the
/// region is not scanned, every lock goes on.
///
/// `states` holds the resolver before the first event and after each event.
pub proof fn law_history_decides_tracking(
    states: Seq<ResolverView>,
    events: Seq<LockEvent>,
    region_id: u64,
    start_ts: Option<TimeStamp>,
    key: Seq<u8>,
)
    requires
        states.len() == events.len() + 1,
        states[0] == (ResolverView { region_id, future_locks: Set::empty(), stable_ts: start_ts }),
        forall|i: int|
            0 <= i < events.len() ==> match #[trigger] events[i] {
                LockEvent::Seen { key } => states[i + 1] == states[i].after_track(key),
                LockEvent::Released { key, was_tracked } => states[i + 1]
                    == states[i].after_untrack(key, was_tracked),
            },
    ensures
        states.last().stable_ts == start_ts,
        !states.last().tracks(key) <==> start_ts is Some && exists|i: int|
            {
                &&& 0 <= i < events.len()
                &&& #[trigger] events[i] == (LockEvent::Released { key, was_tracked: false })
                &&& forall|j: int|
                    i < j < events.len() ==> #[trigger] events[j] != (LockEvent::Seen { key })
            },
    decreases events.len(),
{
    if events.len() > 0 {
        let n = events.len() - 1;
        let before = events.drop_last();
        assert forall|i: int| 0 <= i < n implies match #[trigger] before[i] {
            LockEvent::Seen { key } => states.drop_last()[i + 1]
                == states.drop_last()[i].after_track(key),
            LockEvent::Released { key, was_tracked } => states.drop_last()[i + 1]
                == states.drop_last()[i].after_untrack(key, was_tracked),
        } by {
            assert(before[i] == events[i]);
        }
        law_history_decides_tracking(states.drop_last(), before, region_id, start_ts, key);
        assert(states.drop_last().last() == states[n]);
        let released = LockEvent::Released { key, was_tracked: false };
        let seen = LockEvent::Seen { key };
        if start_ts is Some && !states[n].tracks(key) && events[n] != seen {
            let i = choose|i: int|
                {
                    &&& 0 <= i < before.len()
                    &&& #[trigger] before[i] == released
                    &&& forall|j: int| i < j < before.len() ==> #[trigger] before[j] != seen
                };
            assert(events[i] == released);
            assert forall|j: int| i < j < events.len() implies #[trigger] events[j] != seen by {
                if j < n {
                    assert(before[j] == events[j]);
                }
            }
        }
        if states[n].tracks(key) && events[n] != released {
            assert forall|i: int| 0 <= i < events.len() && #[trigger] events[i] == released implies (
            exists|j: int| i < j < events.len() && #[trigger] events[j] == seen) || start_ts
                is None by {
                assert(before[i] == released);
                if start_ts is Some {
                    let j = choose|j: int| i < j < before.len() && #[trigger] before[j] == seen;
                    assert(events[j] == seen);
                }
            }
        }
    }
}

/// What the lock resolver holds follows the calls that it is given: a lock
/// that is seen is held afterwards where it goes on, one that is released is
/// not held afterwards, and other locks stay as they were.
pub proof fn law_held_locks(v: ResolverView, held: Set<Seq<u8>>, key: Seq<u8>, other: Seq<u8>)
    ensures
        lock_seen(v, held, key).0 == v.after_track(key),
        lock_seen(v, held, key).1.contains(other) <==> held.contains(other) || (other == key
            && !v.future_locks.contains(key)),
        lock_released(v, held, key).0 == v.after_untrack(key, held.contains(key)),
        lock_released(v, held, key).1.contains(other) <==> held.contains(other) && other != key,
{
}

} // verus!
