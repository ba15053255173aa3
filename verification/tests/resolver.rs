use std::collections::HashSet;

use backup_stream::resolver::{Resolution, ResolverOp, TimeStamp, TwoPhaseResolver};

fn settled(resolution: Resolution) -> Option<u64> {
    match resolution {
        Resolution::Settled(ts) => Some(ts.0),
        Resolution::Ask(_) => None,
    }
}

fn forwarded(op: Option<ResolverOp>) -> Option<(u64, u64, Vec<u8>)> {
    match op {
        Some(ResolverOp::TrackLock {
            region_id,
            start_ts,
            key,
        }) => Some((region_id, start_ts.0, key)),
        _ => None,
    }
}

#[test]
fn scanning_holds_the_resolved_ts() {
    let r = TwoPhaseResolver::new(1, Some(TimeStamp(42)));
    assert_eq!(settled(r.resolve(TimeStamp(100))), Some(42));
    assert_eq!(settled(r.resolve(TimeStamp(42))), Some(42));
    assert_eq!(settled(r.resolve(TimeStamp(7))), Some(7));
    assert_eq!(settled(r.resolved_ts()), Some(42));
}

#[test]
fn after_scanning_the_lock_resolver_is_asked() {
    let mut r = TwoPhaseResolver::new(8, Some(TimeStamp(42)));
    r.phase_one_done();
    assert!(matches!(
        r.resolve(TimeStamp(100)),
        Resolution::Ask(ResolverOp::Resolve {
            region_id: 8,
            min_ts: TimeStamp(100)
        })
    ));
    assert!(matches!(
        r.resolved_ts(),
        Resolution::Ask(ResolverOp::ResolvedTs { region_id: 8 })
    ));
    let r = TwoPhaseResolver::new(9, None);
    assert!(matches!(
        r.resolved_ts(),
        Resolution::Ask(ResolverOp::ResolvedTs { region_id: 9 })
    ));
}

#[test]
fn a_released_lock_is_skipped_once() {
    let mut r = TwoPhaseResolver::new(3, Some(TimeStamp(42)));
    r.lock_untracked(b"k", false);
    r.lock_untracked(b"j", false);
    r.lock_untracked(b"l", false);
    assert_eq!(
        forwarded(r.track_lock(TimeStamp(50), b"other".to_vec())),
        Some((3, 50, b"other".to_vec()))
    );
    assert!(r.track_lock(TimeStamp(50), b"k".to_vec()).is_none());
    assert_eq!(
        forwarded(r.track_lock(TimeStamp(51), b"k".to_vec())),
        Some((3, 51, b"k".to_vec()))
    );
    assert!(r.track_lock(TimeStamp(50), b"j".to_vec()).is_none());
    assert!(r.track_lock(TimeStamp(50), b"l".to_vec()).is_none());
}

#[test]
fn a_release_is_handed_to_the_lock_resolver() {
    let r = TwoPhaseResolver::new(3, None);
    assert!(matches!(
        r.untrack_lock(b"k"),
        ResolverOp::TryUntrackLock { region_id: 3, key } if key == b"k".to_vec()
    ));
}

#[test]
fn releasing_twice_is_recorded_once() {
    let mut r = TwoPhaseResolver::new(3, Some(TimeStamp(42)));
    r.lock_untracked(b"k", false);
    r.lock_untracked(b"k", false);
    assert!(r.track_lock(TimeStamp(50), b"k".to_vec()).is_none());
    assert!(r.track_lock(TimeStamp(50), b"k".to_vec()).is_some());
}

#[test]
fn a_tracked_lock_is_not_recorded() {
    let mut r = TwoPhaseResolver::new(3, Some(TimeStamp(42)));
    r.lock_untracked(b"k", true);
    assert!(r.track_lock(TimeStamp(50), b"k".to_vec()).is_some());
}

#[test]
fn the_second_phase_records_nothing() {
    let mut r = TwoPhaseResolver::new(3, None);
    r.lock_untracked(b"k", false);
    assert!(r.track_lock(TimeStamp(50), b"k".to_vec()).is_some());

    // The end of the scanning forgets what was recorded.
    let mut r = TwoPhaseResolver::new(3, Some(TimeStamp(42)));
    r.lock_untracked(b"k", false);
    r.phase_one_done();
    r.phase_one_done();
    assert!(r.track_lock(TimeStamp(50), b"k".to_vec()).is_some());
}

#[test]
fn the_earlier_timestamp() {
    assert_eq!(TimeStamp(3).min(TimeStamp(4)), TimeStamp(3));
    assert_eq!(TimeStamp(4).min(TimeStamp(3)), TimeStamp(3));
    assert_eq!(TimeStamp(4).min(TimeStamp(4)), TimeStamp(4));
}

fn see(r: &mut TwoPhaseResolver, held: &mut HashSet<Vec<u8>>, key: &[u8]) {
    if let Some((_, _, key)) = forwarded(r.track_lock(TimeStamp(50), key.to_vec())) {
        held.insert(key);
    }
}

fn release(r: &mut TwoPhaseResolver, held: &mut HashSet<Vec<u8>>, key: &[u8]) {
    if let ResolverOp::TryUntrackLock { key, .. } = r.untrack_lock(key) {
        let was_tracked = held.remove(&key);
        r.lock_untracked(&key, was_tracked);
    }
}

#[test]
fn lock_events_commute_while_scanning() {
    for released_first in [false, true] {
        let mut r = TwoPhaseResolver::new(3, Some(TimeStamp(42)));
        let mut held = HashSet::new();
        if released_first {
            release(&mut r, &mut held, b"k");
            see(&mut r, &mut held, b"k");
        } else {
            see(&mut r, &mut held, b"k");
            release(&mut r, &mut held, b"k");
        }
        assert!(held.is_empty());
        // Nothing is remembered of it: the next lock is tracked.
        see(&mut r, &mut held, b"k");
        assert_eq!(held.len(), 1);
    }
}
