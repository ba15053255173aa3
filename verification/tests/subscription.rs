use backup_stream::resolver::{Resolution, TimeStamp};
use backup_stream::subscription::{ObserveHandle, RegionSubscription, SubscriptionTracer};

#[test]
fn a_subscription_is_observing_until_stopped() {
    let mut sub = RegionSubscription::new(4, ObserveHandle::new(11), Some(TimeStamp(9)));
    assert!(sub.is_observing());
    assert_eq!(sub.region_id(), 4);
    assert_eq!(sub.handle(), ObserveHandle::new(11));
    sub.stop_observing();
    assert!(!sub.is_observing());
    assert_eq!(sub.handle().id, 11);
    assert!(matches!(
        sub.resolver().resolved_ts(),
        Resolution::Settled(TimeStamp(9))
    ));
}

#[test]
fn registering_again_supersedes() {
    let mut subs = SubscriptionTracer::default();
    assert!(subs
        .register_region(1, ObserveHandle::new(10), None)
        .is_none());
    let old = subs
        .register_region(1, ObserveHandle::new(20), Some(TimeStamp(5)))
        .unwrap();
    assert_eq!(old.handle().id, 10);
    assert!(!old.is_observing());
    assert!(subs.is_observing(1));
    assert_eq!(subs.get_subscription_of(1).unwrap().handle().id, 20);
}

#[test]
fn deregistering_hands_the_stopped_subscription_back() {
    let mut subs = SubscriptionTracer::default();
    assert!(subs.deregister_region(1).is_none());
    subs.register_region(1, ObserveHandle::new(10), None);
    subs.register_region(2, ObserveHandle::new(20), None);
    let removed = subs.deregister_region(1).unwrap();
    assert_eq!((removed.region_id(), removed.handle().id), (1, 10));
    assert!(!removed.is_observing());
    assert!(!subs.is_observing(1));
    assert!(subs.is_observing(2));
    assert!(subs.deregister_region(1).is_none());
}

#[test]
fn a_stopped_region_is_forgotten_when_asked_for() {
    let mut subs = SubscriptionTracer::default();
    subs.register_region(1, ObserveHandle::new(10), None);
    subs.register_region(2, ObserveHandle::new(20), None);
    subs.get_subscription_of(1).unwrap().stop_observing();
    assert!(subs.get_subscription_of(1).is_some());
    assert!(!subs.is_observing(1));
    assert!(subs.get_subscription_of(1).is_none());
    assert!(!subs.is_observing(1));
    assert!(subs.is_observing(2));
    assert!(!subs.is_observing(3));
    assert!(subs.get_subscription_of(3).is_none());
}

#[test]
fn an_observation_stopped_elsewhere_is_forgotten() {
    let mut subs = SubscriptionTracer::default();
    subs.register_region(1, ObserveHandle::new(10), None);
    subs.register_region(2, ObserveHandle::new(20), None);
    assert!(subs.is_observing_now(1, true));
    assert!(!subs.is_observing_now(1, false));
    assert!(subs.get_subscription_of(1).is_none());
    // What is no longer traced is not observed, whatever its handle reports.
    assert!(!subs.is_observing_now(1, true));
    assert!(!subs.is_observing_now(3, true));
    // A stop that was recorded counts too.
    subs.get_subscription_of(2).unwrap().stop_observing();
    assert!(!subs.is_observing_now(2, true));
    assert!(subs.get_subscription_of(2).is_none());
}

#[test]
fn changes_through_a_subscription_stay() {
    let mut subs = SubscriptionTracer::default();
    for id in 0..100 {
        subs.register_region(id, ObserveHandle::new(id), Some(TimeStamp(id)));
    }
    for id in 0..100 {
        let resolver = subs.get_subscription_of(id).unwrap().resolver();
        resolver.lock_untracked(b"k", false);
    }
    for id in 0..100 {
        let resolver = subs.get_subscription_of(id).unwrap().resolver();
        assert!(resolver.track_lock(TimeStamp(1), b"k".to_vec()).is_none());
        assert!(resolver.track_lock(TimeStamp(1), b"k".to_vec()).is_some());
    }
}

#[test]
fn without_regions_min_ts_is_resolved() {
    let mut subs = SubscriptionTracer::default();
    let round = subs.resolve_with(TimeStamp(77));
    assert!(round.asked.is_empty());
    assert!(round.settled.is_none());
    assert_eq!(round.finish(&vec![]), TimeStamp(77));
}

#[test]
fn a_round_takes_the_earliest_timestamp() {
    let mut subs = SubscriptionTracer::default();
    subs.register_region(1, ObserveHandle::new(1), Some(TimeStamp(50)));
    subs.register_region(2, ObserveHandle::new(2), Some(TimeStamp(40)));
    subs.register_region(3, ObserveHandle::new(3), None);
    subs.register_region(4, ObserveHandle::new(4), None);

    let round = subs.resolve_with(TimeStamp(60));
    assert_eq!(round.min_ts, TimeStamp(60));
    assert_eq!(round.settled, Some(TimeStamp(40)));
    let mut asked = round.asked.clone();
    asked.sort();
    assert_eq!(asked, vec![3, 4]);
    assert_eq!(
        round.finish(&vec![TimeStamp(60), TimeStamp(55)]),
        TimeStamp(40)
    );
    assert_eq!(
        round.finish(&vec![TimeStamp(60), TimeStamp(30)]),
        TimeStamp(30)
    );

    // min_ts bounds what the scanned regions are resolved to.
    let round = subs.resolve_with(TimeStamp(35));
    assert_eq!(round.settled, Some(TimeStamp(35)));

    // The end of the scanning hands the region over to its lock resolver.
    for id in [1, 2] {
        subs.get_subscription_of(id).unwrap().resolver().phase_one_done();
    }
    let round = subs.resolve_with(TimeStamp(60));
    assert_eq!(round.settled, None);
    assert_eq!(round.asked.len(), 4);
    let answers = [9, 8, 7, 8].map(TimeStamp).to_vec();
    assert_eq!(round.finish(&answers), TimeStamp(7));
}
