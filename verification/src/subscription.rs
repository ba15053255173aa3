//! The regions whose changes are being observed.
use crate::resolver::{Resolution, ResolverView, TimeStamp, TwoPhaseResolver};
use dashmap::DashMap;
use vstd::prelude::*;

verus! {

/// An observation of a region's changes: what identifies it, and whether it
/// goes on, as far as has been reported.
#[derive(Clone, Copy, Debug, PartialEq, Eq, Structural)]
pub struct ObserveHandle {
    /// What tells one observation from another.
    pub id: u64,
    /// Whether the observation goes on.
    pub observing: bool,
}

impl ObserveHandle {
    /// An observation that goes on.
    pub fn new(id: u64) -> (handle: ObserveHandle)
        ensures
            handle == (ObserveHandle { id, observing: true }),
    {
        ObserveHandle { id, observing: true }
    }

    /// Ends the observation.
    pub fn stop_observing(&mut self)
        ensures
            *final(self) == (ObserveHandle { observing: false, ..*old(self) }),
    {
        self.observing = false;
    }

    /// Whether the observation goes on.
    pub fn is_observing(&self) -> (observing: bool)
        ensures
            observing == self.observing,
    {
        self.observing
    }
}

/// What a [`RegionSubscription`] holds.
#[verifier::ext_equal]
pub ghost struct SubscriptionView {
    /// The region.
    pub region_id: u64,
    /// The observation of the region.
    pub handle: ObserveHandle,
    /// How far the region is resolved.
    pub resolver: ResolverView,
}

impl SubscriptionView {
    /// The resolver is in order and serves this region.
    pub open spec fn valid(self) -> bool {
        self.resolver.valid() && self.resolver.region_id == self.region_id
    }

    /// The subscription with its observation ended.
    pub open spec fn stopped(self) -> SubscriptionView {
        SubscriptionView { handle: ObserveHandle { observing: false, ..self.handle }, ..self }
    }

    /// A fresh subscription.
    pub open spec fn fresh(
        region_id: u64,
        handle: ObserveHandle,
        start_ts: Option<TimeStamp>,
    ) -> SubscriptionView {
        SubscriptionView {
            region_id,
            handle,
            resolver: ResolverView {
                region_id,
                future_locks: Set::empty(),
                stable_ts: start_ts,
            },
        }
    }
}

/// A region that is being observed.
pub struct RegionSubscription {
    region_id: u64,
    handle: ObserveHandle,
    resolver: TwoPhaseResolver,
}

impl View for RegionSubscription {
    type V = SubscriptionView;

    closed spec fn view(&self) -> SubscriptionView {
        SubscriptionView {
            region_id: self.region_id,
            handle: self.handle,
            resolver: self.resolver@,
        }
    }
}

impl RegionSubscription {
    /// The resolver is in order and serves this region.
    pub closed spec fn wf(&self) -> bool {
        self.resolver.wf() && self.resolver@.region_id == self.region_id
    }

    /// The resolver of a subscription that is in order serves its region.
    pub proof fn lemma_wf_is_valid(&self)
        requires
            self.wf(),
        ensures
            self@.valid(),
    {
        self.resolver.lemma_wf_is_valid();
    }

    /// A subscription whose initial scanning starts at `start_ts`, or which is
    /// not scanned.
    pub fn new(region_id: u64, handle: ObserveHandle, start_ts: Option<TimeStamp>) -> (sub: Self)
        ensures
            sub.wf(),
            sub@ == SubscriptionView::fresh(region_id, handle, start_ts),
            sub@.region_id == region_id,
            sub@.handle == handle,
            sub@.resolver == (ResolverView {
                region_id,
                future_locks: Set::empty(),
                stable_ts: start_ts,
            }),
    {
        RegionSubscription { handle, region_id, resolver: TwoPhaseResolver::new(region_id, start_ts) }
    }

    /// The observation of the region.
    pub fn handle(&self) -> (handle: ObserveHandle)
        ensures
            handle == self@.handle,
    {
        self.handle
    }

    /// The region.
    pub fn region_id(&self) -> (region_id: u64)
        ensures
            region_id == self@.region_id,
    {
        self.region_id
    }

    /// Ends the observation.
    pub fn stop_observing(&mut self)
        ensures
            final(self)@ == old(self)@.stopped(),
            final(self)@.region_id == old(self)@.region_id,
            final(self)@.handle == (ObserveHandle { observing: false, ..old(self)@.handle }),
            final(self)@.resolver == old(self)@.resolver,
            old(self).wf() ==> final(self).wf(),
    {
        self.handle.stop_observing()
    }

    /// Whether the observation goes on.
    pub fn is_observing(&self) -> (observing: bool)
        ensures
            observing == self@.handle.observing,
    {
        self.handle.is_observing()
    }

    /// Whether the observation has ended.
    fn has_stopped(&self) -> (stopped: bool)
        ensures
            stopped == !self@.handle.observing,
    {
        !self.is_observing()
    }

    /// How far the region is resolved.
    pub fn resolver(&mut self) -> (resolver: &mut TwoPhaseResolver)
        ensures
            resolver@ == old(self)@.resolver,
            old(self).wf() ==> resolver.wf() && resolver@.region_id == old(self)@.region_id,
            final(self)@ == (SubscriptionView { resolver: final(resolver)@, ..old(self)@ }),
            final(resolver).wf() && final(resolver)@.region_id == old(self)@.region_id
                ==> final(self).wf(),
    {
        &mut self.resolver
    }
}

/// The concurrent map that the subscriptions are kept in.
#[verifier::external_type_specification]
#[verifier::external_body]
#[verifier::reject_recursive_types(K)]
#[verifier::reject_recursive_types(V)]
#[verifier::reject_recursive_types(S)]
pub struct ExDashMap<K, V, S>(DashMap<K, V, S>);

/// The subscriptions that the map holds, by their keys.
pub uninterp spec fn map_entries(map: DashMap<u64, RegionSubscription>) -> Map<
    u64,
    RegionSubscription,
>;

/// Calls `DashMap::new`, which makes an empty map.
#[verifier::external_body]
fn map_new() -> (empty: DashMap<u64, RegionSubscription>)
    ensures
        map_entries(empty).dom() == Set::<u64>::empty(),
{
    DashMap::new()
}

/// Calls `DashMap::insert`, which puts the value at the key and hands back the
/// value that stood there.
#[verifier::external_body]
fn map_insert(
    map: &mut DashMap<u64, RegionSubscription>,
    key: u64,
    value: RegionSubscription,
) -> (former: Option<RegionSubscription>)
    ensures
        map_entries(*final(map)) == map_entries(*old(map)).insert(key, value),
        former == if map_entries(*old(map)).contains_key(key) {
            Some(map_entries(*old(map))[key])
        } else {
            None
        },
{
    map.insert(key, value)
}

/// Calls `DashMap::remove`, which takes out the entry at the key and hands it
/// back, if there is one.
#[verifier::external_body]
fn map_remove(map: &mut DashMap<u64, RegionSubscription>, key: u64) -> (entry: Option<
    (u64, RegionSubscription),
>)
    ensures
        map_entries(*final(map)) == map_entries(*old(map)).remove(key),
        entry == if map_entries(*old(map)).contains_key(key) {
            Some((key, map_entries(*old(map))[key]))
        } else {
            None
        },
{
    map.remove(&key)
}

/// Calls `DashMap::remove_if` with [`RegionSubscription::has_stopped`] as the
/// condition: it takes out the entry at the key and hands it back, if there is
/// one that meets the condition.
#[verifier::external_body]
fn map_remove_if_stopped(map: &mut DashMap<u64, RegionSubscription>, key: u64) -> (entry: Option<
    (u64, RegionSubscription),
>)
    ensures
        if map_entries(*old(map)).contains_key(key)
            && !map_entries(*old(map))[key]@.handle.observing {
            &&& map_entries(*final(map)) == map_entries(*old(map)).remove(key)
            &&& entry == Some((key, map_entries(*old(map))[key]))
        } else {
            &&& map_entries(*final(map)) == map_entries(*old(map))
            &&& entry is None
        },
{
    map.remove_if(&key, |_, sub| sub.has_stopped())
}

/// Gives access to the value at the key, through `DashMap::determine_map` and
/// `DashMap::shards_mut`: the shard that the key belongs to is looked up for
/// it. With the map borrowed exclusively this takes no lock. What is written
/// to the value stands in the map afterwards; nothing else changes.
#[verifier::external_body]
fn map_get_mut(map: &mut DashMap<u64, RegionSubscription>, key: u64) -> (value: Option<
    &mut RegionSubscription,
>)
    ensures
        match value {
            Some(v) => {
                &&& map_entries(*old(map)).contains_key(key)
                &&& *v == map_entries(*old(map))[key]
                &&& map_entries(*final(map)) == map_entries(*old(map)).insert(key, *final(v))
            },
            None => {
                &&& !map_entries(*old(map)).contains_key(key)
                &&& map_entries(*final(map)) == map_entries(*old(map))
            },
        },
{
    let shard = map.determine_map(&key);
    map.shards_mut()[shard].get_mut().get_mut(&key).map(|value| value.get_mut())
}

/// The keys of the map, each once, in no particular order. Calls
/// `DashMap::iter`, which visits every entry of the map and changes none. The
/// exclusive borrow keeps others from changing the map meanwhile.
#[verifier::external_body]
fn map_keys(map: &mut DashMap<u64, RegionSubscription>) -> (keys: Vec<u64>)
    ensures
        map_entries(*final(map)) == map_entries(*old(map)),
        keys@.no_duplicates(),
        keys@.to_set() == map_entries(*old(map)).dom(),
{
    map.iter().map(|entry| *entry.key()).collect()
}

/// A pass over all subscriptions that resolves their regions.
///
/// Regions under initial scanning are settled at once. The lock resolvers of
/// the other regions have to be asked; [`ResolveRound::finish`] takes their
/// answers.
pub struct ResolveRound {
    /// What the pass was started with.
    pub min_ts: TimeStamp,
    /// The earliest timestamp among the regions under initial scanning.
    pub settled: Option<TimeStamp>,
    /// The regions whose lock resolvers have to resolve up to `min_ts`.
    pub asked: Vec<u64>,
}

/// Whether the region is traced and its observation goes on.
pub open spec fn is_observed(subs: Map<u64, SubscriptionView>, region_id: u64) -> bool {
    subs.contains_key(region_id) && subs[region_id].handle.observing
}

/// Whether the region is under initial scanning.
pub open spec fn in_phase_one(subs: Map<u64, SubscriptionView>, region_id: u64) -> bool {
    subs.contains_key(region_id) && subs[region_id].resolver.stable_ts is Some
}

/// Whether the region is no longer, or never was, under initial scanning.
pub open spec fn in_phase_two(subs: Map<u64, SubscriptionView>, region_id: u64) -> bool {
    subs.contains_key(region_id) && subs[region_id].resolver.stable_ts is None
}

/// What a region under initial scanning is resolved to.
pub open spec fn phase_one_ts(
    subs: Map<u64, SubscriptionView>,
    region_id: u64,
    min_ts: TimeStamp,
) -> TimeStamp {
    min_ts.spec_min(subs[region_id].resolver.stable_ts->0)
}

/// Whether `ts` is what an observed region is resolved to, given the answers
/// of the lock resolvers that were asked.
pub open spec fn region_resolved_to(
    subs: Map<u64, SubscriptionView>,
    round: ResolveRound,
    answers: Seq<TimeStamp>,
    region_id: u64,
    ts: TimeStamp,
) -> bool {
    ||| in_phase_one(subs, region_id) && ts == phase_one_ts(subs, region_id, round.min_ts)
    ||| in_phase_two(subs, region_id) && exists|i: int|
        0 <= i < round.asked@.len() && round.asked@[i] == region_id && ts == #[trigger] answers[i]
}

impl ResolveRound {
    /// The round covers exactly these subscriptions.
    pub open spec fn covers(&self, subs: Map<u64, SubscriptionView>) -> bool {
        &&& self.asked@.no_duplicates()
        &&& forall|id: u64| #[trigger] self.asked@.contains(id) <==> in_phase_two(subs, id)
        &&& match self.settled {
            None => forall|id: u64| !in_phase_one(subs, id),
            Some(ts) => {
                &&& exists|id: u64|
                    #[trigger] in_phase_one(subs, id) && ts == phase_one_ts(subs, id, self.min_ts)
                &&& forall|id: u64| #[trigger]
                    in_phase_one(subs, id) ==> ts.at_most(phase_one_ts(subs, id, self.min_ts))
            },
        }
    }

    /// Whether `ts` is the earliest of what was settled and what was answered,
    /// or `min_ts` where there is neither.
    pub open spec fn finished_at(&self, answers: Seq<TimeStamp>, ts: TimeStamp) -> bool {
        if self.settled is None && answers.len() == 0 {
            ts == self.min_ts
        } else {
            &&& self.settled == Some(ts) || answers.contains(ts)
            &&& self.settled is Some ==> ts.at_most(self.settled->0)
            &&& forall|i: int| 0 <= i < answers.len() ==> ts.at_most(#[trigger] answers[i])
        }
    }

    /// The timestamp up to which all regions are resolved, given the answers
    /// of the lock resolvers in the order of `asked`. Where no region is
    /// observed, `min_ts` can be used safely.
    pub fn finish(&self, answers: &Vec<TimeStamp>) -> (ts: TimeStamp)
        requires
            answers@.len() == self.asked@.len(),
        ensures
            self.finished_at(answers@, ts),
            self.settled matches Some(settled) ==> ts.0 <= settled.0,
            forall|i: int| 0 <= i < answers@.len() ==> ts.0 <= (#[trigger] answers@[i]).0,
            self.settled == Some(ts) || answers@.contains(ts) || (self.settled is None
                && answers@.len() == 0 && ts == self.min_ts),
    {
        let mut least = self.settled;
        let mut i: usize = 0;
        while i < answers.len()
            invariant
                i <= answers@.len(),
                least is None <==> self.settled is None && i == 0,
                least is Some ==> {
                    ||| self.settled == least
                    ||| exists|j: int| 0 <= j < i && #[trigger] answers@[j] == least->0
                },
                self.settled is Some ==> least->0.at_most(self.settled->0),
                forall|j: int| 0 <= j < i ==> least->0.at_most(#[trigger] answers@[j]),
            decreases answers@.len() - i,
        {
            least = Some(
                match least {
                    Some(ts) => ts.min(answers[i]),
                    None => answers[i],
                },
            );
            i += 1;
        }
        match least {
            Some(ts) => ts,
            None => self.min_ts,
        }
    }
}

proof fn lemma_push_contains(s: Seq<u64>, a: u64)
    ensures
        forall|id: u64| #[trigger] s.push(a).contains(id) <==> s.contains(id) || id == a,
        s.no_duplicates() && !s.contains(a) ==> s.push(a).no_duplicates(),
{
    assert forall|id: u64| #[trigger] s.push(a).contains(id) <==> s.contains(id) || id == a by {
        if s.contains(id) {
            let i = choose|i: int| 0 <= i < s.len() && s[i] == id;
            assert(s.push(a)[i] == id);
        }
        assert(s.push(a)[s.len() as int] == a);
    }
}

/// Traces the regions that are being observed.
pub struct SubscriptionTracer {
    subs: DashMap<u64, RegionSubscription>,
}

impl View for SubscriptionTracer {
    type V = Map<u64, SubscriptionView>;

    /// The subscriptions, by region.
    closed spec fn view(&self) -> Map<u64, SubscriptionView> {
        map_entries(self.subs).map_values(|sub: RegionSubscription| sub@)
    }
}

impl Default for SubscriptionTracer {
    /// A tracer of no region.
    fn default() -> (tracer: SubscriptionTracer)
        ensures
            tracer.wf(),
            tracer@ == Map::<u64, SubscriptionView>::empty(),
    {
        let tracer = SubscriptionTracer { subs: map_new() };
        assert(tracer@ =~= Map::<u64, SubscriptionView>::empty());
        tracer
    }
}

impl SubscriptionTracer {
    /// Every subscription is in order and stands at its own region.
    pub closed spec fn wf(&self) -> bool {
        forall|id: u64| #[trigger]
            map_entries(self.subs).contains_key(id) ==> map_entries(self.subs)[id].wf()
                && map_entries(self.subs)[id]@.region_id == id
    }

    /// Every subscription of a tracer that is in order stands at its own region
    /// and is in order.
    pub proof fn lemma_wf_is_valid(&self)
        requires
            self.wf(),
        ensures
            forall|id: u64| #[trigger]
                self@.contains_key(id) ==> self@[id].valid() && self@[id].region_id == id,
    {
        assert forall|id: u64| #[trigger] self@.contains_key(id) implies self@[id].valid()
            && self@[id].region_id == id by {
            map_entries(self.subs)[id].lemma_wf_is_valid();
        }
    }

    /// Starts tracing a region. `start_ts` is the start of its initial
    /// scanning, if there is to be one.
    ///
    /// Where the region was traced already, returns the subscription that is
    /// superseded, with its observation ended.
    pub fn register_region(
        &mut self,
        region_id: u64,
        handle: ObserveHandle,
        start_ts: Option<TimeStamp>,
    ) -> (superseded: Option<RegionSubscription>)
        requires
            old(self).wf(),
        ensures
            final(self).wf(),
            final(self)@ == old(self)@.insert(
                region_id,
                SubscriptionView::fresh(region_id, handle, start_ts),
            ),
            superseded is Some <==> old(self)@.contains_key(region_id),
            superseded is Some ==> superseded->0.wf() && superseded->0@
                == old(self)@[region_id].stopped(),
            superseded is Some ==> !superseded->0@.handle.observing,
            final(self)@.contains_key(region_id),
            final(self)@[region_id].region_id == region_id,
            final(self)@[region_id].handle == handle,
            final(self)@[region_id].resolver == (ResolverView {
                region_id,
                future_locks: Set::empty(),
                stable_ts: start_ts,
            }),
    {
        let sub = RegionSubscription::new(region_id, handle, start_ts);
        let former = map_insert(&mut self.subs, region_id, sub);
        assert(self@ =~= old(self)@.insert(
            region_id,
            SubscriptionView::fresh(region_id, handle, start_ts),
        ));
        if let Some(mut o) = former {
            o.stop_observing();
            Some(o)
        } else {
            None
        }
    }

    /// Tries to advance the resolved timestamp of every region, given that
    /// nothing before `min_ts` is locked in memory.
    pub fn resolve_with(&mut self, min_ts: TimeStamp) -> (round: ResolveRound)
        requires
            old(self).wf(),
        ensures
            final(self).wf(),
            final(self)@ == old(self)@,
            round.min_ts == min_ts,
            round.covers(old(self)@),
            round.asked@.no_duplicates(),
            forall|id: u64| #[trigger]
                round.asked@.contains(id) <==> old(self)@.contains_key(id)
                    && old(self)@[id].resolver.stable_ts is None,
            forall|id: u64| #[trigger]
                old(self)@.contains_key(id) ==> match old(self)@[id].resolver.stable_ts {
                    Some(stable_ts) => {
                        &&& round.settled matches Some(ts)
                        &&& ts.0 <= stable_ts.0
                        &&& ts.0 <= min_ts.0
                    },
                    None => true,
                },
            round.settled matches Some(ts) ==> exists|id: u64| #[trigger]
                old(self)@.contains_key(id) && old(self)@[id].resolver.resolution(min_ts)
                    == Resolution::Settled(ts),
    {
        let ghost subs = self@;
        let keys = map_keys(&mut self.subs);
        assert(self@ =~= subs);
        let mut round = ResolveRound { min_ts, settled: None, asked: Vec::new() };
        let mut i: usize = 0;
        while i < keys.len()
            invariant
                self.wf(),
                self@ == subs,
                i <= keys@.len(),
                keys@.no_duplicates(),
                forall|j: int| 0 <= j < keys@.len() ==> subs.contains_key(#[trigger] keys@[j]),
                round.min_ts == min_ts,
                round.asked@.no_duplicates(),
                forall|id: u64| #[trigger]
                    round.asked@.contains(id) ==> in_phase_two(subs, id) && keys@.take(
                        i as int,
                    ).contains(id),
                forall|j: int|
                    0 <= j < i && in_phase_two(subs, keys@[j]) ==> round.asked@.contains(
                        #[trigger] keys@[j],
                    ),
                match round.settled {
                    None => forall|j: int|
                        0 <= j < i ==> !in_phase_one(subs, #[trigger] keys@[j]),
                    Some(ts) => {
                        &&& exists|id: u64| #[trigger]
                            in_phase_one(subs, id) && ts == phase_one_ts(subs, id, min_ts)
                        &&& forall|j: int|
                            0 <= j < i && in_phase_one(subs, #[trigger] keys@[j]) ==> ts.at_most(
                                phase_one_ts(subs, keys@[j], min_ts),
                            )
                    },
                },
            decreases keys@.len() - i,
        {
            let key = keys[i];
            proof {
                assert(keys@.take(i as int + 1) =~= keys@.take(i as int).push(key));
                lemma_push_contains(keys@.take(i as int), key);
                lemma_push_contains(round.asked@, key);
                if round.asked@.contains(key) {
                    let j = choose|j: int| 0 <= j < i && keys@.take(i as int)[j] == key;
                    assert(keys@[j] == keys@[i as int]);
                }
            }
            let found = self.get_subscription_of(key);
            if let Some(sub) = found {
                let resolution = sub.resolver().resolve(min_ts);
                match resolution {
                    Resolution::Settled(ts) => {
                        round.settled = Some(
                            match round.settled {
                                Some(least) => least.min(ts),
                                None => ts,
                            },
                        );
                        assert(in_phase_one(subs, key));
                    },
                    Resolution::Ask(_) => {
                        round.asked.push(key);
                        assert(in_phase_two(subs, key));
                    },
                }
            }
            assert(self@ =~= subs);
            i += 1;
        }
        proof {
            assert(round.covers(subs));
            law_round_covers_every_region(subs, round);
        }
        round
    }

    /// Stops tracing a region. Returns the subscription with its observation
    /// ended, or `None` where the region was not traced.
    pub fn deregister_region(&mut self, region_id: u64) -> (removed: Option<RegionSubscription>)
        requires
            old(self).wf(),
        ensures
            final(self).wf(),
            final(self)@ == old(self)@.remove(region_id),
            removed is Some <==> old(self)@.contains_key(region_id),
            removed is Some ==> removed->0.wf() && removed->0@
                == old(self)@[region_id].stopped(),
            removed is Some ==> !removed->0@.handle.observing,
    {
        let entry = map_remove(&mut self.subs, region_id);
        assert(self@ =~= old(self)@.remove(region_id));
        match entry {
            Some((_, mut o)) => {
                o.stop_observing();
                Some(o)
            },
            None => None,
        }
    }

    /// Whether the region is traced and its observation goes on. A region
    /// whose observation has ended is no longer traced.
    pub fn is_observing(&mut self, region_id: u64) -> (observing: bool)
        requires
            old(self).wf(),
        ensures
            final(self).wf(),
            observing == is_observed(old(self)@, region_id),
            observing <==> old(self)@.contains_key(region_id)
                && old(self)@[region_id].handle.observing,
            final(self)@ == if observing {
                old(self)@
            } else {
                old(self)@.remove(region_id)
            },
    {
        let sub = self.get_subscription_of(region_id);
        let exists = sub.is_some();
        assert(self@ =~= old(self)@);
        let still_observing = map_remove_if_stopped(&mut self.subs, region_id).is_none();
        assert(self@ =~= if exists && still_observing {
            old(self)@
        } else {
            old(self)@.remove(region_id)
        });
        exists && still_observing
    }

    /// Whether the region is traced and its observation goes on, where `live`
    /// is what the handle of the observation reports at this moment. The
    /// observation may have been stopped elsewhere, through a handle that this
    /// tracer does not hold. A region whose observation has ended is no longer
    /// traced.
    pub fn is_observing_now(&mut self, region_id: u64, live: bool) -> (observing: bool)
        requires
            old(self).wf(),
        ensures
            final(self).wf(),
            observing == (is_observed(old(self)@, region_id) && live),
            observing <==> old(self)@.contains_key(region_id)
                && old(self)@[region_id].handle.observing && live,
            final(self)@ == if observing {
                old(self)@
            } else {
                old(self)@.remove(region_id)
            },
    {
        if !live {
            let found = self.get_subscription_of(region_id);
            if let Some(sub) = found {
                sub.stop_observing();
            }
        }
        let observing = self.is_observing(region_id);
        assert(self@ =~= if observing {
            old(self)@
        } else {
            old(self)@.remove(region_id)
        });
        observing
    }

    /// The subscription of a region, open to changes.
    pub fn get_subscription_of(&mut self, region_id: u64) -> (sub: Option<
        &mut RegionSubscription,
    >)
        requires
            old(self).wf(),
        ensures
            match sub {
                Some(s) => {
                    &&& old(self)@.contains_key(region_id)
                    &&& s.wf()
                    &&& s@ == old(self)@[region_id]
                    &&& s@.region_id == region_id
                    &&& final(self)@ == old(self)@.insert(region_id, final(s)@)
                    &&& final(s).wf() && final(s)@.region_id == region_id ==> final(self).wf()
                },
                None => {
                    &&& !old(self)@.contains_key(region_id)
                    &&& final(self)@ == old(self)@
                    &&& final(self).wf()
                },
            },
    {
        map_get_mut(&mut self.subs, region_id)
    }
}

/// What a finished round yields is the earliest timestamp that any observed
/// region is resolved to: no region is behind it, and one is at it. Where no
/// region is observed, it is `min_ts`.
pub proof fn law_round_is_minimum(
    subs: Map<u64, SubscriptionView>,
    round: ResolveRound,
    answers: Seq<TimeStamp>,
    ts: TimeStamp,
)
    requires
        round.covers(subs),
        answers.len() == round.asked@.len(),
        round.finished_at(answers, ts),
    ensures
        forall|id: u64, t: TimeStamp| #[trigger]
            region_resolved_to(subs, round, answers, id, t) ==> ts.at_most(t),
        (exists|id: u64| #[trigger] subs.contains_key(id)) ==> exists|id: u64| #[trigger]
            region_resolved_to(subs, round, answers, id, ts),
        (forall|id: u64| !#[trigger] subs.contains_key(id)) ==> ts == round.min_ts,
{
    assert forall|id: u64, t: TimeStamp| #[trigger]
        region_resolved_to(subs, round, answers, id, t) implies ts.at_most(t) by {
        if in_phase_one(subs, id) {
            assert(round.settled is Some);
        }
    }
    if exists|id: u64| #[trigger] subs.contains_key(id) {
        let some = choose|id: u64| #[trigger] subs.contains_key(id);
        assert(in_phase_one(subs, some) || in_phase_two(subs, some));
        if in_phase_two(subs, some) {
            assert(round.asked@.contains(some));
        }
        if round.settled == Some(ts) {
            let id = choose|id: u64| #[trigger]
                in_phase_one(subs, id) && ts == phase_one_ts(subs, id, round.min_ts);
            assert(region_resolved_to(subs, round, answers, id, ts));
        } else {
            let i = choose|i: int| 0 <= i < answers.len() && answers[i] == ts;
            assert(round.asked@.contains(round.asked@[i]));
            assert(region_resolved_to(subs, round, answers, round.asked@[i], ts));
        }
    }
    if forall|id: u64| !#[trigger] subs.contains_key(id) {
        if answers.len() > 0 {
            assert(round.asked@.contains(round.asked@[0]));
        }
        if round.settled is Some {
            let id = choose|id: u64| #[trigger]
                in_phase_one(subs, id) && round.settled->0 == phase_one_ts(subs, id, round.min_ts);
            assert(in_phase_one(subs, id));
        }
    }
}

/// As long as a region is under initial scanning, no round passes the start of
/// that scanning, nor `min_ts`.
pub proof fn law_round_stays_at_stable_ts(
    subs: Map<u64, SubscriptionView>,
    round: ResolveRound,
    answers: Seq<TimeStamp>,
    ts: TimeStamp,
    region_id: u64,
)
    requires
        round.covers(subs),
        answers.len() == round.asked@.len(),
        round.finished_at(answers, ts),
        in_phase_one(subs, region_id),
    ensures
        ts.at_most(subs[region_id].resolver.stable_ts->0),
        ts.at_most(round.min_ts),
{
}

/// A round does not pass `min_ts` where no lock resolver does.
pub proof fn law_round_stays_at_min_ts(
    subs: Map<u64, SubscriptionView>,
    round: ResolveRound,
    answers: Seq<TimeStamp>,
    ts: TimeStamp,
)
    requires
        round.covers(subs),
        answers.len() == round.asked@.len(),
        round.finished_at(answers, ts),
        forall|i: int| 0 <= i < answers.len() ==> (#[trigger] answers[i]).at_most(round.min_ts),
    ensures
        ts.at_most(round.min_ts),
{
}

/// A registered region is observed until its observation is stopped or the
/// region is deregistered. Neither concerns another region.
pub proof fn law_observed_until_stopped(
    subs: Map<u64, SubscriptionView>,
    region_id: u64,
    handle: ObserveHandle,
    start_ts: Option<TimeStamp>,
    other: u64,
)
    requires
        other != region_id,
    ensures
        ({
            let registered = subs.insert(
                region_id,
                SubscriptionView::fresh(region_id, handle, start_ts),
            );
            let stopped = registered.insert(region_id, registered[region_id].stopped());
            let removed = registered.remove(region_id);
            &&& is_observed(registered, region_id) == handle.observing
            &&& !is_observed(stopped, region_id)
            &&& !is_observed(removed, region_id)
            &&& is_observed(registered, other) == is_observed(subs, other)
            &&& is_observed(stopped, other) == is_observed(subs, other)
            &&& is_observed(removed, other) == is_observed(subs, other)
        }),
{
}

/// A region that has just been registered has the observation that it was
/// registered with, stands at the start that it was registered with, and has
/// no released lock on record: until something happens to it, it is resolved
/// to that start, and every lock of it goes on to the lock resolver.
pub proof fn law_fresh_region_is_at_its_start(
    subs: Map<u64, SubscriptionView>,
    region_id: u64,
    handle: ObserveHandle,
    start_ts: Option<TimeStamp>,
    key: Seq<u8>,
)
    ensures
        ({
            let registered = subs.insert(
                region_id,
                SubscriptionView::fresh(region_id, handle, start_ts),
            );
            &&& registered[region_id].region_id == region_id
            &&& registered[region_id].handle == handle
            &&& registered[region_id].resolver.region_id == region_id
            &&& registered[region_id].resolver.stable_ts == start_ts
            &&& !registered[region_id].resolver.future_locks.contains(key)
            &&& registered[region_id].resolver.tracks(key)
            &&& registered[region_id].valid()
            &&& start_ts matches Some(start) ==> registered[region_id].resolver.resolved()
                == Resolution::Settled(start)
        }),
{
}

/// Stopping an observation ends it and changes nothing else of the
/// subscription. A subscription is in order where its resolver serves its
/// region and has released locks on record during the initial scanning only.
pub proof fn law_stopping_ends_the_observation_only(v: SubscriptionView)
    ensures
        v.stopped().region_id == v.region_id,
        v.stopped().handle.id == v.handle.id,
        !v.stopped().handle.observing,
        v.stopped().resolver == v.resolver,
        v.valid() <==> v.resolver.region_id == v.region_id && (v.resolver.stable_ts is None
            ==> v.resolver.future_locks == Set::<Seq<u8>>::empty()),
{
}

/// A region is observed where it is traced with an observation that goes on,
/// whatever else the subscription holds.
pub proof fn law_observed_is_traced_and_observing(
    subs: Map<u64, SubscriptionView>,
    region_id: u64,
    sub: SubscriptionView,
)
    ensures
        is_observed(subs.insert(region_id, sub), region_id) == sub.handle.observing,
        !is_observed(subs.remove(region_id), region_id),
{
}

/// What a region contributes to a round is what its own resolver yields: a
/// region under initial scanning is settled by its resolver at what counts in
/// the round, and for any other region the lock resolver is asked.
pub proof fn law_region_contributes_its_resolution(
    subs: Map<u64, SubscriptionView>,
    round: ResolveRound,
    answers: Seq<TimeStamp>,
    region_id: u64,
    ts: TimeStamp,
)
    requires
        round.covers(subs),
        answers.len() == round.asked@.len(),
    ensures
        subs.contains_key(region_id) ==> (in_phase_one(subs, region_id)
            <==> subs[region_id].resolver.resolution(round.min_ts) is Settled),
        subs.contains_key(region_id) ==> (in_phase_two(subs, region_id)
            <==> subs[region_id].resolver.resolution(round.min_ts) is Ask),
        !subs.contains_key(region_id) ==> !in_phase_one(subs, region_id) && !in_phase_two(
            subs,
            region_id,
        ),
        in_phase_one(subs, region_id) ==> subs[region_id].resolver.resolution(round.min_ts)
            == Resolution::Settled(phase_one_ts(subs, region_id, round.min_ts)),
        region_resolved_to(subs, round, answers, region_id, ts) <==> {
            &&& subs.contains_key(region_id)
            &&& match subs[region_id].resolver.resolution(round.min_ts) {
                Resolution::Settled(t) => t == ts,
                Resolution::Ask(_) => exists|i: int|
                    0 <= i < answers.len() && round.asked@[i] == region_id && #[trigger] answers[i]
                        == ts,
            }
        },
{
}

/// A round covers every region and no other: those that are not under initial
/// scanning are asked, each once, and what is settled is the earliest of what
/// the resolvers of the others settle on.
pub proof fn law_round_covers_every_region(subs: Map<u64, SubscriptionView>, round: ResolveRound)
    requires
        round.covers(subs),
    ensures
        round.asked@.no_duplicates(),
        forall|id: u64| #[trigger]
            round.asked@.contains(id) <==> subs.contains_key(id)
                && subs[id].resolver.stable_ts is None,
        forall|id: u64| #[trigger]
            subs.contains_key(id) ==> match subs[id].resolver.stable_ts {
                Some(stable_ts) => {
                    &&& round.settled matches Some(ts)
                    &&& ts.0 <= stable_ts.0
                    &&& ts.0 <= round.min_ts.0
                },
                None => true,
            },
        round.settled matches Some(ts) ==> exists|id: u64| #[trigger]
            subs.contains_key(id) && subs[id].resolver.resolution(round.min_ts)
                == Resolution::Settled(ts),
{
    assert forall|id: u64| #[trigger] subs.contains_key(id) implies match subs[id].resolver.stable_ts {
        Some(stable_ts) => {
            &&& round.settled matches Some(ts)
            &&& ts.0 <= stable_ts.0
            &&& ts.0 <= round.min_ts.0
        },
        None => true,
    } by {
        if subs[id].resolver.stable_ts is Some {
            assert(in_phase_one(subs, id));
        }
    }
    if let Some(ts) = round.settled {
        let id = choose|id: u64| #[trigger]
            in_phase_one(subs, id) && ts == phase_one_ts(subs, id, round.min_ts);
        assert(subs.contains_key(id));
    }
}

/// What a finished round yields is not later than the start of any initial
/// scanning that runs, nor than any answer; nor than `min_ts`, where a region
/// is under initial scanning. It is `min_ts`, the start of some region's
/// scanning or an answer: an answer where no region is scanned, and `min_ts`
/// where no region is traced.
pub proof fn law_round_yields_what_was_given(
    subs: Map<u64, SubscriptionView>,
    round: ResolveRound,
    answers: Seq<TimeStamp>,
    ts: TimeStamp,
)
    requires
        round.covers(subs),
        answers.len() == round.asked@.len(),
        round.finished_at(answers, ts),
    ensures
        forall|id: u64| #[trigger]
            subs.contains_key(id) ==> match subs[id].resolver.stable_ts {
                Some(stable_ts) => ts.0 <= stable_ts.0 && ts.0 <= round.min_ts.0,
                None => true,
            },
        forall|i: int| 0 <= i < answers.len() ==> ts.0 <= (#[trigger] answers[i]).0,
        ({
            ||| answers.contains(ts)
            ||| exists|id: u64| #[trigger]
                subs.contains_key(id) && subs[id].resolver.stable_ts is Some && (ts == round.min_ts
                    || subs[id].resolver.stable_ts == Some(ts))
            ||| ts == round.min_ts && forall|id: u64| !#[trigger] subs.contains_key(id)
        }),
{
    law_round_covers_every_region(subs, round);
    if !answers.contains(ts) {
        if let Some(settled) = round.settled {
            let id = choose|id: u64| #[trigger]
                subs.contains_key(id) && subs[id].resolver.resolution(round.min_ts)
                    == Resolution::Settled(settled);
            assert(subs.contains_key(id));
        } else {
            assert forall|id: u64| !#[trigger] subs.contains_key(id) by {
                if subs.contains_key(id) {
                    assert(round.asked@.contains(id));
                }
            }
        }
    }
}

} // verus!
