//! What the backup stream does about the events of a store: it decides for
//! each event which task, if any, the endpoint has to be sent.
use crate::keys::{
    key_le, key_lt, law_key_order_is_lexicographic, lemma_key_lt_total, lemma_key_lt_transitive,
};
use crate::segments::{
    in_range, law_overlap_is_not_apart, overlaps_from, KeyRange, SegmentSet,
};
use vstd::prelude::*;

verus! {

/// What a [`Region`] holds.
#[verifier::ext_equal]
pub ghost struct RegionView {
    /// What identifies the region.
    pub id: u64,
    /// The first key of the region.
    pub start_key: Seq<u8>,
    /// The key after the last of the region; empty where there is no last.
    pub end_key: Seq<u8>,
}

/// A range of keys that is replicated as one.
pub struct Region {
    /// What identifies the region.
    pub id: u64,
    /// The first key of the region.
    pub start_key: Vec<u8>,
    /// The key after the last of the region; empty where there is no last.
    pub end_key: Vec<u8>,
}

impl View for Region {
    type V = RegionView;

    open spec fn view(&self) -> RegionView {
        RegionView { id: self.id, start_key: self.start_key@, end_key: self.end_key@ }
    }
}

impl Clone for Region {
    fn clone(&self) -> (region: Region)
        ensures
            region@ == self@,
            region.id == self.id,
            region.start_key@ == self.start_key@,
            region.end_key@ == self.end_key@,
    {
        Region {
            id: self.id,
            start_key: self.start_key.clone(),
            end_key: self.end_key.clone(),
        }
    }
}

/// The role of a replica in its group.
#[derive(Clone, Copy, Debug, PartialEq, Eq, Structural)]
pub enum StateRole {
    Follower,
    Candidate,
    Leader,
    PreCandidate,
}

/// A change of a replica's role.
#[derive(Clone, Copy, Debug, PartialEq, Eq, Structural)]
pub struct RoleChange {
    /// The role that the replica has now.
    pub state: StateRole,
}

impl RoleChange {
    /// A change to a role.
    pub fn new(state: StateRole) -> (change: RoleChange)
        ensures
            change == (RoleChange { state }),
    {
        RoleChange { state }
    }
}

/// What happened to a region.
#[derive(Clone, Copy, Debug, PartialEq, Eq, Structural)]
pub enum RegionChangeEvent {
    Create,
    Update,
    Destroy,
    /// Something that does not concern the backup stream.
    Other,
}

/// How much of the applied commands is observed.
#[derive(Clone, Copy, Debug, PartialEq, Eq, Structural)]
pub enum ObserveLevel {
    /// Nothing is observed.
    Off,
    /// What concerns locks is observed.
    LockRelated,
    /// Everything is observed.
    All,
}

/// The commands that were applied to a region since the last flush. `C` is a
/// command; what it says does not matter here.
pub struct CmdBatch<C> {
    /// How much of the region is observed.
    pub level: ObserveLevel,
    /// The observation that captures data changes.
    pub cdc_id: u64,
    /// The observation that resolves timestamps.
    pub rts_id: u64,
    /// The region.
    pub region_id: u64,
    /// The commands, in the order in which they were applied.
    pub cmds: Vec<C>,
}

impl<C> CmdBatch<C> {
    /// Whether the batch holds no command.
    pub fn is_empty(&self) -> (empty: bool)
        ensures
            empty == (self.cmds@.len() == 0),
    {
        self.cmds.len() == 0
    }

    /// Whether the endpoint has to see the batch: it holds a command, and its
    /// region is observed in full.
    pub open spec fn wanted(self) -> bool {
        self.cmds@.len() > 0 && self.level == ObserveLevel::All
    }
}

impl<C: Clone> CmdBatch<C> {
    /// Whether this batch is a clone of the other.
    pub open spec fn is_clone_of(self, other: CmdBatch<C>) -> bool {
        &&& self.level == other.level
        &&& self.cdc_id == other.cdc_id
        &&& self.rts_id == other.rts_id
        &&& self.region_id == other.region_id
        &&& self.cmds@.len() == other.cmds@.len()
        &&& forall|i: int|
            0 <= i < other.cmds@.len() ==> cloned(other.cmds@[i], #[trigger] self.cmds@[i])
    }
}

impl<C: Clone> Clone for CmdBatch<C> {
    fn clone(&self) -> (batch: CmdBatch<C>)
        ensures
            batch.is_clone_of(*self),
            batch.level == self.level,
            batch.cdc_id == self.cdc_id,
            batch.rts_id == self.rts_id,
            batch.region_id == self.region_id,
            batch.cmds@.len() == self.cmds@.len(),
    {
        CmdBatch {
            level: self.level,
            cdc_id: self.cdc_id,
            rts_id: self.rts_id,
            region_id: self.region_id,
            cmds: self.cmds.clone(),
        }
    }
}

/// The batches that the endpoint has to see, in order.
pub open spec fn wanted_batches<C>(cmd_batches: Seq<CmdBatch<C>>) -> Seq<CmdBatch<C>> {
    cmd_batches.filter(|cb: CmdBatch<C>| cb.wanted())
}

/// A change to the set of observed regions.
pub enum ObserveOp {
    /// Start to observe the region, after an initial scanning or not.
    Start { region: Region, needs_initial_scanning: bool },
    /// Stop observing the region.
    Stop { region: Region },
    /// The region has changed: bring its resolver up to date.
    RefreshResolver { region: Region },
}

/// What an [`ObserveOp`] asks for.
pub ghost enum OpView {
    Start { region: RegionView, needs_initial_scanning: bool },
    Stop { region: RegionView },
    RefreshResolver { region: RegionView },
}

impl View for ObserveOp {
    type V = OpView;

    open spec fn view(&self) -> OpView {
        match *self {
            ObserveOp::Start { region, needs_initial_scanning } => OpView::Start {
                region: region@,
                needs_initial_scanning,
            },
            ObserveOp::Stop { region } => OpView::Stop { region: region@ },
            ObserveOp::RefreshResolver { region } => OpView::RefreshResolver { region: region@ },
        }
    }
}

/// A task for the endpoint.
pub enum Task<C> {
    /// Handle the commands that were applied.
    BatchEvent(Vec<CmdBatch<C>>),
    /// Change the set of observed regions.
    ModifyObserve(ObserveOp),
}

/// Whether the task is to change the set of observed regions by `op`.
pub open spec fn modifies<C>(task: Option<Task<C>>, op: OpView) -> bool {
    task matches Some(Task::ModifyObserve(o)) && o@ == op
}

/// Whether a task wants the region: its range and the region each start before
/// the other ends. Where neither is empty, they then share a key. A region
/// whose end key is empty has no end.
pub open spec fn region_wanted(ranges: Set<KeyRange>, region: RegionView) -> bool {
    exists|r: KeyRange| #[trigger]
        ranges.contains(r) && overlaps_from(r, region.start_key, region.end_key)
}

/// One of the observers that a store calls.
#[derive(Clone, Copy, Debug, PartialEq, Eq, Structural)]
pub enum ObserverKind {
    /// Called when commands have been applied.
    Cmd,
    /// Called when the role of a replica has changed.
    Role,
    /// Called when a region has changed.
    RegionChange,
}

/// Observes a store for the backup stream.
///
/// Each event yields at most one task. Events are strongly ordered, so the
/// tasks have to reach the endpoint in the order in which they were yielded.
pub struct BackupStreamObserver {
    /// The ranges that the backup tasks want.
    pub ranges: SegmentSet,
}

impl BackupStreamObserver {
    /// An observer without a task.
    pub fn new() -> (observer: BackupStreamObserver)
        ensures
            observer.ranges@ == Set::<KeyRange>::empty(),
    {
        BackupStreamObserver { ranges: SegmentSet::default() }
    }

    /// The observers to register with a store, each with its priority, where a
    /// smaller number comes first. The command observer has to come before
    /// others that resolve timestamps.
    pub fn register_to(&self) -> (plan: [(u32, ObserverKind); 3])
        ensures
            plan@ == seq![
                (0u32, ObserverKind::Cmd),
                (100u32, ObserverKind::Role),
                (100u32, ObserverKind::RegionChange),
            ],
    {
        [(0, ObserverKind::Cmd), (100, ObserverKind::Role), (100, ObserverKind::RegionChange)]
    }

    /// The task that registers a region, whether a backup task wants it or
    /// not. The initial scanning is left to the endpoint.
    pub fn register_region<C>(&self, region: &Region) -> (task: Task<C>)
        ensures
            modifies(
                Some(task),
                OpView::Start { region: region@, needs_initial_scanning: true },
            ),
            task matches Task::ModifyObserve(ObserveOp::Start { region: r, needs_initial_scanning })
                && needs_initial_scanning && r.id == region.id && r.start_key@ == region.start_key@
                && r.end_key@ == region.end_key@,
    {
        Task::ModifyObserve(
            ObserveOp::Start { region: region.clone(), needs_initial_scanning: true },
        )
    }

    /// Whether a region should be observed.
    pub fn should_register_region(&self, region: &Region) -> (should: bool)
        ensures
            should == region_wanted(self.ranges@, region@),
            should <==> exists|r: KeyRange| #[trigger]
                self.ranges@.contains(r) && key_lt(region.start_key@, r.1) && (
                region.end_key@.len() == 0 || key_lt(r.0, region.end_key@)),
    {
        // If the end key is empty, it actually means infinity.
        self.ranges.is_overlapping_from(region.start_key.as_slice(), region.end_key.as_slice())
    }

    /// Commands have been applied. The endpoint is sent those batches that
    /// hold a command and whose regions are observed in full, if any region is.
    pub fn on_flush_applied_cmd_batch<C: Clone>(
        &self,
        max_level: ObserveLevel,
        cmd_batches: &Vec<CmdBatch<C>>,
    ) -> (task: Option<Task<C>>)
        requires
            cmd_batches@.len() > 0,
        ensures
            ({
                let wanted = wanted_batches(cmd_batches@);
                if max_level != ObserveLevel::All || wanted.len() == 0 {
                    task is None
                } else {
                    &&& task matches Some(Task::BatchEvent(sent))
                    &&& sent@.len() == wanted.len()
                    &&& forall|i: int|
                        0 <= i < wanted.len() ==> (#[trigger] sent@[i]).is_clone_of(wanted[i])
                }
            }),
            task is Some <==> max_level == ObserveLevel::All && exists|i: int|
                0 <= i < cmd_batches@.len() && (#[trigger] cmd_batches@[i]).cmds@.len() > 0
                    && cmd_batches@[i].level == ObserveLevel::All,
    {
        if max_level != ObserveLevel::All {
            return None;
        }
        let mut sent: Vec<CmdBatch<C>> = Vec::new();
        let mut i: usize = 0;
        while i < cmd_batches.len()
            invariant
                i <= cmd_batches@.len(),
                sent@.len() == wanted_batches(cmd_batches@.take(i as int)).len(),
                forall|j: int|
                    0 <= j < sent@.len() ==> (#[trigger] sent@[j]).is_clone_of(
                        wanted_batches(cmd_batches@.take(i as int))[j],
                    ),
            decreases cmd_batches@.len() - i,
        {
            let cb = &cmd_batches[i];
            proof {
                reveal(Seq::filter);
                assert(cmd_batches@.take(i as int + 1).drop_last() =~= cmd_batches@.take(i as int));
            }
            if !cb.is_empty() && cb.level == ObserveLevel::All {
                sent.push(cb.clone());
            }
            i += 1;
        }
        assert(cmd_batches@.take(i as int) =~= cmd_batches@);
        proof {
            law_sends_batches_with_commands(cmd_batches@);
        }
        if sent.len() == 0 {
            return None;
        }
        Some(Task::BatchEvent(sent))
    }

    /// A replica has applied to its current term: a leader whose region is
    /// wanted starts to be observed.
    pub fn on_applied_current_term<C>(&self, role: StateRole, region: &Region) -> (task: Option<
        Task<C>,
    >)
        ensures
            if role == StateRole::Leader && region_wanted(self.ranges@, region@) {
                modifies(task, OpView::Start { region: region@, needs_initial_scanning: true })
            } else {
                task is None
            },
    {
        if role == StateRole::Leader && self.should_register_region(region) {
            Some(
                Task::ModifyObserve(
                    ObserveOp::Start { region: region.clone(), needs_initial_scanning: true },
                ),
            )
        } else {
            None
        }
    }

    /// A replica has a new role: unless it leads now, its region is no longer
    /// observed.
    pub fn on_role_change<C>(&self, region: &Region, r: &RoleChange) -> (task: Option<Task<C>>)
        ensures
            if r.state != StateRole::Leader {
                modifies(task, OpView::Stop { region: region@ })
            } else {
                task is None
            },
    {
        if r.state != StateRole::Leader {
            Some(Task::ModifyObserve(ObserveOp::Stop { region: region.clone() }))
        } else {
            None
        }
    }

    /// A region has changed.
    pub fn on_region_changed<C>(
        &self,
        region: &Region,
        event: RegionChangeEvent,
        role: StateRole,
    ) -> (task: Option<Task<C>>)
        ensures
            if role != StateRole::Leader || event == RegionChangeEvent::Destroy {
                modifies(task, OpView::Stop { region: region@ })
            } else if event == RegionChangeEvent::Update {
                modifies(task, OpView::RefreshResolver { region: region@ })
            } else {
                task is None
            },
    {
        if role != StateRole::Leader {
            return Some(Task::ModifyObserve(ObserveOp::Stop { region: region.clone() }));
        }
        match event {
            RegionChangeEvent::Destroy => Some(
                Task::ModifyObserve(ObserveOp::Stop { region: region.clone() }),
            ),
            RegionChangeEvent::Update => Some(
                Task::ModifyObserve(ObserveOp::RefreshResolver { region: region.clone() }),
            ),
            // No need for handling `Create`: once the replica leads,
            // `on_applied_current_term` starts the observation.
            _ => None,
        }
    }
}

/// Whether the key belongs to the region. A region without an end key has no
/// end.
pub open spec fn in_region(key: Seq<u8>, region: RegionView) -> bool {
    key_le(region.start_key, key) && (region.end_key.len() == 0 || key_lt(key, region.end_key))
}

/// A region is wanted exactly where one of its keys lies in the range of a
/// task, provided that neither a range nor the region is empty.
pub proof fn law_wanted_is_shared_key(ranges: Set<KeyRange>, region: RegionView)
    requires
        forall|r: KeyRange| #[trigger]
            ranges.contains(r) ==> key_lt(r.0, r.1),
        region.end_key.len() == 0 || key_lt(region.start_key, region.end_key),
    ensures
        region_wanted(ranges, region) <==> exists|r: KeyRange, k: Seq<u8>| #[trigger]
            ranges.contains(r) && #[trigger] in_region(k, region) && in_range(k, r),
{
    if region_wanted(ranges, region) {
        let r = choose|r: KeyRange| #[trigger]
            ranges.contains(r) && overlaps_from(r, region.start_key, region.end_key);
        lemma_key_lt_total(r.0, region.start_key);
        if key_lt(r.0, region.start_key) {
            assert(in_region(region.start_key, region) && in_range(region.start_key, r));
        } else {
            assert(in_region(r.0, region) && in_range(r.0, r));
        }
    }
    if exists|r: KeyRange, k: Seq<u8>| #[trigger]
        ranges.contains(r) && #[trigger] in_region(k, region) && in_range(k, r) {
        let (r, k) = choose|r: KeyRange, k: Seq<u8>| #[trigger]
            ranges.contains(r) && #[trigger] in_region(k, region) && in_range(k, r);
        if region.start_key != k {
            lemma_key_lt_transitive(region.start_key, k, r.1);
        }
        if region.end_key.len() > 0 && r.0 != k {
            lemma_key_lt_transitive(r.0, k, region.end_key);
        }
        assert(overlaps_from(r, region.start_key, region.end_key));
    }
}

/// The batches that are sent are among those that were applied, each holds a
/// command, and the region of each is observed in full.
pub proof fn law_sent_batches_are_wanted<C>(cmd_batches: Seq<CmdBatch<C>>, i: int)
    requires
        0 <= i < wanted_batches(cmd_batches).len(),
    ensures
        wanted_batches(cmd_batches)[i].wanted(),
        cmd_batches.contains(wanted_batches(cmd_batches)[i]),
    decreases cmd_batches.len(),
{
    reveal(Seq::filter);
    let rest = cmd_batches.drop_last();
    if i < wanted_batches(rest).len() {
        law_sent_batches_are_wanted(rest, i);
        let j = choose|j: int| 0 <= j < rest.len() && rest[j] == wanted_batches(rest)[i];
        assert(cmd_batches[j] == wanted_batches(rest)[i]);
    } else {
        assert(cmd_batches[cmd_batches.len() - 1] == cmd_batches.last());
    }
}

/// Every batch that holds a command of a region that is observed in full is
/// sent.
pub proof fn law_wanted_batches_are_sent<C>(cmd_batches: Seq<CmdBatch<C>>, i: int)
    requires
        0 <= i < cmd_batches.len(),
        cmd_batches[i].wanted(),
    ensures
        wanted_batches(cmd_batches).contains(cmd_batches[i]),
{
    cmd_batches.lemma_filter_contains(|cb: CmdBatch<C>| cb.wanted(), i);
}

/// A batch is sent exactly where it holds a command and its region is observed
/// in full, whatever else stands in it.
pub proof fn law_sends_batches_with_commands<C>(cmd_batches: Seq<CmdBatch<C>>)
    ensures
        forall|i: int|
            0 <= i < cmd_batches.len() && (#[trigger] cmd_batches[i]).cmds@.len() > 0
                && cmd_batches[i].level == ObserveLevel::All ==> wanted_batches(
                cmd_batches,
            ).contains(cmd_batches[i]),
        forall|j: int|
            0 <= j < wanted_batches(cmd_batches).len() ==> {
                &&& (#[trigger] wanted_batches(cmd_batches)[j]).cmds@.len() > 0
                &&& wanted_batches(cmd_batches)[j].level == ObserveLevel::All
                &&& cmd_batches.contains(wanted_batches(cmd_batches)[j])
            },
        wanted_batches(cmd_batches).len() > 0 <==> exists|i: int|
            0 <= i < cmd_batches.len() && (#[trigger] cmd_batches[i]).cmds@.len() > 0
                && cmd_batches[i].level == ObserveLevel::All,
{
    let sent = wanted_batches(cmd_batches);
    assert forall|i: int|
        0 <= i < cmd_batches.len() && (#[trigger] cmd_batches[i]).cmds@.len() > 0
            && cmd_batches[i].level == ObserveLevel::All implies sent.contains(cmd_batches[i]) by {
        law_wanted_batches_are_sent(cmd_batches, i);
    }
    assert forall|j: int| 0 <= j < sent.len() implies {
        &&& (#[trigger] sent[j]).cmds@.len() > 0
        &&& sent[j].level == ObserveLevel::All
        &&& cmd_batches.contains(sent[j])
    } by {
        law_sent_batches_are_wanted(cmd_batches, j);
    }
    if sent.len() > 0 {
        assert(sent[0].cmds@.len() > 0);
        let i = choose|i: int| 0 <= i < cmd_batches.len() && cmd_batches[i] == sent[0];
        assert(cmd_batches[i].cmds@.len() > 0);
    }
}

/// Batches are sent in the order in which they were flushed, each as often as
/// it was flushed: what is sent of two flushes together is what is sent of the
/// first and then what is sent of the second, and of a single batch either
/// that batch is sent or nothing.
pub proof fn law_batches_keep_their_order<C>(
    a: Seq<CmdBatch<C>>,
    b: Seq<CmdBatch<C>>,
    batch: CmdBatch<C>,
)
    ensures
        wanted_batches(a + b) == wanted_batches(a) + wanted_batches(b),
        wanted_batches(seq![batch]) == if batch.cmds@.len() > 0 && batch.level
            == ObserveLevel::All {
            seq![batch]
        } else {
            Seq::empty()
        },
        wanted_batches(Seq::<CmdBatch<C>>::empty()) == Seq::<CmdBatch<C>>::empty(),
{
    let wanted = |cb: CmdBatch<C>| cb.wanted();
    Seq::filter_distributes_over_add(a, b, wanted);
    reveal_with_fuel(Seq::filter, 2);
    assert(seq![batch].drop_last() =~= Seq::<CmdBatch<C>>::empty());
    assert(Seq::<CmdBatch<C>>::empty().push(batch) =~= seq![batch]);
}

/// A clone of a batch is of the same region, observations and level, and holds
/// a clone of every command, in order.
pub proof fn law_clone_keeps_the_batch<C: Clone>(batch: CmdBatch<C>, other: CmdBatch<C>)
    ensures
        batch.is_clone_of(other) <==> {
            &&& batch.level == other.level
            &&& batch.cdc_id == other.cdc_id
            &&& batch.rts_id == other.rts_id
            &&& batch.region_id == other.region_id
            &&& batch.cmds@.len() == other.cmds@.len()
            &&& forall|i: int|
                0 <= i < other.cmds@.len() ==> cloned(other.cmds@[i], #[trigger] batch.cmds@[i])
        },
        batch.wanted() <==> batch.cmds@.len() > 0 && batch.level == ObserveLevel::All,
{
}

/// A task that changes the set of observed regions says what is to be done and
/// names the region with its identity and both of its keys.
pub proof fn law_task_names_its_region<C>(
    task: Option<Task<C>>,
    region: Region,
    needs_initial_scanning: bool,
)
    ensures
        region@.id == region.id,
        region@.start_key == region.start_key@,
        region@.end_key == region.end_key@,
        modifies(task, OpView::Start { region: region@, needs_initial_scanning }) <==> {
            &&& task matches Some(
                Task::ModifyObserve(ObserveOp::Start { region: r, needs_initial_scanning: needs }),
            )
            &&& needs == needs_initial_scanning
            &&& r.id == region.id
            &&& r.start_key@ == region.start_key@
            &&& r.end_key@ == region.end_key@
        },
        modifies(task, OpView::Stop { region: region@ }) <==> {
            &&& task matches Some(Task::ModifyObserve(ObserveOp::Stop { region: r }))
            &&& r.id == region.id
            &&& r.start_key@ == region.start_key@
            &&& r.end_key@ == region.end_key@
        },
        modifies(task, OpView::RefreshResolver { region: region@ }) <==> {
            &&& task matches Some(Task::ModifyObserve(ObserveOp::RefreshResolver { region: r }))
            &&& r.id == region.id
            &&& r.start_key@ == region.start_key@
            &&& r.end_key@ == region.end_key@
        },
{
}

/// A region is wanted unless every range ends where the region starts or
/// before, or starts where the region ends or after; a region without an end
/// key is before no range. More tasks never make a region unwanted.
pub proof fn law_unwanted_is_apart(
    ranges: Set<KeyRange>,
    more: Set<KeyRange>,
    region: RegionView,
    key: Seq<u8>,
)
    ensures
        !region_wanted(ranges, region) <==> forall|r: KeyRange| #[trigger]
            ranges.contains(r) ==> key_le(r.1, region.start_key) || (region.end_key.len() > 0
                && key_le(region.end_key, r.0)),
        region_wanted(ranges.union(more), region) <==> region_wanted(ranges, region)
            || region_wanted(more, region),
        in_region(key, region) <==> !key_lt(key, region.start_key) && (region.end_key.len() == 0
            || !key_le(region.end_key, key)),
{
    assert forall|r: KeyRange| overlaps_from(r, region.start_key, region.end_key) <==> !key_le(
        r.1,
        region.start_key,
    ) && (region.end_key.len() == 0 || !key_le(region.end_key, r.0)) by {
        law_overlap_is_not_apart(r, (region.start_key, region.end_key), key);
    }
    if region_wanted(ranges, region) {
        let r = choose|r: KeyRange| #[trigger]
            ranges.contains(r) && overlaps_from(r, region.start_key, region.end_key);
        assert(ranges.union(more).contains(r));
    }
    if region_wanted(more, region) {
        let r = choose|r: KeyRange| #[trigger]
            more.contains(r) && overlaps_from(r, region.start_key, region.end_key);
        assert(ranges.union(more).contains(r));
    }
    if region_wanted(ranges.union(more), region) {
        let r = choose|r: KeyRange| #[trigger]
            ranges.union(more).contains(r) && overlaps_from(r, region.start_key, region.end_key);
        assert(ranges.contains(r) || more.contains(r));
    }
    law_key_order_is_lexicographic(0, region.start_key, 0, key);
    law_key_order_is_lexicographic(0, region.end_key, 0, key);
}

} // verus!
