use backup_stream::observer::{
    BackupStreamObserver, CmdBatch, ObserveLevel, ObserveOp, ObserverKind, Region,
    RegionChangeEvent, RoleChange, StateRole, Task,
};
use backup_stream::subscription::{ObserveHandle, SubscriptionTracer};

#[derive(Clone, Debug, Default, PartialEq, Eq)]
struct Cmd {
    index: u64,
}

fn fake_region(id: u64, start: &[u8], end: &[u8]) -> Region {
    Region {
        id,
        start_key: start.to_vec(),
        end_key: end.to_vec(),
    }
}

fn fake_batch(handle: &ObserveHandle, region_id: u64) -> CmdBatch<Cmd> {
    CmdBatch {
        level: ObserveLevel::All,
        cdc_id: handle.id,
        rts_id: 0,
        region_id,
        cmds: Vec::new(),
    }
}

fn observer_of(ranges: &[(&[u8], &[u8])]) -> BackupStreamObserver {
    let mut o = BackupStreamObserver::new();
    for (start, end) in ranges {
        assert!(o.ranges.add((start.to_vec(), end.to_vec())));
    }
    o
}

fn started(task: Option<Task<Cmd>>) -> Option<u64> {
    match task {
        Some(Task::ModifyObserve(ObserveOp::Start {
            region,
            needs_initial_scanning: true,
        })) => Some(region.id),
        _ => None,
    }
}

#[test]
fn test_observer_cancel() {
    // Prepare: assuming a task wants the range of [0001, 0010].
    let mut o = BackupStreamObserver::new();
    let mut subs = SubscriptionTracer::default();
    assert!(o.ranges.add((b"0001".to_vec(), b"0010".to_vec())));

    // Test regions can be registered.
    let r = fake_region(42, b"0008", b"0009");
    let task: Task<Cmd> = o.register_region(&r);
    let mut handle = ObserveHandle::new(1);
    if let Task::ModifyObserve(ObserveOp::Start { region, .. }) = task {
        assert!(subs.register_region(region.id, handle, None).is_none());
    } else {
        panic!("unexpected message received");
    }
    assert!(subs.is_observing_now(42, handle.is_observing()));
    assert!(subs.is_observing(42));
    handle.stop_observing();
    assert!(!subs.is_observing_now(42, handle.is_observing()));
    assert!(!subs.is_observing(42));
}

#[test]
fn test_observer_basic() {
    // Prepare: assuming a task wants the range of [0001, 0010].
    let mut o = BackupStreamObserver::new();
    let mut subs = SubscriptionTracer::default();
    assert!(o.ranges.add((b"0001".to_vec(), b"0010".to_vec())));

    // Test regions can be registered.
    let r = fake_region(42, b"0008", b"0009");
    let task: Task<Cmd> = o.register_region(&r);
    let handle = ObserveHandle::new(1);
    if let Task::ModifyObserve(ObserveOp::Start { region, .. }) = task {
        subs.register_region(region.id, handle, None);
    } else {
        panic!("not match");
    }

    // Test events with key in the range can be observed.
    let mut cb = fake_batch(&handle, 42);
    cb.cmds.push(Cmd::default());
    let cmd_batches = vec![cb];
    let task = o.on_flush_applied_cmd_batch(ObserveLevel::All, &cmd_batches);
    assert!(matches!(task, Some(Task::BatchEvent(batches)) if
        batches.len() == 1 && batches[0].region_id == 42 && batches[0].cdc_id == handle.id
    ));

    // Test event from other region should not be send.
    let mut cb = fake_batch(&ObserveHandle::new(2), 43);
    cb.cmds.push(Cmd::default());
    cb.level = ObserveLevel::Off;
    let cmd_batches = vec![cb];
    let task = o.on_flush_applied_cmd_batch(ObserveLevel::Off, &cmd_batches);
    assert!(task.is_none());

    // Test region out of range won't be added to observe list.
    let r = fake_region(43, b"0010", b"0042");
    let task: Option<Task<Cmd>> = o.on_role_change(&r, &RoleChange::new(StateRole::Leader));
    assert!(task.is_none());
    assert!(!subs.is_observing(43));

    // Test newly created region out of range won't be added to observe list.
    let task: Option<Task<Cmd>> =
        o.on_region_changed(&r, RegionChangeEvent::Create, StateRole::Leader);
    assert!(task.is_none());
    assert!(!subs.is_observing(43));

    // Test give up subscripting when become follower.
    let r = fake_region(42, b"0008", b"0009");
    let task: Option<Task<Cmd>> = o.on_role_change(&r, &RoleChange::new(StateRole::Follower));
    assert!(matches!(
        task,
        Some(Task::ModifyObserve(ObserveOp::Stop { region, .. })) if region.id == 42
    ));
}

#[test]
fn registration_puts_the_command_observer_first() {
    assert_eq!(
        BackupStreamObserver::new().register_to(),
        [
            (0, ObserverKind::Cmd),
            (100, ObserverKind::Role),
            (100, ObserverKind::RegionChange),
        ]
    );
}

#[test]
fn registering_keeps_the_region() {
    let o = BackupStreamObserver::new();
    let task: Task<Cmd> = o.register_region(&fake_region(7, b"a", b"b"));
    match task {
        Task::ModifyObserve(ObserveOp::Start {
            region,
            needs_initial_scanning,
        }) => {
            assert_eq!(region.id, 7);
            assert_eq!(region.start_key, b"a".to_vec());
            assert_eq!(region.end_key, b"b".to_vec());
            assert!(needs_initial_scanning);
        }
        _ => panic!("not a start"),
    }
}

#[test]
fn only_a_leader_in_range_is_started() {
    let o = observer_of(&[(b"0001", b"0010")]);
    let inside = fake_region(1, b"0008", b"0009");
    let across = fake_region(2, b"0000", b"0002");
    let after = fake_region(3, b"0010", b"0042");
    let before = fake_region(4, b"0000", b"0001");
    let leader = StateRole::Leader;
    assert_eq!(started(o.on_applied_current_term(leader, &inside)), Some(1));
    assert_eq!(started(o.on_applied_current_term(leader, &across)), Some(2));
    assert_eq!(started(o.on_applied_current_term(leader, &after)), None);
    assert_eq!(started(o.on_applied_current_term(leader, &before)), None);
    for role in [
        StateRole::Follower,
        StateRole::Candidate,
        StateRole::PreCandidate,
    ] {
        let task: Option<Task<Cmd>> = o.on_applied_current_term(role, &inside);
        assert!(task.is_none());
    }
}

#[test]
fn an_empty_end_key_is_infinity() {
    let o = observer_of(&[(b"m", b"n")]);
    assert!(o.should_register_region(&fake_region(1, b"a", b"")));
    assert!(o.should_register_region(&fake_region(1, b"", b"")));
    assert!(!o.should_register_region(&fake_region(1, b"n", b"")));
    assert!(!o.should_register_region(&fake_region(1, b"a", b"b")));
    // However far a range lies, a region without an end reaches it.
    let o = observer_of(&[(&[0xff; 33], &[0xff; 34])]);
    let endless = fake_region(1, b"a", b"");
    assert!(o.should_register_region(&endless));
    assert_eq!(
        started(o.on_applied_current_term(StateRole::Leader, &endless)),
        Some(1)
    );
    assert!(o.should_register_region(&fake_region(1, &[0xff; 33], b"")));
    assert!(!o.should_register_region(&fake_region(1, &[0xff; 34], b"")));
    assert!(o.should_register_region(&fake_region(1, b"a", &[0xff; 34])));
    assert!(!o.should_register_region(&fake_region(1, b"a", &[0xff; 33])));
}

#[test]
fn no_task_wants_no_region() {
    let o = BackupStreamObserver::new();
    assert!(!o.should_register_region(&fake_region(1, b"", b"")));
}

#[test]
fn losing_the_lead_stops() {
    let o = BackupStreamObserver::new();
    let r = fake_region(9, b"a", b"b");
    for role in [
        StateRole::Follower,
        StateRole::Candidate,
        StateRole::PreCandidate,
    ] {
        let task: Option<Task<Cmd>> = o.on_role_change(&r, &RoleChange::new(role));
        assert!(
            matches!(task, Some(Task::ModifyObserve(ObserveOp::Stop { region })) if region.id == 9)
        );
        for event in [
            RegionChangeEvent::Create,
            RegionChangeEvent::Update,
            RegionChangeEvent::Destroy,
            RegionChangeEvent::Other,
        ] {
            let task: Option<Task<Cmd>> = o.on_region_changed(&r, event, role);
            assert!(
                matches!(task, Some(Task::ModifyObserve(ObserveOp::Stop { region })) if region.id == 9)
            );
        }
    }
}

#[test]
fn region_changes_of_a_leader() {
    let o = BackupStreamObserver::new();
    let r = fake_region(9, b"a", b"b");
    let leader = StateRole::Leader;
    let task: Option<Task<Cmd>> = o.on_region_changed(&r, RegionChangeEvent::Destroy, leader);
    assert!(
        matches!(task, Some(Task::ModifyObserve(ObserveOp::Stop { region })) if region.id == 9)
    );
    let task: Option<Task<Cmd>> = o.on_region_changed(&r, RegionChangeEvent::Update, leader);
    assert!(
        matches!(task, Some(Task::ModifyObserve(ObserveOp::RefreshResolver { region })) if region.start_key == b"a".to_vec())
    );
    let task: Option<Task<Cmd>> = o.on_region_changed(&r, RegionChangeEvent::Other, leader);
    assert!(task.is_none());
}

#[test]
fn flush_sends_the_wanted_batches_in_order() {
    let o = BackupStreamObserver::new();
    let handle = ObserveHandle::new(5);
    let mut batches = Vec::new();
    for (region_id, level, cmds) in [
        (1, ObserveLevel::All, vec![10, 11]),
        (2, ObserveLevel::All, vec![]),
        (3, ObserveLevel::LockRelated, vec![12]),
        (4, ObserveLevel::All, vec![13]),
        (5, ObserveLevel::Off, vec![14]),
    ] {
        let mut cb = fake_batch(&handle, region_id);
        cb.level = level;
        cb.cmds = cmds.into_iter().map(|index| Cmd { index }).collect();
        batches.push(cb);
    }
    match o.on_flush_applied_cmd_batch(ObserveLevel::All, &batches) {
        Some(Task::BatchEvent(sent)) => {
            assert_eq!(sent.len(), 2);
            assert_eq!(sent[0].region_id, 1);
            assert_eq!(sent[0].cmds, vec![Cmd { index: 10 }, Cmd { index: 11 }]);
            assert_eq!(sent[0].cdc_id, 5);
            assert_eq!(sent[1].region_id, 4);
            assert_eq!(sent[1].cmds, vec![Cmd { index: 13 }]);
        }
        _ => panic!("no batch was sent"),
    }
    // A lower level of observation sends nothing, whatever the batches hold.
    assert!(o
        .on_flush_applied_cmd_batch(ObserveLevel::LockRelated, &batches)
        .is_none());
    // Nothing is sent where no batch is left.
    batches.remove(3);
    batches.remove(0);
    assert!(o
        .on_flush_applied_cmd_batch(ObserveLevel::All, &batches)
        .is_none());
}
