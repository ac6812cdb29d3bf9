//! The per-command protocol of an activation, the alarm index, and the node's settings.
use granary::alarm_index::index_key;
use granary::alarm_index::AlarmIndex;
use granary::alarm_index::Change;
use granary::alarm_index::DueBefore;
use granary::alarm_index::Pending;
use granary::alarm_index::Sync;
use granary::config::host_pool_width;
use granary::config::pool_width;
use granary::config::GranaryConfig;
use granary::election::LeaderElection;
use granary::error::CallError;
use granary::error::GrainError;
use granary::error::NodeId;
use granary::event::GrainEvent;
use granary::grain::GrainName;
use granary::grain::GrainRegistry;
use granary::host::activation_events;
use granary::host::choose_base;
use granary::host::classify;
use granary::host::delivered;
use granary::host::Batch;
use granary::host::Finished;
use granary::host::Grain;
use granary::host::Host;
use granary::host::Idle;
use granary::host::RecordBatch;
use granary::host::ReplayItem;
use granary::host::Replayed;
use granary::host::Sealed;
use granary::journal::AppendOutcome;
use granary::journal::GrainJournalError;
use granary::journal::SeqNo;
use granary::journal::Term;
use granary::node::GranaryNode;
use granary::snapshot::CompositeSnapshot;
use granary::snapshot::StatePayload;

fn name(key: &str) -> GrainName {
    GrainName::new("test.Grain", key)
}

fn sync(key: &str, due: Option<u64>, head: u64) -> Sync {
    Sync { grain: name(key), due, head }
}

fn apply(state: &mut Pending, msg: Sync) -> usize {
    let changes = AlarmIndex::handle_sync(state, msg);
    for change in &changes {
        AlarmIndex::apply(state, change);
    }
    changes.len()
}

#[test]
fn the_index_lists_what_is_due_in_name_order() {
    let mut state = Pending::default();
    assert!(state.is_empty());
    apply(&mut state, sync("b", Some(20), 1));
    apply(&mut state, sync("a", Some(30), 1));
    apply(&mut state, sync("c", Some(10), 1));
    assert_eq!(
        AlarmIndex::handle_due_before(&state, DueBefore { before: 20 }),
        vec![name("b"), name("c")]
    );
    assert_eq!(
        AlarmIndex::handle_all_pending(&state),
        vec![(name("a"), 30), (name("b"), 20), (name("c"), 10)]
    );
    assert_eq!(state.len(), 3);
}

#[test]
fn a_stale_sync_changes_nothing() {
    let mut state = Pending::default();
    assert_eq!(apply(&mut state, sync("a", Some(20), 5)), 1);
    // The same again, and an older one, are no changes.
    assert_eq!(apply(&mut state, sync("a", Some(20), 5)), 0);
    assert_eq!(apply(&mut state, sync("a", Some(99), 4)), 0);
    assert_eq!(apply(&mut state, sync("a", None, 4)), 0);
    assert_eq!(state.get(&name("a")), Some(20));
    assert_eq!(state.head_of(&name("a")), Some(5));
    assert_eq!(apply(&mut state, sync("a", None, 6)), 1);
    assert_eq!(state.get(&name("a")), None);
    assert_eq!(index_key("bank.Account", 3), "bank.Account/3");
    assert_ne!(index_key("bank.Account/3", 4), index_key("bank.Account", 34));
}

#[test]
fn a_late_register_does_not_revive_a_cleared_alarm() {
    let mut state = Pending::default();
    assert_eq!(apply(&mut state, sync("a", Some(20), 5)), 1);
    assert_eq!(apply(&mut state, sync("a", None, 7)), 1);
    // Registered before the clear, delivered after it.
    assert_eq!(apply(&mut state, sync("a", Some(30), 6)), 0);
    assert_eq!(state.get(&name("a")), None);
    assert_eq!(state.head_of(&name("a")), Some(7));
    // The clear comes first and the register never had an entry to replace.
    let mut other = Pending::default();
    assert_eq!(apply(&mut other, sync("a", None, 7)), 1);
    assert_eq!(apply(&mut other, sync("a", Some(30), 6)), 0);
    assert_eq!(other.get(&name("a")), None);
    assert_eq!(other.head_of(&name("a")), Some(7));
    // A cleared grain is neither listed nor counted.
    assert_eq!(state.len(), 0);
    assert!(state.is_empty());
    assert_eq!(AlarmIndex::handle_all_pending(&state), vec![]);
    assert_eq!(AlarmIndex::handle_due_before(&state, DueBefore { before: u64::MAX }), vec![]);
    // An alarm set after the clear counts.
    assert_eq!(apply(&mut state, sync("a", Some(50), 8)), 1);
    assert_eq!(state.get(&name("a")), Some(50));
    assert_eq!(state.len(), 1);
}

#[test]
fn an_entry_that_the_driver_cleared_can_come_back() {
    let mut state = Pending::default();
    apply(&mut state, sync("a", Some(20), 5));
    assert_eq!(apply(&mut state, sync("a", None, u64::MAX)), 1);
    assert_eq!(state.get(&name("a")), None);
    assert_eq!(state.head_of(&name("a")), None);
    assert_eq!(apply(&mut state, sync("a", Some(20), 5)), 1);
    assert_eq!(state.get(&name("a")), Some(20));
}

#[test]
fn a_command_commits_and_folds() {
    let mut host: Host<AlarmIndex> = Host::new(2, 100);
    host.restore_empty().unwrap();
    host.rehydrated(SeqNo::zero(), 5);
    host.begin_command(10, true).unwrap();
    // Nothing to commit: a read.
    assert_eq!(host.seal_command(Ok(vec![])), Sealed::Read);
    host.begin_command(11, true).unwrap();
    let Sealed::Append(batch) = host.seal_command(Ok(vec![vec![7]])) else {
        panic!("an event is to be appended");
    };
    assert!(Host::<AlarmIndex>::foldable(&batch));
    assert_eq!(batch.records, vec![vec![0, 7]]);
    let events = vec![Change::Due(name("a"), 40, 1)];
    let done = host.finish_command(&batch, &events, AppendOutcome::Committed(SeqNo::new(1)));
    assert_eq!(done, Finished::Committed { from: SeqNo::zero(), to: SeqNo::new(1) });
    assert_eq!(host.head, SeqNo::new(1));
    assert_eq!(host.state.get(&name("a")), Some(40));
    assert!(!host.snapshot_due());
    assert_eq!(host.check_idle(110, true), Idle::Reschedule);
    assert_eq!(host.check_idle(111, true), Idle::Passivate);
    assert_eq!(host.check_idle(500, false), Idle::Reschedule);
}

#[test]
fn a_failed_append_steps_down_without_folding() {
    let batch = Batch { records: vec![vec![0, 7]], facet_records: vec![] };
    let events = vec![Change::Due(name("a"), 40, 1)];
    let outcomes = [
        (
            AppendOutcome::NotLeader(NodeId(3)),
            GrainError::NotLeader(NodeId(3)),
        ),
        (
            AppendOutcome::Unavailable("no quorum".into()),
            GrainError::Unavailable("no quorum".into()),
        ),
        (
            AppendOutcome::Committed(SeqNo::new(9)),
            GrainError::Unavailable("stale head; reactivating".into()),
        ),
    ];
    for (outcome, error) in outcomes {
        let mut host: Host<AlarmIndex> = Host::new(0, 0);
        host.restore_empty().unwrap();
        host.rehydrated(SeqNo::zero(), 0);
        assert_eq!(
            host.finish_command(&batch, &events, outcome),
            Finished::SteppedDown(error)
        );
        assert_eq!(host.head, SeqNo::zero());
        assert!(host.state.is_empty());
    }
    let mut host: Host<AlarmIndex> = Host::new(0, 0);
    host.begin_command(0, true).unwrap();
    assert_eq!(
        host.seal_command(Err("bad".into())),
        Sealed::Failed(GrainError::Call(CallError::Serialization("bad".into())))
    );
    assert_eq!(host.idle_check_after(), None);
}

#[test]
fn a_snapshot_is_planned_and_a_restart_begins_at_it() {
    let mut host: Host<AlarmIndex> = Host::new(2, 0);
    host.restore_empty().unwrap();
    let page = vec![
        (SeqNo::new(1), Replayed::Event(Change::Due(name("a"), 1, 1))),
        (SeqNo::new(2), Replayed::Event(Change::Due(name("b"), 2, 2))),
    ];
    assert!(Host::<AlarmIndex>::replayable(&page));
    assert_eq!(host.replay(SeqNo::zero(), &page), Ok(SeqNo::new(2)));
    assert_eq!(host.replay(SeqNo::new(2), &vec![]), Ok(SeqNo::new(2)));
    assert_eq!(host.state.len(), 2);
    // A record of a facet that the grain does not have aborts the activation.
    let foreign = vec![(SeqNo::new(3), Replayed::Facet(9, vec![1]))];
    assert!(host.replay(SeqNo::new(2), &foreign).is_err());
    host.rehydrated(SeqNo::new(2), 0);
    assert!(host.snapshot_due());
    let plan = host.plan_snapshot(Some(vec![1, 2, 3]), "json").expect("a snapshot is due");
    assert!(plan.chunks.is_empty() && plan.ids.is_empty());
    assert_eq!(
        plan.record,
        CompositeSnapshot { state: StatePayload::Inline(vec![1, 2, 3]), facets: vec![] }
            .encode("json")
    );
    assert_eq!(host.snapshot_saved(AppendOutcome::Committed(SeqNo::new(2))), Some(2));
    assert!(!host.snapshot_due());
    assert!(host.plan_snapshot(Some(vec![1]), "json").is_none(), "nothing new to save");
    // A stored snapshot at or below the head is the base.
    let stored = Some((SeqNo::new(2), plan.record.clone()));
    let base = choose_base(SeqNo::new(5), stored, "json").unwrap();
    assert_eq!(base.map(|(at, s)| (at, s.state)), Some((
        SeqNo::new(2),
        StatePayload::Inline(vec![1, 2, 3])
    )));
    // One beyond the head is ignored, and one of another codec refused.
    assert_eq!(choose_base(SeqNo::new(1), Some((SeqNo::new(2), plan.record.clone())), "json"), Ok(None));
    assert!(choose_base(SeqNo::new(5), Some((SeqNo::new(2), plan.record)), "cbor").is_err());
}

#[test]
fn a_record_is_an_event_or_a_facets() {
    assert_eq!(classify(&[0, 5]), Ok(ReplayItem::Event(&[5])));
    assert_eq!(classify(&[2, 5]), Ok(ReplayItem::Facet(2, &[5])));
    assert!(classify(&[]).is_err());
}

#[test]
fn a_committed_batch_is_numbered_for_its_subscribers() {
    assert_eq!(
        delivered(SeqNo::new(3), SeqNo::new(5), vec![vec![1], vec![2]]),
        RecordBatch { from: 3, records: vec![(4, vec![1]), (5, vec![2])] }
    );
    // No record stands beyond the head that was committed, nor a position without one.
    assert_eq!(
        delivered(SeqNo::new(3), SeqNo::new(4), vec![vec![1], vec![2]]).records,
        vec![(4, vec![1])]
    );
    assert_eq!(
        delivered(SeqNo::new(3), SeqNo::new(9), vec![vec![1]]).records,
        vec![(4, vec![1])]
    );
    assert_eq!(delivered(SeqNo::new(3), SeqNo::new(3), vec![vec![1]]).records, vec![]);
    // What a command committed is delivered whole.
    let mut host: Host<AlarmIndex> = Host::new(2, 100);
    host.restore_empty().unwrap();
    host.rehydrated(SeqNo::new(6), 0);
    host.begin_command(1, true).unwrap();
    let Sealed::Append(batch) = host.seal_command(Ok(vec![vec![7], vec![8]])) else {
        panic!("two events are to be appended");
    };
    let events = vec![Change::Due(name("a"), 40, 1), Change::Cleared(name("a"), 2)];
    let done = host.finish_command(&batch, &events, AppendOutcome::Committed(SeqNo::new(8)));
    let Finished::Committed { from, to } = done else {
        panic!("the append committed");
    };
    assert_eq!(
        delivered(from, to, batch.records),
        RecordBatch { from: 6, records: vec![(7, vec![0, 7]), (8, vec![0, 8])] }
    );
}

#[test]
fn an_activation_is_announced() {
    assert_eq!(
        activation_events(NodeId(1), &name("a"), true, 4),
        vec![
            GrainEvent::Rehydrated {
                node: NodeId(1),
                name: name("a"),
                from_snapshot: true,
                replayed: 4
            },
            GrainEvent::Activated { node: NodeId(1), name: name("a") },
        ]
    );
}

#[test]
fn settings_have_their_defaults_and_their_floors() {
    let config = GranaryConfig::default();
    assert_eq!(config.scratch_dir("/tmp"), "/tmp/granary");
    let config = GranaryConfig { shards: 0, replication_factor: 0, data_dir: Some("/d".into()), ..config };
    assert_eq!(config.hosting().shards, 1);
    assert_eq!(config.hosting().replicas, 1);
    assert_eq!(config.scratch_dir("/tmp"), "/d");
    assert_eq!(config.store_dir("bank.Account", NodeId(3)), None);
    let config = GranaryConfig { grain_store: Some("/s".into()), ..config };
    assert_eq!(
        config.store_dir("bank.Account", NodeId(3)),
        Some("/s/bank.Account/3".to_string())
    );
    assert_eq!(pool_width(0), 1);
    assert_eq!(host_pool_width(None), 4);
    assert_eq!((host_pool_width(Some(1)), host_pool_width(Some(5)), host_pool_width(Some(64))), (2, 5, 8));
}

#[test]
fn an_election_is_read_as_it_stands() {
    let election = LeaderElection {
        self_node: NodeId(1),
        leader: Some(NodeId(2)),
        leads: false,
        term: Some(4),
    };
    assert!(!election.is_leader());
    assert_eq!(election.leader_hint(), NodeId(2));
    let unknown = LeaderElection { leader: None, ..election };
    assert_eq!(unknown.leader_hint(), NodeId(1));
}

#[test]
fn a_node_carries_its_capabilities() {
    let node = GranaryNode::new("system", 1u8, 'm').blocking_io(2).metrics('n');
    assert_eq!(*node.system(), "system");
    assert_eq!(*node.capabilities().blocking_io(), 2);
    assert_eq!(*node.capabilities().metrics(), 'n');
}

#[test]
fn errors_and_positions_are_put_in_words() {
    assert_eq!(SeqNo::new(7).to_text(), "seq-7");
    assert_eq!(Term::new(0).to_text(), "term-0");
    assert_eq!(
        GrainJournalError::Unavailable("disk".into()).to_text(),
        "journal read failed: disk"
    );
    assert_eq!(name("k").to_text(), "test.Grain/k");
    let mut registry = GrainRegistry::new();
    AlarmIndex::register(&mut registry);
    assert!(!registry.accepts("nothing"));
    assert!(registry.accepted().len() > 0);
}
