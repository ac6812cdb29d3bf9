//! The routing cache and the decisions a reference makes.
use granary::alarm_index::Sync;
use granary::error::CallError;
use granary::error::GrainError;
use granary::error::NodeId;
use granary::gateway::clamp_limit;
use granary::gateway::make_page;
use granary::gateway::redirect_hint;
use granary::gateway::Gateway;
use granary::gateway::ReadStep;
use granary::grain::GrainName;
use granary::grainref::after_first;
use granary::grainref::after_subscribe;
use granary::grainref::gateway_excluding;
use granary::grainref::gateway_on;
use granary::grainref::granary_client;
use granary::grainref::is_retriable;
use granary::grainref::judge_again;
use granary::grainref::judge_ask;
use granary::grainref::judge_tell;
use granary::grainref::AfterFirst;
use granary::grainref::AlarmSweep;
use granary::grainref::Attempt;
use granary::grainref::DriveAction;
use granary::grainref::GatewayRef;
use granary::grainref::GrainRef;
use granary::grainref::ResolveStart;
use granary::grainref::ResolveStep;
use granary::grainref::Resolved;
use granary::grainref::Resolving;
use granary::grainref::FORWARD_TIMEOUT;
use granary::grainref::RESOLVE_ATTEMPTS;
use granary::journal::SeqNo;
use granary::journal::Term;
use granary::routing_cache::Generations;
use granary::routing_cache::HostCache;
use granary::routing_cache::HostHandle;

fn name(key: &str) -> GrainName {
    GrainName::new("test.Grain", key)
}

#[test]
fn the_cache_stays_bounded_across_unboundedly_many_names() {
    let mut cache: Generations<u32> = Generations::new(16);
    for i in 0..10_000 {
        cache.insert(name(&format!("grain-{i}")), i);
    }
    assert!(
        cache.len() <= 32,
        "two generations of {} cap the cache at 2x, not {} entries",
        16,
        cache.len()
    );
}

#[test]
fn a_name_in_steady_use_is_retained() {
    let mut cache: Generations<u32> = Generations::new(4);
    let hot = name("hot");
    cache.insert(hot.clone(), 1);
    for i in 0..100 {
        cache.insert(name(&format!("other-{i}")), i);
        // Touching it each round promotes it back into the young generation.
        assert_eq!(cache.get(&hot).0, Some(1), "a touched name is never dropped");
    }
}

#[test]
fn an_untouched_name_is_evicted() {
    let mut cache: Generations<u32> = Generations::new(2);
    cache.insert(name("cold"), 1);
    for i in 0..10 {
        cache.insert(name(&format!("other-{i}")), i);
    }
    assert_eq!(cache.get(&name("cold")).0, None);
}

#[test]
fn removal_clears_both_generations() {
    let mut cache: Generations<u32> = Generations::new(1);
    let stale = name("stale");
    cache.insert(stale.clone(), 1);
    cache.insert(name("push"), 2); // ages `stale` into the older generation
    cache.remove(&stale);
    assert_eq!(cache.get(&stale).0, None);
    assert!(!cache.contains(&stale));
}

fn gw(node: u64) -> GatewayRef {
    GatewayRef { node: NodeId(node), id: node * 10 }
}

fn host(node: u64) -> HostHandle {
    HostHandle { node: NodeId(node), id: node * 100 }
}

#[test]
fn a_cached_host_on_a_deposed_leader_is_dropped() {
    let mut cache = HostCache::new(4);
    cache.put(name("a"), host(1));
    assert_eq!(cache.get(&name("a"), None), Some(host(1)));
    assert_eq!(cache.get(&name("a"), Some(NodeId(1))), Some(host(1)));
    assert_eq!(cache.get(&name("a"), Some(NodeId(2))), None);
    assert!(!cache.contains(&name("a")));
}

#[test]
fn a_gateway_is_chosen_by_node_or_escaped_from() {
    let gateways = vec![gw(1), gw(2), gw(3)];
    assert_eq!(gateway_on(&gateways, NodeId(2)), Some(gw(2)));
    assert_eq!(gateway_on(&gateways, NodeId(7)), None);
    assert_eq!(gateway_excluding(&gateways, NodeId(1)), Some(gw(2)));
    assert_eq!(gateway_excluding(&vec![gw(1)], NodeId(1)), Some(gw(1)));
    assert_eq!(gateway_excluding(&vec![], NodeId(1)), None);
    assert_eq!(granary_client(&vec![], 4), None);
    let plan = granary_client(&gateways, 0).unwrap();
    assert_eq!((plan.gateway, plan.shards), (gw(1), 1));
}

#[test]
fn a_resolution_follows_hints_until_it_runs_out() {
    let gateways = vec![gw(1), gw(2)];
    let mut run = Resolving::new(gw(1), 1_000_000_000, NodeId(1));
    assert_eq!(
        run.next(0),
        ResolveStep::Ask { target: gw(1), timeout: FORWARD_TIMEOUT }
    );
    assert_eq!(
        run.answered(Ok(Err(GrainError::NotLeader(NodeId(2)))), &gateways),
        Resolved::TryAgain
    );
    // The redirect goes to the hinted node, for no longer than is left.
    assert_eq!(
        run.next(900_000_000),
        ResolveStep::Ask { target: gw(2), timeout: 100_000_000 }
    );
    // A gateway that does not answer is escaped from.
    assert_eq!(run.answered(Err(CallError::Timeout), &gateways), Resolved::TryAgain);
    assert_eq!(run.target, gw(1));
    assert_eq!(run.answered(Ok(Ok(host(1))), &gateways), Resolved::Found(host(1)));
    assert_eq!(
        run.answered(Ok(Err(GrainError::Unavailable("x".into()))), &gateways),
        Resolved::Failed(GrainError::Unavailable("x".into()))
    );
    assert_eq!(
        run.next(1_000_000_000),
        ResolveStep::GiveUp(GrainError::NotLeader(NodeId(1)))
    );
    let mut run = Resolving::new(gw(1), u64::MAX, NodeId(1));
    for _ in 0..RESOLVE_ATTEMPTS {
        assert!(matches!(run.next(0), ResolveStep::Ask { .. }));
    }
    assert!(matches!(run.next(0), ResolveStep::GiveUp(_)));
}

#[test]
fn a_reference_uses_its_cache_only_when_it_may() {
    let mut grain = GrainRef::new(name("a"), gw(1), NodeId(1), Some(HostCache::new(4)));
    assert!(matches!(grain.resolve(true, None, 9), ResolveStart::Redirect(_)));
    grain.found(host(2));
    assert!(grain.is_cached());
    assert_eq!(grain.resolve(true, None, 9), ResolveStart::Cached(host(2)));
    assert!(matches!(grain.resolve(false, None, 9), ResolveStart::Redirect(_)));
    grain.invalidate();
    assert!(!grain.is_cached());
    assert_eq!(grain.name(), &name("a"));
}

#[test]
fn references_share_a_cache_by_passing_it_on() {
    let mut a = GrainRef::new(name("a"), gw(1), NodeId(1), Some(HostCache::new(4)));
    let mut again = GrainRef::new(name("a"), gw(1), NodeId(1), None);
    a.found(host(2));
    assert!(again.swap_cache(a.swap_cache(None)).is_none());
    assert!(!a.is_cached());
    assert_eq!(again.resolve(true, None, 9), ResolveStart::Cached(host(2)));
}

#[test]
fn a_name_outlives_as_many_others_as_a_generation_holds() {
    let mut cache: Generations<u32> = Generations::new(4);
    cache.insert(name("a"), 1);
    assert_eq!(cache.get(&name("a")).0, Some(1));
    for i in 0..4 {
        cache.insert(name(&format!("other-{i}")), i);
    }
    assert_eq!(cache.get(&name("a")).0, Some(1));
}

#[test]
fn only_what_cannot_have_run_is_sent_again() {
    assert_eq!(judge_ask(Ok(Ok(5))), Attempt::Done(Ok(5)));
    assert_eq!(judge_ask::<u8>(Err(CallError::DeadLetter)), Attempt::Retry);
    assert_eq!(
        judge_ask::<u8>(Ok(Err(GrainError::NotLeader(NodeId(2))))),
        Attempt::Retry
    );
    assert_eq!(
        judge_ask::<u8>(Err(CallError::Timeout)),
        Attempt::Done(Err(GrainError::Call(CallError::Timeout)))
    );
    assert_eq!(judge_tell(Err(CallError::DeadLetter)), Attempt::Retry);
    assert_eq!(
        judge_tell(Err(CallError::Unreachable)),
        Attempt::Done(Err(GrainError::Call(CallError::Unreachable)))
    );
    assert_eq!(
        judge_again::<u8>(Err(CallError::DeadLetter)),
        Err(GrainError::Call(CallError::DeadLetter))
    );
    assert!(is_retriable(&CallError::DeadLetter) && !is_retriable(&CallError::Timeout));
    assert_eq!(after_first::<u8>(Attempt::Retry, true, 10, 5), AfterFirst::Again);
    assert_eq!(
        after_first::<u8>(Attempt::Retry, true, 10, 10),
        AfterFirst::Over(Err(GrainError::Unavailable(
            "deadline exhausted before the retry".into()
        )))
    );
    assert_eq!(after_first(Attempt::Done(Ok(1)), true, 0, 5), AfterFirst::Over(Ok(1)));
    assert_eq!(after_subscribe(Ok(4)), (Ok(4), false));
    assert!(after_subscribe(Err(CallError::Timeout)).1);
}

#[test]
fn an_alarm_sweep_wakes_what_is_due_in_the_shards_it_leads() {
    let mut sweep = AlarmSweep::new("t", 50, vec![], 2);
    assert_eq!(sweep.action(), DriveAction::CheckLead(0));
    sweep.leads(false);
    assert_eq!(sweep.action(), DriveAction::CheckLead(1));
    sweep.leads(true);
    assert_eq!(sweep.action(), DriveAction::AskDue { key: "t/1".into(), before: 50 });
    sweep.due(Ok(vec![name("x"), name("y")]));
    assert_eq!(sweep.action(), DriveAction::Reactivate(name("x")));
    // It moved to another shard: its entry here is stale.
    sweep.woken(true, 0);
    assert_eq!(
        sweep.action(),
        DriveAction::ClearStale {
            key: "t/1".into(),
            sync: Sync { grain: name("x"), due: None, head: u64::MAX },
        }
    );
    sweep.cleared();
    assert_eq!(sweep.action(), DriveAction::Reactivate(name("y")));
    sweep.woken(false, 0);
    assert_eq!(sweep.action(), DriveAction::Finished);
}

// ---- The gateway ----

#[test]
fn a_redirect_names_a_replica() {
    let replicas = vec![NodeId(2), NodeId(3)];
    assert_eq!(redirect_hint(&replicas, Some(NodeId(3)), NodeId(1)), NodeId(3));
    // A believed leader outside the replica set is not followed.
    assert_eq!(redirect_hint(&replicas, Some(NodeId(9)), NodeId(1)), NodeId(2));
    assert_eq!(redirect_hint(&replicas, None, NodeId(2)), NodeId(2));
    assert_eq!(redirect_hint(&vec![], None, NodeId(1)), NodeId(1));
}

#[test]
fn a_live_activation_is_reused_and_a_dead_one_replaced() {
    let mut gateway = Gateway::new(8);
    assert_eq!(gateway.get_or_activate(&name("a"), 0, false), None);
    gateway.activated(name("a"), 0, host(1));
    assert_eq!(gateway.get_or_activate(&name("a"), 0, true), Some(host(1)));
    // One left under another shard does not block the name.
    assert_eq!(gateway.get_or_activate(&name("a"), 1, true), None);
    gateway.activated(name("a"), 1, host(2));
    gateway.terminated(host(2));
    assert_eq!(gateway.resident(&name("a")), None);
}

#[test]
fn a_read_is_served_below_a_recovered_floor() {
    let mut gateway = Gateway::new(8);
    let term = Some(Term::new(3));
    assert_eq!(gateway.read(&name("a"), 0, false, None, term), ReadStep::Redirect);
    assert_eq!(gateway.read(&name("a"), 0, true, None, None), ReadStep::Redirect);
    let ReadStep::Recover { epoch } = gateway.read(&name("a"), 0, true, None, term) else {
        panic!("the first read recovers");
    };
    assert_eq!(gateway.read(&name("a"), 0, true, None, term), ReadStep::Warming);
    gateway.recovered(name("a"), 0, Term::new(3), Some(SeqNo::new(7)), epoch, 0, term);
    assert_eq!(
        gateway.read(&name("a"), 0, true, None, term),
        ReadStep::Serve { floor: SeqNo::new(7) }
    );
    // Under another term the floor says nothing.
    assert!(matches!(
        gateway.read(&name("a"), 0, true, None, Some(Term::new(4))),
        ReadStep::Recover { .. }
    ));
    // A resident grain's published head is the floor.
    gateway.activated(name("b"), 0, host(1));
    assert_eq!(
        gateway.read(&name("b"), 0, true, Some(SeqNo::new(2)), term),
        ReadStep::Serve { floor: SeqNo::new(2) }
    );
}

#[test]
fn an_activation_voids_a_recovery_in_flight() {
    let mut gateway = Gateway::new(8);
    let term = Some(Term::new(3));
    let ReadStep::Recover { epoch } = gateway.read(&name("a"), 0, true, None, term) else {
        panic!("the first read recovers");
    };
    assert_eq!(gateway.get_or_activate(&name("a"), 0, false), None);
    gateway.recovered(name("a"), 0, Term::new(3), Some(SeqNo::new(7)), epoch, 0, term);
    assert!(matches!(
        gateway.read(&name("a"), 0, true, None, term),
        ReadStep::Recover { .. }
    ));
}

#[test]
fn a_page_serves_events_up_to_the_floor() {
    let records = vec![
        (SeqNo::new(1), vec![0, 10]),
        (SeqNo::new(2), vec![1, 99]),
        (SeqNo::new(3), vec![0, 30]),
        (SeqNo::new(4), vec![0, 40]),
    ];
    let page = make_page(&records, 4, SeqNo::new(3), SeqNo::zero(), SeqNo::zero()).unwrap();
    // Facet records are no events, and nothing above the floor is served.
    assert_eq!(page.events, vec![(SeqNo::new(1), vec![10]), (SeqNo::new(3), vec![30])]);
    assert_eq!(page.cursor, SeqNo::new(3));
    assert!(page.at_head);
    let full = make_page(&records, 4, SeqNo::new(9), SeqNo::zero(), SeqNo::zero()).unwrap();
    assert_eq!(full.cursor, SeqNo::new(4));
    assert!(!full.at_head, "a full page may have more behind it");
    assert!(make_page(
        &vec![(SeqNo::new(1), vec![])],
        4,
        SeqNo::new(1),
        SeqNo::zero(),
        SeqNo::zero()
    )
    .is_err());
    assert_eq!(clamp_limit(0), 1);
    assert_eq!(clamp_limit(17), 17);
    assert_eq!(clamp_limit(5000), 1024);
}
