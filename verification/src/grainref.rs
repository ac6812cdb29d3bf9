//! Reaching a grain: the bounded redirect towards its shard's leader, the
//! at-most-twice dispatch of a command, and the sweep that wakes grains whose alarm
//! is due.
//!
//! Nothing here sends a message or sleeps. Each run says what to do next and is told
//! what came of it. Times are in nanoseconds.
use vstd::prelude::*;
use vstd::string::*;

use crate::alarm_index::index_key;
use crate::alarm_index::synced;
use crate::alarm_index::Slot;
use crate::alarm_index::Sync;
use crate::config::at_least_one;
use crate::config::clamp_to_one;
use crate::error::CallError;
use crate::error::GrainError;
use crate::error::NodeId;
use crate::grain::GrainName;
use crate::grain::NameModel;
use crate::key::OrdKey;
use crate::routing_cache::cached;
use crate::routing_cache::dropped;
use crate::routing_cache::held;
use crate::routing_cache::holds;
use crate::routing_cache::touched;
use crate::routing_cache::HostCache;
use crate::routing_cache::HostHandle;
use crate::text::decimal;

verus! {

/// The deadline of a call that does not choose one.
pub const DEFAULT_ASK_TIMEOUT: u64 = 5_000_000_000;

/// How long the redirect waits between attempts.
pub const RESOLVE_BACKOFF: u64 = 50_000_000;

/// The most attempts of one redirect; the real bound is the caller's deadline.
pub const RESOLVE_ATTEMPTS: usize = 200;

/// How long one attempt waits on a gateway before it counts as gone.
pub const FORWARD_TIMEOUT: u64 = 500_000_000;

/// How often the alarm driver sweeps.
pub const ALARM_DRIVE_INTERVAL: u64 = 500_000_000;

/// A grain type's gateway on one node.
#[derive(Clone, Copy, Debug, PartialEq, Eq, Structural)]
pub struct GatewayRef {
    pub node: NodeId,
    pub id: u64,
}

/// What is left of a deadline.
pub open spec fn remaining(deadline: u64, now: u64) -> u64 {
    if now < deadline {
        (deadline - now) as u64
    } else {
        0
    }
}

fn time_left(deadline: u64, now: u64) -> (r: u64)
    ensures
        r == remaining(deadline, now),
{
    if now < deadline {
        deadline - now
    } else {
        0
    }
}

/// The first gateway on `node`.
pub open spec fn on_node(gateways: Seq<GatewayRef>, node: NodeId) -> Option<GatewayRef>
    decreases gateways.len(),
{
    if gateways.len() == 0 {
        None
    } else if gateways[0].node == node {
        Some(gateways[0])
    } else {
        on_node(gateways.skip(1), node)
    }
}

/// The first gateway on another node.
pub open spec fn off_node(gateways: Seq<GatewayRef>, node: NodeId) -> Option<GatewayRef>
    decreases gateways.len(),
{
    if gateways.len() == 0 {
        None
    } else if gateways[0].node != node {
        Some(gateways[0])
    } else {
        off_node(gateways.skip(1), node)
    }
}

/// A gateway to escape to from a dead one: the first on another node, or else the
/// first there is.
pub open spec fn escape(gateways: Seq<GatewayRef>, failed: NodeId) -> Option<GatewayRef> {
    match off_node(gateways, failed) {
        Some(gateway) => Some(gateway),
        None => if gateways.len() > 0 {
            Some(gateways[0])
        } else {
            None
        },
    }
}

/// The gateway registered on `node`, if discovered.
pub fn gateway_on(gateways: &Vec<GatewayRef>, node: NodeId) -> (r: Option<GatewayRef>)
    ensures
        r == on_node(gateways@, node),
{
    let mut i: usize = 0;
    assert(gateways@.skip(0) =~= gateways@);
    while i < gateways.len()
        invariant
            i <= gateways@.len(),
            on_node(gateways@, node) == on_node(gateways@.skip(i as int), node),
        decreases gateways@.len() - i,
    {
        assert(gateways@.skip(i as int)[0] == gateways@[i as int]);
        assert(gateways@.skip(i as int).skip(1) =~= gateways@.skip(i + 1));
        if gateways[i].node == node {
            return Some(gateways[i]);
        }
        i = i + 1;
    }
    None
}

/// A discovered gateway on any node but `failed`, whose registration may outlive its
/// crash.
pub fn gateway_excluding(gateways: &Vec<GatewayRef>, failed: NodeId) -> (r: Option<GatewayRef>)
    ensures
        r == escape(gateways@, failed),
{
    let mut i: usize = 0;
    assert(gateways@.skip(0) =~= gateways@);
    while i < gateways.len()
        invariant
            i <= gateways@.len(),
            off_node(gateways@, failed) == off_node(gateways@.skip(i as int), failed),
        decreases gateways@.len() - i,
    {
        assert(gateways@.skip(i as int)[0] == gateways@[i as int]);
        assert(gateways@.skip(i as int).skip(1) =~= gateways@.skip(i + 1));
        if gateways[i].node != failed {
            return Some(gateways[i]);
        }
        i = i + 1;
    }
    if gateways.len() > 0 {
        Some(gateways[0])
    } else {
        None
    }
}

// ---- The redirect ----

/// A redirect under way: the gateway to ask, and what is left of its bounds.
#[derive(Clone, Copy, Debug, PartialEq, Eq, Structural)]
pub struct Resolving {
    pub target: GatewayRef,
    pub attempts_left: usize,
    pub deadline: u64,
    pub self_node: NodeId,
}

/// What a redirect does next.
#[derive(Clone, Debug, PartialEq, Eq)]
pub enum ResolveStep {
    /// Ask this gateway to activate the grain, and wait this long for its answer.
    Ask { target: GatewayRef, timeout: u64 },
    /// The bounds are exhausted.
    GiveUp(GrainError),
}

/// What an answer means.
#[derive(Clone, Debug, PartialEq, Eq)]
pub enum Resolved {
    Found(HostHandle),
    Failed(GrainError),
    /// Back off, then go on.
    TryAgain,
}

/// The next step of a redirect at a time, and the redirect after it.
pub open spec fn next_step(run: Resolving, now: u64) -> (ResolveStep, Resolving) {
    let left = remaining(run.deadline, now);
    if run.attempts_left == 0 || left == 0 {
        (ResolveStep::GiveUp(GrainError::NotLeader(run.self_node)), run)
    } else {
        (
            ResolveStep::Ask {
                target: run.target,
                timeout: if left <= FORWARD_TIMEOUT {
                    left
                } else {
                    FORWARD_TIMEOUT
                },
            },
            Resolving { attempts_left: (run.attempts_left - 1) as usize, ..run },
        )
    }
}

impl Resolving {
    /// Begin at the reference's own gateway.
    pub fn new(gateway: GatewayRef, deadline: u64, self_node: NodeId) -> (r: Resolving)
        ensures
            r == (Resolving {
                target: gateway,
                attempts_left: RESOLVE_ATTEMPTS,
                deadline,
                self_node,
            }),
    {
        Resolving { target: gateway, attempts_left: RESOLVE_ATTEMPTS, deadline, self_node }
    }

    /// The next attempt, or the end: the deadline or the attempts are exhausted, and
    /// the best hint is surfaced.
    pub fn next(&mut self, now: u64) -> (r: ResolveStep)
        ensures
            (r, *final(self)) == next_step(*old(self), now),
    {
        let left: u64 = time_left(self.deadline, now);
        if self.attempts_left == 0 || left == 0 {
            return ResolveStep::GiveUp(GrainError::NotLeader(self.self_node));
        }
        self.attempts_left = self.attempts_left - 1;
        let timeout: u64 = if left <= FORWARD_TIMEOUT {
            left
        } else {
            FORWARD_TIMEOUT
        };
        ResolveStep::Ask { target: self.target, timeout }
    }

    /// Take in a gateway's answer, with the gateways discovered so far. A leader hint
    /// is followed if its gateway is known; an unreachable gateway is escaped from;
    /// any other refusal is the caller's.
    pub fn answered(
        &mut self,
        answer: Result<Result<HostHandle, GrainError>, CallError>,
        gateways: &Vec<GatewayRef>,
    ) -> (r: Resolved)
        ensures
            final(self).attempts_left == old(self).attempts_left,
            final(self).deadline == old(self).deadline,
            final(self).self_node == old(self).self_node,
            match answer {
                Ok(Ok(host)) => r == Resolved::Found(host) && final(self).target == old(
                    self,
                ).target,
                Ok(Err(GrainError::NotLeader(hint))) => r == Resolved::TryAgain
                    && final(self).target == match on_node(gateways@, hint) {
                    Some(gateway) => gateway,
                    None => old(self).target,
                },
                Ok(Err(other)) => r == Resolved::Failed(other) && final(self).target == old(
                    self,
                ).target,
                Err(_) => r == Resolved::TryAgain && final(self).target == match escape(
                    gateways@,
                    old(self).target.node,
                ) {
                    Some(gateway) => gateway,
                    None => old(self).target,
                },
            },
    {
        match answer {
            Ok(Ok(host)) => Resolved::Found(host),
            Ok(Err(e)) => match e {
                GrainError::NotLeader(hint) => {
                    if let Some(gateway) = gateway_on(gateways, hint) {
                        self.target = gateway;
                    }
                    Resolved::TryAgain
                },
                other => Resolved::Failed(other),
            },
            Err(_) => {
                if let Some(gateway) = gateway_excluding(gateways, self.target.node) {
                    self.target = gateway;
                }
                Resolved::TryAgain
            },
        }
    }
}

/// A redirect asks at most as often as it has attempts, and never beyond its deadline;
/// once it gives up it stays so.
pub proof fn law_a_redirect_is_bounded(run: Resolving, now: u64, later: u64)
    requires
        now <= later,
    ensures
        match next_step(run, now) {
            (ResolveStep::Ask { timeout, .. }, after) => {
                &&& after.attempts_left < run.attempts_left
                &&& after.deadline == run.deadline
                &&& 0 < timeout <= FORWARD_TIMEOUT
                &&& now + timeout <= run.deadline
            },
            (ResolveStep::GiveUp(e), after) => {
                &&& run.attempts_left == 0 || run.deadline <= now
                &&& next_step(after, later) == (ResolveStep::GiveUp(e), run)
            },
        },
{
}

/// How resolving a reference begins: from the cache, or with a redirect.
#[derive(Clone, Copy, Debug, PartialEq, Eq)]
pub enum ResolveStart {
    Cached(HostHandle),
    Redirect(Resolving),
}

/// A reference to a grain: its name, the gateway it routes through, and the node's
/// cache if it was minted there. It grants no access to the grain's state.
pub struct GrainRef {
    name: GrainName,
    gateway: GatewayRef,
    self_node: NodeId,
    cache: Option<HostCache>,
}

impl GrainRef {
    pub closed spec fn wf(&self) -> bool {
        self.cache is Some ==> self.cache->0.wf()
    }

    pub closed spec fn named(&self) -> NameModel {
        self.name.deep_view()
    }

    pub closed spec fn routes_through(&self) -> GatewayRef {
        self.gateway
    }

    pub closed spec fn on(&self) -> NodeId {
        self.self_node
    }

    pub closed spec fn caching(&self) -> Option<HostCache> {
        self.cache
    }

    pub fn new(
        name: GrainName,
        gateway: GatewayRef,
        self_node: NodeId,
        cache: Option<HostCache>,
    ) -> (r: GrainRef)
        requires
            cache is Some ==> cache->0.wf(),
        ensures
            r.wf(),
            r.named() == name.deep_view(),
            r.routes_through() == gateway,
            r.on() == self_node,
            r.caching() == cache,
    {
        GrainRef { name, gateway, self_node, cache }
    }

    /// The grain's name.
    pub fn name(&self) -> (r: &GrainName)
        ensures
            r.deep_view() == self.named(),
    {
        &self.name
    }

    /// Route through `cache` from here on; the cache it had so far. The references of a
    /// node share one cache by passing it on.
    pub fn swap_cache(&mut self, cache: Option<HostCache>) -> (r: Option<HostCache>)
        requires
            old(self).wf(),
            cache is Some ==> cache->0.wf(),
        ensures
            final(self).wf(),
            final(self).named() == old(self).named(),
            final(self).routes_through() == old(self).routes_through(),
            final(self).on() == old(self).on(),
            final(self).caching() == cache,
            r == old(self).caching(),
            r is Some ==> r->0.wf(),
    {
        let before = self.cache.take();
        self.cache = cache;
        before
    }

    /// Begin to resolve the reference. With `use_cache`, a cached handle that does not
    /// contradict the known leader is taken; otherwise the redirect begins.
    pub fn resolve(&mut self, use_cache: bool, leader: Option<NodeId>, deadline: u64) -> (r:
        ResolveStart)
        requires
            old(self).wf(),
        ensures
            final(self).wf(),
            final(self).named() == old(self).named(),
            final(self).routes_through() == old(self).routes_through(),
            final(self).on() == old(self).on(),
            final(self).caching() is Some == old(self).caching() is Some,
            ({
                let redirect = ResolveStart::Redirect(
                    Resolving {
                        target: old(self).routes_through(),
                        attempts_left: RESOLVE_ATTEMPTS,
                        deadline,
                        self_node: old(self).on(),
                    },
                );
                match old(self).caching() {
                    Some(cache) => if !use_cache {
                        r == redirect && final(self).caching() == old(self).caching()
                    } else {
                        match held(cache@, old(self).named()) {
                            None => r == redirect && final(self).caching()->0@ == cache@,
                            Some(host) => if leader is Some && leader->0 != host.node {
                                r == redirect && final(self).caching()->0@ == dropped(
                                    touched(cache@, old(self).named()),
                                    old(self).named(),
                                )
                            } else {
                                r == ResolveStart::Cached(host) && final(self).caching()->0@
                                    == touched(cache@, old(self).named())
                            },
                        }
                    },
                    None => r == redirect,
                }
            }),
    {
        if use_cache {
            if let Some(mut cache) = self.cache.take() {
                let found = cache.get(&self.name, leader);
                self.cache = Some(cache);
                if let Some(host) = found {
                    return ResolveStart::Cached(host);
                }
            }
        }
        ResolveStart::Redirect(Resolving::new(self.gateway, deadline, self.self_node))
    }

    /// Cache the host that a redirect found.
    pub fn found(&mut self, host: HostHandle)
        requires
            old(self).wf(),
        ensures
            final(self).wf(),
            final(self).named() == old(self).named(),
            final(self).routes_through() == old(self).routes_through(),
            final(self).on() == old(self).on(),
            match old(self).caching() {
                Some(cache) => final(self).caching() is Some && final(self).caching()->0@ == cached(
                    cache@,
                    old(self).named(),
                    host,
                ),
                None => final(self).caching() is None,
            },
    {
        if let Some(mut cache) = self.cache.take() {
            cache.put(self.name.dup(), host);
            self.cache = Some(cache);
        }
    }

    /// Forget a host that turned out unusable.
    pub fn invalidate(&mut self)
        requires
            old(self).wf(),
        ensures
            final(self).wf(),
            final(self).named() == old(self).named(),
            final(self).routes_through() == old(self).routes_through(),
            final(self).on() == old(self).on(),
            match old(self).caching() {
                Some(cache) => final(self).caching() is Some && final(self).caching()->0@
                    == dropped(cache@, old(self).named()),
                None => final(self).caching() is None,
            },
    {
        if let Some(mut cache) = self.cache.take() {
            cache.remove(&self.name);
            self.cache = Some(cache);
        }
    }

    /// Whether a handle is cached for this reference's grain.
    pub fn is_cached(&self) -> (r: bool)
        requires
            self.wf(),
        ensures
            r == match self.caching() {
                Some(cache) => holds(cache@, self.named()),
                None => false,
            },
    {
        match &self.cache {
            Some(cache) => cache.contains(&self.name),
            None => false,
        }
    }
}

// ---- Dispatch ----

/// Whether a transport failure proves that the command never ran. Only a dead letter
/// does; after a timeout or an unreachable node the command may have committed.
pub fn is_retriable(call: &CallError) -> (r: bool)
    ensures
        r == (call is DeadLetter),
{
    match call {
        CallError::DeadLetter => true,
        _ => false,
    }
}

/// What one attempt came to: a terminal result, or the certainty that the command
/// did not run.
#[derive(Debug, PartialEq, Eq)]
pub enum Attempt<T> {
    Done(Result<T, GrainError>),
    Retry,
}

/// Judge the first answer to a command.
pub open spec fn judged<T>(answer: Result<Result<T, GrainError>, CallError>) -> Attempt<T> {
    match answer {
        Ok(Ok(reply)) => Attempt::Done(Ok(reply)),
        Ok(Err(GrainError::NotLeader(_))) => Attempt::Retry,
        Ok(Err(other)) => Attempt::Done(Err(other)),
        Err(CallError::DeadLetter) => Attempt::Retry,
        Err(call) => Attempt::Done(Err(GrainError::Call(call))),
    }
}

pub fn judge_ask<T>(answer: Result<Result<T, GrainError>, CallError>) -> (r: Attempt<T>)
    ensures
        r == judged(answer),
{
    match answer {
        Ok(Ok(reply)) => Attempt::Done(Ok(reply)),
        Ok(Err(e)) => match e {
            GrainError::NotLeader(_) => Attempt::Retry,
            other => Attempt::Done(Err(other)),
        },
        Err(call) => if is_retriable(&call) {
            Attempt::Retry
        } else {
            Attempt::Done(Err(GrainError::Call(call)))
        },
    }
}

/// Judge the first try to enqueue a command. Fire-and-forget knows no other outcome
/// than the transport's.
pub fn judge_tell(answer: Result<(), CallError>) -> (r: Attempt<()>)
    ensures
        r == match answer {
            Ok(_) => Attempt::Done(Ok(())),
            Err(CallError::DeadLetter) => Attempt::Retry,
            Err(call) => Attempt::Done(Err(GrainError::Call(call))),
        },
{
    match answer {
        Ok(_) => Attempt::Done(Ok(())),
        Err(call) => if is_retriable(&call) {
            Attempt::Retry
        } else {
            Attempt::Done(Err(GrainError::Call(call)))
        },
    }
}

/// The second answer is final, whatever it is.
pub fn judge_again<T>(answer: Result<Result<T, GrainError>, CallError>) -> (r: Result<
    T,
    GrainError,
>)
    ensures
        r == match answer {
            Ok(result) => result,
            Err(call) => Err(GrainError::Call(call)),
        },
{
    match answer {
        Ok(result) => result,
        Err(call) => Err(GrainError::Call(call)),
    }
}

/// What follows the first attempt.
#[derive(Debug, PartialEq, Eq)]
pub enum AfterFirst<T> {
    /// The call is over.
    Over(Result<T, GrainError>),
    /// Forget the cached host, resolve past the cache, and send the command once more.
    Again,
}

/// Decide what follows the first attempt. A call that holds the caller to its
/// deadline does not begin a second attempt without time left; fire-and-forget never
/// reports an unavailability.
pub fn after_first<T>(attempt: Attempt<T>, guard_budget: bool, deadline: u64, now: u64) -> (r:
    AfterFirst<T>)
    ensures
        match attempt {
            Attempt::Done(result) => r == AfterFirst::Over(result),
            Attempt::Retry => if guard_budget && remaining(deadline, now) == 0 {
                r matches AfterFirst::Over(Err(GrainError::Unavailable(why))) && why@
                    == "deadline exhausted before the retry"@
            } else {
                r == AfterFirst::<T>::Again
            },
        },
{
    match attempt {
        Attempt::Done(result) => AfterFirst::Over(result),
        Attempt::Retry => if guard_budget && time_left(deadline, now) == 0 {
            AfterFirst::Over(
                Err(GrainError::Unavailable("deadline exhausted before the retry".to_owned())),
            )
        } else {
            AfterFirst::Again
        },
    }
}

/// A command is sent again only if the first attempt provably did not run: it was
/// refused by a node that does not lead, or reached no handler.
pub proof fn law_only_what_did_not_run_is_sent_again<T>(
    answer: Result<Result<T, GrainError>, CallError>,
)
    ensures
        judged(answer) == Attempt::<T>::Retry <==> (answer matches Ok(Err(GrainError::NotLeader(_)))
            || answer matches Err(CallError::DeadLetter)),
{
}

/// What a subscription came to: the committed head, or the transport failure; after a
/// failure the sink that was made for it is closed.
pub fn after_subscribe(answer: Result<u64, CallError>) -> (r: (Result<u64, GrainError>, bool))
    ensures
        match answer {
            Ok(head) => r == (Ok::<u64, GrainError>(head), false),
            Err(call) => r == (Err::<u64, GrainError>(GrainError::Call(call)), true),
        },
{
    match answer {
        Ok(head) => (Ok(head), false),
        Err(call) => (Err(GrainError::Call(call)), true),
    }
}

/// How a routing-only client addresses a type: through the first gateway it has
/// discovered, with the default cache.
#[derive(Clone, Copy, Debug, PartialEq, Eq, Structural)]
pub struct ClientPlan {
    pub gateway: GatewayRef,
    pub shards: usize,
    pub cache_capacity: usize,
}

/// Plan a routing-only client; nothing until a gateway is discovered.
pub fn granary_client(gateways: &Vec<GatewayRef>, shards: usize) -> (r: Option<ClientPlan>)
    ensures
        gateways@.len() == 0 ==> r is None,
        gateways@.len() > 0 ==> r == Some(
            ClientPlan {
                gateway: gateways@[0],
                shards: at_least_one(shards),
                cache_capacity: 65536,
            },
        ),
{
    if gateways.len() == 0 {
        None
    } else {
        Some(
            ClientPlan {
                gateway: gateways[0],
                shards: clamp_to_one(shards),
                cache_capacity: 65536,
            },
        )
    }
}

// ---- The alarm driver ----

/// The shards of one sweep: the committed ones, or the founding ones while the
/// partition is not known yet.
pub open spec fn swept_shards(committed: Seq<u32>, shards: u32) -> Seq<u32> {
    if committed.len() == 0 {
        Seq::new(shards as nat, |i: int| i as u32)
    } else {
        committed
    }
}

fn sweep_indices(committed: Vec<u32>, shards: u32) -> (r: Vec<u32>)
    ensures
        r@ == swept_shards(committed@, shards),
{
    if committed.len() > 0 {
        return committed;
    }
    let mut out: Vec<u32> = Vec::new();
    let mut i: u32 = 0;
    while i < shards
        invariant
            i <= shards,
            out@ == Seq::new(i as nat, |j: int| j as u32),
        decreases shards - i,
    {
        out.push(i);
        i = i + 1;
        assert(out@ =~= Seq::new(i as nat, |j: int| j as u32));
    }
    out
}

/// Where a sweep stands with the shard at hand.
#[derive(Clone, Copy, Debug, PartialEq, Eq, Structural)]
pub enum DrivePhase {
    /// Whether this node leads the shard is not known yet.
    Lead,
    /// The shard's index is to be asked what is due.
    Due,
    /// A due grain is to be woken.
    Wake,
    /// The woken grain has moved off this shard: its entry here is to be cleared.
    Clear,
}

/// One sweep over the shards of a grain type.
pub struct AlarmSweep {
    grain_type: String,
    before: u64,
    shards: Vec<u32>,
    at: usize,
    due: Vec<GrainName>,
    next: usize,
    phase: DrivePhase,
}

#[verifier::ext_equal]
pub struct SweepModel {
    pub grain_type: Seq<char>,
    pub before: u64,
    pub shards: Seq<u32>,
    pub at: int,
    pub due: Seq<NameModel>,
    pub next: int,
    pub phase: DrivePhase,
}

/// What a sweep does next.
#[derive(Clone, Debug, PartialEq, Eq)]
pub enum DriveAction {
    /// Find out whether this node leads the shard.
    CheckLead(u32),
    /// Ask the index grain with this key for the grains due at or before `before`.
    AskDue { key: String, before: u64 },
    /// Wake this grain by subscribing to it; the subscription is dropped at once.
    Reactivate(GrainName),
    /// Send this to the index grain with this key.
    ClearStale { key: String, sync: Sync },
    /// The sweep is over.
    Finished,
}

pub open spec fn next_shard(s: SweepModel) -> SweepModel {
    SweepModel { at: s.at + 1, due: seq![], next: 0, phase: DrivePhase::Lead, ..s }
}

pub open spec fn next_name(s: SweepModel) -> SweepModel {
    if s.next + 1 < s.due.len() {
        SweepModel { next: s.next + 1, phase: DrivePhase::Wake, ..s }
    } else {
        next_shard(s)
    }
}

pub open spec fn sweep_key(s: SweepModel) -> Seq<char> {
    s.grain_type + "/"@ + decimal(s.shards[s.at] as nat)
}

impl AlarmSweep {
    pub closed spec fn model(&self) -> SweepModel {
        SweepModel {
            grain_type: self.grain_type@,
            before: self.before,
            shards: self.shards@,
            at: self.at as int,
            due: self.due.deep_view(),
            next: self.next as int,
            phase: self.phase,
        }
    }

    pub closed spec fn wf(&self) -> bool {
        &&& self.at <= self.shards@.len()
        &&& (self.phase == DrivePhase::Wake || self.phase == DrivePhase::Clear) ==> self.next
            < self.due@.len() && self.at < self.shards@.len()
        &&& self.phase == DrivePhase::Due ==> self.at < self.shards@.len()
    }

    /// Begin a sweep at the time `now`.
    pub fn new(grain_type: &str, now: u64, committed: Vec<u32>, shards: u32) -> (r: AlarmSweep)
        ensures
            r.wf(),
            r.model() == (SweepModel {
                grain_type: grain_type@,
                before: now,
                shards: swept_shards(committed@, shards),
                at: 0,
                due: seq![],
                next: 0,
                phase: DrivePhase::Lead,
            }),
    {
        let r = AlarmSweep {
            grain_type: grain_type.to_owned(),
            before: now,
            shards: sweep_indices(committed, shards),
            at: 0,
            due: Vec::new(),
            next: 0,
            phase: DrivePhase::Lead,
        };
        assert(r.due.deep_view() =~= seq![]);
        r
    }

    /// What to do next.
    pub fn action(&self) -> (r: DriveAction)
        requires
            self.wf(),
        ensures
            ({
                let s = self.model();
                if s.at >= s.shards.len() {
                    r == DriveAction::Finished
                } else {
                    match s.phase {
                        DrivePhase::Lead => r == DriveAction::CheckLead(s.shards[s.at]),
                        DrivePhase::Due => r matches DriveAction::AskDue { key, before } && key@
                            == sweep_key(s) && before == s.before,
                        DrivePhase::Wake => r matches DriveAction::Reactivate(name)
                            && name.deep_view() == s.due[s.next],
                        DrivePhase::Clear => r matches DriveAction::ClearStale { key, sync } && key@
                            == sweep_key(s) && sync.grain.deep_view() == s.due[s.next]
                            && sync.due is None && sync.head == u64::MAX,
                    }
                }
            }),
    {
        if self.at >= self.shards.len() {
            return DriveAction::Finished;
        }
        let shard: u32 = self.shards[self.at];
        match self.phase {
            DrivePhase::Lead => DriveAction::CheckLead(shard),
            DrivePhase::Due => DriveAction::AskDue {
                key: index_key(self.grain_type.as_str(), shard as usize),
                before: self.before,
            },
            DrivePhase::Wake => DriveAction::Reactivate(self.due[self.next].dup()),
            DrivePhase::Clear => DriveAction::ClearStale {
                key: index_key(self.grain_type.as_str(), shard as usize),
                sync: Sync { grain: self.due[self.next].dup(), due: None, head: u64::MAX },
            },
        }
    }

    fn to_next_shard(&mut self)
        requires
            old(self).wf(),
            old(self).model().at < old(self).model().shards.len(),
        ensures
            final(self).wf(),
            final(self).model() == next_shard(old(self).model()),
    {
        let n: usize = self.shards.len();
        assert(self.at < n);
        self.at = self.at + 1;
        self.due = Vec::new();
        self.next = 0;
        self.phase = DrivePhase::Lead;
        assert(self.due.deep_view() =~= seq![]);
    }

    fn to_next_name(&mut self)
        requires
            old(self).wf(),
            old(self).model().phase == DrivePhase::Wake || old(self).model().phase
                == DrivePhase::Clear,
        ensures
            final(self).wf(),
            final(self).model() == next_name(old(self).model()),
    {
        let n: usize = self.due.len();
        if self.next + 1 < n {
            self.next = self.next + 1;
            self.phase = DrivePhase::Wake;
        } else {
            self.to_next_shard();
        }
    }

    /// Whether this node leads the shard at hand.
    pub fn leads(&mut self, leads: bool)
        requires
            old(self).wf(),
            old(self).model().phase == DrivePhase::Lead,
            old(self).model().at < old(self).model().shards.len(),
        ensures
            final(self).wf(),
            final(self).model() == if leads {
                SweepModel { phase: DrivePhase::Due, ..old(self).model() }
            } else {
                next_shard(old(self).model())
            },
    {
        if leads {
            self.phase = DrivePhase::Due;
        } else {
            self.to_next_shard();
        }
    }

    /// The index's answer; an index that cannot be asked now is asked next sweep.
    pub fn due(&mut self, answer: Result<Vec<GrainName>, GrainError>)
        requires
            old(self).wf(),
            old(self).model().phase == DrivePhase::Due,
        ensures
            final(self).wf(),
            final(self).model() == match answer {
                Ok(names) => if names@.len() > 0 {
                    SweepModel {
                        due: names.deep_view(),
                        next: 0,
                        phase: DrivePhase::Wake,
                        ..old(self).model()
                    }
                } else {
                    next_shard(old(self).model())
                },
                Err(_) => next_shard(old(self).model()),
            },
    {
        match answer {
            Ok(names) => if names.len() > 0 {
                self.due = names;
                self.next = 0;
                self.phase = DrivePhase::Wake;
            } else {
                self.to_next_shard();
            },
            Err(_) => {
                self.to_next_shard();
            },
        }
    }

    /// A grain was woken, or was not, and `live` is the shard it belongs to now. Only
    /// after it was woken is a stale entry cleared: then its new shard's index knows
    /// it, and no wake is lost.
    pub fn woken(&mut self, reactivated: bool, live: u32)
        requires
            old(self).wf(),
            old(self).model().phase == DrivePhase::Wake,
        ensures
            final(self).wf(),
            ({
                let s = old(self).model();
                final(self).model() == if reactivated && live != s.shards[s.at] {
                    SweepModel { phase: DrivePhase::Clear, ..s }
                } else {
                    next_name(s)
                }
            }),
    {
        if reactivated && live != self.shards[self.at] {
            self.phase = DrivePhase::Clear;
        } else {
            self.to_next_name();
        }
    }

    /// The stale entry's clear was sent; whatever came of it, the sweep goes on.
    pub fn cleared(&mut self)
        requires
            old(self).wf(),
            old(self).model().phase == DrivePhase::Clear,
        ensures
            final(self).wf(),
            final(self).model() == next_name(old(self).model()),
    {
        self.to_next_name();
    }
}

/// The clear of a stale entry wins over every entry, for it carries the highest head; and
/// it leaves none behind, so that a grain that comes back registers again.
pub proof fn law_a_stale_entrys_clear_always_wins(
    m: Map<NameModel, Slot>,
    name: NameModel,
    due: u64,
    head: u64,
)
    ensures
        !synced(m, name, None, u64::MAX).contains_key(name),
        synced(synced(m, name, None, u64::MAX), name, Some(due), head)[name] == (Slot {
            due: Some(due),
            head,
        }),
{
}

// ---- Where calls go ----

/// A gateway found on a node is one of the discovered ones and the first on that node;
/// there is none exactly if none was discovered there.
pub proof fn law_a_gateway_is_found_where_it_is(gateways: Seq<GatewayRef>, node: NodeId)
    ensures
        match on_node(gateways, node) {
            Some(gateway) => gateway.node == node && exists|i: int|
                0 <= i < gateways.len() && #[trigger] gateways[i] == gateway && forall|j: int|
                    0 <= j < i ==> (#[trigger] gateways[j]).node != node,
            None => forall|i: int| 0 <= i < gateways.len() ==> (#[trigger] gateways[i]).node != node,
        },
    decreases gateways.len(),
{
    if gateways.len() > 0 {
        if gateways[0].node == node {
            assert(gateways[0] == on_node(gateways, node)->0);
        } else {
            let rest = gateways.skip(1);
            law_a_gateway_is_found_where_it_is(rest, node);
            match on_node(rest, node) {
                Some(gateway) => {
                    let i = choose|i: int|
                        0 <= i < rest.len() && #[trigger] rest[i] == gateway && forall|j: int|
                            0 <= j < i ==> (#[trigger] rest[j]).node != node;
                    assert(gateways[i + 1] == gateway);
                    assert forall|j: int| 0 <= j < i + 1 implies (#[trigger] gateways[j]).node
                        != node by {
                        if j > 0 {
                            assert(rest[j - 1] == gateways[j]);
                        }
                    }
                },
                None => {
                    assert forall|i: int| 0 <= i < gateways.len() implies (
                    #[trigger] gateways[i]).node != node by {
                        if i > 0 {
                            assert(rest[i - 1] == gateways[i]);
                        }
                    }
                },
            }
        }
    }
}

/// A caller escapes from a dead gateway to the first on another node if there is one, else
/// to the first there is; it finds none only if none was discovered.
pub proof fn law_an_escape_leaves_the_failed_node(gateways: Seq<GatewayRef>, failed: NodeId)
    ensures
        match escape(gateways, failed) {
            Some(gateway) => if exists|i: int|
                0 <= i < gateways.len() && (#[trigger] gateways[i]).node != failed {
                gateway.node != failed && exists|i: int|
                    0 <= i < gateways.len() && #[trigger] gateways[i] == gateway && forall|j: int|
                        0 <= j < i ==> (#[trigger] gateways[j]).node == failed
            } else {
                gateways.len() > 0 && gateway == gateways[0]
            },
            None => gateways.len() == 0,
        },
{
    lemma_off_node(gateways, failed);
}

proof fn lemma_off_node(gateways: Seq<GatewayRef>, failed: NodeId)
    ensures
        match off_node(gateways, failed) {
            Some(gateway) => gateway.node != failed && exists|i: int|
                0 <= i < gateways.len() && #[trigger] gateways[i] == gateway && forall|j: int|
                    0 <= j < i ==> (#[trigger] gateways[j]).node == failed,
            None => forall|i: int|
                0 <= i < gateways.len() ==> (#[trigger] gateways[i]).node == failed,
        },
    decreases gateways.len(),
{
    if gateways.len() > 0 {
        if gateways[0].node != failed {
            assert(gateways[0] == off_node(gateways, failed)->0);
        } else {
            let rest = gateways.skip(1);
            lemma_off_node(rest, failed);
            match off_node(rest, failed) {
                Some(gateway) => {
                    let i = choose|i: int|
                        0 <= i < rest.len() && #[trigger] rest[i] == gateway && forall|j: int|
                            0 <= j < i ==> (#[trigger] rest[j]).node == failed;
                    assert(gateways[i + 1] == gateway);
                    assert forall|j: int| 0 <= j < i + 1 implies (#[trigger] gateways[j]).node
                        == failed by {
                        if j > 0 {
                            assert(rest[j - 1] == gateways[j]);
                        }
                    }
                },
                None => {
                    assert forall|i: int| 0 <= i < gateways.len() implies (
                    #[trigger] gateways[i]).node == failed by {
                        if i > 0 {
                            assert(rest[i - 1] == gateways[i]);
                        }
                    }
                },
            }
        }
    }
}

/// What is left of a deadline: the time to it, and nothing once it has come.
pub proof fn law_a_deadline_runs_out(deadline: u64, now: u64)
    ensures
        now < deadline ==> remaining(deadline, now) == deadline - now,
        now >= deadline ==> remaining(deadline, now) == 0,
{
}

/// A redirect asks its target with time and attempts left, and gives up exactly when either
/// has run out, naming its own node.
pub proof fn law_a_redirect_goes_on_while_it_can(run: Resolving, now: u64)
    ensures
        next_step(run, now).0 is Ask <==> run.attempts_left > 0 && now < run.deadline,
        next_step(run, now).0 matches ResolveStep::Ask { target, timeout } ==> {
            &&& target == run.target
            &&& timeout == run.deadline - now || timeout == FORWARD_TIMEOUT
            &&& next_step(run, now).1 == (Resolving {
                attempts_left: (run.attempts_left - 1) as usize,
                ..run
            })
        },
        next_step(run, now).0 matches ResolveStep::GiveUp(e) ==> e == GrainError::NotLeader(
            run.self_node,
        ),
{
}

/// A reply that came is the caller's, and so is every failure that may have run the
/// command: none is altered on the way.
pub proof fn law_answers_reach_the_caller_as_they_are<T>(
    reply: T,
    refusal: GrainError,
    call: CallError,
)
    ensures
        judged::<T>(Ok(Ok(reply))) == Attempt::Done(Ok::<T, GrainError>(reply)),
        !(refusal is NotLeader) ==> judged::<T>(Ok(Err(refusal))) == Attempt::Done(
            Err::<T, GrainError>(refusal),
        ),
        !(call is DeadLetter) ==> judged::<T>(Err(call)) == Attempt::Done(
            Err::<T, GrainError>(GrainError::Call(call)),
        ),
{
}

/// A sweep visits every shard that is committed, or, while the partition is unknown, every
/// one it was founded with, each once and in order.
pub proof fn law_a_sweep_visits_every_shard(committed: Seq<u32>, shards: u32, i: int)
    ensures
        committed.len() > 0 ==> swept_shards(committed, shards) == committed,
        committed.len() == 0 ==> swept_shards(committed, shards).len() == shards,
        committed.len() == 0 && 0 <= i < shards ==> swept_shards(committed, shards)[i] == i,
{
}

/// A sweep wakes each due grain of a shard in turn, and goes on to the next shard only
/// behind the last of them.
pub proof fn law_a_sweep_skips_nothing(s: SweepModel)
    ensures
        s.next + 1 < s.due.len() ==> next_name(s) == (SweepModel {
            next: s.next + 1,
            phase: DrivePhase::Wake,
            ..s
        }),
        s.next + 1 >= s.due.len() ==> next_name(s) == next_shard(s),
        next_shard(s).at == s.at + 1,
        next_shard(s).phase == DrivePhase::Lead,
        next_shard(s).due.len() == 0,
        next_shard(s).next == 0,
        next_shard(s).shards == s.shards,
        next_shard(s).before == s.before,
        next_shard(s).grain_type == s.grain_type,
{
}

/// A sweep asks the index of the shard it is at.
pub proof fn law_a_sweep_asks_its_shards_own_index(s: SweepModel)
    ensures
        sweep_key(s) == crate::alarm_index::shard_key(s.grain_type, s.shards[s.at] as nat),
{
}

} // verus!
