//! The per-type gateway: which grains are active on this node, who serves a name,
//! and reads that do not wake a grain.
//!
//! A read is bounded by the grain's committed head: the head that a resident
//! activation publishes, or one recovered under the current leadership. Records above
//! it may be tentative and are not served.
use vstd::prelude::*;

use crate::error::NodeId;
use crate::facet::record_parts;
use crate::facet::split_record;
use crate::facet::FacetError;
use crate::facet::EVENT_TAG;
use crate::grain::GrainName;
use crate::grain::NameModel;
use crate::journal::SeqNo;
use crate::journal::Term;
use crate::key::OrdKey;
use crate::ordmap::OrdMap;
use crate::routing_cache::HostHandle;

verus! {

/// The most records one read scans.
pub const READ_PAGE: usize = 1024;

/// An activation on this node, and the shard it was activated under.
#[derive(Clone, Copy, Debug, PartialEq, Eq, Structural)]
pub struct Resident {
    pub shard: u32,
    pub host: HostHandle,
}

/// A recovered committed head, and the leadership it was recovered under.
#[derive(Clone, Copy, Debug, PartialEq, Eq, Structural)]
pub struct Floor {
    pub shard: u32,
    pub term: Term,
    pub head: SeqNo,
}

/// A node's gateway for one grain type.
pub struct Gateway {
    table: OrdMap<GrainName, Resident>,
    floors: OrdMap<GrainName, Floor>,
    warming: OrdMap<GrainName, u64>,
    warm_epoch: u64,
    capacity: usize,
}

/// The activations, the recovered floors, the recoveries in flight by their tokens,
/// the last token given out, and how many floors are kept.
#[verifier::ext_equal]
pub struct GatewayModel {
    pub table: Map<NameModel, Resident>,
    pub floors: Map<NameModel, Floor>,
    pub warming: Map<NameModel, u64>,
    pub warm_epoch: u64,
    pub capacity: nat,
}

impl View for Gateway {
    type V = GatewayModel;

    closed spec fn view(&self) -> GatewayModel {
        GatewayModel {
            table: self.table@,
            floors: self.floors@,
            warming: self.warming@,
            warm_epoch: self.warm_epoch,
            capacity: self.capacity as nat,
        }
    }
}

// ---- Who serves a shard ----

/// The first replica other than this node.
pub open spec fn another(replicas: Seq<NodeId>, me: NodeId) -> Option<NodeId>
    decreases replicas.len(),
{
    if replicas.len() == 0 {
        None
    } else if replicas[0] != me {
        Some(replicas[0])
    } else {
        another(replicas.skip(1), me)
    }
}

/// Where a gateway that does not lead sends its caller: to the believed leader if the
/// committed replicas allow it, from outside the replicas to one of them, and
/// otherwise back here once the shard has settled.
pub open spec fn hint(replicas: Seq<NodeId>, believed: Option<NodeId>, me: NodeId) -> NodeId {
    if believed is Some && (replicas.len() == 0 || replicas.contains(believed->0)) {
        believed->0
    } else if !replicas.contains(me) && another(replicas, me) is Some {
        another(replicas, me)->0
    } else {
        me
    }
}

fn has_node(replicas: &Vec<NodeId>, node: NodeId) -> (r: bool)
    ensures
        r == replicas@.contains(node),
{
    let mut i: usize = 0;
    while i < replicas.len()
        invariant
            i <= replicas@.len(),
            forall|j: int| 0 <= j < i ==> replicas@[j] != node,
        decreases replicas@.len() - i,
    {
        if replicas[i] == node {
            assert(replicas@[i as int] == node);
            return true;
        }
        i = i + 1;
    }
    false
}

/// The node a non-leading gateway redirects a caller to. A stale local view that names
/// a node outside the committed replicas is not trusted: it would send every caller
/// in a circle.
pub fn redirect_hint(replicas: &Vec<NodeId>, believed: Option<NodeId>, me: NodeId) -> (r: NodeId)
    ensures
        r == hint(replicas@, believed, me),
        believed is Some && (replicas@.len() == 0 || replicas@.contains(believed->0)) ==> r
            == believed->0,
        (believed is None || replicas@.len() > 0 && !replicas@.contains(believed->0)) ==> if
            replicas@.len() == 0 || replicas@.contains(me) {
            r == me
        } else {
            r == replicas@[0]
        },
{
    proof {
        law_where_a_caller_is_sent(replicas@, believed, me);
    }
    if let Some(leader) = believed {
        if replicas.len() == 0 || has_node(replicas, leader) {
            return leader;
        }
    }
    let mut i: usize = 0;
    assert(replicas@.skip(0) =~= replicas@);
    while i < replicas.len()
        invariant
            i <= replicas@.len(),
            another(replicas@, me) == another(replicas@.skip(i as int), me),
            hint(replicas@, believed, me) == if !replicas@.contains(me) && another(
                replicas@,
                me,
            ) is Some {
                another(replicas@, me)->0
            } else {
                me
            },
        decreases replicas@.len() - i,
    {
        assert(replicas@.skip(i as int)[0] == replicas@[i as int]);
        assert(replicas@.skip(i as int).skip(1) =~= replicas@.skip(i + 1));
        if replicas[i] != me {
            if has_node(replicas, me) {
                return me;
            }
            return replicas[i];
        }
        i = i + 1;
    }
    me
}

/// A caller is sent to the believed leader, whoever asks, if the committed replicas are
/// unknown or include it. Otherwise a replica keeps its caller, and anyone else sends it
/// to the first replica.
pub proof fn law_where_a_caller_is_sent(
    replicas: Seq<NodeId>,
    believed: Option<NodeId>,
    me: NodeId,
)
    ensures
        forall|leader: NodeId|
            believed == Some(leader) && (replicas.len() == 0 || replicas.contains(leader))
                ==> #[trigger] hint(replicas, believed, me) == leader,
        (believed is None || replicas.len() > 0 && !replicas.contains(believed->0)) ==> hint(
            replicas,
            believed,
            me,
        ) == if replicas.len() == 0 || replicas.contains(me) {
            me
        } else {
            replicas[0]
        },
{
    if replicas.len() > 0 && !replicas.contains(me) {
        assert(replicas.contains(replicas[0]));
    }
}

/// A caller outside the replicas of a shard is sent to one of them, or to the
/// believed leader while the map is unknown; it is never sent in a circle.
pub proof fn law_a_hint_leads_to_a_replica(
    replicas: Seq<NodeId>,
    believed: Option<NodeId>,
    me: NodeId,
)
    requires
        replicas.len() > 0,
    ensures
        replicas.contains(hint(replicas, believed, me)),
{
    lemma_another(replicas, me);
}

proof fn lemma_another(replicas: Seq<NodeId>, me: NodeId)
    ensures
        another(replicas, me) is Some ==> replicas.contains(another(replicas, me)->0),
        another(replicas, me) is None && replicas.len() > 0 ==> replicas.contains(me),
    decreases replicas.len(),
{
    if replicas.len() > 0 {
        let rest = replicas.skip(1);
        lemma_another(rest, me);
        assert(replicas[0] == replicas[0]);
        if replicas[0] != me {
            assert(replicas.contains(replicas[0]));
        } else {
            assert(replicas.contains(me));
            if another(rest, me) is Some {
                let x = another(rest, me)->0;
                let i = rest.index_of(x);
                assert(replicas[i + 1] == x);
            }
        }
    }
}

// ---- Activation ----

/// The gateway once an activation of `name` may start: no floor stands for it, and a
/// recovery in flight for it is void.
pub open spec fn invalidated(g: GatewayModel, name: NameModel) -> GatewayModel {
    GatewayModel {
        floors: g.floors.remove(name),
        warming: if g.warming.contains_key(name) {
            g.warming.insert(name, (g.warm_epoch + 1) as u64)
        } else {
            g.warming
        },
        warm_epoch: if g.warming.contains_key(name) {
            (g.warm_epoch + 1) as u64
        } else {
            g.warm_epoch
        },
        ..g
    }
}

/// A resident activation can be handed out: it lives, under the shard that the name
/// belongs to now.
pub open spec fn reusable(g: GatewayModel, name: NameModel, shard: u32, alive: bool) -> bool {
    g.table.contains_key(name) && g.table[name].shard == shard && alive
}

// ---- Reads ----

/// What to do about a read.
#[derive(Clone, Copy, Debug, PartialEq, Eq, Structural)]
pub enum ReadStep {
    /// This node cannot serve it: redirect the caller.
    Redirect,
    /// The committed head is not known yet; the caller asks again.
    Warming,
    /// Recover the committed head under this token; the caller asks again.
    Recover { epoch: u64 },
    /// Read, and serve nothing above `floor`.
    Serve { floor: SeqNo },
}

/// The decision on a read of `name`, which belongs to `shard`. `serves`: this node
/// replicates and leads the shard. `published`: the head that the resident activation
/// has published, if it has. `term`: the shard's term.
pub open spec fn read_decision(
    g: GatewayModel,
    name: NameModel,
    shard: u32,
    serves: bool,
    published: Option<SeqNo>,
    term: Option<Term>,
) -> ReadStep {
    if !serves {
        ReadStep::Redirect
    } else if g.table.contains_key(name) && g.table[name].shard == shard {
        match published {
            None => ReadStep::Warming,
            Some(head) => ReadStep::Serve { floor: head },
        }
    } else {
        match term {
            None => ReadStep::Redirect,
            Some(t) => if g.floors.contains_key(name) && g.floors[name].shard == shard
                && g.floors[name].term == t {
                ReadStep::Serve { floor: g.floors[name].head }
            } else if g.warming.contains_key(name) {
                ReadStep::Warming
            } else {
                ReadStep::Recover { epoch: (g.warm_epoch + 1) as u64 }
            },
        }
    }
}

/// The gateway after a read was decided.
pub open spec fn after_read(g: GatewayModel, name: NameModel, step: ReadStep) -> GatewayModel {
    match step {
        ReadStep::Recover { epoch } => GatewayModel {
            warming: g.warming.insert(name, epoch),
            warm_epoch: epoch,
            ..g
        },
        _ => g,
    }
}

/// A recovered head can still be trusted on arrival: no activation of the name was
/// started since, none is resident under the shard, the name still belongs to that
/// shard, and its term is unchanged.
pub open spec fn trusted(
    g: GatewayModel,
    name: NameModel,
    shard: u32,
    term: Term,
    epoch: u64,
    current_shard: u32,
    current_term: Option<Term>,
) -> bool {
    &&& g.warming.contains_key(name) && g.warming[name] == epoch
    &&& !(g.table.contains_key(name) && g.table[name].shard == shard)
    &&& current_shard == shard
    &&& current_term == Some(term)
}

/// The name that gives way when the floors are full.
pub open spec fn evicted(g: GatewayModel, first: Option<NameModel>) -> Map<NameModel, Floor> {
    if g.floors.dom().len() >= g.capacity && first is Some {
        g.floors.remove(first->0)
    } else {
        g.floors
    }
}

impl Gateway {
    pub closed spec fn wf(&self) -> bool {
        &&& self.table.wf()
        &&& self.floors.wf()
        &&& self.warming.wf()
        &&& forall|n: NameModel| #[trigger]
            self.warming@.contains_key(n) ==> self.warming@[n] <= self.warm_epoch
    }

    /// The first name in name order that a floor is kept for.
    pub closed spec fn first_floor(&self) -> Option<NameModel> {
        if self.floors.key_seq().len() > 0 {
            Some(self.floors.key_seq()[0])
        } else {
            None
        }
    }

    pub fn new(capacity: usize) -> (r: Gateway)
        ensures
            r.wf(),
            r@.table == Map::<NameModel, Resident>::empty(),
            r@.floors == Map::<NameModel, Floor>::empty(),
            r@.warming == Map::<NameModel, u64>::empty(),
            r@.warm_epoch == 0,
            r@.capacity == capacity,
    {
        Gateway {
            table: OrdMap::new(),
            floors: OrdMap::new(),
            warming: OrdMap::new(),
            warm_epoch: 0,
            capacity,
        }
    }

    /// Whether another token can be given out.
    pub fn has_tokens(&self) -> (r: bool)
        ensures
            r == (self@.warm_epoch < u64::MAX),
    {
        self.warm_epoch < u64::MAX
    }

    /// The activation of `name` on this node, if there is one.
    pub fn resident(&self, name: &GrainName) -> (r: Option<Resident>)
        requires
            self.wf(),
        ensures
            r == if self@.table.contains_key(name.deep_view()) {
                Some(self@.table[name.deep_view()])
            } else {
                None
            },
    {
        match self.table.get(name) {
            Some(resident) => Some(*resident),
            None => None,
        }
    }

    /// The activation to hand out for `name`, or `None`: one is to be spawned, and
    /// then entered with [`activated`](Gateway::activated). `alive`: the resident
    /// activation, if any, has not stopped. From here on an activation may append, so
    /// what was recovered of the name's head is forgotten.
    pub fn get_or_activate(&mut self, name: &GrainName, shard: u32, alive: bool) -> (r: Option<
        HostHandle,
    >)
        requires
            old(self).wf(),
            old(self)@.warm_epoch < u64::MAX,
        ensures
            final(self).wf(),
            if reusable(old(self)@, name.deep_view(), shard, alive) {
                r == Some(old(self)@.table[name.deep_view()].host) && final(self)@ == old(self)@
            } else {
                r is None && final(self)@ == invalidated(
                    GatewayModel {
                        table: old(self)@.table.remove(name.deep_view()),
                        ..old(self)@
                    },
                    name.deep_view(),
                )
            },
            r is Some <==> alive && old(self)@.table.contains_key(name.deep_view()) && old(
                self,
            )@.table[name.deep_view()].shard == shard,
            r matches Some(host) ==> host == old(self)@.table[name.deep_view()].host && final(self)@
                == old(self)@,
            r is None ==> {
                let key = name.deep_view();
                &&& !final(self)@.table.contains_key(key)
                &&& !final(self)@.floors.contains_key(key)
                &&& old(self)@.warming.contains_key(key) ==> final(self)@.warming.contains_key(key)
                    && final(self)@.warming[key] > old(self)@.warming[key]
                &&& forall|other: NameModel|
                    other != key ==> {
                        &&& #[trigger] final(self)@.table.contains_key(other) == old(
                            self,
                        )@.table.contains_key(other)
                        &&& final(self)@.table[other] == old(self)@.table[other]
                        &&& final(self)@.floors.contains_key(other) == old(
                            self,
                        )@.floors.contains_key(other)
                        &&& final(self)@.floors[other] == old(self)@.floors[other]
                        &&& final(self)@.warming.contains_key(other) == old(
                            self,
                        )@.warming.contains_key(other)
                        &&& final(self)@.warming[other] == old(self)@.warming[other]
                    }
            },
    {
        let ghost before = self@;
        if let Some(resident) = self.table.get(name) {
            if resident.shard == shard && alive {
                return Some(resident.host);
            }
        }
        self.table.remove(name);
        self.floors.remove(name);
        if self.warming.contains_key(name) {
            self.warm_epoch = self.warm_epoch + 1;
            self.warming.insert(name.dup(), self.warm_epoch);
        }
        assert(self@ =~= invalidated(
            GatewayModel { table: before.table.remove(name.deep_view()), ..before },
            name.deep_view(),
        ));
        None
    }

    /// Enter a spawned activation.
    pub fn activated(&mut self, name: GrainName, shard: u32, host: HostHandle)
        requires
            old(self).wf(),
        ensures
            final(self).wf(),
            final(self)@ == (GatewayModel {
                table: old(self)@.table.insert(name.deep_view(), Resident { shard, host }),
                ..old(self)@
            }),
    {
        self.table.insert(name, Resident { shard, host });
    }

    /// Decide a read.
    pub fn read(
        &mut self,
        name: &GrainName,
        shard: u32,
        serves: bool,
        published: Option<SeqNo>,
        term: Option<Term>,
    ) -> (r: ReadStep)
        requires
            old(self).wf(),
            old(self)@.warm_epoch < u64::MAX,
        ensures
            final(self).wf(),
            r == read_decision(old(self)@, name.deep_view(), shard, serves, published, term),
            final(self)@ == after_read(old(self)@, name.deep_view(), r),
            final(self)@.table == old(self)@.table,
            final(self)@.floors == old(self)@.floors,
            ({
                let g = old(self)@;
                let key = name.deep_view();
                let resident = g.table.contains_key(key) && g.table[key].shard == shard;
                let recovered = g.floors.contains_key(key) && g.floors[key].shard == shard
                    && Some(g.floors[key].term) == term;
                &&& r == ReadStep::Redirect <==> !serves || !resident && term is None
                &&& r is Serve <==> serves && if resident {
                    published is Some
                } else {
                    recovered
                }
                &&& r matches ReadStep::Serve { floor } ==> floor == if resident {
                    published->0
                } else {
                    g.floors[key].head
                }
                &&& r is Recover <==> serves && !resident && term is Some && !recovered
                    && !g.warming.contains_key(key)
                &&& r matches ReadStep::Recover { epoch } ==> epoch > g.warm_epoch
                    && final(self)@.warm_epoch == epoch && final(self)@.warming == g.warming.insert(
                    key,
                    epoch,
                )
                &&& !(r is Recover) ==> final(self)@ == g
            }),
    {
        if !serves {
            return ReadStep::Redirect;
        }
        if let Some(resident) = self.table.get(name) {
            if resident.shard == shard {
                return match published {
                    None => ReadStep::Warming,
                    Some(head) => ReadStep::Serve { floor: head },
                };
            }
        }
        match term {
            None => ReadStep::Redirect,
            Some(t) => {
                if let Some(floor) = self.floors.get(name) {
                    if floor.shard == shard && floor.term == t {
                        return ReadStep::Serve { floor: floor.head };
                    }
                }
                if self.warming.contains_key(name) {
                    return ReadStep::Warming;
                }
                self.warm_epoch = self.warm_epoch + 1;
                let epoch: u64 = self.warm_epoch;
                self.warming.insert(name.dup(), epoch);
                ReadStep::Recover { epoch }
            },
        }
    }

    /// Take in a recovered head (`None` if the recovery failed or leadership lapsed
    /// meanwhile). It is kept only while it can be trusted; when the floors are full,
    /// one gives way.
    pub fn recovered(
        &mut self,
        name: GrainName,
        shard: u32,
        term: Term,
        head: Option<SeqNo>,
        epoch: u64,
        current_shard: u32,
        current_term: Option<Term>,
    )
        requires
            old(self).wf(),
        ensures
            final(self).wf(),
            ({
                let g = old(self)@;
                let key = name.deep_view();
                let settled = GatewayModel { warming: g.warming.remove(key), ..g };
                final(self)@ == if head is Some && trusted(
                    g,
                    key,
                    shard,
                    term,
                    epoch,
                    current_shard,
                    current_term,
                ) {
                    GatewayModel {
                        floors: evicted(g, old(self).first_floor()).insert(
                            key,
                            Floor { shard, term, head: head->0 },
                        ),
                        ..settled
                    }
                } else {
                    settled
                }
            }),
            final(self)@.table == old(self)@.table,
            final(self)@.warming == old(self)@.warming.remove(name.deep_view()),
            ({
                let g = old(self)@;
                let key = name.deep_view();
                let kept = head is Some && g.warming.contains_key(key) && g.warming[key] == epoch
                    && (g.table.contains_key(key) ==> g.table[key].shard != shard)
                    && current_shard == shard && current_term == Some(term);
                &&& !kept ==> final(self)@.floors == g.floors
                &&& kept ==> final(self)@.floors.contains_key(key) && final(self)@.floors[key] == (
                Floor { shard, term, head: head->0 })
                &&& kept ==> forall|other: NameModel|
                    other != key && #[trigger] final(self)@.floors.contains_key(other)
                        ==> g.floors.contains_key(other) && final(self)@.floors[other]
                        == g.floors[other]
                &&& kept && g.floors.dom().len() < g.capacity ==> forall|other: NameModel|
                    #[trigger]
                    g.floors.contains_key(other) ==> final(self)@.floors.contains_key(other)
                &&& kept && g.capacity > 0 && g.floors.dom().len() <= g.capacity
                    ==> final(self)@.floors.dom().len() <= g.capacity
            }),
    {
        let ghost before = self.floors@;
        proof {
            self.floors.lemma_keys();
        }
        let token = self.warming.remove(&name);
        let head = match head {
            Some(head) => head,
            None => {
                return;
            },
        };
        let current: bool = match token {
            Some(held) => held == epoch,
            None => false,
        };
        if !current {
            return;
        }
        if let Some(resident) = self.table.get(&name) {
            if resident.shard == shard {
                return;
            }
        }
        let same_term: bool = match current_term {
            Some(t) => t == term,
            None => false,
        };
        if current_shard != shard || !same_term {
            return;
        }
        if self.floors.len() >= self.capacity && self.floors.len() > 0 {
            let first = self.floors.key_at(0).dup();
            self.floors.remove(&first);
        }
        self.floors.insert(name, Floor { shard, term, head });
    }

    /// A host stopped: whatever names it served are no longer active here.
    pub fn terminated(&mut self, host: HostHandle)
        requires
            old(self).wf(),
        ensures
            final(self).wf(),
            final(self)@.floors == old(self)@.floors,
            final(self)@.warming == old(self)@.warming,
            final(self)@.warm_epoch == old(self)@.warm_epoch,
            final(self)@.capacity == old(self)@.capacity,
            forall|name: NameModel| #[trigger]
                final(self)@.table.contains_key(name) <==> old(self)@.table.contains_key(name)
                    && old(self)@.table[name].host != host,
            forall|name: NameModel| #[trigger]
                final(self)@.table.contains_key(name) ==> final(self)@.table[name] == old(
                    self,
                )@.table[name],
    {
        let ghost before = self.table@;
        let ghost keys = self.table.key_seq();
        let mut kept: OrdMap<GrainName, Resident> = OrdMap::new();
        let n: usize = self.table.len();
        let mut i: usize = 0;
        while i < n
            invariant
                self.table.wf(),
                self.table@ == before,
                self.table.key_seq() == keys,
                self.floors == old(self).floors,
                self.warming == old(self).warming,
                self.warm_epoch == old(self).warm_epoch,
                self.capacity == old(self).capacity,
                n == keys.len(),
                i <= n,
                kept.wf(),
                forall|name: NameModel| #[trigger]
                    kept@.contains_key(name) ==> before.contains_key(name) && kept@[name]
                        == before[name] && before[name].host != host,
                forall|j: int|
                    0 <= j < i && before[#[trigger] keys[j]].host != host ==> kept@.contains_key(
                        keys[j],
                    ),
            decreases n - i,
        {
            let resident = *self.table.value_at(i);
            if resident.host != host {
                let name = self.table.key_at(i).dup();
                kept.insert(name, resident);
            }
            i = i + 1;
        }
        proof {
            self.table.lemma_keys();
            assert forall|name: NameModel|
                before.contains_key(name) && before[name].host != host implies #[trigger]
            kept@.contains_key(name) by {
                assert(self.table@.contains_key(name));
                let j = keys.index_of(name);
                assert(keys[j] == name);
            }
        }
        self.table = kept;
    }
}

/// The number of records a read may scan: at least one, or an empty page short of the
/// head would send its caller nowhere.
pub open spec fn page_limit(limit: u32) -> nat {
    if limit == 0 {
        1
    } else if limit > READ_PAGE {
        READ_PAGE as nat
    } else {
        limit as nat
    }
}

pub fn clamp_limit(limit: u32) -> (r: usize)
    ensures
        r == page_limit(limit),
        1 <= r <= 1024,
        1 <= limit <= 1024 ==> r == limit,
        limit > 1024 ==> r == 1024,
{
    if limit == 0 {
        1
    } else if limit as usize > READ_PAGE {
        READ_PAGE
    } else {
        limit as usize
    }
}

/// One page of a grain's committed events. `cursor` is the last record scanned, event
/// or not; `at_head`: the scan reached the end of what may be served; slots at or
/// below `base` are gone into the grain's snapshot.
#[derive(Clone, Debug, PartialEq, Eq)]
pub struct EventPage {
    pub events: Vec<(SeqNo, Vec<u8>)>,
    pub cursor: SeqNo,
    pub at_head: bool,
    pub base: SeqNo,
}

/// The longest prefix of records at or below `floor`.
pub open spec fn committed_prefix(records: Seq<(SeqNo, Seq<u8>)>, floor: SeqNo) -> Seq<
    (SeqNo, Seq<u8>),
>
    decreases records.len(),
{
    if records.len() == 0 || records[0].0.0 > floor.0 {
        seq![]
    } else {
        seq![records[0]] + committed_prefix(records.skip(1), floor)
    }
}

/// The events among some records, undecoded, or the refusal of a record that cannot
/// be split.
pub open spec fn events_among(records: Seq<(SeqNo, Seq<u8>)>) -> Result<
    Seq<(SeqNo, Seq<u8>)>,
    Seq<char>,
>
    decreases records.len(),
{
    if records.len() == 0 {
        Ok(seq![])
    } else {
        match events_among(records.drop_last()) {
            Err(text) => Err(text),
            Ok(events) => match record_parts(records.last().1) {
                Err(text) => Err(text),
                Ok((tag, payload)) => if tag == EVENT_TAG {
                    Ok(events.push((records.last().0, payload)))
                } else {
                    Ok(events)
                },
            },
        }
    }
}

proof fn lemma_prefix_is_take(records: Seq<(SeqNo, Seq<u8>)>, floor: SeqNo, n: int)
    requires
        0 <= n <= records.len(),
        forall|i: int| 0 <= i < n ==> (#[trigger] records[i]).0.0 <= floor.0,
        n < records.len() ==> records[n].0.0 > floor.0,
    ensures
        committed_prefix(records, floor) == records.take(n),
    decreases n,
{
    if n == 0 {
        assert(records.take(0) =~= seq![]);
    } else {
        let rest = records.skip(1);
        assert forall|i: int| 0 <= i < n - 1 implies (#[trigger] rest[i]).0.0 <= floor.0 by {
            assert(rest[i] == records[i + 1]);
        }
        lemma_prefix_is_take(rest, floor, n - 1);
        assert(seq![records[0]] + rest.take(n - 1) =~= records.take(n));
    }
}

proof fn lemma_events_failed(records: Seq<(SeqNo, Seq<u8>)>, n: int)
    requires
        0 <= n <= records.len(),
        events_among(records.take(n)) is Err,
    ensures
        events_among(records) == events_among(records.take(n)),
    decreases records.len() - n,
{
    if n < records.len() {
        assert(records.take(n + 1).drop_last() =~= records.take(n));
        lemma_events_failed(records, n + 1);
    } else {
        assert(records.take(n) =~= records);
    }
}

/// Make a page of loaded records: those at or below the floor, and the events among
/// them.
pub fn make_page(
    records: &Vec<(SeqNo, Vec<u8>)>,
    limit: usize,
    floor: SeqNo,
    from: SeqNo,
    base: SeqNo,
) -> (r: Result<EventPage, FacetError>)
    ensures
        ({
            let served = committed_prefix(records.deep_view(), floor);
            match r {
                Ok(page) => events_among(served) == Ok::<Seq<(SeqNo, Seq<u8>)>, Seq<char>>(
                    page.events.deep_view(),
                ) && page.cursor == (if served.len() > 0 {
                    served.last().0
                } else {
                    from
                }) && page.at_head == (served.len() < records@.len() || records@.len() < limit)
                    && page.base == base,
                Err(e) => events_among(served) == Err::<Seq<(SeqNo, Seq<u8>)>, Seq<char>>(e.0@),
            }
        }),
{
    let ghost all = records.deep_view();
    let mut n: usize = 0;
    while n < records.len() && records[n].0.0 <= floor.0
        invariant
            n <= records@.len(),
            all == records.deep_view(),
            forall|i: int| 0 <= i < n ==> (#[trigger] all[i]).0.0 <= floor.0,
        decreases records@.len() - n,
    {
        assert(all[n as int].0 == records@[n as int].0);
        n = n + 1;
    }
    let ghost served = all.take(n as int);
    proof {
        if n < records@.len() {
            assert(all[n as int].0 == records@[n as int].0);
        }
        lemma_prefix_is_take(all, floor, n as int);
    }
    let mut events: Vec<(SeqNo, Vec<u8>)> = Vec::new();
    let mut i: usize = 0;
    assert(events.deep_view() =~= seq![]);
    assert(served.take(0) =~= seq![]);
    while i < n
        invariant
            i <= n <= records@.len(),
            all == records.deep_view(),
            served == all.take(n as int),
            served == committed_prefix(all, floor),
            events_among(served.take(i as int)) == Ok::<Seq<(SeqNo, Seq<u8>)>, Seq<char>>(
                events.deep_view(),
            ),
        decreases n - i,
    {
        let record = records[i].1.as_slice();
        proof {
            assert(all[i as int] == (records@[i as int].0, records@[i as int].1.deep_view()));
            assert(records@[i as int].1.deep_view() =~= record@);
            assert(served.take(i + 1).drop_last() =~= served.take(i as int));
            assert(served.take(i + 1).last() == all[i as int]);
        }
        match split_record(record) {
            Err(e) => {
                proof {
                    lemma_events_failed(served, i + 1);
                }
                return Err(e);
            },
            Ok((tag, payload)) => {
                if tag == EVENT_TAG {
                    let ghost was = events.deep_view();
                    let copy = vstd::slice::slice_to_vec(payload);
                    assert(copy.deep_view() =~= payload@);
                    events.push((records[i].0, copy));
                    assert(events.deep_view() =~= was.push((records@[i as int].0, payload@)));
                }
            },
        }
        i = i + 1;
    }
    assert(served.take(i as int) =~= served);
    let at_head: bool = n < records.len() || records.len() < limit;
    let cursor: SeqNo = if n > 0 {
        assert(served.last() == all[n - 1]);
        records[n - 1].0
    } else {
        from
    };
    Ok(EventPage { events, cursor, at_head, base })
}

// ---- Laws ----

/// An activation is handed out exactly if it lives and was activated under the shard that
/// the name belongs to now.
pub proof fn law_only_a_live_activation_is_handed_out(
    g: GatewayModel,
    name: NameModel,
    resident: Resident,
    shard: u32,
    alive: bool,
)
    requires
        g.table.contains_key(name),
        g.table[name] == resident,
    ensures
        reusable(g, name, shard, true) <==> resident.shard == shard,
        !reusable(g, name, shard, false),
        forall|other: NameModel| !g.table.contains_key(other) ==> !#[trigger] reusable(
            g,
            other,
            shard,
            alive,
        ),
{
}

/// Serving stops only at a record above the floor, or at the end.
pub proof fn law_everything_up_to_the_floor_is_served(
    records: Seq<(SeqNo, Seq<u8>)>,
    floor: SeqNo,
)
    ensures
        committed_prefix(records, floor).len() <= records.len(),
        committed_prefix(records, floor) == records.take(
            committed_prefix(records, floor).len() as int,
        ),
        committed_prefix(records, floor).len() < records.len() ==> records[committed_prefix(
            records,
            floor,
        ).len() as int].0.0 > floor.0,
    decreases records.len(),
{
    if records.len() == 0 || records[0].0.0 > floor.0 {
        assert(committed_prefix(records, floor) =~= records.take(0));
    } else {
        let rest = records.skip(1);
        law_everything_up_to_the_floor_is_served(rest, floor);
        let n = committed_prefix(rest, floor).len() as int;
        assert(seq![records[0]] + rest.take(n) =~= records.take(n + 1));
        if n < rest.len() {
            assert(rest[n] == records[n + 1]);
        }
    }
}

/// A page shows each record that leads with a zero byte, without that byte and at its own
/// position, and none of the records of facets; a record that is empty or leads with a
/// byte above 0x7F is refused.
pub proof fn law_a_page_shows_the_events(
    records: Seq<(SeqNo, Seq<u8>)>,
    seq: SeqNo,
    bytes: Seq<u8>,
)
    ensures
        events_among(seq![]) == Ok::<Seq<(SeqNo, Seq<u8>)>, Seq<char>>(seq![]),
        events_among(records) matches Ok(events) ==> {
            let more = events_among(records.push((seq, bytes)));
            &&& bytes.len() == 0 || bytes[0] > 0x7F ==> more is Err
            &&& bytes.len() > 0 && bytes[0] == 0 ==> more == Ok::<
                Seq<(SeqNo, Seq<u8>)>,
                Seq<char>,
            >(events.push((seq, bytes.skip(1))))
            &&& bytes.len() > 0 && 0 < bytes[0] <= 0x7F ==> more == Ok::<
                Seq<(SeqNo, Seq<u8>)>,
                Seq<char>,
            >(events)
        },
        events_among(records) is Err ==> events_among(records.push((seq, bytes))) is Err,
{
    assert(records.push((seq, bytes)).drop_last() =~= records);
}

/// No reader sees a record above the committed floor.
pub proof fn law_nothing_above_the_floor_is_served(
    records: Seq<(SeqNo, Seq<u8>)>,
    floor: SeqNo,
    i: int,
)
    requires
        0 <= i < committed_prefix(records, floor).len(),
    ensures
        i < records.len(),
        committed_prefix(records, floor)[i] == records[i],
        records[i].0.0 <= floor.0,
    decreases records.len(),
{
    if i > 0 {
        law_nothing_above_the_floor_is_served(records.skip(1), floor, i - 1);
    }
}

/// A page that is not at the head makes progress: reading on from its cursor reads
/// further.
pub proof fn law_a_page_short_of_the_head_makes_progress(
    records: Seq<(SeqNo, Seq<u8>)>,
    limit: nat,
    floor: SeqNo,
    from: SeqNo,
)
    requires
        limit >= 1,
        forall|i: int| 0 <= i < records.len() ==> (#[trigger] records[i]).0.0 > from.0,
    ensures
        ({
            let served = committed_prefix(records, floor);
            let at_head = served.len() < records.len() || records.len() < limit;
            !at_head ==> served.len() > 0 && served.last().0.0 > from.0
        }),
{
    let served = committed_prefix(records, floor);
    if !(served.len() < records.len() || records.len() < limit) {
        law_nothing_above_the_floor_is_served(records, floor, served.len() - 1);
    }
}

/// A recovery that was in flight when an activation of its name began leaves no floor:
/// its token is void.
pub proof fn law_an_activation_voids_recoveries_in_flight(
    g: GatewayModel,
    name: NameModel,
    shard: u32,
    term: Term,
    current_shard: u32,
    current_term: Option<Term>,
)
    requires
        g.warming.contains_key(name),
        g.warming[name] <= g.warm_epoch < u64::MAX,
    ensures
        !trusted(
            invalidated(g, name),
            name,
            shard,
            term,
            g.warming[name],
            current_shard,
            current_term,
        ),
{
}

/// An activation of one name leaves the recoveries and floors of every other name
/// alone.
pub proof fn law_an_activation_leaves_other_names_alone(
    g: GatewayModel,
    name: NameModel,
    other: NameModel,
)
    requires
        other != name,
    ensures
        invalidated(g, name).floors.contains_key(other) == g.floors.contains_key(other),
        invalidated(g, name).warming.contains_key(other) == g.warming.contains_key(other),
        g.warming.contains_key(other) ==> invalidated(g, name).warming[other] == g.warming[other],
        g.floors.contains_key(other) ==> invalidated(g, name).floors[other] == g.floors[other],
{
}

/// A floor serves a read only under the very leadership it was recovered under.
pub proof fn law_a_floor_serves_only_its_own_leadership(
    g: GatewayModel,
    name: NameModel,
    shard: u32,
    published: Option<SeqNo>,
    term: Option<Term>,
)
    requires
        !g.table.contains_key(name),
        read_decision(g, name, shard, true, published, term) is Serve,
    ensures
        g.floors.contains_key(name),
        g.floors[name].shard == shard,
        term == Some(g.floors[name].term),
{
}

} // verus!
