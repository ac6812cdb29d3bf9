//! The cache of resolved host handles.
//!
//! Two generations bound it: a hit in the older one moves the entry into the younger
//! one, and when the younger one is full it becomes the older one and what that held
//! is dropped. A miss is no error, only one more round trip.
use vstd::pervasive::cloned;
use vstd::prelude::*;

use crate::error::NodeId;
use crate::grain::GrainName;
use crate::grain::NameModel;
use crate::key::OrdKey;
use crate::ordmap::OrdMap;

verus! {

/// Cached handles in two generations of at most `capacity` entries each.
pub struct Generations<V: Clone> {
    hot: OrdMap<GrainName, V>,
    cold: OrdMap<GrainName, V>,
    capacity: usize,
}

/// What the cache holds.
#[verifier::ext_equal]
pub struct CacheModel<V> {
    pub hot: Map<NameModel, V>,
    pub cold: Map<NameModel, V>,
    pub capacity: nat,
}

impl<V: Clone> View for Generations<V> {
    type V = CacheModel<V>;

    closed spec fn view(&self) -> CacheModel<V> {
        CacheModel { hot: self.hot@, cold: self.cold@, capacity: self.capacity as nat }
    }
}

/// Entering `name` makes a new generation.
pub open spec fn rotates<V>(c: CacheModel<V>, name: NameModel) -> bool {
    c.hot.dom().len() >= c.capacity && !c.hot.contains_key(name)
}

/// The cache after an insert.
pub open spec fn cached<V>(c: CacheModel<V>, name: NameModel, host: V) -> CacheModel<V> {
    if rotates(c, name) {
        CacheModel {
            hot: Map::<NameModel, V>::empty().insert(name, host),
            cold: c.hot,
            capacity: c.capacity,
        }
    } else {
        CacheModel { hot: c.hot.insert(name, host), ..c }
    }
}

impl<V: Clone> Generations<V> {
    /// Neither generation is over capacity, and one entry fits.
    pub closed spec fn wf(&self) -> bool {
        &&& self.hot.wf()
        &&& self.cold.wf()
        &&& self.capacity >= 1
        &&& self.hot@.dom().len() <= self.capacity
        &&& self.cold@.dom().len() <= self.capacity
    }

    /// A cache of `capacity` entries per generation, at least one.
    pub fn new(capacity: usize) -> (r: Generations<V>)
        ensures
            r.wf(),
            r@.hot == Map::<NameModel, V>::empty(),
            r@.cold == Map::<NameModel, V>::empty(),
            r@.capacity == if capacity == 0 {
                1
            } else {
                capacity as int
            },
    {
        let capacity: usize = if capacity == 0 {
            1
        } else {
            capacity
        };
        Generations { hot: OrdMap::new(), cold: OrdMap::new(), capacity }
    }

    /// The handle cached for `name`, and the generation that promoting it retired.
    pub fn get(&mut self, name: &GrainName) -> (r: (Option<V>, Option<OrdMap<GrainName, V>>))
        requires
            old(self).wf(),
        ensures
            final(self).wf(),
            ({
                let before = old(self)@;
                let key = name.deep_view();
                if before.hot.contains_key(key) {
                    &&& r.0 is Some
                    &&& cloned(before.hot[key], r.0->0)
                    &&& r.1 is None
                    &&& final(self)@ == before
                } else if before.cold.contains_key(key) {
                    let aged = CacheModel { cold: before.cold.remove(key), ..before };
                    &&& r.0 == Some(before.cold[key])
                    &&& exists|copy: V| #[trigger]
                        cloned(before.cold[key], copy) && final(self)@ == cached(aged, key, copy)
                    &&& r.1 is Some == rotates(aged, key)
                    &&& r.1 is Some ==> r.1->0@ == aged.cold
                } else {
                    &&& r.0 is None
                    &&& r.1 is None
                    &&& final(self)@ == before
                }
            }),
    {
        if let Some(host) = self.hot.get(name) {
            return (Some(host.clone()), None);
        }
        match self.cold.remove(name) {
            None => {
                assert(self@.cold =~= old(self)@.cold);
                (None, None)
            },
            Some(host) => {
                proof {
                    old(self).cold.lemma_keys();
                    assert(old(self).cold@.dom().remove(name.deep_view()).len()
                        <= old(self).cold@.dom().len());
                    assert(self.cold@.dom() =~= old(self).cold@.dom().remove(name.deep_view()));
                }
                let copy = host.clone();
                let ghost key = name.deep_view();
                let ghost before = old(self)@;
                let ghost aged = CacheModel { cold: before.cold.remove(key), ..before };
                assert(self@ =~= aged);
                let displaced = self.insert(name.dup(), copy);
                assert(cloned(before.cold[key], copy) && self@ == cached(aged, key, copy));
                (Some(host), displaced)
            },
        }
    }

    /// Cache a handle; the generation that a rotation retired is handed back to be
    /// dropped outside the cache's lock.
    pub fn insert(&mut self, name: GrainName, host: V) -> (r: Option<OrdMap<GrainName, V>>)
        requires
            old(self).wf(),
        ensures
            final(self).wf(),
            final(self)@ == cached(old(self)@, name.deep_view(), host),
            r is Some == rotates(old(self)@, name.deep_view()),
            r is Some ==> r->0@ == old(self)@.cold,
    {
        let ghost key = name.deep_view();
        proof {
            self.hot.lemma_keys();
            self.cold.lemma_keys();
        }
        let displaced = if self.hot.len() >= self.capacity && !self.hot.contains_key(&name) {
            let mut retired: OrdMap<GrainName, V> = OrdMap::new();
            core::mem::swap(&mut retired, &mut self.cold);
            core::mem::swap(&mut self.cold, &mut self.hot);
            Some(retired)
        } else {
            None
        };
        let ghost held = self.hot@;
        proof {
            self.hot.lemma_keys();
        }
        self.hot.insert(name, host);
        proof {
            assert(self.hot@.dom() =~= held.dom().insert(key));
            self.hot.lemma_keys();
        }
        displaced
    }

    /// Drop `name` from both generations.
    pub fn remove(&mut self, name: &GrainName)
        requires
            old(self).wf(),
        ensures
            final(self).wf(),
            final(self)@ == (CacheModel {
                hot: old(self)@.hot.remove(name.deep_view()),
                cold: old(self)@.cold.remove(name.deep_view()),
                capacity: old(self)@.capacity,
            }),
    {
        proof {
            self.hot.lemma_keys();
            self.cold.lemma_keys();
        }
        self.hot.remove(name);
        self.cold.remove(name);
        proof {
            assert(self.hot@.dom() =~= old(self).hot@.dom().remove(name.deep_view()));
            assert(self.cold@.dom() =~= old(self).cold@.dom().remove(name.deep_view()));
        }
    }

    /// Whether a handle is cached for `name`.
    pub fn contains(&self, name: &GrainName) -> (r: bool)
        requires
            self.wf(),
        ensures
            r == holds(self@, name.deep_view()),
    {
        self.hot.contains_key(name) || self.cold.contains_key(name)
    }

    /// How many entries the two generations hold together.
    pub fn len(&self) -> (r: usize)
        requires
            self.wf(),
            2 * self@.capacity <= usize::MAX,
        ensures
            r == self@.hot.dom().len() + self@.cold.dom().len(),
    {
        self.hot.len() + self.cold.len()
    }

    /// A cache never holds more than two generations of its capacity, which is at least
    /// one.
    pub proof fn law_the_cache_is_bounded(&self)
        requires
            self.wf(),
        ensures
            self@.hot.dom().finite(),
            self@.cold.dom().finite(),
            self@.hot.dom().len() <= self@.capacity,
            self@.cold.dom().len() <= self@.capacity,
            self@.hot.dom().len() + self@.cold.dom().len() <= 2 * self@.capacity,
            1 <= self@.capacity,
    {
        self.hot.lemma_keys();
        self.cold.lemma_keys();
    }

    /// A name in steady use is retained: what the cache holds for a name in the younger
    /// generation, where a hit puts it, it still holds after as many inserts of other
    /// names as a generation holds.
    pub proof fn law_a_touched_name_is_retained(&self, name: NameModel, items: Seq<(NameModel, V)>)
        requires
            self.wf(),
            self@.hot.contains_key(name),
            items.len() <= self@.capacity,
            forall|i: int| 0 <= i < items.len() ==> (#[trigger] items[i]).0 != name,
        ensures
            held(all_cached(self@, items), name) == Some(self@.hot[name]),
    {
        self.law_the_cache_is_bounded();
        law_a_touched_name_survives_a_generation(self@, name, items);
    }
}

/// A handle is cached for `name`, in either generation.
pub open spec fn holds<V>(c: CacheModel<V>, name: NameModel) -> bool {
    c.hot.contains_key(name) || c.cold.contains_key(name)
}

/// A name in steady use is retained: once touched it is in the younger generation,
/// and no single insert of another name drops what is there.
pub proof fn law_a_touched_name_survives_an_insert<V>(
    c: CacheModel<V>,
    touched: NameModel,
    other: NameModel,
    host: V,
)
    requires
        c.hot.contains_key(touched),
    ensures
        holds(cached(c, other, host), touched),
        other != touched && cached(c, other, host).hot.contains_key(touched) ==> cached(
            c,
            other,
            host,
        ).hot[touched] == c.hot[touched],
{
}

/// What a cache holds for a name.
pub open spec fn held<V>(c: CacheModel<V>, name: NameModel) -> Option<V> {
    if c.hot.contains_key(name) {
        Some(c.hot[name])
    } else if c.cold.contains_key(name) {
        Some(c.cold[name])
    } else {
        None
    }
}

/// The cache after a run of inserts.
pub open spec fn all_cached<V>(c: CacheModel<V>, items: Seq<(NameModel, V)>) -> CacheModel<V>
    decreases items.len(),
{
    if items.len() == 0 {
        c
    } else {
        cached(all_cached(c, items.drop_last()), items.last().0, items.last().1)
    }
}

/// What a run of inserts has made of a touched name, up to the next rotation.
spec fn kept<V>(c: CacheModel<V>, name: NameModel, host: V, inserts: nat) -> bool {
    &&& c.hot.dom().finite()
    &&& held(c, name) == Some(host)
    &&& !c.hot.contains_key(name) ==> c.hot.dom().len() <= inserts
}

proof fn lemma_kept<V>(c: CacheModel<V>, name: NameModel, items: Seq<(NameModel, V)>)
    requires
        c.hot.dom().finite(),
        c.hot.contains_key(name),
        items.len() <= c.capacity,
        forall|i: int| 0 <= i < items.len() ==> (#[trigger] items[i]).0 != name,
    ensures
        kept(all_cached(c, items), name, c.hot[name], items.len()),
        all_cached(c, items).capacity == c.capacity,
    decreases items.len(),
{
    if items.len() > 0 {
        let front = items.drop_last();
        let (other, host) = items.last();
        assert(items[items.len() - 1].0 != name);
        assert forall|i: int| 0 <= i < front.len() implies (#[trigger] front[i]).0 != name by {
            assert(front[i] == items[i]);
        }
        lemma_kept(c, name, front);
        let before = all_cached(c, front);
        let after = cached(before, other, host);
        if rotates(before, other) {
            assert(after.hot.dom() =~= Set::<NameModel>::empty().insert(other));
            assert(before.hot.contains_key(name));
        } else {
            assert(after.hot.dom() =~= before.hot.dom().insert(other));
        }
    }
}

/// A name in steady use is retained: one that is in the younger generation, where a hit
/// puts it, is found with its handle after as many inserts of other names as a
/// generation holds.
pub proof fn law_a_touched_name_survives_a_generation<V>(
    c: CacheModel<V>,
    touched: NameModel,
    items: Seq<(NameModel, V)>,
)
    requires
        c.hot.dom().finite(),
        c.hot.contains_key(touched),
        items.len() <= c.capacity,
        forall|i: int| 0 <= i < items.len() ==> (#[trigger] items[i]).0 != touched,
    ensures
        held(all_cached(c, items), touched) == Some(c.hot[touched]),
{
    lemma_kept(c, touched, items);
}

/// A hit puts the name into the younger generation.
pub proof fn law_a_hit_is_in_the_younger_generation<V>(c: CacheModel<V>, name: NameModel, host: V)
    ensures
        cached(c, name, host).hot.contains_key(name),
        cached(c, name, host).hot[name] == host,
{
}

/// An untouched name is dropped by the second rotation after it was cached.
pub proof fn law_an_untouched_name_is_evicted<V>(
    c: CacheModel<V>,
    untouched: NameModel,
    other: NameModel,
    host: V,
)
    requires
        !c.hot.contains_key(untouched),
        other != untouched,
        rotates(c, other),
    ensures
        !holds(cached(c, other, host), untouched),
{
}

/// Removing a name leaves it in neither generation.
pub proof fn law_removal_clears_both_generations<V>(c: CacheModel<V>, name: NameModel)
    ensures
        !holds(
            CacheModel {
                hot: c.hot.remove(name),
                cold: c.cold.remove(name),
                capacity: c.capacity,
            },
            name,
        ),
{
}

/// A live activation, as a node addresses it.
#[derive(Clone, Copy, Debug, PartialEq, Eq, Structural)]
pub struct HostHandle {
    pub node: NodeId,
    pub id: u64,
}

/// A node's cache of resolved hosts, shared by every reference it hands out.
pub struct HostCache {
    hosts: Generations<HostHandle>,
}

impl View for HostCache {
    type V = CacheModel<HostHandle>;

    closed spec fn view(&self) -> CacheModel<HostHandle> {
        self.hosts@
    }
}

/// The cache after a lookup: a hit is in the younger generation.
pub open spec fn touched(c: CacheModel<HostHandle>, name: NameModel) -> CacheModel<HostHandle> {
    if !c.hot.contains_key(name) && c.cold.contains_key(name) {
        cached(CacheModel { cold: c.cold.remove(name), ..c }, name, c.cold[name])
    } else {
        c
    }
}

pub open spec fn dropped(c: CacheModel<HostHandle>, name: NameModel) -> CacheModel<HostHandle> {
    CacheModel { hot: c.hot.remove(name), cold: c.cold.remove(name), capacity: c.capacity }
}

impl HostCache {
    pub closed spec fn wf(&self) -> bool {
        self.hosts.wf()
    }

    pub fn new(capacity: usize) -> (r: HostCache)
        ensures
            r.wf(),
            r@.hot == Map::<NameModel, HostHandle>::empty(),
            r@.cold == Map::<NameModel, HostHandle>::empty(),
            r@.capacity == if capacity == 0 {
                1
            } else {
                capacity as int
            },
    {
        HostCache { hosts: Generations::new(capacity) }
    }

    /// A cached host for `name`. Where the shard's leader is known, a handle on
    /// another node is dropped instead of returned: it would reach a deposed leader,
    /// and a command that times out there is not safe to send again.
    pub fn get(&mut self, name: &GrainName, leader: Option<NodeId>) -> (r: Option<HostHandle>)
        requires
            old(self).wf(),
        ensures
            final(self).wf(),
            match held(old(self)@, name.deep_view()) {
                None => r is None && final(self)@ == old(self)@,
                Some(host) => if leader is Some && leader->0 != host.node {
                    r is None && final(self)@ == dropped(
                        touched(old(self)@, name.deep_view()),
                        name.deep_view(),
                    )
                } else {
                    r == Some(host) && final(self)@ == touched(old(self)@, name.deep_view())
                },
            },
            r matches Some(host) ==> (leader matches Some(node) ==> node == host.node),
            r is Some ==> r == held(old(self)@, name.deep_view()) && held(
                final(self)@,
                name.deep_view(),
            ) == r,
            r is None ==> held(final(self)@, name.deep_view()) is None,
            leader is None ==> r == held(old(self)@, name.deep_view()),
    {
        let (found, _displaced) = self.hosts.get(name);
        match found {
            None => None,
            Some(host) => match leader {
                Some(node) => if node != host.node {
                    self.hosts.remove(name);
                    None
                } else {
                    Some(host)
                },
                None => Some(host),
            },
        }
    }

    /// Cache a resolved host.
    pub fn put(&mut self, name: GrainName, host: HostHandle)
        requires
            old(self).wf(),
        ensures
            final(self).wf(),
            final(self)@ == cached(old(self)@, name.deep_view(), host),
    {
        let _displaced = self.hosts.insert(name, host);
    }

    /// Forget the host of `name`.
    pub fn remove(&mut self, name: &GrainName)
        requires
            old(self).wf(),
        ensures
            final(self).wf(),
            final(self)@ == dropped(old(self)@, name.deep_view()),
    {
        self.hosts.remove(name);
    }

    pub fn contains(&self, name: &GrainName) -> (r: bool)
        requires
            self.wf(),
        ensures
            r == holds(self@, name.deep_view()),
    {
        self.hosts.contains(name)
    }
}

// ---- What is found again ----

/// What was cached last for a name is what is found for it, and nobody else's handle is
/// lost by it but those of the older generation, when a new one begins.
pub proof fn law_what_is_cached_is_found<V>(
    c: CacheModel<V>,
    name: NameModel,
    host: V,
    other: NameModel,
)
    requires
        other != name,
    ensures
        held(cached(c, name, host), name) == Some(host),
        cached(c, name, host).capacity == c.capacity,
        c.hot.contains_key(other) ==> held(cached(c, name, host), other) == Some(c.hot[other]),
        c.hot.dom().len() < c.capacity ==> held(cached(c, name, host), other) == held(c, other),
        !c.hot.contains_key(other) && !c.cold.contains_key(other) ==> held(
            cached(c, name, host),
            other,
        ) is None,
{
}

/// A name that was dropped is not found, and every other is as before.
pub proof fn law_what_is_dropped_is_not_found(
    c: CacheModel<HostHandle>,
    name: NameModel,
    other: NameModel,
)
    requires
        other != name,
    ensures
        held(dropped(c, name), name) is None,
        held(dropped(c, name), other) == held(c, other),
        dropped(c, name).capacity == c.capacity,
{
}

/// A hit finds the same handle again, from the younger generation; a miss changes nothing.
pub proof fn law_a_hit_stays_a_hit(c: CacheModel<HostHandle>, name: NameModel)
    ensures
        held(touched(c, name), name) == held(c, name),
        held(c, name) is Some ==> touched(c, name).hot.contains_key(name),
        held(c, name) is None ==> touched(c, name) == c,
        holds(c, name) <==> held(c, name) is Some,
        touched(c, name).capacity == c.capacity,
{
}

/// What is found for a name is what a generation has for it, the younger one first.
pub proof fn law_a_handle_is_held_by_a_generation<V>(c: CacheModel<V>, name: NameModel)
    ensures
        c.hot.contains_key(name) ==> held(c, name) == Some(c.hot[name]),
        !c.hot.contains_key(name) && c.cold.contains_key(name) ==> held(c, name) == Some(
            c.cold[name],
        ),
        !c.hot.contains_key(name) && !c.cold.contains_key(name) ==> held(c, name) is None,
{
}

} // verus!
