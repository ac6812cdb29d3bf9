//! The alarm index: per shard, which grains have a pending alarm.
//!
//! The index is a hint that lets a driver wake grains that are not resident; the
//! grain's own alarm facet is the truth. Each entry carries the journal head of the
//! commit that last changed it, and an older head never replaces a newer one. A clear
//! leaves an entry without a deadline behind, so that a register that it outranks and
//! that arrives after it changes nothing.
use vstd::prelude::*;
use vstd::string::*;

use crate::grain::GrainName;
use crate::grain::GrainRegistry;
use crate::grain::NameModel;
use crate::host::Grain;
use crate::key::OrdKey;
use crate::ordmap::OrdMap;
use crate::text::decimal;
use crate::text::lemma_number_behind_slash;
use crate::text::push_decimal;

verus! {

/// A grain type, a slash, and a shard.
pub open spec fn shard_key(target_type: Seq<char>, shard: nat) -> Seq<char> {
    target_type + "/"@ + decimal(shard)
}

/// The key of the index grain for one grain type and shard: the type, a slash, and
/// the shard.
pub fn index_key(target_type: &str, shard: usize) -> (r: String)
    ensures
        r@ == shard_key(target_type@, shard as nat),
{
    let mut out = target_type.to_owned();
    out.append("/");
    push_decimal(&mut out, shard as u64);
    out
}

/// One grain's entry: its deadline, if one is pending, and the journal head it was
/// written at.
#[derive(Clone, Copy, Debug, PartialEq, Eq)]
pub struct Slot {
    pub due: Option<u64>,
    pub head: u64,
}

impl DeepView for Slot {
    type V = Slot;

    open spec fn deep_view(&self) -> Slot {
        *self
    }
}

/// The index's journal record.
#[derive(Clone, Debug, PartialEq, Eq)]
pub enum Change {
    /// The grain's alarm is pending for this deadline, as of this journal head.
    Due(GrainName, u64, u64),
    /// The grain has no pending alarm, as of this journal head. At the highest head
    /// there is, which no journal has, the grain's entry is forgotten.
    Cleared(GrainName, u64),
}

pub enum ChangeModel {
    Due(NameModel, u64, u64),
    Cleared(NameModel, u64),
}

impl DeepView for Change {
    type V = ChangeModel;

    open spec fn deep_view(&self) -> ChangeModel {
        match *self {
            Change::Due(name, due, head) => ChangeModel::Due(name.deep_view(), due, head),
            Change::Cleared(name, head) => ChangeModel::Cleared(name.deep_view(), head),
        }
    }
}

/// The folded state: the entry of each grain that was heard of.
#[derive(Clone, Debug, PartialEq, Eq)]
pub struct Pending {
    slots: OrdMap<GrainName, Slot>,
}

impl View for Pending {
    type V = Map<NameModel, Slot>;

    closed spec fn view(&self) -> Map<NameModel, Slot> {
        self.slots@
    }
}

impl DeepView for Pending {
    type V = Map<NameModel, Slot>;

    open spec fn deep_view(&self) -> Map<NameModel, Slot> {
        self@
    }
}

impl Default for Pending {
    fn default() -> (r: Pending)
        ensures
            r.wf(),
            r@ == Map::<NameModel, Slot>::empty(),
    {
        Pending { slots: OrdMap::new() }
    }
}

/// The index after one record.
pub open spec fn change_applied(m: Map<NameModel, Slot>, change: ChangeModel) -> Map<
    NameModel,
    Slot,
> {
    match change {
        ChangeModel::Due(name, due, head) => m.insert(name, Slot { due: Some(due), head }),
        ChangeModel::Cleared(name, head) => if head == u64::MAX {
            m.remove(name)
        } else {
            m.insert(name, Slot { due: None, head })
        },
    }
}

/// The names with a deadline, out of `names`.
pub open spec fn pending_among(m: Map<NameModel, Slot>, names: Seq<NameModel>) -> Seq<NameModel> {
    names.filter(|name: NameModel| m[name].due is Some)
}

/// The names with a deadline at or before `before`, out of `names`.
pub open spec fn due_among(m: Map<NameModel, Slot>, names: Seq<NameModel>, before: u64) -> Seq<
    NameModel,
> {
    names.filter(|name: NameModel| is_due(m[name], before))
}

pub open spec fn is_due(slot: Slot, before: u64) -> bool {
    match slot.due {
        Some(due) => due <= before,
        None => false,
    }
}

/// The pending deadline of one grain.
pub open spec fn deadline(m: Map<NameModel, Slot>, name: NameModel) -> Option<u64> {
    if m.contains_key(name) {
        m[name].due
    } else {
        None
    }
}

/// The pending deadlines, in the order of `names`.
pub open spec fn deadlines(m: Map<NameModel, Slot>, names: Seq<NameModel>) -> Seq<
    (NameModel, u64),
> {
    pending_among(m, names).map_values(|name: NameModel| (name, m[name].due->0))
}

impl Pending {
    pub closed spec fn wf(&self) -> bool {
        self.slots.wf()
    }

    /// The names with an entry, in order.
    pub closed spec fn names(&self) -> Seq<NameModel> {
        self.slots.key_seq()
    }

    /// The names with an entry are the index's keys, in name order.
    pub proof fn law_names_are_the_keys_in_order(&self)
        requires
            self.wf(),
        ensures
            crate::ordmap::ascending::<GrainName>(self.names()),
            self.names().to_set() == self@.dom(),
            self.names().no_duplicates(),
    {
        self.slots.lemma_keys();
    }

    /// The grains due at or before `before`, in name order.
    pub fn due_before(&self, before: u64) -> (r: Vec<GrainName>)
        requires
            self.wf(),
        ensures
            r.deep_view() == due_among(self@, self.names(), before),
            forall|name: NameModel| #[trigger]
                r.deep_view().contains(name) <==> self@.contains_key(name) && (
                self@[name].due matches Some(at) && at <= before),
    {
        proof {
            self.law_names_are_the_keys_in_order();
            assert forall|name: NameModel| #[trigger]
                due_among(self@, self.names(), before).contains(name) <==> self@.contains_key(name)
                    && (self@[name].due matches Some(at) && at <= before) by {
                law_due_is_every_deadline_that_has_come(self@, self.names(), before, name);
            }
        }
        let ghost m = self@;
        let ghost names = self.names();
        let ghost wanted = |name: NameModel| is_due(m[name], before);
        let mut out: Vec<GrainName> = Vec::new();
        let n: usize = self.slots.len();
        let mut i: usize = 0;
        proof {
            reveal(Seq::filter);
            assert(out.deep_view() =~= names.take(0).filter(wanted));
        }
        while i < n
            invariant
                self.wf(),
                m == self@,
                names == self.names(),
                wanted == (|name: NameModel| is_due(m[name], before)),
                n == names.len(),
                i <= n,
                out.deep_view() == names.take(i as int).filter(wanted),
            decreases n - i,
        {
            let ghost name = names[i as int];
            proof {
                reveal(Seq::filter);
                assert(names.take(i + 1).drop_last() =~= names.take(i as int));
                assert(names.take(i + 1).last() == name);
            }
            let slot = self.slots.value_at(i);
            let ready: bool = match slot.due {
                Some(due) => due <= before,
                None => false,
            };
            assert(wanted(name) == ready);
            if ready {
                let key = self.slots.key_at(i).dup();
                let ghost was = out.deep_view();
                out.push(key);
                assert(out.deep_view() =~= was.push(name));
            }
            i = i + 1;
        }
        assert(names.take(i as int) =~= names);
        assert(out.deep_view() == due_among(m, names, before));
        out
    }

    /// Every registered grain and its deadline, in name order.
    pub fn all(&self) -> (r: Vec<(GrainName, u64)>)
        requires
            self.wf(),
        ensures
            r.deep_view() == deadlines(self@, self.names()),
    {
        let ghost m = self@;
        let ghost names = self.names();
        let ghost f = |name: NameModel| (name, m[name].due->0);
        let ghost wanted = |name: NameModel| m[name].due is Some;
        let mut out: Vec<(GrainName, u64)> = Vec::new();
        let n: usize = self.slots.len();
        let mut i: usize = 0;
        proof {
            reveal(Seq::filter);
            assert(out.deep_view() =~= names.take(0).filter(wanted).map_values(f));
        }
        while i < n
            invariant
                self.wf(),
                m == self@,
                names == self.names(),
                f == (|name: NameModel| (name, m[name].due->0)),
                wanted == (|name: NameModel| m[name].due is Some),
                n == names.len(),
                i <= n,
                out.deep_view() == names.take(i as int).filter(wanted).map_values(f),
            decreases n - i,
        {
            let ghost name = names[i as int];
            let ghost was = out.deep_view();
            let ghost before = names.take(i as int).filter(wanted);
            proof {
                reveal(Seq::filter);
                assert(names.take(i + 1).drop_last() =~= names.take(i as int));
                assert(names.take(i + 1).last() == name);
            }
            let slot = self.slots.value_at(i);
            assert(wanted(name) == slot.due is Some);
            if let Some(due) = slot.due {
                let key = self.slots.key_at(i).dup();
                out.push((key, due));
                proof {
                    assert(out.deep_view() =~= was.push((name, due)));
                    assert(before.push(name).map_values(f) =~= before.map_values(f).push(f(name)));
                }
            }
            i = i + 1;
        }
        assert(names.take(i as int) =~= names);
        out
    }

    /// The registered deadline of one grain.
    pub fn get(&self, name: &GrainName) -> (r: Option<u64>)
        requires
            self.wf(),
        ensures
            r == deadline(self@, name.deep_view()),
    {
        match self.slots.get(name) {
            Some(slot) => slot.due,
            None => None,
        }
    }

    /// The head at which a grain's entry was last written.
    pub fn head_of(&self, name: &GrainName) -> (r: Option<u64>)
        requires
            self.wf(),
        ensures
            r == if self@.contains_key(name.deep_view()) {
                Some(self@[name.deep_view()].head)
            } else {
                None
            },
    {
        match self.slots.get(name) {
            Some(slot) => Some(slot.head),
            None => None,
        }
    }

    /// How many grains are registered.
    pub fn len(&self) -> (r: usize)
        requires
            self.wf(),
        ensures
            r == pending_among(self@, self.names()).len(),
    {
        let ghost m = self@;
        let ghost names = self.names();
        let ghost wanted = |name: NameModel| m[name].due is Some;
        let n: usize = self.slots.len();
        let mut count: usize = 0;
        let mut i: usize = 0;
        proof {
            reveal(Seq::filter);
            assert(names.take(0).filter(wanted).len() == 0);
        }
        while i < n
            invariant
                self.wf(),
                m == self@,
                names == self.names(),
                wanted == (|name: NameModel| m[name].due is Some),
                n == names.len(),
                i <= n,
                count <= i,
                count == names.take(i as int).filter(wanted).len(),
            decreases n - i,
        {
            proof {
                reveal(Seq::filter);
                assert(names.take(i + 1).drop_last() =~= names.take(i as int));
                assert(names.take(i + 1).last() == names[i as int]);
            }
            let slot = self.slots.value_at(i);
            assert(wanted(names[i as int]) == slot.due is Some);
            if slot.due.is_some() {
                count = count + 1;
            }
            i = i + 1;
        }
        assert(names.take(i as int) =~= names);
        count
    }

    /// Whether no grain is registered.
    pub fn is_empty(&self) -> (r: bool)
        requires
            self.wf(),
        ensures
            r == (pending_among(self@, self.names()).len() == 0),
    {
        self.len() == 0
    }
}

/// The alarm index grain of one shard.
pub struct AlarmIndex;

/// Bring a grain's alarm state at a journal head into the index: a deadline while
/// one is pending, `None` once it has cleared.
#[derive(Clone, Debug, PartialEq, Eq)]
pub struct Sync {
    pub grain: GrainName,
    pub due: Option<u64>,
    pub head: u64,
}

/// Ask which grains are due at or before `before`.
#[derive(Clone, Copy, Debug, PartialEq, Eq)]
pub struct DueBefore {
    pub before: u64,
}

/// Ask for every registered grain and its deadline.
#[derive(Clone, Copy, Debug, PartialEq, Eq)]
pub struct AllPending;

/// What a sync changes: nothing if an entry with a newer head stands, or if the entry
/// says as much already. A clear at the highest head forgets the entry, if there is
/// one: it is for a grain that has moved to another shard and may come back.
pub open spec fn sync_decision(
    m: Map<NameModel, Slot>,
    name: NameModel,
    due: Option<u64>,
    head: u64,
) -> Option<ChangeModel> {
    let known = m.contains_key(name);
    let settled = if due is None && head == u64::MAX {
        !known
    } else {
        known && (head < m[name].head || m[name] == (Slot { due, head }))
    };
    if settled {
        None
    } else {
        match due {
            Some(at) => Some(ChangeModel::Due(name, at, head)),
            None => Some(ChangeModel::Cleared(name, head)),
        }
    }
}

/// The index after a sync.
pub open spec fn synced(m: Map<NameModel, Slot>, name: NameModel, due: Option<u64>, head: u64) -> Map<
    NameModel,
    Slot,
> {
    match sync_decision(m, name, due, head) {
        Some(change) => change_applied(m, change),
        None => m,
    }
}

fn same_due(a: Option<u64>, b: Option<u64>) -> (r: bool)
    ensures
        r == (a == b),
{
    match (a, b) {
        (Some(a), Some(b)) => a == b,
        (None, None) => true,
        _ => false,
    }
}

impl AlarmIndex {
    /// The grain type of the index.
    pub fn grain_type() -> (r: &'static str)
        ensures
            r@ == "granary.AlarmIndex"@,
    {
        "granary.AlarmIndex"
    }

    /// Decide a sync: the records to journal, at most one.
    pub fn handle_sync(state: &Pending, msg: Sync) -> (r: Vec<Change>)
        requires
            state.wf(),
        ensures
            match sync_decision(state@, msg.grain.deep_view(), msg.due, msg.head) {
                Some(change) => r.deep_view() == seq![change],
                None => r@.len() == 0,
            },
    {
        let last_head = state.head_of(&msg.grain);
        let last_due = state.get(&msg.grain);
        let mut out: Vec<Change> = Vec::new();
        let forgets: bool = msg.due.is_none() && msg.head == u64::MAX;
        let settled: bool = match last_head {
            Some(h) => !forgets && (msg.head < h || (msg.head == h && same_due(
                last_due,
                msg.due,
            ))),
            None => forgets,
        };
        if !settled {
            match msg.due {
                Some(due) => {
                    out.push(Change::Due(msg.grain, due, msg.head));
                },
                None => {
                    out.push(Change::Cleared(msg.grain, msg.head));
                },
            }
        }
        proof {
            match sync_decision(state@, msg.grain.deep_view(), msg.due, msg.head) {
                Some(change) => {
                    assert(out.deep_view() =~= seq![change]);
                },
                None => {},
            }
        }
        out
    }

    /// Answer a sweep query; a read, it journals nothing.
    pub fn handle_due_before(state: &Pending, msg: DueBefore) -> (r: Vec<GrainName>)
        requires
            state.wf(),
        ensures
            r.deep_view() == due_among(state@, state.names(), msg.before),
    {
        state.due_before(msg.before)
    }

    /// Answer with every entry; a read, it journals nothing.
    pub fn handle_all_pending(state: &Pending) -> (r: Vec<(GrainName, u64)>)
        requires
            state.wf(),
        ensures
            r.deep_view() == deadlines(state@, state.names()),
    {
        state.all()
    }

    /// The commands of the index.
    pub fn register(registry: &mut GrainRegistry)
        requires
            old(registry).wf(),
        ensures
            final(registry).wf(),
            final(registry)@ == old(registry)@.insert("granary.AlarmIndex.Sync"@).insert(
                "granary.AlarmIndex.DueBefore"@,
            ).insert("granary.AlarmIndex.AllPending"@),
    {
        registry.accept("granary.AlarmIndex.Sync");
        registry.accept("granary.AlarmIndex.DueBefore");
        registry.accept("granary.AlarmIndex.AllPending");
    }
}

impl Grain for AlarmIndex {
    type State = Pending;

    type Event = Change;

    type Facets = ();

    open spec fn state_wf(state: Pending) -> bool {
        state.wf()
    }

    open spec fn empty_state() -> Map<NameModel, Slot> {
        Map::empty()
    }

    open spec fn applied(state: Map<NameModel, Slot>, event: ChangeModel) -> Map<NameModel, Slot> {
        change_applied(state, event)
    }

    fn new_state() -> (r: Pending) {
        Pending::default()
    }

    fn apply(state: &mut Pending, event: &Change) {
        match event {
            Change::Due(name, due, head) => {
                state.slots.insert(name.dup(), Slot { due: Some(*due), head: *head });
            },
            Change::Cleared(name, head) => {
                if *head == u64::MAX {
                    state.slots.remove(name);
                } else {
                    state.slots.insert(name.dup(), Slot { due: None, head: *head });
                }
            },
        }
    }
}

// ---- Laws ----

/// A sync never replaces or removes an entry that a newer head wrote, and never
/// touches another grain's entry.
pub proof fn law_a_sync_respects_newer_entries(
    m: Map<NameModel, Slot>,
    name: NameModel,
    due: Option<u64>,
    head: u64,
    other: NameModel,
)
    requires
        other != name || (m.contains_key(name) && m[name].head > head),
    ensures
        synced(m, name, due, head).contains_key(other) == m.contains_key(other),
        m.contains_key(other) ==> synced(m, name, due, head)[other] == m[other],
{
}

/// A sync is idempotent: repeating it journals nothing more.
pub proof fn law_a_repeated_sync_changes_nothing(
    m: Map<NameModel, Slot>,
    name: NameModel,
    due: Option<u64>,
    head: u64,
)
    ensures
        sync_decision(synced(m, name, due, head), name, due, head) is None,
{
}

/// Two syncs of one grain at different heads, registers or clears, leave the same index
/// whichever arrives first: that of the higher head. (A clear at the highest head there
/// is, which no journal has, forgets the entry instead.)
pub proof fn law_syncs_settle_on_the_higher_head(
    m: Map<NameModel, Slot>,
    name: NameModel,
    low_due: Option<u64>,
    low: u64,
    high_due: Option<u64>,
    high: u64,
)
    requires
        low < high,
        high_due is None ==> high < u64::MAX,
    ensures
        synced(synced(m, name, low_due, low), name, high_due, high) == synced(
            m,
            name,
            high_due,
            high,
        ),
        synced(synced(m, name, high_due, high), name, low_due, low) == synced(
            m,
            name,
            high_due,
            high,
        ),
{
    let want = synced(m, name, high_due, high);
    assert(synced(synced(m, name, low_due, low), name, high_due, high) =~= want);
    assert(synced(want, name, low_due, low) =~= want);
}

/// A register and a clear of one grain at different heads leave the same index in either
/// order, and a clear that outranks the register leaves no deadline.
pub proof fn law_a_clear_wins_whenever_it_arrives(
    m: Map<NameModel, Slot>,
    name: NameModel,
    due: u64,
    set_at: u64,
    cleared_at: u64,
)
    requires
        set_at != cleared_at,
        cleared_at < u64::MAX,
    ensures
        synced(synced(m, name, Some(due), set_at), name, None, cleared_at) == synced(
            synced(m, name, None, cleared_at),
            name,
            Some(due),
            set_at,
        ),
        set_at < cleared_at && (m.contains_key(name) ==> m[name].head <= cleared_at) ==> deadline(
            synced(synced(m, name, None, cleared_at), name, Some(due), set_at),
            name,
        ) is None,
{
    if set_at < cleared_at {
        law_syncs_settle_on_the_higher_head(m, name, Some(due), set_at, None, cleared_at);
    } else {
        law_syncs_settle_on_the_higher_head(m, name, None, cleared_at, Some(due), set_at);
    }
}

/// Each shard of each grain type has an index of its own.
pub proof fn law_index_keys_are_distinct(a: Seq<char>, m: nat, b: Seq<char>, n: nat)
    requires
        shard_key(a, m) == shard_key(b, n),
    ensures
        a == b,
        m == n,
{
    reveal_strlit("/");
    lemma_number_behind_slash(a + "/"@, m, b + "/"@, n);
    assert((a + "/"@).drop_last() =~= a);
    assert((b + "/"@).drop_last() =~= b);
}

/// A clear that follows a register, at a head no lower, leaves no deadline.
pub proof fn law_a_later_clear_wins(
    m: Map<NameModel, Slot>,
    name: NameModel,
    due: u64,
    set_at: u64,
    cleared_at: u64,
)
    requires
        set_at <= cleared_at,
        m.contains_key(name) ==> m[name].head <= cleared_at,
    ensures
        deadline(
            synced(synced(m, name, Some(due), set_at), name, None, cleared_at),
            name,
        ) is None,
{
}

/// A sync that is news takes effect: the index then says exactly what it said, as of its
/// head. (A clear at the highest head leaves no entry at all.)
pub proof fn law_news_takes_effect(
    m: Map<NameModel, Slot>,
    name: NameModel,
    due: Option<u64>,
    head: u64,
)
    requires
        m.contains_key(name) ==> m[name].head <= head,
    ensures
        deadline(synced(m, name, due, head), name) == due,
        due is Some || head < u64::MAX ==> synced(m, name, due, head) == m.insert(
            name,
            Slot { due, head },
        ),
        due is None && head == u64::MAX ==> synced(m, name, due, head) == m.remove(name),
{
    let after = synced(m, name, due, head);
    if due is Some || head < u64::MAX {
        assert(after =~= m.insert(name, Slot { due, head }));
    } else {
        assert(after =~= m.remove(name));
    }
}

/// A grain's deadline is that of its entry.
pub proof fn law_a_deadline_is_that_of_the_entry(m: Map<NameModel, Slot>, name: NameModel)
    ensures
        m.contains_key(name) ==> deadline(m, name) == m[name].due,
        !m.contains_key(name) ==> deadline(m, name) is None,
{
}

/// What is due is every grain whose deadline has come, and no other.
pub proof fn law_due_is_every_deadline_that_has_come(
    m: Map<NameModel, Slot>,
    names: Seq<NameModel>,
    before: u64,
    name: NameModel,
)
    requires
        names.to_set() == m.dom(),
    ensures
        due_among(m, names, before).contains(name) <==> (deadline(m, name) matches Some(at) && at
            <= before),
        pending_among(m, names).contains(name) <==> deadline(m, name) is Some,
        forall|at: u64| #[trigger]
            deadlines(m, names).contains((name, at)) <==> deadline(m, name) == Some(at),
{
    let due = |n: NameModel| is_due(m[n], before);
    let set = |n: NameModel| m[n].due is Some;
    let f = |n: NameModel| (n, m[n].due->0);
    names.filter_lemma(due);
    names.filter_lemma(set);
    assert(names.to_set().contains(name) == m.contains_key(name));
    if due_among(m, names, before).contains(name) {
        names.lemma_filter_contains_rev(due, name);
        let i = names.filter(due).index_of(name);
        assert(due(names.filter(due)[i]));
    }
    if names.contains(name) && due(name) {
        let i = names.index_of(name);
        assert(names.filter(due).contains(names[i]));
    }
    let pending = pending_among(m, names);
    if pending.contains(name) {
        names.lemma_filter_contains_rev(set, name);
        let i = pending.index_of(name);
        assert(set(names.filter(set)[i]));
    }
    if names.contains(name) && set(name) {
        let i = names.index_of(name);
        assert(names.filter(set).contains(names[i]));
    }
    assert forall|at: u64| #[trigger] deadlines(m, names).contains((name, at)) <==> deadline(m, name)
        == Some(at) by {
        if deadlines(m, names).contains((name, at)) {
            let i = deadlines(m, names).index_of((name, at));
            assert(deadlines(m, names)[i] == f(pending[i]));
            assert(pending.contains(pending[i]));
        }
        if deadline(m, name) == Some(at) {
            let i = pending.index_of(name);
            assert(deadlines(m, names)[i] == (name, at));
        }
    }
}

/// The index is folded from its records: a deadline or a clear is entered as of its head,
/// and a clear at the highest head forgets the grain; it starts empty.
pub proof fn law_the_index_is_folded_from_its_records(
    m: Map<NameModel, Slot>,
    name: NameModel,
    due: u64,
    head: u64,
)
    ensures
        AlarmIndex::empty_state() == Map::<NameModel, Slot>::empty(),
        AlarmIndex::applied(m, ChangeModel::Due(name, due, head)) == m.insert(
            name,
            Slot { due: Some(due), head },
        ),
        head < u64::MAX ==> AlarmIndex::applied(m, ChangeModel::Cleared(name, head)) == m.insert(
            name,
            Slot { due: None, head },
        ),
        AlarmIndex::applied(m, ChangeModel::Cleared(name, u64::MAX)) == m.remove(name),
{
}

/// A sync journals what it says, or nothing.
pub proof fn law_a_sync_journals_what_it_says(
    m: Map<NameModel, Slot>,
    name: NameModel,
    due: Option<u64>,
    head: u64,
)
    ensures
        sync_decision(m, name, due, head) matches Some(change) ==> change == match due {
            Some(at) => ChangeModel::Due(name, at, head),
            None => ChangeModel::Cleared(name, head),
        },
        !m.contains_key(name) && (due is Some || head < u64::MAX) ==> sync_decision(
            m,
            name,
            due,
            head,
        ) is Some,
        m.contains_key(name) && m[name].head < head ==> sync_decision(m, name, due, head) is Some,
{
}

} // verus!
