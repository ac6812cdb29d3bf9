//! What a deployment measures about a node's grains.
//!
//! A fixed, small set of counters and fixed-bucket histograms per grain type, and
//! their text exposition. Counters wrap around; the gauge of active grains never
//! goes below zero.
use vstd::prelude::*;
use vstd::string::*;

use crate::ordmap::ascending;
use crate::ordmap::lemma_ascending_distinct;
use crate::ordmap::OrdMap;
use crate::text::decimal;
use crate::text::lemma_shows_in;
use crate::text::padded;
use crate::text::push_decimal;
use crate::text::push_padded;
use crate::text::shows;
use crate::wire::lemma_sorted_keys;
use crate::wire::sorted_keys;

verus! {

/// How a commit ended: the label on every commit measurement.
#[derive(Clone, Copy, Debug, PartialEq, Eq, Structural)]
pub enum CommitOutcome {
    /// Durable; the grain folded and replied.
    Committed,
    /// Leadership moved off this node.
    NotLeader,
    /// No quorum, or the commit timed out.
    Unavailable,
}

pub open spec fn outcome_label(outcome: CommitOutcome) -> Seq<char> {
    match outcome {
        CommitOutcome::Committed => "committed"@,
        CommitOutcome::NotLeader => "not_leader"@,
        CommitOutcome::Unavailable => "unavailable"@,
    }
}

impl CommitOutcome {
    /// The label's text.
    pub fn as_str(self) -> (r: &'static str)
        ensures
            r@ == outcome_label(self),
    {
        match self {
            CommitOutcome::Committed => "committed",
            CommitOutcome::NotLeader => "not_leader",
            CommitOutcome::Unavailable => "unavailable",
        }
    }
}

/// The measurements a node reports. Durations are in microseconds.
pub trait GrainMetrics {
    /// What the sink's own invariant asks, if it has one.
    spec fn sink_wf(&self) -> bool;

    /// One command's durability round: how long the append took, and how it ended.
    fn commit(&mut self, grain_type: &str, outcome: CommitOutcome, took_us: u128)
        requires
            old(self).sink_wf(),
        ensures
            final(self).sink_wf(),
    ;

    /// One activation rehydrated, folding `replayed` records.
    fn rehydrated(&mut self, grain_type: &str, took_us: u128, replayed: u64)
        requires
            old(self).sink_wf(),
        ensures
            final(self).sink_wf(),
    ;

    /// Grains activated (positive) or passivated (negative) on this node.
    fn activation_delta(&mut self, grain_type: &str, delta: i64)
        requires
            old(self).sink_wf(),
        ensures
            final(self).sink_wf(),
    ;
}

/// The sink that discards everything.
impl GrainMetrics for () {
    open spec fn sink_wf(&self) -> bool {
        true
    }

    fn commit(&mut self, grain_type: &str, outcome: CommitOutcome, took_us: u128) {
    }

    fn rehydrated(&mut self, grain_type: &str, took_us: u128, replayed: u64) {
    }

    fn activation_delta(&mut self, grain_type: &str, delta: i64) {
    }
}

// ---- Histograms ----

/// The number of latency buckets.
pub const BUCKETS: usize = 11;

/// The upper bound of each latency bucket, in microseconds; the last one has none.
pub open spec fn bucket_bound(i: int) -> u64 {
    if i == 0 {
        100
    } else if i == 1 {
        500
    } else if i == 2 {
        1_000
    } else if i == 3 {
        5_000
    } else if i == 4 {
        10_000
    } else if i == 5 {
        50_000
    } else if i == 6 {
        100_000
    } else if i == 7 {
        500_000
    } else if i == 8 {
        1_000_000
    } else if i == 9 {
        2_000_000
    } else {
        u64::MAX
    }
}

fn bound_at(i: usize) -> (r: u64)
    ensures
        r == bucket_bound(i as int),
{
    match i {
        0 => 100,
        1 => 500,
        2 => 1_000,
        3 => 5_000,
        4 => 10_000,
        5 => 50_000,
        6 => 100_000,
        7 => 500_000,
        8 => 1_000_000,
        9 => 2_000_000,
        _ => u64::MAX,
    }
}

/// A histogram: the count of each bucket by itself, the sum and the total.
#[derive(Clone, Copy, Debug, PartialEq, Eq)]
pub struct Histogram {
    buckets: [u64; 11],
    sum_us: u64,
    count: u64,
}

#[verifier::ext_equal]
pub struct HistogramModel {
    pub buckets: Seq<u64>,
    pub sum_us: u64,
    pub count: u64,
}

impl DeepView for Histogram {
    type V = HistogramModel;

    closed spec fn deep_view(&self) -> HistogramModel {
        HistogramModel { buckets: self.buckets@, sum_us: self.sum_us, count: self.count }
    }
}

pub open spec fn empty_histogram() -> HistogramModel {
    HistogramModel { buckets: Seq::new(11, |i: int| 0u64), sum_us: 0, count: 0 }
}

/// The first bucket from `i` on that a duration falls into.
pub open spec fn slot_for(us: u64, i: int) -> int
    decreases 10 - i,
{
    if i >= 10 || us <= bucket_bound(i) {
        i
    } else {
        slot_for(us, i + 1)
    }
}

/// A duration as far as a counter can hold it.
pub open spec fn capped(us: u128) -> u64 {
    if us > u64::MAX {
        u64::MAX
    } else {
        us as u64
    }
}

/// A histogram after one more duration.
pub open spec fn observed(h: HistogramModel, took_us: u128) -> HistogramModel {
    let us = capped(took_us);
    let slot = slot_for(us, 0);
    HistogramModel {
        buckets: h.buckets.update(slot, h.buckets[slot].wrapping_add(1)),
        sum_us: h.sum_us.wrapping_add(us),
        count: h.count.wrapping_add(1),
    }
}

/// How many durations fell into the first `n` buckets.
pub open spec fn cumulative(buckets: Seq<u64>, n: int) -> u64
    decreases n,
{
    if n <= 0 {
        0
    } else {
        cumulative(buckets, n - 1).wrapping_add(buckets[n - 1])
    }
}

impl Default for Histogram {
    fn default() -> (r: Histogram)
        ensures
            r.deep_view() == empty_histogram(),
    {
        let r = Histogram { buckets: [0u64; 11], sum_us: 0, count: 0 };
        assert(r.buckets@ =~= empty_histogram().buckets);
        r
    }
}

impl Histogram {
    /// Note one duration.
    pub fn observe(&mut self, took_us: u128)
        ensures
            final(self).deep_view() == observed(old(self).deep_view(), took_us),
    {
        let us: u64 = if took_us > u64::MAX as u128 {
            u64::MAX
        } else {
            took_us as u64
        };
        let mut slot: usize = 0;
        while slot < 10 && us > bound_at(slot)
            invariant
                slot <= 10,
                slot_for(us, 0) == slot_for(us, slot as int),
            decreases 10 - slot,
        {
            slot = slot + 1;
        }
        let ghost before = self.deep_view();
        self.buckets[slot] = self.buckets[slot].wrapping_add(1);
        self.sum_us = self.sum_us.wrapping_add(us);
        self.count = self.count.wrapping_add(1);
        assert(self.deep_view() =~= observed(before, took_us));
    }

    /// Each bucket's bound with the count up to it, the sum and the total.
    pub fn snapshot(&self) -> (r: (Vec<(u64, u64)>, u64, u64))
        ensures
            r.0@ == Seq::new(
                11,
                |i: int| (bucket_bound(i), cumulative(self.deep_view().buckets, i + 1)),
            ),
            r.1 == self.deep_view().sum_us,
            r.2 == self.deep_view().count,
    {
        let mut points: Vec<(u64, u64)> = Vec::new();
        let mut running: u64 = 0;
        let mut i: usize = 0;
        while i < 11
            invariant
                i <= 11,
                running == cumulative(self.buckets@, i as int),
                points@.len() == i,
                forall|j: int|
                    0 <= j < i ==> points@[j] == (
                        bucket_bound(j),
                        cumulative(self.buckets@, j + 1),
                    ),
            decreases 11 - i,
        {
            running = running.wrapping_add(self.buckets[i]);
            points.push((bound_at(i), running));
            i = i + 1;
        }
        assert(points@ =~= Seq::new(
            11,
            |i: int| (bucket_bound(i), cumulative(self.deep_view().buckets, i + 1)),
        ));
        (points, self.sum_us, self.count)
    }
}

/// Microseconds as seconds, with six decimals.
pub open spec fn seconds(us: u64) -> Seq<char> {
    decimal((us / 1_000_000) as nat) + "."@ + padded((us % 1_000_000) as nat, 6)
}

fn push_seconds(out: &mut String, us: u64)
    ensures
        final(out)@ == old(out)@ + seconds(us),
{
    let ghost before = out@;
    push_decimal(out, us / 1_000_000);
    out.append(".");
    push_padded(out, us % 1_000_000, 6);
    assert(out@ =~= before + seconds(us));
}

/// A bucket's bound as its label shows it.
pub open spec fn bound_label(le: u64) -> Seq<char> {
    if le == u64::MAX {
        "+Inf"@
    } else {
        seconds(le)
    }
}

/// One bucket's line.
pub open spec fn bucket_line(
    metric: Seq<char>,
    labels: Seq<char>,
    le: u64,
    count: u64,
) -> Seq<char> {
    metric + "_bucket{"@ + labels + ",le=\""@ + bound_label(le) + "\"} "@ + decimal(count as nat)
        + "\n"@
}

/// The lines of the first `n` buckets.
pub open spec fn bucket_lines(
    metric: Seq<char>,
    labels: Seq<char>,
    buckets: Seq<u64>,
    n: int,
) -> Seq<char>
    decreases n,
{
    if n <= 0 {
        seq![]
    } else {
        bucket_lines(metric, labels, buckets, n - 1) + bucket_line(
            metric,
            labels,
            bucket_bound(n - 1),
            cumulative(buckets, n),
        )
    }
}

/// The `_sum` and `_count` lines.
pub open spec fn total_lines(
    metric: Seq<char>,
    labels: Seq<char>,
    sum_us: u64,
    count: u64,
) -> Seq<char> {
    metric + "_sum{"@ + labels + "} "@ + seconds(sum_us) + "\n"@ + metric + "_count{"@ + labels
        + "} "@ + decimal(count as nat) + "\n"@
}

/// One histogram's exposition.
pub open spec fn histogram_text(
    metric: Seq<char>,
    labels: Seq<char>,
    h: HistogramModel,
) -> Seq<char> {
    bucket_lines(metric, labels, h.buckets, 11) + total_lines(metric, labels, h.sum_us, h.count)
}

fn push_bucket_line(out: &mut String, metric: &str, labels: &str, le: u64, count: u64)
    ensures
        final(out)@ == old(out)@ + bucket_line(metric@, labels@, le, count),
{
    let ghost before = out@;
    out.append(metric);
    out.append("_bucket{");
    out.append(labels);
    out.append(",le=\"");
    if le == u64::MAX {
        out.append("+Inf");
    } else {
        push_seconds(out, le);
    }
    out.append("\"} ");
    push_decimal(out, count);
    out.append("\n");
    assert(out@ =~= before + bucket_line(metric@, labels@, le, count));
}

/// One histogram in exposition form: the cumulative buckets, the sum and the count.
/// `labels` is the label set of every line, without braces; `le` comes last.
pub fn render_histogram(out: &mut String, metric: &str, labels: &str, hist: &Histogram)
    ensures
        final(out)@ == old(out)@ + histogram_text(metric@, labels@, hist.deep_view()),
{
    let ghost before = out@;
    let ghost buckets = hist.deep_view().buckets;
    let (points, sum_us, count) = hist.snapshot();
    let mut i: usize = 0;
    assert(out@ =~= before + bucket_lines(metric@, labels@, buckets, 0));
    while i < points.len()
        invariant
            i <= points@.len(),
            points@ == Seq::new(11, |i: int| (bucket_bound(i), cumulative(buckets, i + 1))),
            out@ == before + bucket_lines(metric@, labels@, buckets, i as int),
        decreases points@.len() - i,
    {
        let (le, running) = points[i];
        push_bucket_line(out, metric, labels, le, running);
        i = i + 1;
        assert(out@ =~= before + bucket_lines(metric@, labels@, buckets, i as int));
    }
    let ghost middle = out@;
    out.append(metric);
    out.append("_sum{");
    out.append(labels);
    out.append("} ");
    push_seconds(out, sum_us);
    out.append("\n");
    out.append(metric);
    out.append("_count{");
    out.append(labels);
    out.append("} ");
    push_decimal(out, count);
    out.append("\n");
    assert(out@ =~= middle + total_lines(metric@, labels@, sum_us, count));
    assert(out@ =~= before + histogram_text(metric@, labels@, hist.deep_view()));
}

// ---- The registry ----

/// One grain type's measurements.
#[derive(Clone, Copy, Debug, PartialEq, Eq)]
struct TypeMetrics {
    committed: Histogram,
    not_leader: Histogram,
    unavailable: Histogram,
    commits: [u64; 3],
    rehydrate_latency: Histogram,
    replayed: u64,
    active: u64,
}

/// One grain type's measurements: commit latencies and counts by outcome, the
/// rehydration latencies, the records replayed, and the grains active now.
#[verifier::ext_equal]
pub struct TypeModel {
    pub latency: spec_fn(CommitOutcome) -> HistogramModel,
    pub commits: spec_fn(CommitOutcome) -> u64,
    pub rehydrate: HistogramModel,
    pub replayed: u64,
    pub active: u64,
}

impl DeepView for TypeMetrics {
    type V = TypeModel;

    closed spec fn deep_view(&self) -> TypeModel {
        TypeModel {
            latency: |o: CommitOutcome|
                match o {
                    CommitOutcome::Committed => self.committed.deep_view(),
                    CommitOutcome::NotLeader => self.not_leader.deep_view(),
                    CommitOutcome::Unavailable => self.unavailable.deep_view(),
                },
            commits: |o: CommitOutcome| self.commits@[outcome_slot(o)],
            rehydrate: self.rehydrate_latency.deep_view(),
            replayed: self.replayed,
            active: self.active,
        }
    }
}

pub open spec fn outcome_slot(o: CommitOutcome) -> int {
    match o {
        CommitOutcome::Committed => 0,
        CommitOutcome::NotLeader => 1,
        CommitOutcome::Unavailable => 2,
    }
}

/// A type of which nothing was measured.
pub open spec fn unmeasured() -> TypeModel {
    TypeModel {
        latency: |o: CommitOutcome| empty_histogram(),
        commits: |o: CommitOutcome| 0u64,
        rehydrate: empty_histogram(),
        replayed: 0,
        active: 0,
    }
}

pub open spec fn after_commit(t: TypeModel, outcome: CommitOutcome, took_us: u128) -> TypeModel {
    TypeModel {
        latency: |o: CommitOutcome|
            if o == outcome {
                observed((t.latency)(o), took_us)
            } else {
                (t.latency)(o)
            },
        commits: |o: CommitOutcome|
            if o == outcome {
                (t.commits)(o).wrapping_add(1)
            } else {
                (t.commits)(o)
            },
        ..t
    }
}

pub open spec fn after_rehydration(t: TypeModel, took_us: u128, replayed: u64) -> TypeModel {
    TypeModel {
        rehydrate: observed(t.rehydrate, took_us),
        replayed: t.replayed.wrapping_add(replayed),
        ..t
    }
}

/// The size of a change, without its sign.
pub open spec fn magnitude(delta: i64) -> u64 {
    if delta >= 0 {
        delta as u64
    } else {
        (-delta) as u64
    }
}

/// An unmatched passivation leaves the gauge at zero; it never wraps below.
pub open spec fn after_delta(t: TypeModel, delta: i64) -> TypeModel {
    TypeModel {
        active: if delta >= 0 {
            t.active.wrapping_add(magnitude(delta))
        } else if t.active >= magnitude(delta) {
            (t.active - magnitude(delta)) as u64
        } else {
            0
        },
        ..t
    }
}

impl TypeMetrics {
    fn empty() -> (r: TypeMetrics)
        ensures
            r.deep_view() == unmeasured(),
    {
        let r = TypeMetrics {
            committed: Histogram::default(),
            not_leader: Histogram::default(),
            unavailable: Histogram::default(),
            commits: [0u64; 3],
            rehydrate_latency: Histogram::default(),
            replayed: 0,
            active: 0,
        };
        assert(r.deep_view().latency =~= unmeasured().latency);
        assert(r.deep_view().commits =~= unmeasured().commits);
        r
    }

    fn latency(&self, outcome: CommitOutcome) -> (r: &Histogram)
        ensures
            r.deep_view() == (self.deep_view().latency)(outcome),
    {
        match outcome {
            CommitOutcome::Committed => &self.committed,
            CommitOutcome::NotLeader => &self.not_leader,
            CommitOutcome::Unavailable => &self.unavailable,
        }
    }

    fn commits(&self, outcome: CommitOutcome) -> (r: u64)
        ensures
            r == (self.deep_view().commits)(outcome),
    {
        match outcome {
            CommitOutcome::Committed => self.commits[0],
            CommitOutcome::NotLeader => self.commits[1],
            CommitOutcome::Unavailable => self.commits[2],
        }
    }

    fn note_commit(&mut self, outcome: CommitOutcome, took_us: u128)
        ensures
            final(self).deep_view() == after_commit(old(self).deep_view(), outcome, took_us),
    {
        let ghost before = self.deep_view();
        match outcome {
            CommitOutcome::Committed => {
                self.committed.observe(took_us);
                self.commits[0] = self.commits[0].wrapping_add(1);
            },
            CommitOutcome::NotLeader => {
                self.not_leader.observe(took_us);
                self.commits[1] = self.commits[1].wrapping_add(1);
            },
            CommitOutcome::Unavailable => {
                self.unavailable.observe(took_us);
                self.commits[2] = self.commits[2].wrapping_add(1);
            },
        }
        assert(self.deep_view().latency =~= after_commit(before, outcome, took_us).latency);
        assert(self.deep_view().commits =~= after_commit(before, outcome, took_us).commits);
    }

    fn note_rehydration(&mut self, took_us: u128, replayed: u64)
        ensures
            final(self).deep_view() == after_rehydration(old(self).deep_view(), took_us, replayed),
    {
        let ghost before = self.deep_view();
        self.rehydrate_latency.observe(took_us);
        self.replayed = self.replayed.wrapping_add(replayed);
        assert(self.deep_view().latency =~= before.latency);
        assert(self.deep_view().commits =~= before.commits);
    }

    fn note_delta(&mut self, delta: i64)
        ensures
            final(self).deep_view() == after_delta(old(self).deep_view(), delta),
    {
        let ghost before = self.deep_view();
        if delta >= 0 {
            self.active = self.active.wrapping_add(delta as u64);
        } else {
            let size: u64 = (-(delta as i128)) as u64;
            self.active = self.active.saturating_sub(size);
        }
        assert(self.deep_view().latency =~= before.latency);
        assert(self.deep_view().commits =~= before.commits);
    }
}

/// The measurements of every grain type that reported any, ready to be scraped.
#[derive(Clone, Debug, PartialEq, Eq)]
pub struct AtomicGrainMetrics {
    types: OrdMap<String, TypeMetrics>,
}

impl View for AtomicGrainMetrics {
    type V = Map<Seq<char>, TypeModel>;

    closed spec fn view(&self) -> Map<Seq<char>, TypeModel> {
        self.types.deep_view()
    }
}

/// A type's measurements, or none yet.
pub open spec fn measured(m: Map<Seq<char>, TypeModel>, grain_type: Seq<char>) -> TypeModel {
    if m.contains_key(grain_type) {
        m[grain_type]
    } else {
        unmeasured()
    }
}

/// The texts that a renderer gives for each of some names, one after the other.
pub open spec fn for_each(
    names: Seq<Seq<char>>,
    text: spec_fn(Seq<char>) -> Seq<char>,
) -> Seq<char>
    decreases names.len(),
{
    if names.len() == 0 {
        seq![]
    } else {
        for_each(names.drop_last(), text) + text(names.last())
    }
}

pub open spec fn type_label(name: Seq<char>) -> Seq<char> {
    "grain_type=\""@ + name + "\""@
}

pub open spec fn outcome_labels(name: Seq<char>, o: CommitOutcome) -> Seq<char> {
    type_label(name) + ",outcome=\""@ + outcome_label(o) + "\""@
}

pub open spec fn commit_histogram(name: Seq<char>, t: TypeModel, o: CommitOutcome) -> Seq<char> {
    histogram_text("granary_commit_seconds"@, outcome_labels(name, o), (t.latency)(o))
}

pub open spec fn commit_histograms(name: Seq<char>, t: TypeModel) -> Seq<char> {
    commit_histogram(name, t, CommitOutcome::Committed) + commit_histogram(
        name,
        t,
        CommitOutcome::NotLeader,
    ) + commit_histogram(name, t, CommitOutcome::Unavailable)
}

pub open spec fn commit_total(name: Seq<char>, t: TypeModel, o: CommitOutcome) -> Seq<char> {
    "granary_commits_total{"@ + outcome_labels(name, o) + "} "@ + decimal((t.commits)(o) as nat)
        + "\n"@
}

pub open spec fn commit_totals(name: Seq<char>, t: TypeModel) -> Seq<char> {
    commit_total(name, t, CommitOutcome::Committed) + commit_total(
        name,
        t,
        CommitOutcome::NotLeader,
    ) + commit_total(name, t, CommitOutcome::Unavailable)
}

pub open spec fn rehydrate_histogram(name: Seq<char>, t: TypeModel) -> Seq<char> {
    histogram_text("granary_rehydrate_seconds"@, type_label(name), t.rehydrate)
}

/// A line with one number under a type's label.
pub open spec fn type_line(metric: Seq<char>, name: Seq<char>, value: u64) -> Seq<char> {
    metric + "{"@ + type_label(name) + "} "@ + decimal(value as nat) + "\n"@
}

pub open spec fn commit_seconds_head() -> Seq<char> {
    "# HELP granary_commit_seconds Time a grain command waited for its append to commit.\n# TYPE granary_commit_seconds histogram\n"@
}

pub open spec fn commits_total_head() -> Seq<char> {
    "# HELP granary_commits_total Grain command durability rounds by outcome.\n# TYPE granary_commits_total counter\n"@
}

pub open spec fn rehydrate_seconds_head() -> Seq<char> {
    "# HELP granary_rehydrate_seconds Time an activation spent recovering and replaying.\n# TYPE granary_rehydrate_seconds histogram\n"@
}

pub open spec fn replayed_head() -> Seq<char> {
    "# HELP granary_records_replayed_total Records folded on activation.\n# TYPE granary_records_replayed_total counter\n"@
}

pub open spec fn active_head() -> Seq<char> {
    "# HELP granary_active_grains Grains currently activated on this node.\n# TYPE granary_active_grains gauge\n"@
}

/// Every metric in the text exposition format, types in name order.
pub open spec fn exposition(m: Map<Seq<char>, TypeModel>) -> Seq<char> {
    let names = sorted_keys::<String, TypeModel>(m);
    commit_seconds_head() + for_each(names, |n: Seq<char>| commit_histograms(n, m[n]))
        + commits_total_head() + for_each(names, |n: Seq<char>| commit_totals(n, m[n]))
        + rehydrate_seconds_head() + for_each(names, |n: Seq<char>| rehydrate_histogram(n, m[n]))
        + replayed_head() + for_each(
        names,
        |n: Seq<char>| type_line("granary_records_replayed_total"@, n, m[n].replayed),
    ) + active_head() + for_each(
        names,
        |n: Seq<char>| type_line("granary_active_grains"@, n, m[n].active),
    )
}

fn labels_for(name: &str) -> (r: String)
    ensures
        r@ == type_label(name@),
{
    let mut out = "grain_type=\"".to_owned();
    out.append(name);
    out.append("\"");
    out
}

fn outcome_labels_for(name: &str, o: CommitOutcome) -> (r: String)
    ensures
        r@ == outcome_labels(name@, o),
{
    let mut out = labels_for(name);
    out.append(",outcome=\"");
    out.append(o.as_str());
    out.append("\"");
    out
}

fn push_commit_histogram(out: &mut String, name: &str, t: &TypeMetrics, o: CommitOutcome)
    ensures
        final(out)@ == old(out)@ + commit_histogram(name@, t.deep_view(), o),
{
    let labels = outcome_labels_for(name, o);
    render_histogram(out, "granary_commit_seconds", labels.as_str(), t.latency(o));
}

fn push_commit_total(out: &mut String, name: &str, t: &TypeMetrics, o: CommitOutcome)
    ensures
        final(out)@ == old(out)@ + commit_total(name@, t.deep_view(), o),
{
    let ghost before = out@;
    let labels = outcome_labels_for(name, o);
    out.append("granary_commits_total{");
    out.append(labels.as_str());
    out.append("} ");
    push_decimal(out, t.commits(o));
    out.append("\n");
    assert(out@ =~= before + commit_total(name@, t.deep_view(), o));
}

fn push_type_line(out: &mut String, metric: &str, name: &str, value: u64)
    ensures
        final(out)@ == old(out)@ + type_line(metric@, name@, value),
{
    let ghost before = out@;
    let labels = labels_for(name);
    out.append(metric);
    out.append("{");
    out.append(labels.as_str());
    out.append("} ");
    push_decimal(out, value);
    out.append("\n");
    assert(out@ =~= before + type_line(metric@, name@, value));
}

/// Which part of the exposition a pass over the types writes.
#[derive(Clone, Copy, PartialEq, Eq, Structural)]
enum Section {
    CommitSeconds,
    CommitsTotal,
    RehydrateSeconds,
    Replayed,
    Active,
}

spec fn section_text(s: Section, n: Seq<char>, t: TypeModel) -> Seq<char> {
    match s {
        Section::CommitSeconds => commit_histograms(n, t),
        Section::CommitsTotal => commit_totals(n, t),
        Section::RehydrateSeconds => rehydrate_histogram(n, t),
        Section::Replayed => type_line("granary_records_replayed_total"@, n, t.replayed),
        Section::Active => type_line("granary_active_grains"@, n, t.active),
    }
}

fn push_section(out: &mut String, s: Section, name: &str, t: &TypeMetrics)
    ensures
        final(out)@ == old(out)@ + section_text(s, name@, t.deep_view()),
{
    let ghost before = out@;
    match s {
        Section::CommitSeconds => {
            push_commit_histogram(out, name, t, CommitOutcome::Committed);
            push_commit_histogram(out, name, t, CommitOutcome::NotLeader);
            push_commit_histogram(out, name, t, CommitOutcome::Unavailable);
        },
        Section::CommitsTotal => {
            push_commit_total(out, name, t, CommitOutcome::Committed);
            push_commit_total(out, name, t, CommitOutcome::NotLeader);
            push_commit_total(out, name, t, CommitOutcome::Unavailable);
        },
        Section::RehydrateSeconds => {
            let labels = labels_for(name);
            render_histogram(
                out,
                "granary_rehydrate_seconds",
                labels.as_str(),
                &t.rehydrate_latency,
            );
        },
        Section::Replayed => {
            push_type_line(out, "granary_records_replayed_total", name, t.replayed);
        },
        Section::Active => {
            push_type_line(out, "granary_active_grains", name, t.active);
        },
    }
    assert(out@ =~= before + section_text(s, name@, t.deep_view()));
}

impl AtomicGrainMetrics {
    pub closed spec fn wf(&self) -> bool {
        self.types.wf()
    }

    /// An empty registry.
    pub fn new() -> (r: AtomicGrainMetrics)
        ensures
            r.wf(),
            r@ == Map::<Seq<char>, TypeModel>::empty(),
    {
        let r = AtomicGrainMetrics { types: OrdMap::new() };
        assert(r@ =~= Map::<Seq<char>, TypeModel>::empty());
        r
    }

    /// Make sure a type has an entry.
    fn entry(&mut self, grain_type: &str)
        requires
            old(self).wf(),
        ensures
            final(self).wf(),
            final(self)@ == old(self)@.insert(grain_type@, measured(old(self)@, grain_type@)),
    {
        let name = grain_type.to_owned();
        let ghost before = self@;
        if !self.types.contains_key(&name) {
            self.types.insert(name, TypeMetrics::empty());
        }
        assert(self@ =~= before.insert(grain_type@, measured(before, grain_type@)));
    }

    fn push_all(&self, out: &mut String, s: Section)
        requires
            self.wf(),
        ensures
            final(out)@ == old(out)@ + for_each(
                sorted_keys::<String, TypeModel>(self@),
                |n: Seq<char>| section_text(s, n, self@[n]),
            ),
    {
        let ghost before = out@;
        let ghost m = self@;
        let ghost names = self.types.key_seq();
        let ghost f = |n: Seq<char>| section_text(s, n, m[n]);
        proof {
            lemma_sorted_keys(&self.types);
        }
        let n: usize = self.types.len();
        let mut i: usize = 0;
        assert(out@ =~= before + for_each(names.take(0), f));
        while i < n
            invariant
                self.wf(),
                m == self@,
                names == self.types.key_seq(),
                f == (|n: Seq<char>| section_text(s, n, m[n])),
                n == names.len(),
                i <= n,
                out@ == before + for_each(names.take(i as int), f),
            decreases n - i,
        {
            let name = self.types.key_at(i);
            let t = self.types.value_at(i);
            let ghost k = names[i as int];
            proof {
                assert(m.contains_key(k) && m[k] == t.deep_view());
                assert(names.take(i + 1).drop_last() =~= names.take(i as int));
                assert(names.take(i + 1).last() == k);
                assert(f(k) == section_text(s, k, m[k]));
            }
            push_section(out, s, name.as_str(), t);
            i = i + 1;
            assert(out@ =~= before + for_each(names.take(i as int), f));
        }
        assert(names.take(i as int) =~= names);
    }

    /// Render every metric in the text exposition format.
    pub fn render(&self) -> (r: String)
        requires
            self.wf(),
        ensures
            r@ == exposition(self@),
    {
        let ghost m = self@;
        let ghost names = sorted_keys::<String, TypeModel>(m);
        let ghost f1 = |n: Seq<char>| commit_histograms(n, m[n]);
        let ghost f2 = |n: Seq<char>| commit_totals(n, m[n]);
        let ghost f3 = |n: Seq<char>| rehydrate_histogram(n, m[n]);
        let ghost f4 = |n: Seq<char>|
            type_line("granary_records_replayed_total"@, n, m[n].replayed);
        let ghost f5 = |n: Seq<char>| type_line("granary_active_grains"@, n, m[n].active);
        proof {
            lemma_same_texts(names, |n: Seq<char>| section_text(Section::CommitSeconds, n, m[n]), f1);
            lemma_same_texts(names, |n: Seq<char>| section_text(Section::CommitsTotal, n, m[n]), f2);
            lemma_same_texts(
                names,
                |n: Seq<char>| section_text(Section::RehydrateSeconds, n, m[n]),
                f3,
            );
            lemma_same_texts(names, |n: Seq<char>| section_text(Section::Replayed, n, m[n]), f4);
            lemma_same_texts(names, |n: Seq<char>| section_text(Section::Active, n, m[n]), f5);
        }
        let mut out = "# HELP granary_commit_seconds Time a grain command waited for its append to commit.\n# TYPE granary_commit_seconds histogram\n".to_owned();
        self.push_all(&mut out, Section::CommitSeconds);
        out.append(
            "# HELP granary_commits_total Grain command durability rounds by outcome.\n# TYPE granary_commits_total counter\n",
        );
        self.push_all(&mut out, Section::CommitsTotal);
        out.append(
            "# HELP granary_rehydrate_seconds Time an activation spent recovering and replaying.\n# TYPE granary_rehydrate_seconds histogram\n",
        );
        self.push_all(&mut out, Section::RehydrateSeconds);
        out.append(
            "# HELP granary_records_replayed_total Records folded on activation.\n# TYPE granary_records_replayed_total counter\n",
        );
        self.push_all(&mut out, Section::Replayed);
        out.append(
            "# HELP granary_active_grains Grains currently activated on this node.\n# TYPE granary_active_grains gauge\n",
        );
        self.push_all(&mut out, Section::Active);
        out
    }
}

/// Renderers that agree on every name give the same text.
proof fn lemma_same_texts(
    names: Seq<Seq<char>>,
    f: spec_fn(Seq<char>) -> Seq<char>,
    g: spec_fn(Seq<char>) -> Seq<char>,
)
    requires
        forall|n: Seq<char>| #[trigger] f(n) == g(n),
    ensures
        for_each(names, f) == for_each(names, g),
    decreases names.len(),
{
    if names.len() > 0 {
        lemma_same_texts(names.drop_last(), f, g);
        assert(f(names.last()) == g(names.last()));
    }
}

impl GrainMetrics for AtomicGrainMetrics {
    open spec fn sink_wf(&self) -> bool {
        self.wf()
    }

    fn commit(&mut self, grain_type: &str, outcome: CommitOutcome, took_us: u128)
        ensures
            final(self)@ == old(self)@.insert(
                grain_type@,
                after_commit(measured(old(self)@, grain_type@), outcome, took_us),
            ),
    {
        let ghost before = self@;
        self.entry(grain_type);
        let ghost ready = self@;
        proof {
            assert(ready.contains_key(grain_type@));
            assert(self.types@.contains_key(grain_type@));
            assert(ready[grain_type@] == self.types@[grain_type@].deep_view());
        }
        match self.types.get_mut(&grain_type.to_owned()) {
            Some(t) => {
                t.note_commit(outcome, took_us);
                assert(t.deep_view() == after_commit(measured(before, grain_type@), outcome, took_us));
            },
            None => {},
        }
        assert(self@ =~= ready.insert(grain_type@, after_commit(measured(before, grain_type@), outcome, took_us)));
        assert(self@ =~= before.insert(
            grain_type@,
            after_commit(measured(before, grain_type@), outcome, took_us),
        ));
    }

    fn rehydrated(&mut self, grain_type: &str, took_us: u128, replayed: u64)
        ensures
            final(self)@ == old(self)@.insert(
                grain_type@,
                after_rehydration(measured(old(self)@, grain_type@), took_us, replayed),
            ),
    {
        let ghost before = self@;
        self.entry(grain_type);
        let ghost ready = self@;
        proof {
            assert(ready.contains_key(grain_type@));
            assert(self.types@.contains_key(grain_type@));
            assert(ready[grain_type@] == self.types@[grain_type@].deep_view());
        }
        match self.types.get_mut(&grain_type.to_owned()) {
            Some(t) => {
                t.note_rehydration(took_us, replayed);
                assert(t.deep_view() == after_rehydration(measured(before, grain_type@), took_us, replayed));
            },
            None => {},
        }
        assert(self@ =~= ready.insert(grain_type@, after_rehydration(measured(before, grain_type@), took_us, replayed)));
        assert(self@ =~= before.insert(
            grain_type@,
            after_rehydration(measured(before, grain_type@), took_us, replayed),
        ));
    }

    fn activation_delta(&mut self, grain_type: &str, delta: i64)
        ensures
            final(self)@ == old(self)@.insert(
                grain_type@,
                after_delta(measured(old(self)@, grain_type@), delta),
            ),
    {
        let ghost before = self@;
        self.entry(grain_type);
        let ghost ready = self@;
        proof {
            assert(ready.contains_key(grain_type@));
            assert(self.types@.contains_key(grain_type@));
            assert(ready[grain_type@] == self.types@[grain_type@].deep_view());
        }
        match self.types.get_mut(&grain_type.to_owned()) {
            Some(t) => {
                t.note_delta(delta);
                assert(t.deep_view() == after_delta(measured(before, grain_type@), delta));
            },
            None => {},
        }
        assert(self@ =~= ready.insert(grain_type@, after_delta(measured(before, grain_type@), delta)));
        assert(self@ =~= before.insert(
            grain_type@,
            after_delta(measured(before, grain_type@), delta),
        ));
    }
}

// ---- Laws ----

/// A duration falls into the first bucket whose bound it does not exceed.
pub proof fn law_a_duration_falls_into_the_first_bucket_that_holds_it(us: u64)
    ensures
        0 <= slot_for(us, 0) < 11,
        us <= bucket_bound(slot_for(us, 0)),
        forall|j: int| 0 <= j < slot_for(us, 0) ==> us > #[trigger] bucket_bound(j),
{
    lemma_slot(us, 0);
}

proof fn lemma_slot(us: u64, i: int)
    requires
        0 <= i <= 10,
    ensures
        i <= slot_for(us, i) < 11,
        us <= bucket_bound(slot_for(us, i)),
        forall|j: int| i <= j < slot_for(us, i) ==> us > #[trigger] bucket_bound(j),
    decreases 10 - i,
{
    if i < 10 && us > bucket_bound(i) {
        lemma_slot(us, i + 1);
    }
}

/// The gauge of active grains never wraps below zero, whatever passivations come
/// without a matching activation.
pub proof fn law_the_active_gauge_never_wraps_below_zero(t: TypeModel, delta: i64)
    requires
        delta < 0,
    ensures
        after_delta(t, delta).active <= t.active,
{
}

/// A commit is counted under its own outcome and no other.
pub proof fn law_a_commit_counts_under_its_outcome(
    t: TypeModel,
    outcome: CommitOutcome,
    took_us: u128,
    other: CommitOutcome,
)
    requires
        other != outcome,
    ensures
        (after_commit(t, outcome, took_us).commits)(outcome) == (t.commits)(outcome).wrapping_add(1),
        (after_commit(t, outcome, took_us).commits)(other) == (t.commits)(other),
        (after_commit(t, outcome, took_us).latency)(other) == (t.latency)(other),
{
}

// ---- What the counts add up to ----

/// How many durations fell into the first `n` buckets, without wrapping.
pub open spec fn total(buckets: Seq<u64>, n: int) -> int
    decreases n,
{
    if n <= 0 {
        0
    } else {
        total(buckets, n - 1) + buckets[n - 1]
    }
}

/// The buckets add up to the count.
pub open spec fn balanced(h: HistogramModel) -> bool {
    h.buckets.len() == 11 && total(h.buckets, 11) == h.count
}

proof fn lemma_total(buckets: Seq<u64>, i: int, j: int)
    requires
        0 <= i <= j <= buckets.len(),
    ensures
        0 <= total(buckets, i) <= total(buckets, j),
    decreases j,
{
    if i < j {
        lemma_total(buckets, i, j - 1);
    } else if i > 0 {
        lemma_total(buckets, i - 1, j - 1);
    }
}

proof fn lemma_cumulative(h: HistogramModel, n: int)
    requires
        balanced(h),
        0 <= n <= 11,
    ensures
        cumulative(h.buckets, n) == total(h.buckets, n),
    decreases n,
{
    if n > 0 {
        lemma_cumulative(h, n - 1);
        lemma_total(h.buckets, n - 1, n);
        lemma_total(h.buckets, n, 11);
    }
}

/// Of a balanced histogram the counts that are shown never fall from one bucket to the
/// next, and the last one is the count.
pub proof fn law_shown_counts_rise_to_the_count(h: HistogramModel, i: int, j: int)
    requires
        balanced(h),
        0 <= i <= j <= 11,
    ensures
        cumulative(h.buckets, i) <= cumulative(h.buckets, j),
        cumulative(h.buckets, 11) == h.count,
{
    lemma_cumulative(h, i);
    lemma_cumulative(h, j);
    lemma_cumulative(h, 11);
    lemma_total(h.buckets, i, j);
}

proof fn lemma_bounds_rise(i: int, j: int)
    requires
        0 <= i < j <= 10,
    ensures
        bucket_bound(i) < bucket_bound(j),
{
}

proof fn lemma_total_observed(buckets: Seq<u64>, slot: int, n: int)
    requires
        0 <= slot < buckets.len(),
        0 <= n <= buckets.len(),
        buckets[slot] < u64::MAX,
    ensures
        total(buckets.update(slot, (buckets[slot] + 1) as u64), n) == total(buckets, n) + if slot
            < n {
            1int
        } else {
            0int
        },
    decreases n,
{
    if n > 0 {
        lemma_total_observed(buckets, slot, n - 1);
    }
}

/// One more duration raises the count by one, the sum by the duration, and the shown
/// count of exactly those buckets whose bound it does not exceed. The histogram stays
/// balanced.
pub proof fn law_a_duration_raises_the_buckets_that_hold_it(h: HistogramModel, took_us: u128, i: int)
    requires
        balanced(h),
        h.count < u64::MAX,
        h.sum_us + capped(took_us) <= u64::MAX,
        0 <= i < 11,
    ensures
        balanced(observed(h, took_us)),
        observed(h, took_us).count == h.count + 1,
        observed(h, took_us).sum_us == h.sum_us + capped(took_us),
        cumulative(observed(h, took_us).buckets, i + 1) == cumulative(h.buckets, i + 1) + if capped(
            took_us,
        ) <= bucket_bound(i) {
            1int
        } else {
            0int
        },
        cumulative(observed(h, took_us).buckets, 11) == observed(h, took_us).count,
{
    let us = capped(took_us);
    let slot = slot_for(us, 0);
    let after = observed(h, took_us);
    lemma_slot(us, 0);
    lemma_total(h.buckets, slot, slot + 1);
    lemma_total(h.buckets, slot + 1, 11);
    assert(h.buckets[slot] <= h.count);
    lemma_total_observed(h.buckets, slot, 11);
    lemma_total_observed(h.buckets, slot, i + 1);
    lemma_cumulative(h, i + 1);
    lemma_cumulative(after, i + 1);
    lemma_cumulative(after, 11);
    if slot < i {
        lemma_bounds_rise(slot, i);
    }
}

/// An empty histogram is balanced.
pub proof fn law_an_empty_histogram_is_balanced()
    ensures
        balanced(empty_histogram()),
{
    reveal_with_fuel(total, 12);
}

/// A type's measurements add up: its histograms are balanced, and each outcome's commits
/// are as many as its latencies.
pub open spec fn adds_up(t: TypeModel) -> bool {
    &&& forall|o: CommitOutcome| balanced(#[trigger] (t.latency)(o))
    &&& forall|o: CommitOutcome| #[trigger] (t.commits)(o) == (t.latency)(o).count
    &&& balanced(t.rehydrate)
}

/// No counter of a type is about to wrap.
pub open spec fn has_room(t: TypeModel) -> bool {
    &&& forall|o: CommitOutcome| (#[trigger] (t.latency)(o)).count < u64::MAX
    &&& t.rehydrate.count < u64::MAX
}

proof fn lemma_observed_balanced(h: HistogramModel, took_us: u128)
    requires
        balanced(h),
        h.count < u64::MAX,
    ensures
        balanced(observed(h, took_us)),
{
    let slot = slot_for(capped(took_us), 0);
    lemma_slot(capped(took_us), 0);
    lemma_total(h.buckets, slot, slot + 1);
    lemma_total(h.buckets, slot + 1, 11);
    lemma_total_observed(h.buckets, slot, 11);
}

/// Whatever is reported, a type's measurements keep adding up; they do so from the
/// start.
pub proof fn law_measurements_keep_adding_up(
    t: TypeModel,
    outcome: CommitOutcome,
    took_us: u128,
    replayed: u64,
    delta: i64,
)
    requires
        adds_up(t),
        has_room(t),
    ensures
        adds_up(unmeasured()),
        adds_up(after_commit(t, outcome, took_us)),
        adds_up(after_rehydration(t, took_us, replayed)),
        adds_up(after_delta(t, delta)),
{
    law_an_empty_histogram_is_balanced();
    let c = after_commit(t, outcome, took_us);
    assert forall|o: CommitOutcome| balanced(#[trigger] (c.latency)(o)) by {
        assert(balanced((t.latency)(o)));
        lemma_observed_balanced((t.latency)(o), took_us);
    }
    assert forall|o: CommitOutcome| #[trigger] (c.commits)(o) == (c.latency)(o).count by {
        assert((t.commits)(o) == (t.latency)(o).count);
        assert((t.latency)(o).count < u64::MAX);
    }
    lemma_observed_balanced(t.rehydrate, took_us);
    let r = after_rehydration(t, took_us, replayed);
    assert forall|o: CommitOutcome| balanced(#[trigger] (r.latency)(o)) by {
        assert((r.latency)(o) == (t.latency)(o));
    }
    assert forall|o: CommitOutcome| #[trigger] (r.commits)(o) == (r.latency)(o).count by {
        assert((r.commits)(o) == (t.commits)(o));
    }
    let d = after_delta(t, delta);
    assert forall|o: CommitOutcome| balanced(#[trigger] (d.latency)(o)) by {
        assert((d.latency)(o) == (t.latency)(o));
    }
    assert forall|o: CommitOutcome| #[trigger] (d.commits)(o) == (d.latency)(o).count by {
        assert((d.commits)(o) == (t.commits)(o));
    }
    let u = unmeasured();
    assert forall|o: CommitOutcome| balanced(#[trigger] (u.latency)(o)) by {
        assert((u.latency)(o) == empty_histogram());
    }
}

// ---- What the text looks like ----

/// Of a type whose measurements add up, the last bucket that is shown of each outcome's
/// latencies, the histogram's count and the outcome's commits are the same number; so are
/// the last bucket and the count of the rehydrations.
pub proof fn law_the_text_adds_up(name: Seq<char>, t: TypeModel, o: CommitOutcome)
    requires
        adds_up(t),
    ensures
        ({
            let metric = "granary_commit_seconds"@;
            let labels = outcome_labels(name, o);
            let h = (t.latency)(o);
            &&& commit_histogram(name, t, o) == bucket_lines(metric, labels, h.buckets, 10)
                + bucket_line(metric, labels, u64::MAX, h.count) + total_lines(
                metric,
                labels,
                h.sum_us,
                h.count,
            )
            &&& commit_total(name, t, o) == "granary_commits_total{"@ + labels + "} "@ + decimal(
                h.count as nat,
            ) + "\n"@
        }),
        ({
            let metric = "granary_rehydrate_seconds"@;
            let labels = type_label(name);
            let h = t.rehydrate;
            rehydrate_histogram(name, t) == bucket_lines(metric, labels, h.buckets, 10)
                + bucket_line(metric, labels, u64::MAX, h.count) + total_lines(
                metric,
                labels,
                h.sum_us,
                h.count,
            )
        }),
{
    let h = (t.latency)(o);
    assert(balanced(h));
    lemma_cumulative(h, 11);
    assert(bucket_bound(10) == u64::MAX);
    assert((t.commits)(o) == h.count);
    lemma_cumulative(t.rehydrate, 11);
}

/// The types are shown in ascending order of their names, each once and none left out.
pub proof fn law_types_are_shown_in_order(metrics: &AtomicGrainMetrics)
    requires
        metrics.wf(),
    ensures
        ascending::<String>(sorted_keys::<String, TypeModel>(metrics@)),
        sorted_keys::<String, TypeModel>(metrics@).no_duplicates(),
        sorted_keys::<String, TypeModel>(metrics@).to_set() == metrics@.dom(),
{
    lemma_sorted_keys(&metrics.types);
    lemma_ascending_distinct::<String>(metrics.types.key_seq());
}

/// How many lines a text has, each with its end.
pub open spec fn lines(text: Seq<char>) -> nat
    decreases text.len(),
{
    if text.len() == 0 {
        0
    } else {
        lines(text.drop_last()) + if text.last() == '\n' {
            1nat
        } else {
            0nat
        }
    }
}

/// A text without a line break.
pub open spec fn one_line(text: Seq<char>) -> bool {
    forall|i: int| 0 <= i < text.len() ==> #[trigger] text[i] != '\n'
}

proof fn lemma_lines_add(a: Seq<char>, b: Seq<char>)
    ensures
        lines(a + b) == lines(a) + lines(b),
    decreases b.len(),
{
    if b.len() == 0 {
        assert(a + b =~= a);
    } else {
        assert((a + b).drop_last() =~= a + b.drop_last());
        lemma_lines_add(a, b.drop_last());
    }
}

proof fn lemma_one_line(text: Seq<char>)
    requires
        one_line(text),
    ensures
        lines(text) == 0,
    decreases text.len(),
{
    if text.len() > 0 {
        let front = text.drop_last();
        assert(text[text.len() - 1] != '\n');
        assert forall|i: int| 0 <= i < front.len() implies #[trigger] front[i] != '\n' by {
            assert(text[i] != '\n');
        }
        lemma_one_line(front);
    }
}

/// A line and its end.
proof fn lemma_ended(text: Seq<char>)
    requires
        one_line(text),
    ensures
        lines(text + "\n"@) == 1,
{
    reveal_strlit("\n");
    lemma_one_line(text);
    assert((text + "\n"@).drop_last() =~= text);
}

/// A text that ends two lines.
proof fn lemma_two_lines(text: Seq<char>, n: int)
    requires
        0 <= n < text.len() - 1,
        text[n] == '\n',
        text.last() == '\n',
        forall|i: int| 0 <= i < text.len() - 1 && i != n ==> #[trigger] text[i] != '\n',
    ensures
        lines(text) == 2,
{
    reveal_strlit("\n");
    let a = text.take(n);
    let b = text.subrange(n + 1, text.len() - 1);
    assert forall|i: int| 0 <= i < a.len() implies #[trigger] a[i] != '\n' by {
        assert(text[i] != '\n');
    }
    assert forall|i: int| 0 <= i < b.len() implies #[trigger] b[i] != '\n' by {
        assert(text[n + 1 + i] != '\n');
    }
    lemma_ended(a);
    lemma_ended(b);
    assert(text =~= (a + "\n"@) + (b + "\n"@));
    lemma_lines_add(a + "\n"@, b + "\n"@);
}

/// The fixed parts of a line have no break in them.
proof fn lemma_fixed_parts()
    ensures
        one_line("_bucket{"@),
        one_line(",le=\""@),
        one_line("\"} "@),
        one_line("+Inf"@),
        one_line("_sum{"@),
        one_line("} "@),
        one_line("_count{"@),
        one_line("."@),
        one_line("grain_type=\""@),
        one_line("\""@),
        one_line(",outcome=\""@),
        one_line("granary_commits_total{"@),
        one_line("{"@),
        one_line("granary_commit_seconds"@),
        one_line("granary_rehydrate_seconds"@),
        one_line("granary_records_replayed_total"@),
        one_line("granary_active_grains"@),
        one_line("committed"@),
        one_line("not_leader"@),
        one_line("unavailable"@),
{
    reveal_strlit("_bucket{");
    reveal_strlit(",le=\"");
    reveal_strlit("\"} ");
    reveal_strlit("+Inf");
    reveal_strlit("_sum{");
    reveal_strlit("} ");
    reveal_strlit("_count{");
    reveal_strlit(".");
    reveal_strlit("grain_type=\"");
    reveal_strlit("\"");
    reveal_strlit(",outcome=\"");
    reveal_strlit("granary_commits_total{");
    reveal_strlit("{");
    reveal_strlit("granary_commit_seconds");
    reveal_strlit("granary_rehydrate_seconds");
    reveal_strlit("granary_records_replayed_total");
    reveal_strlit("granary_active_grains");
    reveal_strlit("committed");
    reveal_strlit("not_leader");
    reveal_strlit("unavailable");
}

/// The headings are two lines each.
proof fn lemma_heads()
    ensures
        lines(commit_seconds_head()) == 2,
        lines(commits_total_head()) == 2,
        lines(rehydrate_seconds_head()) == 2,
        lines(replayed_head()) == 2,
        lines(active_head()) == 2,
{
    reveal_strlit(
        "# HELP granary_commit_seconds Time a grain command waited for its append to commit.\n# TYPE granary_commit_seconds histogram\n",
    );
    lemma_two_lines(commit_seconds_head(), 83);
    reveal_strlit(
        "# HELP granary_commits_total Grain command durability rounds by outcome.\n# TYPE granary_commits_total counter\n",
    );
    lemma_two_lines(commits_total_head(), 72);
    reveal_strlit(
        "# HELP granary_rehydrate_seconds Time an activation spent recovering and replaying.\n# TYPE granary_rehydrate_seconds histogram\n",
    );
    lemma_two_lines(rehydrate_seconds_head(), 83);
    reveal_strlit(
        "# HELP granary_records_replayed_total Records folded on activation.\n# TYPE granary_records_replayed_total counter\n",
    );
    lemma_two_lines(replayed_head(), 67);
    reveal_strlit(
        "# HELP granary_active_grains Grains currently activated on this node.\n# TYPE granary_active_grains gauge\n",
    );
    lemma_two_lines(active_head(), 69);
}

proof fn lemma_digits(n: nat)
    ensures
        one_line(decimal(n)),
    decreases n,
{
    if n >= 10 {
        lemma_digits(n / 10);
    }
}

proof fn lemma_padded_digits(n: nat, width: nat)
    ensures
        one_line(padded(n, width)),
    decreases width,
{
    if width > 0 {
        lemma_padded_digits(n / 10, (width - 1) as nat);
    }
}

proof fn lemma_bucket_lines(metric: Seq<char>, labels: Seq<char>, buckets: Seq<u64>, n: int)
    requires
        one_line(metric),
        one_line(labels),
        0 <= n,
    ensures
        lines(bucket_lines(metric, labels, buckets, n)) == n,
    decreases n,
{
    if n > 0 {
        let le = bucket_bound(n - 1);
        let count = cumulative(buckets, n);
        lemma_bucket_lines(metric, labels, buckets, n - 1);
        lemma_fixed_parts();
        lemma_digits((le / 1_000_000) as nat);
        lemma_padded_digits((le % 1_000_000) as nat, 6);
        lemma_digits(count as nat);
        let line = metric + "_bucket{"@ + labels + ",le=\""@ + bound_label(le) + "\"} "@ + decimal(
            count as nat,
        );
        assert(one_line(bound_label(le)));
        assert(one_line(line));
        lemma_ended(line);
        assert(bucket_line(metric, labels, le, count) =~= line + "\n"@);
        lemma_lines_add(
            bucket_lines(metric, labels, buckets, n - 1),
            bucket_line(metric, labels, le, count),
        );
    }
}

proof fn lemma_histogram_lines(metric: Seq<char>, labels: Seq<char>, h: HistogramModel)
    requires
        one_line(metric),
        one_line(labels),
    ensures
        lines(histogram_text(metric, labels, h)) == 13,
{
    lemma_bucket_lines(metric, labels, h.buckets, 11);
    lemma_fixed_parts();
    lemma_digits((h.sum_us / 1_000_000) as nat);
    lemma_padded_digits((h.sum_us % 1_000_000) as nat, 6);
    lemma_digits(h.count as nat);
    let sum = metric + "_sum{"@ + labels + "} "@ + seconds(h.sum_us);
    let count = metric + "_count{"@ + labels + "} "@ + decimal(h.count as nat);
    assert(one_line(seconds(h.sum_us)));
    assert(one_line(sum));
    assert(one_line(count));
    lemma_ended(sum);
    lemma_ended(count);
    let totals = total_lines(metric, labels, h.sum_us, h.count);
    assert(totals =~= (sum + "\n"@) + (count + "\n"@));
    lemma_lines_add(sum + "\n"@, count + "\n"@);
    lemma_lines_add(bucket_lines(metric, labels, h.buckets, 11), totals);
}

proof fn lemma_labels(name: Seq<char>, o: CommitOutcome)
    requires
        one_line(name),
    ensures
        one_line(type_label(name)),
        one_line(outcome_labels(name, o)),
{
    lemma_fixed_parts();
    assert(one_line(outcome_label(o)));
}

proof fn lemma_commit_lines(name: Seq<char>, t: TypeModel, o: CommitOutcome)
    requires
        one_line(name),
    ensures
        lines(commit_histogram(name, t, o)) == 13,
        lines(commit_total(name, t, o)) == 1,
{
    lemma_fixed_parts();
    lemma_labels(name, o);
    lemma_histogram_lines("granary_commit_seconds"@, outcome_labels(name, o), (t.latency)(o));
    lemma_digits((t.commits)(o) as nat);
    let line = "granary_commits_total{"@ + outcome_labels(name, o) + "} "@ + decimal(
        (t.commits)(o) as nat,
    );
    assert(one_line(line));
    lemma_ended(line);
}

proof fn lemma_type_lines(name: Seq<char>, t: TypeModel)
    requires
        one_line(name),
    ensures
        lines(commit_histograms(name, t)) == 39,
        lines(commit_totals(name, t)) == 3,
        lines(rehydrate_histogram(name, t)) == 13,
        lines(type_line("granary_records_replayed_total"@, name, t.replayed)) == 1,
        lines(type_line("granary_active_grains"@, name, t.active)) == 1,
{
    let (a, b, c) = (CommitOutcome::Committed, CommitOutcome::NotLeader, CommitOutcome::Unavailable);
    lemma_commit_lines(name, t, a);
    lemma_commit_lines(name, t, b);
    lemma_commit_lines(name, t, c);
    lemma_lines_add(commit_histogram(name, t, a), commit_histogram(name, t, b));
    lemma_lines_add(
        commit_histogram(name, t, a) + commit_histogram(name, t, b),
        commit_histogram(name, t, c),
    );
    lemma_lines_add(commit_total(name, t, a), commit_total(name, t, b));
    lemma_lines_add(commit_total(name, t, a) + commit_total(name, t, b), commit_total(name, t, c));
    lemma_fixed_parts();
    lemma_labels(name, a);
    lemma_histogram_lines("granary_rehydrate_seconds"@, type_label(name), t.rehydrate);
    lemma_digits(t.replayed as nat);
    lemma_digits(t.active as nat);
    let replayed = "granary_records_replayed_total"@ + "{"@ + type_label(name) + "} "@ + decimal(
        t.replayed as nat,
    );
    let active = "granary_active_grains"@ + "{"@ + type_label(name) + "} "@ + decimal(
        t.active as nat,
    );
    assert(one_line(replayed));
    assert(one_line(active));
    lemma_ended(replayed);
    lemma_ended(active);
}

proof fn lemma_for_each_lines(
    names: Seq<Seq<char>>,
    text: spec_fn(Seq<char>) -> Seq<char>,
    each: nat,
)
    requires
        forall|i: int| 0 <= i < names.len() ==> lines(text(#[trigger] names[i])) == each,
    ensures
        lines(for_each(names, text)) == names.len() * each,
    decreases names.len(),
{
    if names.len() > 0 {
        let front = names.drop_last();
        assert forall|i: int| 0 <= i < front.len() implies lines(text(#[trigger] front[i]))
            == each by {
            assert(front[i] == names[i]);
        }
        lemma_for_each_lines(front, text, each);
        lemma_lines_add(for_each(front, text), text(names.last()));
        assert(names[names.len() - 1] == names.last());
        assert(names.len() * each == front.len() * each + each) by (nonlinear_arith)
            requires
                names.len() == front.len() + 1,
        ;
    }
}

/// The exposition has two heading lines for each of its five metrics and 57 lines for
/// each type, if no type's name breaks a line.
pub proof fn law_the_exposition_has_its_lines(m: Map<Seq<char>, TypeModel>)
    requires
        forall|i: int|
            0 <= i < sorted_keys::<String, TypeModel>(m).len() ==> one_line(
                #[trigger] sorted_keys::<String, TypeModel>(m)[i],
            ),
    ensures
        lines(exposition(m)) == 10 + 57 * sorted_keys::<String, TypeModel>(m).len(),
{
    let names = sorted_keys::<String, TypeModel>(m);
    let f1 = |n: Seq<char>| commit_histograms(n, m[n]);
    let f2 = |n: Seq<char>| commit_totals(n, m[n]);
    let f3 = |n: Seq<char>| rehydrate_histogram(n, m[n]);
    let f4 = |n: Seq<char>| type_line("granary_records_replayed_total"@, n, m[n].replayed);
    let f5 = |n: Seq<char>| type_line("granary_active_grains"@, n, m[n].active);
    assert forall|i: int| 0 <= i < names.len() implies lines(f1(#[trigger] names[i])) == 39
        && lines(f2(names[i])) == 3 && lines(f3(names[i])) == 13 && lines(f4(names[i])) == 1
        && lines(f5(names[i])) == 1 by {
        lemma_type_lines(names[i], m[names[i]]);
    }
    lemma_for_each_lines(names, f1, 39);
    lemma_for_each_lines(names, f2, 3);
    lemma_for_each_lines(names, f3, 13);
    lemma_for_each_lines(names, f4, 1);
    lemma_for_each_lines(names, f5, 1);
    lemma_heads();
    let t1 = commit_seconds_head() + for_each(names, f1);
    let t2 = t1 + commits_total_head();
    let t3 = t2 + for_each(names, f2);
    let t4 = t3 + rehydrate_seconds_head();
    let t5 = t4 + for_each(names, f3);
    let t6 = t5 + replayed_head();
    let t7 = t6 + for_each(names, f4);
    let t8 = t7 + active_head();
    lemma_lines_add(commit_seconds_head(), for_each(names, f1));
    lemma_lines_add(t1, commits_total_head());
    lemma_lines_add(t2, for_each(names, f2));
    lemma_lines_add(t3, rehydrate_seconds_head());
    lemma_lines_add(t4, for_each(names, f3));
    lemma_lines_add(t5, replayed_head());
    lemma_lines_add(t6, for_each(names, f4));
    lemma_lines_add(t7, active_head());
    lemma_lines_add(t8, for_each(names, f5));
    assert(exposition(m) == t8 + for_each(names, f5));
}

/// A rehydration adds its duration and its records, and an activation or passivation moves
/// the gauge by as much as it says, down to zero at the least; nothing else moves.
pub proof fn law_reports_move_what_they_are_about(
    t: TypeModel,
    took_us: u128,
    replayed: u64,
    delta: i64,
    o: CommitOutcome,
)
    requires
        t.replayed + replayed <= u64::MAX,
        t.active + delta <= u64::MAX,
    ensures
        after_rehydration(t, took_us, replayed).replayed == t.replayed + replayed,
        after_rehydration(t, took_us, replayed).rehydrate == observed(t.rehydrate, took_us),
        after_rehydration(t, took_us, replayed).active == t.active,
        (after_rehydration(t, took_us, replayed).commits)(o) == (t.commits)(o),
        (after_rehydration(t, took_us, replayed).latency)(o) == (t.latency)(o),
        t.active + delta >= 0 ==> after_delta(t, delta).active == t.active + delta,
        t.active + delta < 0 ==> after_delta(t, delta).active == 0,
        after_delta(t, delta).replayed == t.replayed,
        after_delta(t, delta).rehydrate == t.rehydrate,
        (after_delta(t, delta).commits)(o) == (t.commits)(o),
        (after_delta(t, delta).latency)(o) == (t.latency)(o),
        (after_commit(t, o, took_us).latency)(o) == observed((t.latency)(o), took_us),
        after_commit(t, o, took_us).rehydrate == t.rehydrate,
        after_commit(t, o, took_us).replayed == t.replayed,
        after_commit(t, o, took_us).active == t.active,
{
}

/// A time is shown in seconds with six places; a bucket without a bound as infinite.
pub proof fn law_times_are_shown_in_seconds(us: u64)
    ensures
        seconds(us) == decimal((us / 1_000_000) as nat) + "."@ + padded(
            (us % 1_000_000) as nat,
            6,
        ),
        bound_label(u64::MAX) == "+Inf"@,
        us < u64::MAX ==> bound_label(us) == seconds(us),
{
}

proof fn lemma_for_each_shows(
    names: Seq<Seq<char>>,
    text: spec_fn(Seq<char>) -> Seq<char>,
    i: int,
    part: Seq<char>,
)
    requires
        0 <= i < names.len(),
        shows(text(names[i]), part),
    ensures
        shows(for_each(names, text), part),
    decreases names.len(),
{
    let front = names.drop_last();
    lemma_shows_in(for_each(front, text), text(names.last()), part);
    if i < front.len() {
        assert(front[i] == names[i]);
        lemma_for_each_shows(front, text, i, part);
    }
}

/// The exposition shows, for every type that was measured, its gauge, its replayed records,
/// each outcome's commits, each outcome's latencies and the rehydrations, all under the
/// type's own name.
pub proof fn law_every_type_is_shown(metrics: &AtomicGrainMetrics, name: Seq<char>, o: CommitOutcome)
    requires
        metrics.wf(),
        metrics@.contains_key(name),
    ensures
        ({
            let text = exposition(metrics@);
            let t = metrics@[name];
            let label = "grain_type=\""@ + name + "\""@;
            let outcome = match o {
                CommitOutcome::Committed => "committed"@,
                CommitOutcome::NotLeader => "not_leader"@,
                CommitOutcome::Unavailable => "unavailable"@,
            };
            let both = label + ",outcome=\""@ + outcome + "\""@;
            &&& shows(
                text,
                "granary_active_grains"@ + "{"@ + label + "} "@ + decimal(t.active as nat) + "\n"@,
            )
            &&& shows(
                text,
                "granary_records_replayed_total"@ + "{"@ + label + "} "@ + decimal(
                    t.replayed as nat,
                ) + "\n"@,
            )
            &&& shows(
                text,
                "granary_commits_total{"@ + both + "} "@ + decimal((t.commits)(o) as nat) + "\n"@,
            )
            &&& shows(text, histogram_text("granary_commit_seconds"@, both, (t.latency)(o)))
            &&& shows(text, histogram_text("granary_rehydrate_seconds"@, label, t.rehydrate))
        }),
{
    let m = metrics@;
    let names = sorted_keys::<String, TypeModel>(m);
    law_types_are_shown_in_order(metrics);
    assert(names.to_set().contains(name));
    let i = names.index_of(name);
    let t = m[name];
    let f1 = |n: Seq<char>| commit_histograms(n, m[n]);
    let f2 = |n: Seq<char>| commit_totals(n, m[n]);
    let f3 = |n: Seq<char>| rehydrate_histogram(n, m[n]);
    let f4 = |n: Seq<char>| type_line("granary_records_replayed_total"@, n, m[n].replayed);
    let f5 = |n: Seq<char>| type_line("granary_active_grains"@, n, m[n].active);
    let p1 = commit_histogram(name, t, o);
    let p2 = commit_total(name, t, o);
    let p3 = rehydrate_histogram(name, t);
    let p4 = type_line("granary_records_replayed_total"@, name, t.replayed);
    let p5 = type_line("granary_active_grains"@, name, t.active);
    let (a, b, c) = (CommitOutcome::Committed, CommitOutcome::NotLeader, CommitOutcome::Unavailable);
    lemma_shows_in(commit_histogram(name, t, a), commit_histogram(name, t, b), p1);
    lemma_shows_in(
        commit_histogram(name, t, a) + commit_histogram(name, t, b),
        commit_histogram(name, t, c),
        p1,
    );
    lemma_shows_in(commit_total(name, t, a), commit_total(name, t, b), p2);
    lemma_shows_in(
        commit_total(name, t, a) + commit_total(name, t, b),
        commit_total(name, t, c),
        p2,
    );
    lemma_shows_in(p1, p1, p1);
    lemma_shows_in(p2, p2, p2);
    lemma_shows_in(p3, p3, p3);
    lemma_shows_in(p4, p4, p4);
    lemma_shows_in(p5, p5, p5);
    lemma_for_each_shows(names, f1, i, p1);
    lemma_for_each_shows(names, f2, i, p2);
    lemma_for_each_shows(names, f3, i, p3);
    lemma_for_each_shows(names, f4, i, p4);
    lemma_for_each_shows(names, f5, i, p5);
    let t1 = commit_seconds_head() + for_each(names, f1);
    let t2 = t1 + commits_total_head();
    let t3 = t2 + for_each(names, f2);
    let t4 = t3 + rehydrate_seconds_head();
    let t5 = t4 + for_each(names, f3);
    let t6 = t5 + replayed_head();
    let t7 = t6 + for_each(names, f4);
    let t8 = t7 + active_head();
    assert(exposition(m) == t8 + for_each(names, f5));
    lemma_shows_in(commit_seconds_head(), for_each(names, f1), p1);
    lemma_shows_on(t1, commits_total_head(), for_each(names, f2), p1);
    lemma_shows_on(t3, rehydrate_seconds_head(), for_each(names, f3), p1);
    lemma_shows_on(t5, replayed_head(), for_each(names, f4), p1);
    lemma_shows_on(t7, active_head(), for_each(names, f5), p1);
    lemma_shows_in(t2, for_each(names, f2), p2);
    lemma_shows_on(t3, rehydrate_seconds_head(), for_each(names, f3), p2);
    lemma_shows_on(t5, replayed_head(), for_each(names, f4), p2);
    lemma_shows_on(t7, active_head(), for_each(names, f5), p2);
    lemma_shows_in(t4, for_each(names, f3), p3);
    lemma_shows_on(t5, replayed_head(), for_each(names, f4), p3);
    lemma_shows_on(t7, active_head(), for_each(names, f5), p3);
    lemma_shows_in(t6, for_each(names, f4), p4);
    lemma_shows_on(t7, active_head(), for_each(names, f5), p4);
    lemma_shows_in(t8, for_each(names, f5), p5);
}

proof fn lemma_shows_on(a: Seq<char>, b: Seq<char>, c: Seq<char>, part: Seq<char>)
    requires
        shows(a, part),
    ensures
        shows(a + b + c, part),
{
    lemma_shows_in(a, b, part);
    lemma_shows_in(a + b, c, part);
}

/// A histogram's text: a line for each bucket with the count up to its bound, then the sum
/// in seconds, then the count.
pub proof fn law_a_histogram_is_shown_whole(
    metric: Seq<char>,
    labels: Seq<char>,
    h: HistogramModel,
    i: int,
)
    requires
        0 <= i < 11,
    ensures
        shows(
            histogram_text(metric, labels, h),
            metric + "_bucket{"@ + labels + ",le=\""@ + bound_label(bucket_bound(i)) + "\"} "@
                + decimal(cumulative(h.buckets, i + 1) as nat) + "\n"@,
        ),
        shows(
            histogram_text(metric, labels, h),
            metric + "_sum{"@ + labels + "} "@ + seconds(h.sum_us) + "\n"@ + metric + "_count{"@
                + labels + "} "@ + decimal(h.count as nat) + "\n"@,
        ),
{
    let line = bucket_line(metric, labels, bucket_bound(i), cumulative(h.buckets, i + 1));
    let all = bucket_lines(metric, labels, h.buckets, 11);
    let totals = total_lines(metric, labels, h.sum_us, h.count);
    lemma_bucket_shown(metric, labels, h.buckets, 11, i);
    lemma_shows_in(all, totals, line);
    lemma_shows_in(all, totals, totals);
    lemma_shows_in(totals, totals, totals);
}

proof fn lemma_bucket_shown(
    metric: Seq<char>,
    labels: Seq<char>,
    buckets: Seq<u64>,
    n: int,
    i: int,
)
    requires
        0 <= i < n,
    ensures
        shows(
            bucket_lines(metric, labels, buckets, n),
            bucket_line(metric, labels, bucket_bound(i), cumulative(buckets, i + 1)),
        ),
    decreases n,
{
    let line = bucket_line(metric, labels, bucket_bound(i), cumulative(buckets, i + 1));
    let last = bucket_line(metric, labels, bucket_bound(n - 1), cumulative(buckets, n));
    lemma_shows_in(bucket_lines(metric, labels, buckets, n - 1), last, line);
    lemma_shows_in(line, line, line);
    if i < n - 1 {
        lemma_bucket_shown(metric, labels, buckets, n - 1, i);
    }
}

/// A report is entered under the type it is about, on top of what was measured before, and
/// a type that was never measured starts from nothing.
pub proof fn law_a_type_starts_from_nothing(
    m: Map<Seq<char>, TypeModel>,
    name: Seq<char>,
    o: CommitOutcome,
)
    ensures
        m.contains_key(name) ==> measured(m, name) == m[name],
        !m.contains_key(name) ==> {
            let t = measured(m, name);
            &&& (t.commits)(o) == 0
            &&& (t.latency)(o).count == 0
            &&& t.rehydrate.count == 0
            &&& t.replayed == 0
            &&& t.active == 0
        },
{
}

/// The exposition says of each metric what it is, before its lines.
pub proof fn law_every_metric_is_introduced(m: Map<Seq<char>, TypeModel>)
    ensures
        shows(
            exposition(m),
            "# HELP granary_commit_seconds Time a grain command waited for its append to commit.\n# TYPE granary_commit_seconds histogram\n"@,
        ),
        shows(
            exposition(m),
            "# HELP granary_commits_total Grain command durability rounds by outcome.\n# TYPE granary_commits_total counter\n"@,
        ),
        shows(
            exposition(m),
            "# HELP granary_rehydrate_seconds Time an activation spent recovering and replaying.\n# TYPE granary_rehydrate_seconds histogram\n"@,
        ),
        shows(
            exposition(m),
            "# HELP granary_records_replayed_total Records folded on activation.\n# TYPE granary_records_replayed_total counter\n"@,
        ),
        shows(
            exposition(m),
            "# HELP granary_active_grains Grains currently activated on this node.\n# TYPE granary_active_grains gauge\n"@,
        ),
{
    let names = sorted_keys::<String, TypeModel>(m);
    let x1 = for_each(names, |n: Seq<char>| commit_histograms(n, m[n]));
    let x2 = for_each(names, |n: Seq<char>| commit_totals(n, m[n]));
    let x3 = for_each(names, |n: Seq<char>| rehydrate_histogram(n, m[n]));
    let x4 = for_each(
        names,
        |n: Seq<char>| type_line("granary_records_replayed_total"@, n, m[n].replayed),
    );
    let x5 = for_each(names, |n: Seq<char>| type_line("granary_active_grains"@, n, m[n].active));
    let (h1, h2, h3, h4, h5) = (
        commit_seconds_head(),
        commits_total_head(),
        rehydrate_seconds_head(),
        replayed_head(),
        active_head(),
    );
    let t1 = h1 + x1;
    let t3 = t1 + h2 + x2;
    let t5 = t3 + h3 + x3;
    let t7 = t5 + h4 + x4;
    assert(exposition(m) == t7 + h5 + x5);
    lemma_shows_in(h1, x1, h1);
    lemma_shows_in(h1, h1, h1);
    lemma_shows_on(t1, h2, x2, h1);
    lemma_shows_on(t3, h3, x3, h1);
    lemma_shows_on(t5, h4, x4, h1);
    lemma_shows_on(t7, h5, x5, h1);
    lemma_shows_head(t1, h2, x2);
    lemma_shows_on(t3, h3, x3, h2);
    lemma_shows_on(t5, h4, x4, h2);
    lemma_shows_on(t7, h5, x5, h2);
    lemma_shows_head(t3, h3, x3);
    lemma_shows_on(t5, h4, x4, h3);
    lemma_shows_on(t7, h5, x5, h3);
    lemma_shows_head(t5, h4, x4);
    lemma_shows_on(t7, h5, x5, h4);
    lemma_shows_head(t7, h5, x5);
}

proof fn lemma_shows_head(a: Seq<char>, head: Seq<char>, c: Seq<char>)
    ensures
        shows(a + head + c, head),
{
    lemma_shows_in(head, head, head);
    lemma_shows_in(a, head, head);
    lemma_shows_in(a + head, c, head);
}

/// The buckets' bounds, in microseconds, from a tenth of a millisecond to two seconds; the
/// last has none.
pub proof fn law_buckets_have_their_bounds()
    ensures
        bucket_bound(0) == 100,
        bucket_bound(1) == 500,
        bucket_bound(2) == 1_000,
        bucket_bound(3) == 5_000,
        bucket_bound(4) == 10_000,
        bucket_bound(5) == 50_000,
        bucket_bound(6) == 100_000,
        bucket_bound(7) == 500_000,
        bucket_bound(8) == 1_000_000,
        bucket_bound(9) == 2_000_000,
        bucket_bound(10) == u64::MAX,
{
}

/// A duration counts as it is, as far as a counter can hold it.
pub proof fn law_durations_count_as_they_are(us: u128)
    ensures
        us <= u64::MAX ==> capped(us) == us,
        us > u64::MAX ==> capped(us) == u64::MAX,
{
}

} // verus!
