//! Commit metrics and their text form.
use granary::metrics::AtomicGrainMetrics;
use granary::metrics::CommitOutcome;
use granary::metrics::GrainMetrics;

#[test]
fn commits_are_counted_and_bucketed_by_outcome() {
    let mut m = AtomicGrainMetrics::new();
    m.commit("test.Grain", CommitOutcome::Committed, 400);
    m.commit("test.Grain", CommitOutcome::Committed, 3_000);
    m.commit("test.Grain", CommitOutcome::Unavailable, 2_000_000);
    let text = m.render();
    assert!(text
        .contains("granary_commits_total{grain_type=\"test.Grain\",outcome=\"committed\"} 2"));
    assert!(
        text.contains("granary_commits_total{grain_type=\"test.Grain\",outcome=\"unavailable\"} 1"),
        "a failed commit is counted separately, not averaged into the good ones"
    );
    // Cumulative: the 500us bucket holds the 400us sample, the 5ms bucket both.
    assert!(text.contains("outcome=\"committed\",le=\"0.000500\"} 1"));
    assert!(text.contains("outcome=\"committed\",le=\"0.005000\"} 2"));
}

/// The number at the end of the line that starts so.
fn shown(text: &str, start: &str) -> String {
    let line = text.lines().find(|l| l.starts_with(start)).expect("such a line");
    line[start.len()..].trim_start_matches("} ").to_string()
}

#[test]
fn the_text_adds_up_and_has_its_lines() {
    let mut m = AtomicGrainMetrics::new();
    assert_eq!(m.render().lines().count(), 10);
    for us in [1, 700, 3_000, 40_000, 9_000_000] {
        m.commit("b.Grain", CommitOutcome::Committed, us);
    }
    m.rehydrated("b.Grain", 12_000, 3);
    m.commit("a.Grain", CommitOutcome::NotLeader, 80);
    let text = m.render();
    assert_eq!(text.lines().count(), 10 + 2 * 57);
    assert_eq!(text.lines().filter(|l| l.starts_with("# HELP ")).count(), 5);
    assert_eq!(text.lines().filter(|l| l.starts_with("# TYPE ")).count(), 5);
    let labels = "grain_type=\"b.Grain\",outcome=\"committed\"";
    assert_eq!(shown(&text, &format!("granary_commit_seconds_bucket{{{labels},le=\"+Inf\"")), "5");
    assert_eq!(shown(&text, &format!("granary_commit_seconds_count{{{labels}")), "5");
    assert_eq!(shown(&text, &format!("granary_commits_total{{{labels}")), "5");
    // The counts of the buckets never fall.
    let start = format!("granary_commit_seconds_bucket{{{labels},le=");
    let counts: Vec<u64> = text
        .lines()
        .filter(|l| l.starts_with(&start))
        .map(|l| l.rsplit(' ').next().unwrap().parse().unwrap())
        .collect();
    assert_eq!(counts.len(), 11);
    assert!(counts.windows(2).all(|w| w[0] <= w[1]), "{counts:?}");
    // The types come in the order of their names, and rendering changes nothing.
    assert!(text.find("a.Grain").unwrap() < text.find("b.Grain").unwrap());
    assert_eq!(m.render(), text);
}

#[test]
fn the_active_gauge_tracks_activations_and_never_wraps() {
    let mut m = AtomicGrainMetrics::new();
    m.activation_delta("test.Grain", 1);
    m.activation_delta("test.Grain", 1);
    m.activation_delta("test.Grain", -1);
    assert!(m.render().contains("granary_active_grains{grain_type=\"test.Grain\"} 1"));
    // An unmatched passivation must not underflow into a gauge reading 1.8e19.
    m.activation_delta("test.Grain", -5);
    assert!(m.render().contains("granary_active_grains{grain_type=\"test.Grain\"} 0"));
}

#[test]
fn the_no_op_sink_costs_nothing_and_compiles_as_a_sink() {
    let mut sink = ();
    sink.commit("t", CommitOutcome::Committed, 1_000_000);
    sink.rehydrated("t", 1_000_000, 5);
    sink.activation_delta("t", 1);
}

#[test]
fn a_sum_is_rendered_in_seconds() {
    let mut m = AtomicGrainMetrics::new();
    m.commit("t", CommitOutcome::NotLeader, 1_500_000);
    m.commit("t", CommitOutcome::NotLeader, 7);
    m.rehydrated("t", 20_000_000, 12);
    let text = m.render();
    assert!(text.contains("_sum{grain_type=\"t\",outcome=\"not_leader\"} 1.500007"), "{text}");
    assert!(text.contains("_count{grain_type=\"t\",outcome=\"not_leader\"} 2"), "{text}");
    assert!(text.contains("le=\"+Inf\"} 1"), "{text}");
}
