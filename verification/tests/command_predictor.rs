use ergodic_transport::MarkovChain;
use terminal_forecast_harness::ranking::ranking;
use terminal_forecast_harness::smoothing::smoothed;
use terminal_forecast_harness::{
    ChainNumber, CommandPredictor, GhostCompleter, Number, Prediction, PredictionResult, Snapshot,
    MAX_STATES,
};

/// A double.
#[derive(Debug, Clone, Copy, PartialEq, PartialOrd)]
struct Float(f64);

impl Number for Float {
    fn from_u64(value: u64) -> Self {
        Float(value as f64)
    }

    fn plus(self, other: Self) -> Self {
        Float(self.0 + other.0)
    }

    fn minus(self, other: Self) -> Self {
        Float(self.0 - other.0)
    }

    fn times(self, other: Self) -> Self {
        Float(self.0 * other.0)
    }

    fn over(self, other: Self) -> Self {
        Float(self.0 / other.0)
    }

    fn root(self) -> Self {
        Float(self.0.sqrt())
    }

    fn log(self) -> Self {
        Float(self.0.ln())
    }

    fn magnitude(self) -> Self {
        Float(self.0.abs())
    }

    fn reaches(self, other: Self) -> bool {
        self.0 >= other.0
    }

    fn exceeds(self, other: Self) -> bool {
        self.0 > other.0
    }

    fn to_u64(self) -> u64 {
        self.0 as u64
    }

    fn text(self, decimals: usize) -> String {
        format!("{:.*}", decimals, self.0)
    }
}

impl ChainNumber for Float {
    fn chain_of(n: usize, flat: &Vec<Self>) -> MarkovChain {
        let plain: Vec<f64> = flat.iter().map(|x| x.0).collect();
        MarkovChain::from_flat(n, &plain)
    }

    fn stationary_of(chain: &MarkovChain) -> Option<Vec<Self>> {
        chain.stationary_distribution().map(|pi| pi.into_iter().map(Float).collect())
    }

    fn mixing_time_of(chain: &MarkovChain, epsilon: Self, max_steps: usize) -> Option<usize> {
        chain.mixing_time(epsilon.0, max_steps)
    }
}

type Parts = (Vec<(String, usize)>, Vec<String>, Vec<u64>, u64);

fn to_json(p: &CommandPredictor) -> String {
    let s = p.snapshot();
    let parts: Parts = (s.command_to_idx, s.idx_to_command, s.raw_counts, s.total_transitions);
    serde_json::to_string(&parts).unwrap()
}

fn from_json(json: &str) -> CommandPredictor {
    let parts: Parts = serde_json::from_str(json).unwrap();
    CommandPredictor::from_snapshot(Snapshot {
        command_to_idx: parts.0,
        idx_to_command: parts.1,
        raw_counts: parts.2,
        total_transitions: parts.3,
    })
}

fn make_predictor() -> CommandPredictor {
    let mut p = CommandPredictor::new();
    p.record_sequence(&[
        "cargo build",
        "cargo test",
        "cargo build",
        "cargo run",
        "cargo build",
        "cargo test",
        "cargo build",
        "cargo test",
        "cargo build",
        "cargo clippy",
        "cargo build",
        "cargo test",
    ]);
    p
}

// ------------------------------------------------------------------
// Construction & basic properties
// ------------------------------------------------------------------

#[test]
fn command_predictor_test_new_is_empty() {
    let p = CommandPredictor::new();
    assert_eq!(p.num_commands(), 0);
    assert_eq!(p.total_transitions(), 0);
}

#[test]
fn test_record_sequence_increases_state_count() {
    let mut p = CommandPredictor::new();
    p.record_sequence(&["a", "b", "c"]);
    assert_eq!(p.num_commands(), 3);
}

#[test]
fn test_record_sequence_transition_count() {
    let mut p = CommandPredictor::new();
    p.record_sequence(&["a", "b", "c", "a"]);
    // transitions: a→b, b→c, c→a = 3
    assert_eq!(p.total_transitions(), 3);
}

#[test]
fn test_empty_sequence_is_noop() {
    let mut p = CommandPredictor::new();
    p.record_sequence(&[]);
    assert_eq!(p.num_commands(), 0);
    assert_eq!(p.total_transitions(), 0);
}

#[test]
fn test_single_command_sequence_no_transitions() {
    let mut p = CommandPredictor::new();
    p.record_sequence(&["lonely"]);
    assert_eq!(p.num_commands(), 1);
    assert_eq!(p.total_transitions(), 0);
}

#[test]
fn test_repeated_command_is_same_state() {
    let mut p = CommandPredictor::new();
    p.record_sequence(&["ls", "ls", "ls", "ls"]);
    assert_eq!(p.num_commands(), 1);
    assert_eq!(p.total_transitions(), 3);
}

#[test]
fn test_record_single_transition() {
    let mut p = CommandPredictor::new();
    p.record(Some("git status"), "git add");
    assert_eq!(p.num_commands(), 2);
    assert_eq!(p.total_transitions(), 1);
}

#[test]
fn test_record_without_prev_only_registers() {
    let mut p = CommandPredictor::new();
    p.record(None, "only");
    assert_eq!(p.num_commands(), 1);
    assert_eq!(p.total_transitions(), 0);
}

// ------------------------------------------------------------------
// Transition counts
// ------------------------------------------------------------------

#[test]
fn test_transition_count_known() {
    let p = make_predictor();
    assert!(p.transition_count("cargo build", "cargo test") >= 3);
}

#[test]
fn test_transition_count_unknown_from() {
    let p = make_predictor();
    assert_eq!(p.transition_count("nonexistent", "cargo build"), 0);
}

#[test]
fn test_transition_count_unknown_to() {
    let p = make_predictor();
    assert_eq!(p.transition_count("cargo build", "nonexistent"), 0);
}

#[test]
fn test_transition_count_self_loop() {
    let mut p = CommandPredictor::new();
    p.record_sequence(&["x", "x", "x", "x"]);
    assert_eq!(p.transition_count("x", "x"), 3);
}

// ------------------------------------------------------------------
// Commands index lookup
// ------------------------------------------------------------------

#[test]
fn test_index_of_known() {
    let mut p = CommandPredictor::new();
    p.record_sequence(&["a", "b"]);
    assert_eq!(p.index_of("a"), Some(0));
    assert_eq!(p.index_of("b"), Some(1));
}

#[test]
fn test_index_of_unknown() {
    let p = CommandPredictor::new();
    assert_eq!(p.index_of("anything"), None);
}

#[test]
fn command_predictor_test_commands_list() {
    let mut p = CommandPredictor::new();
    p.record_sequence(&["z", "y", "x"]);
    let cmds = p.commands();
    assert_eq!(cmds.len(), 3);
    assert_eq!(cmds[0], "z");
    assert_eq!(cmds[2], "x");
}

// ------------------------------------------------------------------
// Prediction
// ------------------------------------------------------------------

#[test]
fn test_predict_top1() {
    let mut p = make_predictor();
    let r = p.predict_top_k::<Float>("cargo build", 1).unwrap();
    assert_eq!(r.predictions.len(), 1);
    // "cargo test" is the most common follow-up
    assert_eq!(r.predictions[0].command, "cargo test");
}

#[test]
fn test_predict_top3_respects_k() {
    let mut p = make_predictor();
    let r = p.predict_top_k::<Float>("cargo build", 3).unwrap();
    assert_eq!(r.predictions.len(), 3);
}

#[test]
fn test_predict_orders_by_confidence() {
    let mut p = make_predictor();
    let r = p.predict_top_k::<Float>("cargo build", 5).unwrap();
    for w in r.predictions.windows(2) {
        assert!(
            w[0].confidence.0 >= w[1].confidence.0,
            "predictions should be sorted descending"
        );
    }
}

#[test]
fn test_predict_unknown_command_returns_none() {
    let mut p = make_predictor();
    assert!(p.predict_top_k::<Float>("not_a_command", 3).is_none());
}

#[test]
fn test_predict_confidence_in_range() {
    let mut p = CommandPredictor::new();
    for _ in 0..100 {
        p.record_sequence(&["x", "y"]);
    }
    let r = p.predict_top_k::<Float>("x", 1).unwrap();
    assert!(r.predictions[0].confidence.0 > 0.0);
    assert!(r.predictions[0].confidence.0 <= 1.0);
}

#[test]
fn test_predict_with_k_larger_than_states() {
    let mut p = make_predictor();
    // Request more predictions than states — should return all states
    let r = p.predict_top_k::<Float>("cargo build", 100).unwrap();
    assert_eq!(r.predictions.len(), p.num_commands());
}

#[test]
fn test_predict_deterministic_transition() {
    let mut p = CommandPredictor::new();
    // A always goes to B
    for _ in 0..1000 {
        p.record(Some("A"), "B");
    }
    let r = p.predict_top_k::<Float>("A", 1).unwrap();
    assert_eq!(r.predictions[0].command, "B");
    assert!(r.predictions[0].confidence.0 > 0.99);
}

// ------------------------------------------------------------------
// PredictionResult formatting
// ------------------------------------------------------------------

#[test]
fn test_ghost_text_format() {
    let mut p = make_predictor();
    let r = p.predict_top_k::<Float>("cargo build", 2).unwrap();
    let ghost = r.ghost_text();
    assert!(ghost.starts_with("cargo test"));
    assert!(ghost.contains("  "));
}

#[test]
fn test_detailed_format() {
    let mut p = make_predictor();
    let r = p.predict_top_k::<Float>("cargo build", 3).unwrap();
    let detailed = r.detailed();
    assert!(detailed.starts_with("After `cargo build`:"));
    assert!(detailed.contains("cargo test"));
    assert!(detailed.contains("%"));
}

#[test]
fn command_predictor_test_prediction_display_format() {
    let pred = Prediction {
        command: "cargo test".to_string(),
        confidence: Float(0.734),
    };
    let out = pred.to_text();
    assert!(out.contains("cargo test"));
    assert!(out.contains("73.4%"));
}

// ------------------------------------------------------------------
// GhostCompleter
// ------------------------------------------------------------------

#[test]
fn test_ghost_completer_returns_most_likely() {
    let mut p = make_predictor();
    let result = GhostCompleter::complete::<Float>(&mut p, "cargo build");
    assert_eq!(result, Some("cargo test".to_string()));
}

#[test]
fn test_ghost_completer_unknown_returns_none() {
    let mut p = make_predictor();
    let result = GhostCompleter::complete::<Float>(&mut p, "nope");
    assert_eq!(result, None);
}

#[test]
fn test_ghost_completer_empty_model_returns_none() {
    let mut p = CommandPredictor::new();
    let result = GhostCompleter::complete::<Float>(&mut p, "anything");
    assert_eq!(result, None);
}

// ------------------------------------------------------------------
// Stationary distribution
// ------------------------------------------------------------------

#[test]
fn test_stationary_distribution_deterministic_cycle() {
    let mut p = CommandPredictor::new();
    for _ in 0..100 {
        p.record_sequence(&["A", "B", "C", "A"]);
    }
    let pi = p.stationary_distribution::<Float>().unwrap();
    assert_eq!(pi.len(), 3);
    for prob in &pi {
        assert!((prob.0 - 1.0 / 3.0).abs() < 0.02);
    }
}

#[test]
fn test_stationary_distribution_absorbing() {
    let mut p = CommandPredictor::new();
    // A → A always (absorbing), B → A
    for _ in 0..50 {
        p.record(Some("A"), "A");
        p.record(Some("B"), "A");
    }
    let pi = p.stationary_distribution::<Float>().unwrap();
    let a_idx = p.index_of("A").unwrap();
    assert!(pi[a_idx].0 > 0.9, "A should dominate: got {}", pi[a_idx].0);
}

#[test]
fn test_stationary_distribution_empty() {
    let mut p = CommandPredictor::new();
    assert!(p.stationary_distribution::<Float>().is_none());
}

#[test]
fn test_stationary_prob_known() {
    let mut p = make_predictor();
    let prob = p.stationary_prob::<Float>("cargo build").0;
    assert!(prob > 0.0);
}

#[test]
fn test_stationary_prob_unknown() {
    let mut p = make_predictor();
    assert_eq!(p.stationary_prob::<Float>("nope").0, 0.0);
}

// ------------------------------------------------------------------
// Mixing time & ergodicity
// ------------------------------------------------------------------

#[test]
fn test_mixing_time_returns_some() {
    let mut p = CommandPredictor::new();
    for _ in 0..100 {
        p.record_sequence(&["A", "B", "A"]);
    }
    let mt = p.mixing_time(Float(0.01));
    assert!(mt.is_some());
}

#[test]
fn test_mixing_time_empty_returns_none() {
    let mut p = CommandPredictor::new();
    assert!(p.mixing_time(Float(0.01)).is_none());
}

#[test]
fn test_is_ergodic_with_cycle() {
    let mut p = CommandPredictor::new();
    for _ in 0..100 {
        p.record_sequence(&["A", "B", "A"]);
    }
    let (ok, _) = p.is_ergodic::<Float>().unwrap();
    assert!(ok);
}

#[test]
fn test_is_ergodic_empty() {
    let mut p = CommandPredictor::new();
    let (ok, _) = p.is_ergodic::<Float>().unwrap();
    assert!(!ok);
}

// ------------------------------------------------------------------
// Serialization
// ------------------------------------------------------------------

#[test]
fn command_predictor_test_serialization_roundtrip() {
    let mut p = CommandPredictor::new();
    p.record_sequence(&["cargo build", "cargo test", "cargo run"]);
    let json = to_json(&p);
    let restored = from_json(&json);
    assert_eq!(restored.num_commands(), p.num_commands());
    assert_eq!(restored.total_transitions(), p.total_transitions());
    assert_eq!(
        restored.transition_count("cargo build", "cargo test"),
        1
    );
}

#[test]
fn test_serialization_empty_model() {
    let p = CommandPredictor::new();
    let json = to_json(&p);
    let restored = from_json(&json);
    assert_eq!(restored.num_commands(), 0);
    assert_eq!(restored.total_transitions(), 0);
}

#[test]
fn command_predictor_test_serialization_restores_predictions() {
    let mut p = CommandPredictor::new();
    p.record_sequence(&["a", "b", "a", "c"]);
    let json = to_json(&p);
    let mut restored = from_json(&json);
    let r = restored.predict_top_k::<Float>("a", 2).unwrap();
    assert_eq!(r.predictions[0].command, "b");
}

// ------------------------------------------------------------------
// Metadata in prediction result
// ------------------------------------------------------------------

#[test]
fn test_predict_result_metadata() {
    let mut p = make_predictor();
    let r = p.predict_top_k::<Float>("cargo build", 3).unwrap();
    assert!(r.num_states > 0);
    assert!(r.total_transitions > 0);
}

// ------------------------------------------------------------------
// Default impl
// ------------------------------------------------------------------

#[test]
fn test_command_predictor_default() {
    let p = CommandPredictor::default();
    assert_eq!(p.num_commands(), 0);
}

// ------------------------------------------------------------------
// State indices
// ------------------------------------------------------------------

/// A predictor that knows as many commands as there are states.
fn full_predictor() -> CommandPredictor {
    let mut p = CommandPredictor::new();
    for i in 0..MAX_STATES {
        p.record(None, &format!("c{}", i));
    }
    p
}

fn empty_snapshot() -> Snapshot {
    Snapshot {
        command_to_idx: Vec::new(),
        idx_to_command: Vec::new(),
        raw_counts: Vec::new(),
        total_transitions: 0,
    }
}

#[test]
fn states_are_bounded_as_in_the_chain() {
    assert_eq!(MAX_STATES, ergodic_transport::MAX_STATES);
}

#[test]
fn record_indexes_next_before_prev() {
    let mut p = CommandPredictor::new();
    p.record(Some("first"), "second");
    assert_eq!(p.commands(), &["second".to_string(), "first".to_string()]);
    assert_eq!(p.index_of("second"), Some(0));
    assert_eq!(p.index_of("first"), Some(1));
    assert_eq!(p.transition_count("first", "second"), 1);
    assert_eq!(p.transition_count("second", "first"), 0);
}

#[test]
fn record_of_a_command_after_itself() {
    let mut p = CommandPredictor::new();
    assert!(p.can_record(Some("ls"), "ls"));
    p.record(Some("ls"), "ls");
    assert_eq!(p.num_commands(), 1);
    assert_eq!(p.transition_count("ls", "ls"), 1);
}

#[test]
fn full_predictor_drops_unknown_commands() {
    let mut p = full_predictor();
    assert_eq!(p.num_commands(), 64);
    assert!(p.can_record(Some("c0"), "new"));
    p.record(Some("c0"), "new");
    assert!(p.can_record(Some("new"), "c0"));
    p.record(Some("new"), "c0");
    p.record(None, "new");
    assert_eq!(p.num_commands(), 64);
    assert_eq!(p.total_transitions(), 0);
    assert_eq!(p.index_of("new"), None);
    p.record(Some("c62"), "c63");
    assert_eq!(p.transition_count("c62", "c63"), 1);
    assert_eq!(p.total_transitions(), 1);
}

#[test]
fn full_predictor_takes_next_and_drops_prev() {
    let mut p = CommandPredictor::new();
    for i in 0..63 {
        p.record(None, &format!("c{}", i));
    }
    p.record(Some("prev"), "next");
    assert_eq!(p.index_of("next"), Some(63));
    assert_eq!(p.index_of("prev"), None);
    assert_eq!(p.total_transitions(), 0);
}

#[test]
fn full_predictor_and_sequences() {
    let mut p = full_predictor();
    assert!(p.can_record_sequence(&[]));
    assert!(p.can_record_sequence(&["new"]));
    p.record_sequence(&["new"]);
    assert_eq!(p.num_commands(), 64);
    assert!(!p.can_record_sequence(&["c0", "new"]));
    assert!(!p.can_record_sequence(&["new", "c0"]));
    assert!(p.can_record_sequence(&["c0", "c1", "c0"]));
    p.record_sequence(&["c0", "c1", "c0"]);
    assert_eq!(p.total_transitions(), 2);
}

#[test]
fn sequence_indexes_in_order_and_counts_each_step() {
    let mut p = CommandPredictor::new();
    p.record_sequence(&["a", "b", "a", "b", "b"]);
    assert_eq!(p.commands(), &["a".to_string(), "b".to_string()]);
    assert_eq!(p.transition_count("a", "b"), 2);
    assert_eq!(p.transition_count("b", "a"), 1);
    assert_eq!(p.transition_count("b", "b"), 1);
    assert_eq!(p.transition_count("a", "a"), 0);
    assert_eq!(p.total_transitions(), 4);
}

#[test]
fn sequence_counts_what_its_transitions_count() {
    let mut at_once = CommandPredictor::new();
    at_once.record_sequence(&["a", "b", "c", "a"]);
    let mut one_by_one = CommandPredictor::new();
    one_by_one.record(None, "a");
    one_by_one.record(Some("a"), "b");
    one_by_one.record(Some("b"), "c");
    one_by_one.record(Some("c"), "a");
    for from in ["a", "b", "c"] {
        assert_eq!(at_once.index_of(from), one_by_one.index_of(from));
        for to in ["a", "b", "c"] {
            assert_eq!(at_once.transition_count(from, to), one_by_one.transition_count(from, to));
        }
    }
}

#[test]
fn index_and_names_invert_each_other() {
    let p = make_predictor();
    for (i, name) in p.commands().iter().enumerate() {
        assert_eq!(p.index_of(name), Some(i));
    }
}

#[test]
fn counts_sum_up_to_the_total() {
    let p = make_predictor();
    let mut sum = 0;
    for from in p.commands() {
        for to in p.commands() {
            sum += p.transition_count(from, to);
        }
    }
    assert_eq!(sum, p.total_transitions());
    assert_eq!(sum, p.snapshot().raw_counts.iter().sum::<u64>());
}

// ------------------------------------------------------------------
// Limits of the counts
// ------------------------------------------------------------------

#[test]
fn counts_at_their_maximum() {
    let p = CommandPredictor::from_snapshot(Snapshot {
        command_to_idx: vec![("a".to_string(), 0), ("b".to_string(), 1)],
        idx_to_command: vec!["a".to_string(), "b".to_string()],
        raw_counts: vec![0, u64::MAX - 1],
        total_transitions: 5,
    });
    assert_eq!(p.transition_count("a", "b"), u64::MAX - 1);
    assert!(p.can_record(Some("a"), "b"));
    assert!(p.can_record_sequence(&["a", "b"]));
    assert!(!p.can_record_sequence(&["a", "b", "a", "b"]));
    let mut q = p.clone();
    q.record(Some("a"), "b");
    assert_eq!(q.transition_count("a", "b"), u64::MAX);
    assert!(!q.can_record(Some("a"), "b"));
    assert!(q.can_record(Some("b"), "a"));
    assert!(q.can_record(None, "a"));
}

#[test]
fn total_at_its_maximum() {
    let p = CommandPredictor::from_snapshot(Snapshot {
        total_transitions: u64::MAX,
        ..empty_snapshot()
    });
    assert!(!p.can_record(Some("a"), "b"));
    assert!(!p.can_record_sequence(&["a", "b"]));
    assert!(p.can_record(None, "b"));
    assert!(p.can_record_sequence(&["a"]));
}

#[test]
fn index_without_a_cell_cannot_be_counted() {
    let p = CommandPredictor::from_snapshot(Snapshot {
        command_to_idx: vec![("far".to_string(), 64), ("out".to_string(), usize::MAX)],
        ..empty_snapshot()
    });
    assert_eq!(p.index_of("far"), Some(64));
    assert!(!p.can_record(Some("far"), "far"));
    assert!(!p.can_record(Some("out"), "far"));
    assert!(!p.can_record_sequence(&["far", "out"]));
}

// ------------------------------------------------------------------
// Snapshots
// ------------------------------------------------------------------

#[test]
fn snapshot_holds_the_whole_table() {
    let mut p = CommandPredictor::new();
    p.record_sequence(&["a", "b", "b"]);
    let s = p.snapshot();
    assert_eq!(s.command_to_idx, vec![("a".to_string(), 0), ("b".to_string(), 1)]);
    assert_eq!(s.idx_to_command, vec!["a".to_string(), "b".to_string()]);
    assert_eq!(s.raw_counts.len(), 4096);
    assert_eq!(s.raw_counts[1], 1);
    assert_eq!(s.raw_counts[65], 1);
    assert_eq!(s.raw_counts.iter().sum::<u64>(), 2);
    assert_eq!(s.total_transitions, 2);
}

#[test]
fn snapshot_restores_what_was_known() {
    let p = make_predictor();
    let q = CommandPredictor::from_snapshot(p.snapshot());
    assert_eq!(p.commands(), q.commands());
    assert_eq!(p.total_transitions(), q.total_transitions());
    assert_eq!(p.snapshot().raw_counts, q.snapshot().raw_counts);
    assert_eq!(p.snapshot().command_to_idx, q.snapshot().command_to_idx);
    assert_eq!(q.chain().tm.n, 0);
}

#[test]
fn short_and_long_count_tables() {
    let short = CommandPredictor::from_snapshot(Snapshot {
        raw_counts: vec![7, 8],
        ..empty_snapshot()
    });
    let table = short.snapshot().raw_counts;
    assert_eq!(table.len(), 4096);
    assert_eq!(&table[..3], &[7, 8, 0]);
    assert_eq!(table[4095], 0);
    let long = CommandPredictor::from_snapshot(Snapshot {
        raw_counts: vec![3; 5000],
        ..empty_snapshot()
    });
    let table = long.snapshot().raw_counts;
    assert_eq!(table.len(), 4096);
    assert_eq!(table[4095], 3);
}

#[test]
fn later_index_of_a_command_counts() {
    let p = CommandPredictor::from_snapshot(Snapshot {
        command_to_idx: vec![("a".to_string(), 4), ("a".to_string(), 2)],
        ..empty_snapshot()
    });
    assert_eq!(p.index_of("a"), Some(2));
    assert_eq!(p.snapshot().command_to_idx, vec![("a".to_string(), 2)]);
}

#[test]
fn index_that_no_state_has_predicts_nothing_likely() {
    let mut p = CommandPredictor::from_snapshot(Snapshot {
        command_to_idx: vec![("a".to_string(), 0), ("b".to_string(), 1), ("z".to_string(), 9)],
        idx_to_command: vec!["a".to_string(), "b".to_string()],
        raw_counts: vec![0, 1],
        total_transitions: 1,
    });
    let r: PredictionResult<Float> = p.predict_top_k("z", 5).unwrap();
    assert_eq!(r.ghost_text(), "a  b");
    assert_eq!(r.predictions[0].confidence, Float(0.0));
    assert_eq!(r.predictions[1].confidence, Float(0.0));
    assert_eq!(p.stationary_prob::<Float>("z"), Float(0.0));
}

// ------------------------------------------------------------------
// Predictions
// ------------------------------------------------------------------

#[test]
fn ranking_keeps_equals_in_order() {
    let floats = |values: &[f64]| values.iter().map(|x| Float(*x)).collect::<Vec<Float>>();
    assert_eq!(ranking(&floats(&[1.0, 5.0, 5.0, 0.5, 7.0])), vec![4, 1, 2, 0, 3]);
    assert_eq!(ranking(&floats(&[2.0, 2.0, 2.0])), vec![0, 1, 2]);
    assert_eq!(ranking(&floats(&[])), Vec::<usize>::new());
}

#[test]
fn smoothed_counts_are_shares() {
    let row: Vec<Float> = smoothed(&vec![3, 0, 1]);
    assert_eq!(row, vec![Float(4.0 / 7.0), Float(1.0 / 7.0), Float(2.0 / 7.0)]);
    let empty: Vec<Float> = smoothed(&vec![]);
    assert_eq!(empty, vec![]);
}

#[test]
fn smoothed_shares_are_positive_and_sum_to_one() {
    let row: Vec<Float> = smoothed(&vec![0, 9, 2, 0, 4]);
    assert!(row.iter().all(|x| x.0 > 0.0));
    assert!((row.iter().map(|x| x.0).sum::<f64>() - 1.0).abs() < 1e-12);
}

#[test]
fn predictions_have_smoothed_confidences() {
    let mut p = CommandPredictor::new();
    p.record_sequence(&["a", "b", "a", "c", "a", "b"]);
    let r: PredictionResult<Float> = p.predict_top_k("a", 3).unwrap();
    let commands: Vec<&str> = r.predictions.iter().map(|x| x.command.as_str()).collect();
    assert_eq!(commands, vec!["b", "c", "a"]);
    let confidences: Vec<f64> = r.predictions.iter().map(|x| x.confidence.0).collect();
    assert_eq!(confidences, vec![3.0 / 6.0, 2.0 / 6.0, 1.0 / 6.0]);
    assert_eq!(r.current_command, "a");
    assert_eq!(r.num_states, 3);
    assert_eq!(r.total_transitions, 5);
}

#[test]
fn fewer_predictions_are_the_first_of_more() {
    let mut p = make_predictor();
    let all: PredictionResult<Float> = p.predict_top_k("cargo build", 10).unwrap();
    for k in 0..5 {
        let some: PredictionResult<Float> = p.predict_top_k("cargo build", k).unwrap();
        assert_eq!(some.predictions.len(), k.min(4));
        assert_eq!(some.predictions[..], all.predictions[..some.predictions.len()]);
    }
}

#[test]
fn predictions_cover_all_commands_once() {
    let mut p = make_predictor();
    let all: PredictionResult<Float> = p.predict_top_k("cargo test", usize::MAX).unwrap();
    let mut predicted: Vec<String> = all.predictions.iter().map(|x| x.command.clone()).collect();
    predicted.sort();
    let mut known = p.commands().to_vec();
    known.sort();
    assert_eq!(predicted, known);
}

#[test]
fn nothing_is_predicted_without_transitions() {
    let mut p = CommandPredictor::new();
    p.record(None, "ls");
    p.record(None, "cd");
    assert!(p.predict_top_k::<Float>("ls", 3).is_none());
    assert_eq!(GhostCompleter::complete::<Float>(&mut p, "ls"), None);
    p.record(Some("cd"), "ls");
    assert!(p.predict_top_k::<Float>("ls", 3).is_some());
    assert_eq!(GhostCompleter::complete::<Float>(&mut p, "cd"), Some("ls".to_string()));
}

#[test]
fn completion_is_the_first_prediction() {
    let mut p = make_predictor();
    for command in p.commands().to_vec() {
        let first: PredictionResult<Float> = p.predict_top_k(&command, 1).unwrap();
        assert_eq!(
            GhostCompleter::complete::<Float>(&mut p, &command),
            Some(first.predictions[0].command.clone())
        );
    }
}

#[test]
fn ghost_text_of_few_predictions() {
    let mut p = CommandPredictor::new();
    p.record_sequence(&["a", "b"]);
    let none: PredictionResult<Float> = p.predict_top_k("a", 0).unwrap();
    assert_eq!(none.ghost_text(), "");
    assert_eq!(none.detailed(), "After `a`:");
    let both: PredictionResult<Float> = p.predict_top_k("a", 2).unwrap();
    assert_eq!(both.ghost_text(), "b  a");
    assert_eq!(both.detailed(), "After `a`:\n  → b (66.7%)\n  → a (33.3%)");
}

#[test]
fn label_shows_one_decimal() {
    let p = Prediction { command: "make".to_string(), confidence: Float(0.12345) };
    assert_eq!(p.to_text(), "make (12.3%)");
}

// ------------------------------------------------------------------
// The chain
// ------------------------------------------------------------------

#[test]
fn matrix_holds_the_smoothed_counts() {
    let mut p = CommandPredictor::new();
    p.record_sequence(&["a", "b", "b"]);
    let flat: Vec<Float> = p.transition_matrix();
    assert_eq!(flat, vec![Float(1.0 / 3.0), Float(2.0 / 3.0), Float(1.0 / 3.0), Float(2.0 / 3.0)]);
    assert_eq!(p.chain().tm.n, 0);
    p.rebuild::<Float>();
    assert_eq!(p.chain().tm.n, 2);
    assert_eq!(p.chain().tm.data[0][1], 2.0 / 3.0);
    assert_eq!(p.chain().tm.data[1][0], 1.0 / 3.0);
    assert_eq!(p.chain().tm.data[1][2], 0.0);
}

#[test]
fn chain_is_as_it_was_last_built() {
    let mut p = CommandPredictor::new();
    p.record_sequence(&["a", "b"]);
    p.rebuild::<Float>();
    p.record_sequence(&["b", "c"]);
    assert_eq!(p.chain().tm.n, 2);
    assert!(p.predict_top_k::<Float>("unknown", 1).is_none());
    assert_eq!(p.chain().tm.n, 2);
    assert!(p.predict_top_k::<Float>("a", 1).is_some());
    assert_eq!(p.chain().tm.n, 3);
}

#[test]
fn chain_can_be_changed_without_the_counts() {
    let mut p = make_predictor();
    p.rebuild::<Float>();
    p.chain_mut().tm.n = 1;
    assert_eq!(p.chain().tm.n, 1);
    assert_eq!(p.num_commands(), 4);
    assert_eq!(p.total_transitions(), 11);
    p.rebuild::<Float>();
    assert_eq!(p.chain().tm.n, 4);
}

#[test]
fn clone_has_the_same_counts_and_chain() {
    let mut p = make_predictor();
    p.rebuild::<Float>();
    let q = p.clone();
    assert_eq!(q.commands(), p.commands());
    assert_eq!(q.snapshot().raw_counts, p.snapshot().raw_counts);
    assert_eq!(q.chain().tm.n, 4);
    assert_eq!(q.chain().tm.data[0][1], p.chain().tm.data[0][1]);
    p.record(None, "new");
    assert_eq!(q.num_commands(), 4);
}

#[test]
fn verdicts_on_empty_and_complete_chains() {
    let mut p = CommandPredictor::new();
    assert_eq!(p.is_ergodic::<Float>(), Some((false, "chain has no states".to_string())));
    p.record(None, "ls");
    let ergodic = Some((true, "chain is ergodic (irreducible + aperiodic)".to_string()));
    assert_eq!(p.is_ergodic::<Float>(), ergodic);
    let mut full = full_predictor();
    assert_eq!(full.is_ergodic::<Float>(), ergodic);
}

/// A number whose chains are no chains of the matrix: they step from each state
/// to the next, or claim too many states.
#[derive(Debug, Clone, Copy, PartialEq)]
struct Odd(f64);

impl Number for Odd {
    fn from_u64(value: u64) -> Self {
        Odd(value as f64)
    }

    fn plus(self, other: Self) -> Self {
        Odd(self.0 + other.0)
    }

    fn minus(self, other: Self) -> Self {
        Odd(self.0 - other.0)
    }

    fn times(self, other: Self) -> Self {
        Odd(self.0 * other.0)
    }

    fn over(self, other: Self) -> Self {
        Odd(self.0 / other.0)
    }

    fn root(self) -> Self {
        Odd(self.0.sqrt())
    }

    fn log(self) -> Self {
        Odd(self.0.ln())
    }

    fn magnitude(self) -> Self {
        Odd(self.0.abs())
    }

    fn reaches(self, other: Self) -> bool {
        self.0 >= other.0
    }

    fn exceeds(self, other: Self) -> bool {
        self.0 > other.0
    }

    fn to_u64(self) -> u64 {
        self.0 as u64
    }

    fn text(self, decimals: usize) -> String {
        format!("{:.*}", decimals, self.0)
    }
}

impl ChainNumber for Odd {
    fn chain_of(n: usize, _flat: &Vec<Self>) -> MarkovChain {
        let mut chain = MarkovChain::new();
        chain.tm.n = if n == 1 { 65 } else { n };
        for i in 0..n {
            chain.tm.data[i][(i + 1) % n] = 1.0;
        }
        chain
    }

    fn stationary_of(_chain: &MarkovChain) -> Option<Vec<Self>> {
        Some(vec![Odd(0.75)])
    }

    fn mixing_time_of(chain: &MarkovChain, epsilon: Self, max_steps: usize) -> Option<usize> {
        Some(chain.tm.n + epsilon.0 as usize + max_steps)
    }
}

#[test]
fn verdict_on_other_chains() {
    let mut p = CommandPredictor::new();
    p.record(None, "a");
    assert_eq!(p.is_ergodic::<Odd>(), None);
    p.record_sequence(&["a", "b", "c"]);
    let (ergodic, reason) = p.is_ergodic::<Odd>().unwrap();
    assert!(!ergodic);
    assert_eq!(reason, "chain has period 3 (not aperiodic)");
}

#[test]
fn no_stationary_distribution_below_two_states() {
    let mut p = CommandPredictor::new();
    assert!(p.stationary_distribution::<Float>().is_none());
    p.record(Some("a"), "a");
    assert!(p.stationary_distribution::<Float>().is_none());
    assert!(p.stationary_distribution::<Odd>().is_none());
    assert_eq!(p.stationary_prob::<Float>("a"), Float(0.0));
    p.record(Some("a"), "b");
    assert_eq!(p.stationary_distribution::<Float>().unwrap().len(), 2);
}

#[test]
fn stationary_prob_is_the_entry_of_the_command() {
    let mut p = CommandPredictor::new();
    p.record_sequence(&["a", "b"]);
    assert_eq!(p.stationary_prob::<Odd>("a"), Odd(0.75));
    assert_eq!(p.stationary_prob::<Odd>("b"), Odd(0.0));
    assert_eq!(p.stationary_prob::<Odd>("c"), Odd(0.0));
    let shares = p.stationary_distribution::<Float>().unwrap();
    assert_eq!(p.stationary_prob::<Float>("b"), shares[1]);
}

#[test]
fn mixing_time_is_bounded_in_steps() {
    let mut p = CommandPredictor::new();
    p.record_sequence(&["a", "b"]);
    assert_eq!(p.mixing_time(Odd(5.0)), Some(10_007));
}

#[test]
fn predictions_go_by_confidence() {
    // In doubles both confidences are the same, so the earlier state is first.
    let mut p = CommandPredictor::from_snapshot(Snapshot {
        command_to_idx: vec![("a".to_string(), 0), ("b".to_string(), 1)],
        idx_to_command: vec!["a".to_string(), "b".to_string()],
        raw_counts: vec![1 << 60, (1 << 60) + 1],
        total_transitions: (1 << 61) + 1,
    });
    let r: PredictionResult<Float> = p.predict_top_k("a", 2).unwrap();
    assert_eq!(r.ghost_text(), "a  b");
    assert_eq!(r.predictions[0].confidence, r.predictions[1].confidence);
}

#[test]
fn counts_decide_whether_there_are_transitions() {
    let snapshot = |count: u64, total: u64| Snapshot {
        command_to_idx: vec![("a".to_string(), 0), ("b".to_string(), 1)],
        idx_to_command: vec!["a".to_string(), "b".to_string()],
        raw_counts: vec![0, count],
        total_transitions: total,
    };
    let mut counted = CommandPredictor::from_snapshot(snapshot(5, 0));
    let r: PredictionResult<Float> = counted.predict_top_k("a", 1).unwrap();
    assert_eq!(r.ghost_text(), "b");
    assert_eq!(r.total_transitions, 0);
    assert_eq!(GhostCompleter::complete::<Float>(&mut counted, "a"), Some("b".to_string()));
    let mut uncounted = CommandPredictor::from_snapshot(snapshot(0, 5));
    assert!(uncounted.predict_top_k::<Float>("a", 1).is_none());
}

#[test]
fn asking_again_gives_the_same_predictions() {
    let mut p = make_predictor();
    let mut q = CommandPredictor::from_snapshot(p.snapshot());
    let first: PredictionResult<Float> = p.predict_top_k("cargo build", 3).unwrap();
    let again: PredictionResult<Float> = p.predict_top_k("cargo build", 3).unwrap();
    let restored: PredictionResult<Float> = q.predict_top_k("cargo build", 3).unwrap();
    assert_eq!(first.predictions, again.predictions);
    assert_eq!(first.predictions, restored.predictions);
}

#[test]
fn long_sequence_of_few_names_fits() {
    let mut p = full_predictor();
    let names: Vec<String> = (0..200).map(|i| format!("c{}", i % 64)).collect();
    let sequence: Vec<&str> = names.iter().map(|s| s.as_str()).collect();
    assert!(p.can_record_sequence(&sequence));
    p.record_sequence(&sequence);
    assert_eq!(p.num_commands(), 64);
    assert_eq!(p.total_transitions(), 199);
}

#[test]
fn sequence_adds_new_names_in_order() {
    let mut p = CommandPredictor::new();
    p.record_sequence(&["x", "y"]);
    p.record_sequence(&["c", "y", "a", "c", "b", "a"]);
    assert_eq!(p.commands(), &["x", "y", "c", "a", "b"]);
}

#[test]
fn completion_is_a_most_frequent_command_known_first() {
    let mut p = CommandPredictor::new();
    p.record_sequence(&["a", "c", "a", "b", "a", "c", "a", "b"]);
    assert_eq!(p.transition_count("a", "c"), p.transition_count("a", "b"));
    assert_eq!(GhostCompleter::complete::<Float>(&mut p, "a"), Some("c".to_string()));
}

#[test]
fn chain_answers_are_the_same_each_time() {
    let mut p = make_predictor();
    let mut q = CommandPredictor::from_snapshot(p.snapshot());
    assert_eq!(p.stationary_distribution::<Float>(), q.stationary_distribution::<Float>());
    assert_eq!(p.mixing_time(Float(0.01)), q.mixing_time(Float(0.01)));
    assert_eq!(p.is_ergodic::<Float>(), q.is_ergodic::<Float>());
}
