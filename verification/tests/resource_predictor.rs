use terminal_forecast_harness::average::{moved, moved_variance};
use terminal_forecast_harness::decimal::decimal;
use terminal_forecast_harness::{
    Number, ResourceAvailability, ResourceObservation, ResourcePredictor, ResourceStats,
};

/// A double.
#[derive(Debug, Clone, Copy, PartialEq, PartialOrd)]
struct Float(f64);

impl Number for Float {
    fn from_u64(value: u64) -> Self {
        Float(value as f64)
    }

    fn plus(self, other: Self) -> Self {
        Float(self.0 + other.0)
    }

    fn minus(self, other: Self) -> Self {
        Float(self.0 - other.0)
    }

    fn times(self, other: Self) -> Self {
        Float(self.0 * other.0)
    }

    fn over(self, other: Self) -> Self {
        Float(self.0 / other.0)
    }

    fn root(self) -> Self {
        Float(self.0.sqrt())
    }

    fn log(self) -> Self {
        Float(self.0.ln())
    }

    fn magnitude(self) -> Self {
        Float(self.0.abs())
    }

    fn reaches(self, other: Self) -> bool {
        self.0 >= other.0
    }

    fn exceeds(self, other: Self) -> bool {
        self.0 > other.0
    }

    fn to_u64(self) -> u64 {
        self.0 as u64
    }

    fn text(self, decimals: usize) -> String {
        format!("{:.*}", decimals, self.0)
    }
}

type Parts = (f64, Vec<(String, String, u64, [f64; 4], u64, u64)>);

fn to_json(p: &ResourcePredictor<Float>) -> String {
    let mut stats = Vec::new();
    for (name, s) in p.entries() {
        let averages = [s.memory_ema.0, s.cpu_ema.0, s.duration_ema.0, s.memory_var.0];
        stats.push((
            name,
            s.command,
            s.observation_count,
            averages,
            s.memory_min,
            s.memory_max,
        ));
    }
    let parts: Parts = (p.alpha().0, stats);
    serde_json::to_string(&parts).unwrap()
}

fn from_json(json: &str) -> ResourcePredictor<Float> {
    let parts: Parts = serde_json::from_str(json).unwrap();
    let mut entries = Vec::new();
    for (name, command, observation_count, averages, memory_min, memory_max) in parts.1 {
        entries.push((
            name,
            ResourceStats {
                command,
                observation_count,
                memory_ema: Float(averages[0]),
                cpu_ema: Float(averages[1]),
                duration_ema: Float(averages[2]),
                memory_var: Float(averages[3]),
                memory_min,
                memory_max,
            },
        ));
    }
    ResourcePredictor::from_entries(Float(parts.0), entries)
}

fn make_predictor() -> ResourcePredictor<Float> {
    let mut p = ResourcePredictor::<Float>::new();
    p.observe(
        "cargo build",
        ResourceObservation {
            memory_bytes: 2_000_000_000,
            cpu_time_ms: 30000,
            duration_ms: 45000,
        },
    );
    p.observe(
        "cargo build",
        ResourceObservation {
            memory_bytes: 2_100_000_000,
            cpu_time_ms: 28000,
            duration_ms: 42000,
        },
    );
    p.observe(
        "cargo build",
        ResourceObservation {
            memory_bytes: 1_900_000_000,
            cpu_time_ms: 32000,
            duration_ms: 48000,
        },
    );
    p
}

// ------------------------------------------------------------------
// Construction & basic properties
// ------------------------------------------------------------------

#[test]
fn resource_predictor_test_new_is_empty() {
    let p = ResourcePredictor::<Float>::new();
    assert_eq!(p.num_commands(), 0);
}

#[test]
fn test_custom_alpha() {
    let p = ResourcePredictor::with_alpha(Float(0.1)).unwrap();
    assert_eq!(p.alpha().0, 0.1);
}

#[test]
fn test_default_alpha() {
    let p = ResourcePredictor::<Float>::new();
    assert_eq!(p.alpha().0, 0.3);
}

#[test]
#[should_panic(expected = "alpha must be in [0, 1]")]
fn test_invalid_alpha_gt_one() {
    ResourcePredictor::with_alpha(Float(1.5)).expect("alpha must be in [0, 1]");
}

#[test]
#[should_panic(expected = "alpha must be in [0, 1]")]
fn test_invalid_alpha_negative() {
    ResourcePredictor::with_alpha(Float(-0.1)).expect("alpha must be in [0, 1]");
}

// ------------------------------------------------------------------
// Observations
// ------------------------------------------------------------------

#[test]
fn test_observe_creates_entry() {
    let mut p = ResourcePredictor::<Float>::new();
    p.observe(
        "ls",
        ResourceObservation {
            memory_bytes: 10_000_000,
            cpu_time_ms: 50,
            duration_ms: 100,
        },
    );
    assert_eq!(p.num_commands(), 1);
    assert_eq!(p.stats_for("ls").unwrap().observation_count, 1);
}

#[test]
fn test_observe_multiple_commands() {
    let mut p = ResourcePredictor::<Float>::new();
    p.observe("a", ResourceObservation { memory_bytes: 100, cpu_time_ms: 10, duration_ms: 20 });
    p.observe("b", ResourceObservation { memory_bytes: 200, cpu_time_ms: 20, duration_ms: 40 });
    assert_eq!(p.num_commands(), 2);
}

#[test]
fn test_ema_updates_with_multiple_observations() {
    let p = make_predictor();
    let stats = p.stats_for("cargo build").unwrap();
    assert_eq!(stats.observation_count, 3);
    assert!(stats.memory_ema.0 >= 1_900_000_000.0);
    assert!(stats.memory_ema.0 <= 2_100_000_000.0);
}

#[test]
fn test_min_max_tracking() {
    let p = make_predictor();
    let stats = p.stats_for("cargo build").unwrap();
    assert_eq!(stats.memory_min, 1_900_000_000);
    assert_eq!(stats.memory_max, 2_100_000_000);
}

#[test]
fn test_observe_batch() {
    let mut p = ResourcePredictor::<Float>::new();
    p.observe_batch(
        "npm test",
        &[
            ResourceObservation {
                memory_bytes: 500_000_000,
                cpu_time_ms: 10000,
                duration_ms: 15000,
            },
            ResourceObservation {
                memory_bytes: 600_000_000,
                cpu_time_ms: 12000,
                duration_ms: 18000,
            },
        ],
    );
    assert_eq!(p.stats_for("npm test").unwrap().observation_count, 2);
}

// ------------------------------------------------------------------
// Prediction
// ------------------------------------------------------------------

#[test]
fn test_predict_returns_ema_plus_std() {
    let p = make_predictor();
    let pred = p.predict("cargo build", None).unwrap();
    assert_eq!(pred.observation_count, 3);
    assert!(pred.predicted_memory_bytes >= 1_900_000_000);
}

#[test]
fn test_predict_unknown_returns_none() {
    let p = make_predictor();
    assert!(p.predict("nonexistent", None).is_none());
}

#[test]
fn test_predict_warning_when_exceeds_available() {
    let p = make_predictor();
    let avail = ResourceAvailability {
        free_memory_bytes: 500_000_000,
        total_memory_bytes: 4_000_000_000,
        cpu_cores: 4,
    };
    let pred = p.predict("cargo build", Some(&avail)).unwrap();
    assert!(pred.is_warning);
    assert!(pred.warning_message.is_some());
}

#[test]
fn test_predict_no_warning_when_enough_memory() {
    let p = make_predictor();
    let avail = ResourceAvailability {
        free_memory_bytes: 10_000_000_000,
        total_memory_bytes: 16_000_000_000,
        cpu_cores: 8,
    };
    let pred = p.predict("cargo build", Some(&avail)).unwrap();
    assert!(!pred.is_warning);
}

#[test]
fn test_predict_warning_message_contains_numbers() {
    let p = make_predictor();
    let avail = ResourceAvailability {
        free_memory_bytes: 100_000_000,
        total_memory_bytes: 4_000_000_000,
        cpu_cores: 4,
    };
    let pred = p.predict("cargo build", Some(&avail)).unwrap();
    let msg = pred.warning_message.as_ref().unwrap();
    assert!(msg.contains("GB"));
}

// ------------------------------------------------------------------
// Display and description
// ------------------------------------------------------------------

#[test]
fn resource_predictor_test_prediction_display_format() {
    let p = make_predictor();
    let pred = p.predict("cargo build", None).unwrap();
    let formatted = pred.to_text::<Float>();
    assert!(formatted.contains("cargo build"));
    assert!(formatted.contains("GB"));
}

#[test]
fn test_prediction_display_with_warning() {
    let p = make_predictor();
    let avail = ResourceAvailability {
        free_memory_bytes: 500_000_000,
        total_memory_bytes: 4_000_000_000,
        cpu_cores: 4,
    };
    let pred = p.predict("cargo build", Some(&avail)).unwrap();
    let formatted = pred.to_text::<Float>();
    assert!(formatted.contains("⚠️"));
}

#[test]
fn test_memory_delta_description() {
    let p = make_predictor();
    let desc = p.memory_delta_description("cargo build").unwrap();
    assert!(desc.contains("cargo build"));
    assert!(desc.contains("MB"));
}

#[test]
fn test_memory_delta_unknown_command() {
    let p = make_predictor();
    assert!(p.memory_delta_description("nonexistent").is_none());
}

// ------------------------------------------------------------------
// Statistics & variance
// ------------------------------------------------------------------

#[test]
fn test_variance_increases_for_variable_usage() {
    let mut p = ResourcePredictor::<Float>::new();
    for _ in 0..10 {
        p.observe(
            "stable",
            ResourceObservation {
                memory_bytes: 1_000_000_000,
                cpu_time_ms: 1000,
                duration_ms: 2000,
            },
        );
    }
    let stable_var = p.stats_for("stable").unwrap().memory_var.0;
    let mut vp = ResourcePredictor::<Float>::new();
    for i in 0..10u64 {
        vp.observe(
            "variable",
            ResourceObservation {
                memory_bytes: 1_000_000_000 + i * 500_000_000,
                cpu_time_ms: 1000,
                duration_ms: 2000,
            },
        );
    }
    let variable_var = vp.stats_for("variable").unwrap().memory_var.0;
    assert!(
        variable_var > stable_var,
        "variable usage should have higher variance"
    );
}

#[test]
fn test_memory_cv_stable_is_small() {
    let mut p = ResourcePredictor::<Float>::new();
    for _ in 0..5 {
        p.observe(
            "stable",
            ResourceObservation {
                memory_bytes: 1_000_000_000,
                cpu_time_ms: 1000,
                duration_ms: 2000,
            },
        );
    }
    let cv = p.memory_cv("stable").unwrap().0;
    assert!(cv < 0.01, "stable command should have near-zero CV");
}

#[test]
fn test_memory_cv_unknown_is_none() {
    let p = ResourcePredictor::<Float>::new();
    assert!(p.memory_cv("nope").is_none());
}

#[test]
fn test_total_variance_increases_with_commands() {
    let mut p = ResourcePredictor::<Float>::new();
    assert_eq!(p.total_variance().0, 0.0);

    p.observe("a", ResourceObservation { memory_bytes: 100, cpu_time_ms: 10, duration_ms: 20 });
    p.observe("a", ResourceObservation { memory_bytes: 200, cpu_time_ms: 10, duration_ms: 20 });
    let v1 = p.total_variance().0;
    assert!(v1 > 0.0);

    p.observe("b", ResourceObservation { memory_bytes: 300, cpu_time_ms: 10, duration_ms: 20 });
    p.observe("b", ResourceObservation { memory_bytes: 600, cpu_time_ms: 10, duration_ms: 20 });
    let v2 = p.total_variance().0;
    assert!(v2 > v1, "adding variable commands should increase total variance");
}

// ------------------------------------------------------------------
// Serialization
// ------------------------------------------------------------------

#[test]
fn resource_predictor_test_serialization_roundtrip() {
    let p = make_predictor();
    let json = to_json(&p);
    let restored = from_json(&json);
    assert_eq!(restored.num_commands(), p.num_commands());
    assert_eq!(
        restored.stats_for("cargo build").unwrap().observation_count,
        3
    );
    assert_eq!(restored.alpha().0, 0.3);
}

#[test]
fn test_serialization_empty() {
    let p = ResourcePredictor::<Float>::new();
    let json = to_json(&p);
    let restored = from_json(&json);
    assert_eq!(restored.num_commands(), 0);
}

#[test]
fn resource_predictor_test_serialization_restores_predictions() {
    let p = make_predictor();
    let json = to_json(&p);
    let restored = from_json(&json);
    let pred = restored.predict("cargo build", None).unwrap();
    assert_eq!(pred.observation_count, 3);
}

// ------------------------------------------------------------------
// Commands listing
// ------------------------------------------------------------------

#[test]
fn resource_predictor_test_commands_list() {
    let p = make_predictor();
    let cmds = p.commands();
    assert_eq!(cmds, vec!["cargo build"]);
}

#[test]
fn test_commands_list_empty() {
    let p = ResourcePredictor::<Float>::new();
    assert!(p.commands().is_empty());
}

// ------------------------------------------------------------------
// Edge cases
// ------------------------------------------------------------------

#[test]
fn test_stable_predictor_low_variance() {
    let mut p = ResourcePredictor::<Float>::new();
    for _ in 0..20 {
        p.observe(
            "ping",
            ResourceObservation {
                memory_bytes: 5_000_000,
                cpu_time_ms: 100,
                duration_ms: 500,
            },
        );
    }
    let pred = p.predict("ping", None).unwrap();
    // With very stable usage, prediction should be close to observed
    assert!(
        pred.predicted_memory_bytes >= 5_000_000
    );
}

#[test]
fn test_stats_for_known_command() {
    let p = make_predictor();
    let stats = p.stats_for("cargo build").unwrap();
    assert_eq!(stats.command, "cargo build");
    assert!(stats.memory_var.0 >= 0.0);
}

#[test]
fn test_stats_for_unknown_command() {
    let p = make_predictor();
    assert!(p.stats_for("nope").is_none());
}

#[test]
fn resource_predictor_test_default_impl() {
    let p = ResourcePredictor::<Float>::default();
    assert_eq!(p.num_commands(), 0);
    assert_eq!(p.alpha().0, 0.3);
}

// ------------------------------------------------------------------
// Exact values
// ------------------------------------------------------------------

fn run(memory_bytes: u64, cpu_time_ms: u64, duration_ms: u64) -> ResourceObservation {
    ResourceObservation { memory_bytes, cpu_time_ms, duration_ms }
}

/// A predictor that weighs a new observation as much as all before it.
fn halving() -> ResourcePredictor<Float> {
    ResourcePredictor::with_alpha(Float(0.5)).unwrap()
}

fn stats(command: &str, count: u64, ema: f64, var: f64) -> ResourceStats<Float> {
    ResourceStats {
        command: command.to_string(),
        observation_count: count,
        memory_ema: Float(ema),
        cpu_ema: Float(0.0),
        duration_ema: Float(0.0),
        memory_var: Float(var),
        memory_min: 10,
        memory_max: 20,
    }
}

#[test]
fn decimals_of_whole_numbers() {
    assert_eq!(decimal(0), "0");
    assert_eq!(decimal(7), "7");
    assert_eq!(decimal(10), "10");
    assert_eq!(decimal(90_210), "90210");
    assert_eq!(decimal(u64::MAX), "18446744073709551615");
}

#[test]
fn averages_move_by_their_weight() {
    assert_eq!(moved(Float(0.25), 8, Float(4.0)), Float(5.0));
    assert_eq!(moved(Float(0.0), 8, Float(4.0)), Float(4.0));
    assert_eq!(moved(Float(1.0), 8, Float(4.0)), Float(8.0));
    assert_eq!(moved_variance(Float(0.25), 8, Float(4.0), Float(16.0)), Float(16.0));
    assert_eq!(moved_variance(Float(0.5), 8, Float(6.0), Float(4.0)), Float(4.0));
}

#[test]
fn deviation_is_taken_from_the_moved_average() {
    let mut rp = halving();
    rp.observe("make", run(100, 10, 1000));
    rp.observe("make", run(300, 30, 2000));
    let s = rp.stats_for("make").unwrap();
    assert_eq!(s.memory_ema, Float(200.0));
    assert_eq!(s.cpu_ema, Float(20.0));
    assert_eq!(s.duration_ema, Float(1500.0));
    assert_eq!(s.memory_var, Float(5000.0));
    assert_eq!(s.observation_count, 2);
    assert_eq!(s.memory_min, 100);
    assert_eq!(s.memory_max, 300);
    rp.observe("make", run(40, 20, 1500));
    let s = rp.stats_for("make").unwrap();
    assert_eq!(s.memory_ema, Float(120.0));
    assert_eq!(s.memory_var, Float(5700.0));
    assert_eq!(s.memory_min, 40);
    assert_eq!(s.memory_max, 300);
}

#[test]
fn prediction_adds_one_standard_deviation() {
    let rp = ResourcePredictor::from_entries(
        Float(0.5),
        vec![("make".to_string(), ResourceStats {
            cpu_ema: Float(12.9),
            duration_ema: Float(99.5),
            ..stats("make", 3, 100.5, 16.0)
        })],
    );
    let p = rp.predict("make", None).unwrap();
    assert_eq!(p.command, "make");
    assert_eq!(p.predicted_memory_bytes, 104);
    assert_eq!(p.predicted_cpu_ms, 12);
    assert_eq!(p.predicted_duration_ms, 99);
    assert_eq!(p.observation_count, 3);
    assert!(!p.is_warning);
    assert_eq!(p.warning_message, None);
}

#[test]
fn warning_only_above_what_is_free() {
    let mut rp = halving();
    rp.observe("make", run(2_500_000_000, 1, 1));
    let mut available = ResourceAvailability::default();
    available.free_memory_bytes = 2_500_000_000;
    assert!(!rp.predict("make", Some(&available)).unwrap().is_warning);
    available.free_memory_bytes = 2_400_000_000;
    let p = rp.predict("make", Some(&available)).unwrap();
    assert!(p.is_warning);
    assert_eq!(
        p.warning_message.as_deref(),
        Some("This build typically uses 2.5 GB. You have 2.4 GB free.")
    );
    assert_eq!(
        p.to_text::<Float>(),
        "`make` typically needs 2.5 GB RAM (based on 1 observations)\n\
         ⚠️ This build typically uses 2.5 GB. You have 2.4 GB free."
    );
}

#[test]
fn prediction_without_a_count_shows_none() {
    let mut rp = halving();
    rp.observe("make", run(1_000_000_000, 1, 1));
    let mut p = rp.predict("make", None).unwrap();
    assert_eq!(
        p.to_text::<Float>(),
        "`make` typically needs 1.0 GB RAM (based on 1 observations)"
    );
    p.observation_count = 0;
    assert_eq!(p.to_text::<Float>(), "`make` typically needs 1.0 GB RAM");
}

#[test]
fn nothing_is_predicted_without_observations() {
    let mut rp =
        ResourcePredictor::from_entries(Float(0.5), vec![("make".to_string(), stats("old", 0, 5.0, 9.0))]);
    assert!(rp.predict("make", None).is_none());
    assert!(rp.predict("old", None).is_none());
    assert!(rp.stats_for("make").is_some());
    rp.observe("make", run(15, 2, 3));
    let s = rp.stats_for("make").unwrap();
    assert_eq!(s.command, "old");
    assert_eq!(s.observation_count, 1);
    assert_eq!(s.memory_ema, Float(15.0));
    assert_eq!(s.memory_var, Float(0.0));
    assert_eq!(s.memory_min, 10);
    assert_eq!(s.memory_max, 20);
    assert_eq!(rp.predict("make", None).unwrap().predicted_memory_bytes, 15);
}

#[test]
fn memory_in_whole_megabytes() {
    let mut rp = halving();
    rp.observe("cargo build", run(1_234_900_000, 1, 1));
    assert_eq!(
        rp.memory_delta_description("cargo build").unwrap(),
        "When you run `cargo build`, memory usage increases by ~1235 MB"
    );
}

#[test]
fn variation_needs_memory_and_two_observations() {
    let rp = ResourcePredictor::from_entries(
        Float(0.5),
        vec![
            ("once".to_string(), stats("once", 1, 8.0, 4.0)),
            ("zero".to_string(), stats("zero", 5, 0.0, 4.0)),
            ("below".to_string(), stats("below", 5, -1.0, 4.0)),
            ("twice".to_string(), stats("twice", 2, 8.0, 4.0)),
        ],
    );
    assert_eq!(rp.memory_cv("once"), None);
    assert_eq!(rp.memory_cv("zero"), None);
    assert_eq!(rp.memory_cv("below"), None);
    assert_eq!(rp.memory_cv("twice"), Some(Float(0.25)));
    assert_eq!(rp.memory_cv("never"), None);
}

#[test]
fn total_variance_leaves_single_observations_out() {
    let rp = ResourcePredictor::from_entries(
        Float(0.5),
        vec![
            ("a".to_string(), stats("a", 1, 8.0, 100.0)),
            ("b".to_string(), stats("b", 2, 8.0, 4.0)),
            ("c".to_string(), stats("c", 3, 8.0, 0.5)),
        ],
    );
    assert_eq!(rp.total_variance(), Float(4.5));
    assert_eq!(halving().total_variance(), Float(0.0));
}

#[test]
fn weights_at_the_ends_of_their_range() {
    assert!(ResourcePredictor::with_alpha(Float(0.0)).is_some());
    assert!(ResourcePredictor::with_alpha(Float(1.0)).is_some());
    assert!(ResourcePredictor::with_alpha(Float(-0.001)).is_none());
    assert!(ResourcePredictor::with_alpha(Float(1.001)).is_none());
    assert!(ResourcePredictor::with_alpha(Float(f64::NAN)).is_none());
    assert_eq!(ResourcePredictor::with_alpha(Float(0.25)).unwrap().alpha(), Float(0.25));
}

// ------------------------------------------------------------------
// Several observations, and what is kept of them
// ------------------------------------------------------------------

#[test]
fn batch_observes_one_run_after_the_other() {
    let runs = [run(100, 1, 2), run(300, 3, 4), run(40, 5, 6)];
    let mut at_once = halving();
    at_once.observe_batch("make", &runs);
    let mut one_by_one = halving();
    for obs in runs {
        one_by_one.observe("make", obs);
    }
    assert_eq!(to_json(&at_once), to_json(&one_by_one));
    let s = at_once.stats_for("make").unwrap();
    assert_eq!(s.observation_count, 3);
    assert!(runs.iter().all(|r| s.memory_min <= r.memory_bytes && r.memory_bytes <= s.memory_max));
    assert!(runs.iter().any(|r| r.memory_bytes == s.memory_min));
    assert!(runs.iter().any(|r| r.memory_bytes == s.memory_max));
}

#[test]
fn observing_leaves_other_commands_alone() {
    let mut rp = halving();
    rp.observe("a", run(100, 1, 1));
    rp.observe("b", run(5, 1, 1));
    rp.observe("b", run(7, 1, 1));
    let s = rp.stats_for("a").unwrap();
    assert_eq!(s.observation_count, 1);
    assert_eq!(s.memory_ema, Float(100.0));
    assert_eq!(rp.commands(), vec!["a".to_string(), "b".to_string()]);
    assert_eq!(rp.num_commands(), 2);
}

#[test]
fn entries_restore_what_was_known() {
    let rp = make_predictor();
    let restored = ResourcePredictor::from_entries(rp.alpha(), rp.entries());
    assert_eq!(to_json(&restored), to_json(&rp));
    assert_eq!(restored.commands(), rp.commands());
}

#[test]
fn later_entry_of_a_command_counts() {
    let rp = ResourcePredictor::from_entries(
        Float(0.5),
        vec![
            ("a".to_string(), stats("a", 1, 1.0, 0.0)),
            ("b".to_string(), stats("b", 2, 2.0, 0.0)),
            ("a".to_string(), stats("a", 3, 3.0, 0.0)),
        ],
    );
    assert_eq!(rp.commands(), vec!["a".to_string(), "b".to_string()]);
    assert_eq!(rp.stats_for("a").unwrap().observation_count, 3);
}

#[test]
fn clone_is_a_predictor_of_its_own() {
    let mut rp = halving();
    rp.observe("a", run(100, 1, 1));
    let copy = rp.clone();
    rp.observe("a", run(300, 1, 1));
    assert_eq!(copy.stats_for("a").unwrap().observation_count, 1);
    assert_eq!(copy.alpha(), Float(0.5));
    assert_eq!(rp.stats_for("a").unwrap().observation_count, 2);
}

#[test]
fn two_batches_are_one() {
    let runs = [run(100, 1, 2), run(300, 3, 4), run(40, 5, 6), run(70, 7, 8)];
    let mut whole = halving();
    whole.observe_batch("make", &runs);
    let mut parts = halving();
    parts.observe_batch("make", &runs[..1]);
    parts.observe_batch("make", &runs[1..]);
    assert_eq!(to_json(&whole), to_json(&parts));
}

#[test]
fn weight_one_follows_and_weight_zero_keeps() {
    let runs = [run(100, 10, 1000), run(300, 30, 3000), run(200, 20, 2000)];
    let mut latest = ResourcePredictor::with_alpha(Float(1.0)).unwrap();
    latest.observe_batch("make", &runs);
    let s = latest.stats_for("make").unwrap();
    assert_eq!((s.memory_ema, s.cpu_ema, s.duration_ema), (Float(200.0), Float(20.0), Float(2000.0)));
    assert_eq!(s.memory_var, Float(0.0));
    let mut first = ResourcePredictor::with_alpha(Float(0.0)).unwrap();
    first.observe_batch("make", &runs);
    let s = first.stats_for("make").unwrap();
    assert_eq!((s.memory_ema, s.cpu_ema, s.duration_ema), (Float(100.0), Float(10.0), Float(1000.0)));
    assert_eq!(s.memory_var, Float(0.0));
    assert_eq!((s.observation_count, s.memory_min, s.memory_max), (3, 100, 300));
}

#[test]
fn average_lies_between_the_bounds() {
    let rp = make_predictor();
    for command in rp.commands() {
        let s = rp.stats_for(&command).unwrap();
        assert!(s.memory_min as f64 <= s.memory_ema.0 && s.memory_ema.0 <= s.memory_max as f64);
        assert!(s.memory_var.0 >= 0.0);
        assert_eq!(s.command, command);
    }
}

#[test]
fn availability_only_warns() {
    let mut rp = halving();
    rp.observe_batch("make", &[run(100, 10, 1000), run(300, 30, 3000)]);
    let plain = rp.predict("make", None).unwrap();
    let tight = ResourceAvailability { free_memory_bytes: 1, total_memory_bytes: 2, cpu_cores: 3 };
    let warned = rp.predict("make", Some(&tight)).unwrap();
    assert!(!plain.is_warning && warned.is_warning);
    assert_eq!(plain.predicted_memory_bytes, warned.predicted_memory_bytes);
    assert_eq!(plain.predicted_cpu_ms, warned.predicted_cpu_ms);
    assert_eq!(plain.predicted_duration_ms, warned.predicted_duration_ms);
    let other = ResourceAvailability { total_memory_bytes: 9, cpu_cores: 9, ..tight };
    assert_eq!(rp.predict("make", Some(&other)).unwrap().warning_message, warned.warning_message);
}

#[test]
fn runs_of_other_commands_between_change_nothing() {
    let runs = [run(100, 10, 1000), run(300, 30, 3000), run(40, 20, 2000)];
    let mut alone = halving();
    let mut mixed = halving();
    for (i, obs) in runs.into_iter().enumerate() {
        alone.observe("make", obs);
        mixed.observe("ls", run(i as u64, 1, 1));
        mixed.observe("make", obs);
    }
    let a = alone.stats_for("make").unwrap();
    let b = mixed.stats_for("make").unwrap();
    assert_eq!((a.memory_ema, a.cpu_ema, a.memory_var), (b.memory_ema, b.cpu_ema, b.memory_var));
    assert_eq!((b.observation_count, b.memory_min, b.memory_max), (3, 40, 300));
    assert_eq!(mixed.stats_for("ls").unwrap().observation_count, 3);
}

#[test]
fn prediction_is_not_below_the_average() {
    let mut rp = halving();
    rp.observe_batch("make", &[run(100, 1, 1), run(200, 1, 1)]);
    let s = rp.stats_for("make").unwrap();
    assert_eq!((s.memory_ema, s.memory_var), (Float(150.0), Float(1250.0)));
    assert_eq!(rp.predict("make", None).unwrap().predicted_memory_bytes, 185);
}
