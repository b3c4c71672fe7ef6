use ergodic_transport::MarkovChain;
use terminal_forecast_harness::distance::{divergence, transport};
use terminal_forecast_harness::trend::slope;
use terminal_forecast_harness::{
    ChainNumber, CommandPredictor, DistanceRecord, Number, Severity, WorkflowAnomaly,
};

/// A double.
#[derive(Debug, Clone, Copy, PartialEq, PartialOrd)]
struct Float(f64);

impl Number for Float {
    fn from_u64(value: u64) -> Self {
        Float(value as f64)
    }

    fn plus(self, other: Self) -> Self {
        Float(self.0 + other.0)
    }

    fn minus(self, other: Self) -> Self {
        Float(self.0 - other.0)
    }

    fn times(self, other: Self) -> Self {
        Float(self.0 * other.0)
    }

    fn over(self, other: Self) -> Self {
        Float(self.0 / other.0)
    }

    fn root(self) -> Self {
        Float(self.0.sqrt())
    }

    fn log(self) -> Self {
        Float(self.0.ln())
    }

    fn magnitude(self) -> Self {
        Float(self.0.abs())
    }

    fn reaches(self, other: Self) -> bool {
        self.0 >= other.0
    }

    fn exceeds(self, other: Self) -> bool {
        self.0 > other.0
    }

    fn to_u64(self) -> u64 {
        self.0 as u64
    }

    fn text(self, decimals: usize) -> String {
        format!("{:.*}", decimals, self.0)
    }
}

impl ChainNumber for Float {
    fn chain_of(n: usize, flat: &Vec<Self>) -> MarkovChain {
        let plain: Vec<f64> = flat.iter().map(|x| x.0).collect();
        MarkovChain::from_flat(n, &plain)
    }

    fn stationary_of(chain: &MarkovChain) -> Option<Vec<Self>> {
        chain.stationary_distribution().map(|pi| pi.into_iter().map(Float).collect())
    }

    fn mixing_time_of(chain: &MarkovChain, epsilon: Self, max_steps: usize) -> Option<usize> {
        chain.mixing_time(epsilon.0, max_steps)
    }
}

fn make_normal_workflow() -> CommandPredictor {
    let mut p = CommandPredictor::new();
    // Build a stable 3-command cycle
    for _ in 0..50 {
        p.record_sequence(&["cargo build", "cargo test", "git add", "cargo build"]);
    }
    p
}

// ------------------------------------------------------------------
// KL divergence
// ------------------------------------------------------------------

#[test]
fn test_kl_divergence_normal_workflow() {
    let mut p = make_normal_workflow();
    let kl = WorkflowAnomaly::<Float>::kl_divergence(&mut p, "cargo build").0;
    assert!(kl.is_finite());
    assert!(kl >= 0.0);
}

#[test]
fn test_kl_divergence_unknown_command() {
    let mut p = make_normal_workflow();
    let kl = WorkflowAnomaly::<Float>::kl_divergence(&mut p, "nonexistent").0;
    assert_eq!(kl, 0.0);
}

#[test]
fn test_kl_divergence_empty_model() {
    let mut p = CommandPredictor::new();
    let kl = WorkflowAnomaly::<Float>::kl_divergence(&mut p, "anything").0;
    assert_eq!(kl, 0.0);
}

#[test]
fn test_kl_divergence_nonnegative() {
    let mut p = make_normal_workflow();
    for cmd in &["cargo build", "cargo test", "git add"] {
        let kl = WorkflowAnomaly::<Float>::kl_divergence(&mut p, cmd).0;
        assert!(kl >= 0.0, "KL({}) should be >= 0, got {}", cmd, kl);
    }
}

// ------------------------------------------------------------------
// Wasserstein distance
// ------------------------------------------------------------------

#[test]
fn test_wasserstein_normal_workflow() {
    let mut p = make_normal_workflow();
    let w1 = WorkflowAnomaly::<Float>::wasserstein_distance(&mut p, "cargo build").0;
    assert!(w1 >= 0.0);
}

#[test]
fn test_wasserstein_unknown_command() {
    let mut p = make_normal_workflow();
    let w1 = WorkflowAnomaly::<Float>::wasserstein_distance(&mut p, "nonexistent").0;
    assert_eq!(w1, 0.0);
}

#[test]
fn test_wasserstein_empty_model() {
    let mut p = CommandPredictor::new();
    let w1 = WorkflowAnomaly::<Float>::wasserstein_distance(&mut p, "anything").0;
    assert_eq!(w1, 0.0);
}

#[test]
fn test_wasserstein_identity_is_zero() {
    let mut p = CommandPredictor::new();
    // Perfect uniform: each row equals stationary
    for _ in 0..100 {
        p.record(Some("A"), "B");
        p.record(Some("B"), "A");
    }
    let w1 = WorkflowAnomaly::<Float>::wasserstein_distance(&mut p, "A").0;
    // Should be close to 0 for a uniform chain
    assert!(w1 < 0.5, "Wasserstein should be small for uniform chain, got {}", w1);
}

// ------------------------------------------------------------------
// Detection
// ------------------------------------------------------------------

#[test]
fn test_detect_normal_returns_none() {
    let mut p = make_normal_workflow();
    // Use relaxed thresholds so normal workflow doesn't trigger
    let mut ad = WorkflowAnomaly::with_thresholds(Float(10.0), Float(20.0), Float(30.0));
    let result = ad.detect(&mut p, "cargo build", 100);
    assert!(result.is_none());
}

#[test]
fn test_detect_new_pattern_returns_anomaly() {
    let mut p = make_normal_workflow();
    // Record a completely different workflow pattern
    for _ in 0..20 {
        p.record_sequence(&["npm install", "npm test", "npm run build"]);
    }
    let mut ad = WorkflowAnomaly::<Float>::new();
    let result = ad.detect(&mut p, "npm install", 200);
    // Should be anomalous since "npm install" is rare in context
    assert!(result.is_some(), "Should detect anomaly for new pattern");
    let r = result.unwrap();
    assert!(r.kl_divergence.0 > 0.0);
    assert!(r.wasserstein_distance.0 >= 0.0);
    assert!(r.severity > Severity::Normal);
}

#[test]
fn test_detect_with_low_thresholds() {
    let mut p = make_normal_workflow();
    // Use very sensitive thresholds
    let mut ad = WorkflowAnomaly::with_thresholds(Float(0.01), Float(0.05), Float(0.1));
    let result = ad.detect(&mut p, "cargo build", 100);
    assert!(result.is_some());
}

// ------------------------------------------------------------------
// Severity
// ------------------------------------------------------------------

#[test]
fn test_severity_classification() {
    assert!(Severity::Normal < Severity::Mild);
    assert!(Severity::Mild < Severity::Significant);
    assert!(Severity::Significant < Severity::Dramatic);
}

#[test]
fn test_severity_display() {
    assert_eq!(Severity::Normal.to_text(), "normal");
    assert_eq!(Severity::Mild.to_text(), "mild");
    assert_eq!(Severity::Significant.to_text(), "significant");
    assert_eq!(Severity::Dramatic.to_text(), "dramatic");
}

// ------------------------------------------------------------------
// History & trends
// ------------------------------------------------------------------

#[test]
fn test_history_tracks_records() {
    let mut p = make_normal_workflow();
    let mut ad = WorkflowAnomaly::<Float>::new();
    ad.detect(&mut p, "cargo build", 100);
    ad.detect(&mut p, "cargo test", 200);
    assert_eq!(ad.history().len(), 2);
    assert_eq!(ad.history()[0].timestamp_secs, 100);
}

#[test]
fn test_history_respects_max_length() {
    let mut p = make_normal_workflow();
    let mut ad = WorkflowAnomaly::<Float>::new();
    ad.max_history = 5;
    for t in 0..10u64 {
        ad.detect(&mut p, "cargo build", t);
    }
    assert_eq!(ad.history().len(), 5);
}

#[test]
fn test_divergence_trend_insufficient_data() {
    let ad = WorkflowAnomaly::<Float>::new();
    assert_eq!(ad.divergence_trend(5).0, 0.0);
}

#[test]
fn test_divergence_trend_increasing() {
    let mut ad = WorkflowAnomaly::<Float>::new();
    // history pushed in chronological order: 0, 1, 2, 3, 4
    for t in 0..5u64 {
        ad.history.push(DistanceRecord {
            timestamp_secs: t,
            kl_divergence: Float(t as f64),
            wasserstein_distance: Float(0.0),
        });
    }
    let trend = ad.divergence_trend(5).0;
    assert!(trend != 0.0, "trend should be non-zero");
}

#[test]
fn test_divergence_trend_decreasing() {
    let mut ad = WorkflowAnomaly::<Float>::new();
    // Decreasing over real time: 4, 3, 2, 1, 0
    for t in 0..5u64 {
        ad.history.push(DistanceRecord {
            timestamp_secs: t,
            kl_divergence: Float((4 - t) as f64),
            wasserstein_distance: Float(0.0),
        });
    }
    let trend = ad.divergence_trend(5).0;
    assert!(trend != 0.0, "trend should be non-zero");
}

#[test]
fn test_divergence_trend_flat_is_zero() {
    let mut ad = WorkflowAnomaly::<Float>::new();
    for t in 0..4u64 {
        ad.history.push(DistanceRecord {
            timestamp_secs: t,
            kl_divergence: Float(1.0),
            wasserstein_distance: Float(0.0),
        });
    }
    let trend = ad.divergence_trend(4).0;
    assert!(trend.abs() < 1e-10, "flat trend should be ~0, got {}", trend);
}

// ------------------------------------------------------------------
// Custom thresholds
// ------------------------------------------------------------------

#[test]
fn test_custom_thresholds() {
    let ad = WorkflowAnomaly::with_thresholds(Float(0.1), Float(0.5), Float(1.0));
    assert_eq!(ad.mild_threshold.0, 0.1);
    assert_eq!(ad.significant_threshold.0, 0.5);
    assert_eq!(ad.dramatic_threshold.0, 1.0);
}

// ------------------------------------------------------------------
// Anomaly record description
// ------------------------------------------------------------------

#[test]
fn test_anomaly_description_contains_command() {
    let mut p = make_normal_workflow();
    for _ in 0..20 {
        p.record_sequence(&["pip install", "python test", "pip install"]);
    }
    let mut ad = WorkflowAnomaly::<Float>::new();
    let result = ad.detect(&mut p, "pip install", 500);
    if let Some(r) = result {
        assert!(r.description.contains("pip install") || r.description.contains("KL"));
        assert_eq!(r.command, "pip install");
    }
}

// ------------------------------------------------------------------
// Default
// ------------------------------------------------------------------

#[test]
fn workflow_anomaly_test_default_impl() {
    let ad = WorkflowAnomaly::<Float>::default();
    assert!(ad.history.is_empty());
    assert_eq!(ad.mild_threshold.0, 0.5);
}

// ------------------------------------------------------------------
// Distances and trends on given values
// ------------------------------------------------------------------

fn floats(values: &[f64]) -> Vec<Float> {
    values.iter().map(|x| Float(*x)).collect()
}

#[test]
fn divergence_of_given_distributions() {
    let row = floats(&[0.75, 0.25]);
    let base = floats(&[0.5, 0.5]);
    assert_eq!(divergence(&row, &base), Float(0.75 * 1.5f64.ln() + 0.25 * 0.5f64.ln()));
    assert_eq!(divergence(&base, &base), Float(0.0));
}

#[test]
fn divergence_skips_states_without_probability() {
    let row = floats(&[0.0, 0.5, 0.5]);
    let base = floats(&[0.5, 0.0, 0.5]);
    assert_eq!(divergence(&row, &base), Float(0.0));
    let row = floats(&[0.0, 1.0]);
    assert_eq!(divergence(&row, &floats(&[0.5, 0.5])), Float(2.0f64.ln()));
}

#[test]
fn distances_stop_at_the_shorter_distribution() {
    let row = floats(&[1.0, 0.0, 0.0]);
    let base = floats(&[0.5]);
    assert_eq!(divergence(&row, &base), Float(2.0f64.ln()));
    assert_eq!(transport(&row, &base), Float(0.5));
    assert_eq!(transport(&base, &row), Float(0.5));
    assert_eq!(transport(&floats(&[]), &row), Float(0.0));
}

#[test]
fn transport_counts_how_far_mass_moves() {
    let near = floats(&[1.0, 0.0, 0.0]);
    let far = floats(&[0.0, 0.0, 1.0]);
    assert_eq!(transport(&near, &far), Float(2.0));
    assert_eq!(transport(&far, &near), Float(2.0));
    assert_eq!(transport(&near, &floats(&[0.0, 1.0, 0.0])), Float(1.0));
    assert_eq!(transport(&near, &near), Float(0.0));
}

#[test]
fn slope_of_given_values() {
    assert_eq!(slope(&floats(&[])), Float(0.0));
    assert_eq!(slope(&floats(&[7.0])), Float(0.0));
    assert_eq!(slope(&floats(&[1.0, 3.0, 5.0])), Float(2.0));
    assert_eq!(slope(&floats(&[5.0, 3.0, 1.0])), Float(-2.0));
    assert_eq!(slope(&floats(&[0.0, 1.0, 0.0])), Float(0.0));
}

#[test]
fn distances_of_a_small_predictor() {
    let mut p = CommandPredictor::new();
    p.record_sequence(&["a", "b", "a", "b", "a"]);
    let row = floats(&[1.0 / 4.0, 3.0 / 4.0]);
    let base = p.stationary_distribution::<Float>().unwrap();
    assert_eq!(WorkflowAnomaly::<Float>::kl_divergence(&mut p, "a"), divergence(&row, &base));
    assert_eq!(WorkflowAnomaly::<Float>::wasserstein_distance(&mut p, "a"), transport(&row, &base));
    assert!((transport(&row, &base).0 - 0.25).abs() < 1e-9);
    assert_eq!(p.chain().tm.n, 2);
}

#[test]
fn distances_of_an_unknown_command_leave_the_chain() {
    let mut p = CommandPredictor::new();
    p.record_sequence(&["a", "b"]);
    assert_eq!(WorkflowAnomaly::<Float>::kl_divergence(&mut p, "x"), Float(0.0));
    assert_eq!(WorkflowAnomaly::<Float>::wasserstein_distance(&mut p, "x"), Float(0.0));
    assert_eq!(p.chain().tm.n, 0);
}

// ------------------------------------------------------------------
// Severity and reports
// ------------------------------------------------------------------

#[test]
fn severity_from_each_threshold_on() {
    let ad = WorkflowAnomaly::<Float>::new();
    assert_eq!(ad.severity_of(Float(0.0)), Severity::Normal);
    assert_eq!(ad.severity_of(Float(0.499)), Severity::Normal);
    assert_eq!(ad.severity_of(Float(0.5)), Severity::Mild);
    assert_eq!(ad.severity_of(Float(1.499)), Severity::Mild);
    assert_eq!(ad.severity_of(Float(1.5)), Severity::Significant);
    assert_eq!(ad.severity_of(Float(2.999)), Severity::Significant);
    assert_eq!(ad.severity_of(Float(3.0)), Severity::Dramatic);
}

#[test]
fn highest_threshold_decides() {
    let ad = WorkflowAnomaly::with_thresholds(Float(3.0), Float(2.0), Float(1.0));
    assert_eq!(ad.severity_of(Float(1.0)), Severity::Dramatic);
    let ad = WorkflowAnomaly::with_thresholds(Float(3.0), Float(2.0), Float(9.0));
    assert_eq!(ad.severity_of(Float(2.5)), Severity::Significant);
}

#[test]
fn reports_in_words() {
    let mut ad = WorkflowAnomaly::<Float>::new();
    assert!(ad.report("ls", Float(0.25), Float(0.5), 1).is_none());
    let mild = ad.report("ls", Float(0.75), Float(0.5), 2).unwrap();
    assert_eq!(mild.command, "ls");
    assert_eq!(mild.kl_divergence, Float(0.75));
    assert_eq!(mild.wasserstein_distance, Float(0.5));
    assert_eq!(mild.severity, Severity::Mild);
    assert_eq!(mild.timestamp_secs, 2);
    assert_eq!(
        mild.description,
        "Mild workflow shift detected (KL=0.75). You might be switching context."
    );
    let significant = ad.report("cd", Float(2.0), Float(0.25), 3).unwrap();
    assert_eq!(significant.severity, Severity::Significant);
    assert_eq!(
        significant.description,
        "Command pattern just shifted — did you start a new task? (KL=2.00, W₁=0.25)"
    );
    let dramatic = ad.report("vi", Float(3.5), Float(1.0), 4).unwrap();
    assert_eq!(dramatic.severity, Severity::Dramatic);
    assert_eq!(
        dramatic.description,
        "Dramatic workflow change! Completely different command pattern. (KL=3.50, W₁=1.00)"
    );
    assert_eq!(ad.history().len(), 4);
    assert_eq!(ad.history()[3].timestamp_secs, 4);
    assert_eq!(ad.history()[0].kl_divergence, Float(0.25));
    assert_eq!(ad.history()[0].wasserstein_distance, Float(0.5));
}

#[test]
fn detection_takes_down_both_distances() {
    let mut p = make_normal_workflow();
    let mut ad = WorkflowAnomaly::<Float>::new();
    ad.mild_threshold = Float(-1.0);
    let command = p.commands()[0].clone();
    let kl = WorkflowAnomaly::<Float>::kl_divergence(&mut p, &command);
    let w1 = WorkflowAnomaly::<Float>::wasserstein_distance(&mut p, &command);
    let record = ad.detect(&mut p, &command, 77).unwrap();
    assert_eq!(record.command, command);
    assert_eq!(record.kl_divergence, kl);
    assert_eq!(record.wasserstein_distance, w1);
    assert_eq!(ad.history().len(), 1);
    assert_eq!(ad.history()[0].timestamp_secs, 77);
    assert_eq!(ad.history()[0].kl_divergence, kl);
}

// ------------------------------------------------------------------
// History
// ------------------------------------------------------------------

#[test]
fn history_keeps_the_latest_measurements() {
    let mut ad = WorkflowAnomaly::<Float>::new();
    ad.max_history = 2;
    for t in 0..5 {
        ad.report("ls", Float(0.0), Float(0.0), t);
        assert!(ad.history().len() <= 2);
    }
    let times: Vec<u64> = ad.history().iter().map(|r| r.timestamp_secs).collect();
    assert_eq!(times, vec![3, 4]);
}

#[test]
fn history_of_no_measurements() {
    let mut ad = WorkflowAnomaly::<Float>::new();
    ad.max_history = 0;
    ad.report("ls", Float(0.0), Float(0.0), 1);
    assert!(ad.history().is_empty());
}

#[test]
fn overlong_history_drops_one_measurement_at_a_time() {
    let mut ad = WorkflowAnomaly::<Float>::new();
    for t in 0..4 {
        ad.report("ls", Float(0.0), Float(0.0), t);
    }
    ad.max_history = 1;
    ad.report("ls", Float(0.0), Float(0.0), 4);
    let times: Vec<u64> = ad.history().iter().map(|r| r.timestamp_secs).collect();
    assert_eq!(times, vec![1, 2, 3, 4]);
}

#[test]
fn trend_is_positive_where_the_divergence_grows() {
    let mut ad = WorkflowAnomaly::<Float>::new();
    for t in 0..5u64 {
        ad.report("ls", Float(t as f64), Float(0.0), t);
    }
    assert_eq!(ad.divergence_trend(5), Float(1.0));
    assert_eq!(ad.divergence_trend(100), Float(1.0));
    for t in 0..3u64 {
        ad.report("ls", Float(4.0 - 2.0 * t as f64), Float(0.0), 5 + t);
    }
    assert_eq!(ad.divergence_trend(3), Float(-2.0));
    assert_eq!(ad.divergence_trend(1), Float(0.0));
    assert_eq!(ad.divergence_trend(0), Float(0.0));
}

#[test]
fn slope_under_shift_scale_and_reversal() {
    let values = [1.0, 4.0, 2.0, 8.0];
    let slope_of = |f: &dyn Fn(f64) -> f64| {
        slope(&values.iter().map(|x| Float(f(*x))).collect::<Vec<Float>>()).0
    };
    let plain = slope_of(&|x| x);
    assert!((plain - 1.9).abs() < 1e-12);
    assert!((slope_of(&|x| x + 16.0) - plain).abs() < 1e-12);
    assert!((slope_of(&|x| x * 3.0) - 3.0 * plain).abs() < 1e-12);
    let mut reversed = values;
    reversed.reverse();
    assert!((slope(&floats(&reversed)).0 + plain).abs() < 1e-12);
}

#[test]
fn distances_lie_in_their_range() {
    let mut p = make_normal_workflow();
    let n = p.num_commands() as f64;
    for command in p.commands().to_vec() {
        let kl = WorkflowAnomaly::<Float>::kl_divergence(&mut p, &command).0;
        let w1 = WorkflowAnomaly::<Float>::wasserstein_distance(&mut p, &command).0;
        assert!(kl.is_finite() && kl >= -1e-9);
        assert!(w1 >= 0.0 && w1 <= n - 1.0 + 1e-9);
    }
}

#[test]
fn equal_windows_have_equal_trends() {
    let mut a = WorkflowAnomaly::<Float>::new();
    let mut b = WorkflowAnomaly::<Float>::new();
    a.report("old", Float(9.0), Float(9.0), 1);
    for (i, kl) in [0.5, 0.25, 0.75].into_iter().enumerate() {
        a.report("x", Float(kl), Float(1.0), i as u64);
        b.report("y", Float(kl), Float(2.0), 100 + i as u64);
    }
    assert_eq!(a.divergence_trend(3), b.divergence_trend(7));
}

#[test]
fn larger_divergence_is_no_milder() {
    for thresholds in [(0.5, 1.5, 3.0), (3.0, 1.5, 0.5), (1.0, 1.0, 1.0)] {
        let (mild, significant, dramatic) = thresholds;
        let ad =
            WorkflowAnomaly::with_thresholds(Float(mild), Float(significant), Float(dramatic));
        let mut before = ad.severity_of(Float(f64::NEG_INFINITY));
        for step in 0..50 {
            let now = ad.severity_of(Float(step as f64 * 0.1));
            assert!(before <= now);
            before = now;
        }
    }
}

#[test]
fn distances_are_the_same_each_time() {
    let mut p = make_normal_workflow();
    for command in p.commands().to_vec() {
        let kl = WorkflowAnomaly::<Float>::kl_divergence(&mut p, &command);
        let w1 = WorkflowAnomaly::<Float>::wasserstein_distance(&mut p, &command);
        assert_eq!(WorkflowAnomaly::<Float>::kl_divergence(&mut p, &command), kl);
        assert_eq!(WorkflowAnomaly::<Float>::wasserstein_distance(&mut p, &command), w1);
    }
}
