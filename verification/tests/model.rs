use automl_core::budget::{Budget, BudgetRemaining, Consumption, EpochBudget, StepBudget, TrialBudget, Unbounded, WallTimeBudget, SECOND};
use automl_core::checkpoint::CheckpointPromoter;
use automl_core::error::{Error, Reason};
use automl_core::executor::{Executor, ResourceSpec, SequentialExecutor, ThreadExecutor, UNIT};
use automl_core::distribution::{Bounds, Distribution};
use automl_core::fusion::{fuse, Blend, Fusion, Modality, ModalityChoice, MultimodalPlan, MultimodalSpace};
use automl_core::memory::InMemoryStorage;
use automl_core::metrics::{Direction, NamedMetrics, Objective};
use automl_core::names::NameMap;
use automl_core::nas::{MacroSpace, OpPalette};
use automl_core::objective::{Objective as Evaluate, Outcome, ReportLog, ReportSink};
use automl_core::param::{Assignment, ParamSet, ParamValue};
use automl_core::pareto::ParetoFront;
use automl_core::process::{Decision, ProcessPool};
use automl_core::provenance::{now_ms, EnvSnapshot, TrialTiming};
use automl_core::qmc::{prime, radical_digits};
use automl_core::rng::TrialRng;
use automl_core::rows;
use automl_core::scalar::Scalar;
use automl_core::scheduler::{AdmissionError, Device, DeviceScheduler};
use automl_core::space::{Condition, ParamDef, SearchSpace};
use automl_core::storage::{Storage, StudyMeta};
use automl_core::text::{decimal_text, join, parse_decimal, precedes, same_text};
use automl_core::trial::{IntermediateReport, StudyId, TrialHistory, TrialId, TrialRecord, TrialState};
use std::sync::atomic::{AtomicUsize, Ordering};

fn s(x: f64) -> Scalar {
    Scalar::from_bits(x.to_bits())
}

fn texts(items: &[&str]) -> Vec<String> {
    items.iter().map(|t| t.to_string()).collect()
}

fn float(low: f64, high: f64) -> Distribution {
    Distribution::float(Bounds { low: s(low), high: s(high), floor: s(low - 1e-9), ceiling: s(high + 1e-9) })
}

fn log_float(low: f64, high: f64) -> Distribution {
    Distribution::log_float(Bounds { low: s(low), high: s(high), floor: s(low - 1e-9), ceiling: s(high + 1e-9) })
}

fn categorical(choices: &[&str]) -> Distribution {
    Distribution::categorical(texts(choices))
}

fn single(name: &str, x: f64) -> NamedMetrics {
    NamedMetrics::single(name, s(x))
}

fn fraction(r: BudgetRemaining) -> f64 {
    match r {
        BudgetRemaining::Fraction { left, total } => left as f64 / total as f64,
        other => panic!("expected a fraction, got {other:?}"),
    }
}

fn meta() -> StudyMeta {
    StudyMeta {
        name: "t".into(),
        directions: vec![("loss".into(), Direction::Minimize)],
        sampler_name: "random".into(),
        pruner_name: "none".into(),
    }
}

// ---- scalars, text, names -----------------------------------------------------------------

#[test]
fn scalars_compare_as_floats() {
    let values = [
        f64::NEG_INFINITY,
        -2.5,
        -0.0,
        0.0,
        f64::MIN_POSITIVE,
        1.0,
        1e300,
        f64::INFINITY,
        f64::NAN,
    ];
    for a in values {
        for b in values {
            assert_eq!(s(a).lt(&s(b)), a < b, "{a} < {b}");
            assert_eq!(s(a).le(&s(b)), a <= b, "{a} <= {b}");
            assert_eq!(s(a).equals(&s(b)), a == b, "{a} == {b}");
        }
        assert_eq!(s(a).is_nan(), a.is_nan());
        assert_eq!(s(a).is_finite(), a.is_finite());
        assert_eq!(s(a).neg().to_bits(), (-a).to_bits());
    }
    assert_eq!(Scalar::infinity(), s(f64::INFINITY));
    assert_eq!(Scalar::neg_infinity(), s(f64::NEG_INFINITY));
    assert_eq!(Scalar::zero(), s(0.0));
    assert_eq!(s(7.0).clamp(&s(0.0), &s(1.0)), s(1.0));
    assert_eq!(s(-7.0).clamp(&s(0.0), &s(1.0)), s(0.0));
    assert_eq!(s(0.5).clamp(&s(0.0), &s(1.0)), s(0.5));
}

#[test]
fn texts_compare_and_read_back() {
    assert!(precedes("a", "b"));
    assert!(precedes("a", "aa"));
    assert!(!precedes("b", "a"));
    assert!(!precedes("a", "a"));
    assert!(same_text("layer", "layer"));
    assert!(!same_text("layer", "layers"));
    assert_eq!(join("op", "3"), "op3");
    for n in [0u64, 7, 10, 99, 100, 1_234_567_890, u64::MAX] {
        assert_eq!(decimal_text(n), n.to_string());
    }
    for n in [0usize, 5, 10, 4096, usize::MAX] {
        assert_eq!(parse_decimal(&decimal_text(n as u64)), Some(n));
    }
    assert_eq!(parse_decimal(""), None);
    assert_eq!(parse_decimal("x1"), None);
    assert_eq!(parse_decimal("18446744073709551616"), None);
}

#[test]
fn names_iterate_in_order_and_replace() {
    let mut m: NameMap<u64> = NameMap::new();
    assert!(m.is_empty());
    m.insert("b", 2);
    m.insert("a", 1);
    m.insert("b", 3);
    assert_eq!(m.len(), 2);
    assert!(m.contains("a") && !m.contains("c"));
    assert_eq!(m.get("b"), Some(&3));
    let keys: Vec<String> = m.iter().into_iter().map(|(k, _)| k.clone()).collect();
    assert_eq!(keys, texts(&["a", "b"]));
    assert_eq!(m.entry(1), (&"b".to_string(), &3));
}

// ---- metrics and parameters ---------------------------------------------------------------

#[test]
fn direction_is_better() {
    assert!(Direction::Minimize.is_better(s(1.0), s(2.0)));
    assert!(!Direction::Minimize.is_better(s(2.0), s(1.0)));
    assert!(Direction::Maximize.is_better(s(2.0), s(1.0)));
}

#[test]
fn the_worst_value_loses_to_every_number() {
    for x in [-1e300, 0.0, 1e300] {
        assert!(Direction::Minimize.is_better(s(x), Direction::Minimize.worst()));
        assert!(Direction::Maximize.is_better(s(x), Direction::Maximize.worst()));
    }
    assert!(!Direction::Minimize.is_better(s(f64::NAN), s(1.0)));
    assert!(!Direction::Minimize.is_better(s(1.0), s(1.0)));
}

#[test]
fn metrics_named_access() {
    let m = NamedMetrics::new().with("loss", s(0.5)).with("latency_ms", s(12.0));
    assert_eq!(m.get("loss"), Some(s(0.5)));
    assert_eq!(m.get("latency_ms"), Some(s(12.0)));
    assert_eq!(m.get("nope"), None);
}

#[test]
fn metrics_iterate_in_name_order() {
    let m = NamedMetrics::new()
        .with("loss", s(0.21))
        .with("accuracy", s(0.93))
        .with("latency_ms", s(4.5));
    let keys: Vec<String> = m.iter().into_iter().map(|(k, _)| k.clone()).collect();
    assert_eq!(keys, texts(&["accuracy", "latency_ms", "loss"]));
    assert_eq!(m.clone().get("loss"), Some(s(0.21)));
    assert!(NamedMetrics::default().is_empty());
}

#[test]
fn typed_accessors_roundtrip() {
    let mut p = ParamSet::new();
    p.insert("lr", ParamValue::Float(s(0.01)));
    p.insert("depth", ParamValue::Int(4));
    p.insert("model", ParamValue::Categorical("mlp".into()));
    p.insert("bn", ParamValue::Bool(true));

    assert_eq!(p.float("lr").unwrap(), s(0.01));
    assert_eq!(p.integer("depth").unwrap(), 4);
    assert_eq!(p.categorical("model").unwrap(), "mlp");
    assert!(p.boolean("bn").unwrap());
}

#[test]
fn missing_and_mismatch_errors() {
    let mut p = ParamSet::new();
    p.insert("lr", ParamValue::Float(s(0.01)));
    assert!(matches!(p.float("nope"), Err(Error::MissingParam(_))));
    assert!(matches!(p.integer("lr"), Err(Error::ParamTypeMismatch { .. })));
}

#[test]
fn mismatch_errors_name_both_types() {
    let p = ParamSet::new().with("lr", ParamValue::Float(s(0.01)));
    match p.boolean("lr") {
        Err(Error::ParamTypeMismatch { name, actual, expected }) => {
            assert_eq!(name, "lr");
            assert_eq!(actual, "float");
            assert_eq!(expected, "bool");
        }
        other => panic!("unexpected {other:?}"),
    }
    assert!(matches!(p.categorical("lr"), Err(Error::ParamTypeMismatch { .. })));
    assert!(matches!(p.categorical("x"), Err(Error::MissingParam(n)) if n == "x"));
    assert_eq!(ParamValue::Int(3).as_int(), Some(3));
    assert_eq!(ParamValue::Int(3).as_float(), None);
    assert_eq!(ParamValue::Bool(true).as_bool(), Some(true));
    assert_eq!(ParamValue::Categorical("a".into()).as_str(), Some("a"));
}

#[test]
fn iteration_is_sorted() {
    let mut p = ParamSet::new();
    p.insert("z", ParamValue::Int(1));
    p.insert("a", ParamValue::Int(2));
    let keys: Vec<String> = p.iter().into_iter().map(|(k, _)| k.clone()).collect();
    assert_eq!(keys, vec!["a".to_string(), "z".to_string()]);
}

struct NullSink(TrialId);

impl ReportSink for NullSink {
    type Anchor = ();

    fn anchor(&self) {
        unreachable!("only contracts speak of it")
    }

    fn trial_of(_: ()) -> TrialId {
        unreachable!("only contracts speak of it")
    }

    fn log(&self) -> ReportLog {
        unreachable!("only contracts speak of it")
    }

    fn stopping(&self) -> bool {
        unreachable!("only contracts speak of it")
    }

    fn sound(&self) -> bool {
        true
    }

    fn trial_id(&self) -> TrialId {
        self.0
    }

    fn report(&mut self, _step: u64, _metrics: NamedMetrics) -> Result<(), Error> {
        Ok(())
    }

    fn should_stop(&self) -> bool {
        false
    }
}

struct Fun<F>(F);

impl<F: Fn(&ParamSet) -> Result<NamedMetrics, Error>> Evaluate for Fun<F> {
    fn allows(&self, _: Assignment, _: ReportLog, _: bool, _: Outcome) -> bool {
        unreachable!("only contracts speak of it")
    }

    fn evaluate<R: ReportSink>(&self, params: &ParamSet, _report: &mut R) -> Result<NamedMetrics, Error> {
        (self.0)(params)
    }
}

#[test]
fn closure_is_an_objective() {
    let obj = Fun(|p: &ParamSet| {
        let x = f64::from_bits(p.float("x").unwrap().to_bits());
        Ok(single("y", x * x))
    });
    let mut params = ParamSet::new();
    params.insert("x", ParamValue::Float(s(3.0)));
    let mut sink = NullSink(TrialId(0));
    let m = obj.evaluate(&params, &mut sink).unwrap();
    assert_eq!(m.get("y"), Some(s(9.0)));
}

// ---- budgets --------------------------------------------------------------------------------

#[test]
fn trial_budget_exhausts() {
    let b = TrialBudget { max_trials: 3 };
    let mut c = Consumption::new();
    assert!(!b.is_exhausted(&c));
    c.trials = 3;
    assert!(b.is_exhausted(&c));
    assert_eq!(fraction(b.remaining(&Consumption { trials: 0, ..Default::default() })), 1.0);
}

#[test]
fn wall_time_budget() {
    let b = WallTimeBudget { limit: 10 * SECOND };
    let c = Consumption { wall_time: 5 * SECOND, ..Default::default() };
    assert!(!b.is_exhausted(&c));
    assert_eq!(fraction(b.remaining(&c)), 0.5);
}

#[test]
fn unbounded_never_exhausts() {
    let b = Unbounded;
    assert!(!b.is_exhausted(&Consumption { trials: u64::MAX, ..Default::default() }));
}

#[test]
fn budgets_say_what_they_are_and_what_is_left() {
    assert_eq!(TrialBudget { max_trials: 3 }.describe(), "3 trials");
    assert_eq!(EpochBudget { max_epochs: 12 }.describe(), "12 epochs");
    assert_eq!(StepBudget { max_steps: 7 }.describe(), "7 steps");
    assert_eq!(Unbounded.describe(), "unbounded");
    assert_eq!(WallTimeBudget { limit: 10 * SECOND }.describe(), "10s wall time");
    assert!(EpochBudget { max_epochs: 12 }.is_exhausted(&Consumption { epochs: 15, ..Default::default() }));
    assert!(StepBudget { max_steps: 7 }.is_exhausted(&Consumption { steps: 7, ..Default::default() }));
    assert_eq!(Unbounded.remaining(&Consumption::new()), BudgetRemaining::Unbounded);
    let over = TrialBudget { max_trials: 3 }.remaining(&Consumption { trials: 5, ..Default::default() });
    assert_eq!(fraction(over), 0.0);
    assert_eq!(fraction(TrialBudget { max_trials: 0 }.remaining(&Consumption::new())), 0.0);
}

// ---- search spaces --------------------------------------------------------------------------

fn conditional_space() -> SearchSpace {
    SearchSpace::new()
        .add("model", categorical(&["mlp", "transformer"]))
        .add_conditional(
            "d_model",
            Distribution::integer(64, 512),
            Condition::when_eq("model", "transformer"),
        )
        .add_conditional(
            "hidden",
            Distribution::integer(16, 256),
            Condition::when_eq("model", "mlp"),
        )
}

#[test]
fn validate_accepts_well_ordered_conditions() {
    assert!(conditional_space().validate().is_ok());
}

#[test]
fn validate_rejects_forward_reference() {
    let space = SearchSpace::new().add_conditional(
        "d_model",
        Distribution::integer(64, 512),
        Condition::when_eq("model", "transformer"),
    );
    assert!(space.validate().is_err());
}

#[test]
fn activity_depends_on_parent() {
    let space = conditional_space();
    let mut p = ParamSet::new();
    p.insert("model", ParamValue::Categorical("transformer".into()));
    let d_model = space.get("d_model").unwrap();
    let hidden = space.get("hidden").unwrap();
    assert!(SearchSpace::is_active(d_model, &p));
    assert!(!SearchSpace::is_active(hidden, &p));
}

#[test]
fn validate_rejects_bad_condition_value() {
    let space = SearchSpace::new()
        .add("model", categorical(&["mlp"]))
        .add_conditional(
            "x",
            Distribution::integer(1, 2),
            Condition::when_eq("model", "not-a-choice"),
        );
    assert!(space.validate().is_err());
}

fn reason_of(r: Result<(), Error>) -> Reason {
    match r {
        Err(Error::InvalidDistribution { reason, .. }) => reason,
        other => panic!("unexpected {other:?}"),
    }
}

#[test]
fn every_rejection_says_why() {
    assert!(matches!(reason_of(float(f64::NAN, 1.0).validate("x")), Reason::BoundsNotFinite));
    assert!(matches!(
        reason_of(float(2.0, 1.0).validate("x")),
        Reason::FloatBoundsCrossed { low, high } if low == s(2.0) && high == s(1.0)
    ));
    assert!(matches!(reason_of(log_float(-1.0, 1.0).validate("x")), Reason::LogNeedsPositiveLow));
    let b = Bounds { low: s(0.0), high: s(1.0), floor: s(-1e-9), ceiling: s(1.0 + 1e-9) };
    assert!(matches!(
        reason_of(Distribution::stepped_float(b, s(0.0)).validate("x")),
        Reason::StepNotPositive
    ));
    let b = Bounds { low: s(0.5), ..b };
    let both = Distribution::Float { bounds: b, log: true, step: Some(s(0.1)) };
    assert!(matches!(reason_of(both.validate("x")), Reason::SteppedAndLog));
    assert!(matches!(
        reason_of(Distribution::integer(3, 2).validate("x")),
        Reason::IntBoundsCrossed { low: 3, high: 2 }
    ));
    let slow = Distribution::Int { low: 0, high: 4, log: false, step: 0 };
    assert!(matches!(reason_of(slow.validate("x")), Reason::StepBelowOne));
    assert!(matches!(reason_of(Distribution::log_int(0, 4).validate("x")), Reason::LogNeedsPositiveLow));
    assert!(matches!(categorical(&[]).validate("x"), Err(Error::EmptyCategorical(n)) if n == "x"));
    assert!(Distribution::boolean().validate("x").is_ok());
    assert_eq!(float(0.0, 1.0).kind(), "float");
    assert_eq!(Distribution::integer(0, 1).kind(), "int");
    assert_eq!(categorical(&["a"]).kind(), "categorical");
    assert_eq!(Distribution::boolean().kind(), "bool");
}

#[test]
fn errors_read_as_sentences() {
    assert_eq!(
        Error::MissingParam("lr".into()).message(""),
        "parameter `lr` is missing from the parameter set"
    );
    assert_eq!(
        Error::NotFound { kind: "trial", id: TrialId(7).label() }.message(""),
        "trial `trial#7` not found in storage"
    );
    assert_eq!(
        Error::ParamTypeMismatch { name: "lr".into(), actual: "float".into(), expected: "int".into() }
            .message(""),
        "parameter `lr` is a float but was requested as int"
    );
    let clash = Error::DistributionMismatch {
        name: "x".into(),
        existing: "int".into(),
        requested: "float".into(),
    };
    assert_eq!(
        clash.message(""),
        "parameter `x` was already defined with a different distribution (int vs float)"
    );
    let crossed = Reason::IntBoundsCrossed { low: 3, high: i64::MIN };
    assert_eq!(crossed.message().unwrap(), "low (3) > high (-9223372036854775808)");
    let words = crossed.message().unwrap();
    assert_eq!(
        Error::InvalidDistribution { name: "k".into(), reason: crossed }.message(&words),
        "invalid distribution for `k`: low (3) > high (-9223372036854775808)"
    );
    assert_eq!(Reason::FloatBoundsCrossed { low: s(2.0), high: s(1.0) }.message(), None);
    assert_eq!(Error::EmptyCategorical("c".into()).message(""), "categorical parameter `c` has no choices");
    assert_eq!(Error::Objective("diverged".into()).message(""), "objective evaluation failed: diverged");
    assert_eq!(Error::Storage("disk full".into()).message(""), "storage error: disk full");
    assert_eq!(Error::Serde("eof".into()).message(""), "serialization error: eof");
}

#[test]
fn spaces_reject_bad_structure() {
    let twice = SearchSpace::new()
        .add("x", Distribution::boolean())
        .add("x", Distribution::boolean());
    assert!(matches!(reason_of(twice.validate()), Reason::DuplicateName));
    let mut grown = SearchSpace::new().add("x", Distribution::boolean());
    let def = ParamDef { name: "x".into(), distribution: Distribution::integer(0, 1), condition: None };
    assert!(matches!(reason_of(grown.try_add(def)), Reason::DuplicateName));
    assert_eq!(grown.len(), 1);
    let orphan = SearchSpace::new().add_conditional(
        "y",
        Distribution::boolean(),
        Condition::when_eq("nobody", "v"),
    );
    assert!(matches!(reason_of(orphan.validate()), Reason::ParentNotDeclared { parent } if parent == "nobody"));
    let stray = SearchSpace::new().add("m", categorical(&["a"])).add_conditional(
        "y",
        Distribution::boolean(),
        Condition::when_in("m", vec![ParamValue::Categorical("b".into())]),
    );
    assert!(matches!(
        reason_of(stray.validate()),
        Reason::GateValueNotInParent { value: ParamValue::Categorical(v), parent } if v == "b" && parent == "m"
    ));
}

#[test]
fn membership_allows_a_tolerance_on_floats() {
    let d = float(0.0, 1.0);
    assert!(d.contains(&ParamValue::Float(s(1.0 + 5e-10))));
    assert!(!d.contains(&ParamValue::Float(s(1.1))));
    assert!(!d.contains(&ParamValue::Float(s(f64::NAN))));
    assert!(!d.contains(&ParamValue::Int(0)));
    assert!(Distribution::integer(1, 3).contains(&ParamValue::Int(3)));
    assert!(!Distribution::integer(1, 3).contains(&ParamValue::Int(4)));
    assert!(categorical(&["a"]).contains(&ParamValue::Categorical("a".into())));
    assert!(!categorical(&["a"]).contains(&ParamValue::Categorical("b".into())));
    assert!(Distribution::boolean().contains(&ParamValue::Bool(false)));
}

// ---- trials and storage ---------------------------------------------------------------------

#[test]
fn history_filters_completed() {
    let mut r1 = TrialRecord::new(TrialId(0), StudyId(0), ParamSet::new(), 1);
    r1.state = TrialState::Complete;
    r1.final_metrics = Some(single("loss", 0.2));
    let mut r2 = TrialRecord::new(TrialId(1), StudyId(0), ParamSet::new(), 2);
    r2.state = TrialState::Failed;
    let h = TrialHistory::new(vec![r1, r2]);
    assert_eq!(h.completed().len(), 1);
    assert_eq!(h.completed_values("loss"), vec![s(0.2)]);
}

#[test]
fn identifiers_have_labels() {
    assert_eq!(TrialId(7).label(), "trial#7");
    assert_eq!(StudyId(2).label(), "study#2");
}

#[test]
fn lifecycle_roundtrip() {
    let mut st = InMemoryStorage::new();
    let study = st.create_study(meta()).unwrap();
    let t = st.enqueue_trial(study, ParamSet::new(), 42).unwrap();
    st.start_trial(t).unwrap();
    st.report(t, 1, single("loss", 0.5)).unwrap();
    st.complete(t, TrialState::Complete, Some(single("loss", 0.3))).unwrap();

    let rec = st.load_trial(t).unwrap();
    assert_eq!(rec.state, TrialState::Complete);
    assert_eq!(rec.final_value("loss"), Some(s(0.3)));
    assert_eq!(st.load_history(study).unwrap().len(), 1);
}

#[test]
fn report_is_idempotent_by_step() {
    let mut st = InMemoryStorage::new();
    let study = st.create_study(meta()).unwrap();
    let t = st.enqueue_trial(study, ParamSet::new(), 1).unwrap();
    st.report(t, 1, single("loss", 0.9)).unwrap();
    st.report(t, 1, single("loss", 0.4)).unwrap(); // retry same step
    let rec = st.load_trial(t).unwrap();
    assert_eq!(rec.intermediate.len(), 1);
    assert_eq!(rec.intermediate[0].metrics.get("loss"), Some(s(0.4)));
}

#[test]
fn enqueue_unknown_study_errors() {
    let mut st = InMemoryStorage::new();
    assert!(matches!(
        st.enqueue_trial(StudyId(99), ParamSet::new(), 1),
        Err(Error::NotFound { kind: "study", .. })
    ));
}

#[test]
fn provenance_and_timing_are_stamped() {
    let env = EnvSnapshot { os: "linux".into(), arch: "x86_64".into(), core_version: "1.0.0".into() };
    let mut st = InMemoryStorage::new().with_env(env);
    let study = st.create_study(meta()).unwrap();
    let t = st.enqueue_trial(study, ParamSet::new(), 1).unwrap();

    let queued = st.load_trial(t).unwrap();
    assert!(queued.timing.queued_at_ms > 0);
    assert!(queued.timing.started_at_ms.is_none());
    assert!(!queued.env.os.is_empty());

    st.start_trial(t).unwrap();
    st.complete(t, TrialState::Complete, None).unwrap();
    let done = st.load_trial(t).unwrap();
    assert!(done.timing.started_at_ms.is_some());
    assert!(done.timing.completed_at_ms.is_some());
    // wall time is defined once both ends are present.
    assert!(done.wall_time_ms().is_some());
}

#[test]
fn stamps_are_read_off_the_clock() {
    let mut st = InMemoryStorage::new();
    let study = st.create_study(meta()).unwrap();
    let began = now_ms();
    let t = st.enqueue_trial(study, ParamSet::new(), 1).unwrap();
    st.start_trial(t).unwrap();
    st.complete(t, TrialState::Complete, None).unwrap();
    let ended = now_ms();
    let timing = st.load_trial(t).unwrap().timing;
    for stamp in [timing.queued_at_ms, timing.started_at_ms.unwrap(), timing.completed_at_ms.unwrap()] {
        assert!((began..=ended).contains(&stamp));
    }
}

#[test]
fn ids_count_up_from_zero_and_the_environment_stays() {
    let env = EnvSnapshot { os: "plan9".into(), arch: "mips".into(), core_version: "0.1".into() };
    let mut st = InMemoryStorage::new().with_env(env);
    assert_eq!(st.create_study(meta()).unwrap(), StudyId(0));
    assert_eq!(st.create_study(meta()).unwrap(), StudyId(1));
    for n in 0..3u64 {
        let t = st.enqueue_trial(StudyId(n % 2), ParamSet::new(), n).unwrap();
        assert_eq!(t, TrialId(n));
        assert_eq!(st.load_trial(t).unwrap().env.os, "plan9");
        st.report(t, 1, single("loss", 0.5)).unwrap();
        st.save_artifact(t, "w", vec![1]).unwrap();
        assert!(st.claim_trial(StudyId(n % 2), "a", 0, 10).unwrap().is_some());
        assert!(st.renew_lease(t, "a", 20).unwrap());
        assert_eq!(st.recover_orphans(StudyId(n % 2), 5).unwrap(), 0);
    }
    let mut blank = InMemoryStorage::default();
    let study = blank.create_study(meta()).unwrap();
    let t = blank.enqueue_trial(study, ParamSet::new(), 1).unwrap();
    assert_eq!(blank.load_trial(t).unwrap().env.os, "");
    // Artifacts are taken of trials that were never enqueued, too.
    blank.save_artifact(TrialId(77), "w", vec![3]).unwrap();
    assert_eq!(blank.load_artifact(TrialId(77), "w").unwrap(), Some(vec![3]));
}

#[test]
fn reports_stay_in_step_order() {
    let mut st = InMemoryStorage::new();
    let study = st.create_study(meta()).unwrap();
    let t = st.enqueue_trial(study, ParamSet::new(), 1).unwrap();
    for step in [5, 1, 3, 5] {
        st.report(t, step, single("loss", step as f64)).unwrap();
    }
    let rec = st.load_trial(t).unwrap();
    let steps: Vec<u64> = rec.intermediate.iter().map(|r| r.step).collect();
    assert_eq!(steps, vec![1, 3, 5]);
    assert_eq!(rec.last_intermediate().unwrap().step, 5);
    let history = st.load_history(study).unwrap();
    let steps: Vec<u64> = history.records()[0].intermediate.iter().map(|r| r.step).collect();
    assert_eq!(steps, vec![1, 3, 5]);
}

#[test]
fn unknown_trials_are_refused() {
    let mut st = InMemoryStorage::new();
    let t = TrialId(5);
    assert!(matches!(st.load_trial(t), Err(Error::NotFound { kind: "trial", .. })));
    assert!(matches!(st.start_trial(t), Err(Error::NotFound { kind: "trial", .. })));
    assert!(matches!(st.report(t, 1, NamedMetrics::new()), Err(Error::NotFound { .. })));
    assert!(matches!(st.complete(t, TrialState::Failed, None), Err(Error::NotFound { .. })));
    assert!(matches!(st.load_history(StudyId(1)), Err(Error::NotFound { kind: "study", .. })));
    assert!(matches!(st.load_meta(StudyId(1)), Err(Error::NotFound { kind: "study", .. })));
}

#[test]
fn artifacts_are_listed_and_replaced() {
    let mut st = InMemoryStorage::new();
    let study = st.create_study(meta()).unwrap();
    let t = st.enqueue_trial(study, ParamSet::new(), 1).unwrap();
    assert_eq!(st.load_artifact(t, "ckpt").unwrap(), None);
    st.save_artifact(t, "weights", vec![9]).unwrap();
    st.save_artifact(t, "ckpt", vec![0, 1, 255]).unwrap();
    st.save_artifact(t, "ckpt", vec![7]).unwrap();
    assert_eq!(st.load_artifact(t, "ckpt").unwrap(), Some(vec![7]));
    assert_eq!(st.list_artifacts(t).unwrap(), texts(&["ckpt", "weights"]));
}

#[test]
fn a_lease_is_exclusive_until_it_expires() {
    let mut st = InMemoryStorage::new();
    let study = st.create_study(meta()).unwrap();
    let t = st.enqueue_trial(study, ParamSet::new(), 1).unwrap();
    assert_eq!(st.claim_trial(study, "a", 0, 100).unwrap(), Some(t));
    for w in 0..16u64 {
        assert_eq!(st.claim_trial(study, &format!("w{w}"), 50, 150).unwrap(), None);
    }
    assert!(st.renew_lease(t, "a", 200).unwrap());
    assert!(!st.renew_lease(t, "b", 200).unwrap());
    assert_eq!(st.claim_trial(study, "b", 250, 350).unwrap(), Some(t));
    assert_eq!(st.recover_orphans(study, 400).unwrap(), 1);
    assert_eq!(st.recover_orphans(study, 400).unwrap(), 0);
    assert_eq!(st.load_trial(t).unwrap().state, TrialState::Waiting);
}

#[test]
fn metadata_names_the_single_objective() {
    let mut st = InMemoryStorage::new();
    let study = st.create_study(meta()).unwrap();
    let back = st.load_meta(study).unwrap();
    assert_eq!(back.name, "t");
    assert!(!back.is_multi_objective());
    assert_eq!(back.single_objective(), Some(&("loss".to_string(), Direction::Minimize)));
    let two = StudyMeta {
        directions: vec![("a".into(), Direction::Minimize), ("b".into(), Direction::Maximize)],
        ..meta()
    };
    assert!(two.is_multi_objective());
    assert_eq!(two.single_objective(), None);
}

// ---- rows -------------------------------------------------------------------------------------

#[test]
fn rows_restore_the_record() {
    let mut rec = TrialRecord::new(
        TrialId(7),
        StudyId(2),
        ParamSet::new().with("x", ParamValue::Float(s(0.5))),
        u64::MAX,
    );
    rec.state = TrialState::Complete;
    rec.intermediate = vec![
        IntermediateReport { step: 1, metrics: single("loss", 0.9) },
        IntermediateReport { step: 2, metrics: single("loss", 0.4) },
    ];
    rec.final_metrics = Some(single("loss", 0.3));
    rec.timing = TrialTiming { queued_at_ms: 10, started_at_ms: Some(20), completed_at_ms: Some(30) };

    let row = rows::lay_out(&rec);
    let reports = rec
        .intermediate
        .iter()
        .map(|r| rows::ReportRow { step: rows::to_integer(r.step), metrics: r.metrics.clone() })
        .collect();
    let back = rows::restore(rec.id, row, reports);
    assert_eq!(back.id, rec.id);
    assert_eq!(back.study_id, rec.study_id);
    assert_eq!(back.seed, rec.seed);
    assert_eq!(back.state, TrialState::Complete);
    assert_eq!(back.timing, rec.timing);
    assert_eq!(back.env, rec.env);
    assert_eq!(back.intermediate.len(), 2);
    assert_eq!(back.intermediate[1].step, 2);
    assert_eq!(back.final_value("loss"), Some(s(0.3)));
    assert_eq!(back.params.float("x").unwrap(), s(0.5));
}

#[test]
fn stored_reports_read_back_in_step_order() {
    let mut rec = TrialRecord::new(TrialId(7), StudyId(2), ParamSet::new(), 1);
    rec.state = TrialState::Running;
    let rows_of = |steps: &[(i64, f64)]| {
        steps
            .iter()
            .map(|(step, loss)| rows::ReportRow { step: *step, metrics: single("loss", *loss) })
            .collect::<Vec<_>>()
    };
    let found = rows_of(&[(5, 0.5), (1, 0.9), (3, 0.7), (1, 0.8)]);
    let back = rows::read_trial(rec.id, Some(rows::lay_out(&rec)), found).unwrap();
    let got: Vec<(u64, Option<Scalar>)> =
        back.intermediate.iter().map(|r| (r.step, r.metrics.get("loss"))).collect();
    // Of two rows for one step, the later one holds.
    assert_eq!(got, vec![(1, Some(s(0.8))), (3, Some(s(0.7))), (5, Some(s(0.5)))]);
    assert!(matches!(
        rows::read_trial(TrialId(7), None, Vec::new()),
        Err(Error::NotFound { kind: "trial", id }) if id == TrialId(7).label()
    ));
}

#[test]
fn signed_columns_hold_unsigned_numbers() {
    for x in [0u64, 1, 41, i64::MAX as u64, u64::MAX] {
        assert_eq!(rows::to_integer(x), x as i64);
        assert_eq!(rows::from_integer(x as i64), x);
    }
    assert!(rows::not_found_if_zero(1, TrialId(3)).is_ok());
    assert!(matches!(
        rows::not_found_if_zero(0, TrialId(3)),
        Err(Error::NotFound { kind: "trial", .. })
    ));
    assert_eq!(rows::pending(0, 4), vec![1, 2, 3, 4]);
    assert_eq!(rows::pending(2, 4), vec![3, 4]);
    assert_eq!(rows::pending(4, 4), Vec::<i64>::new());
}

// ---- Pareto fronts ---------------------------------------------------------------------------

fn objs() -> Vec<Objective> {
    vec![Objective::minimize("latency"), Objective::maximize("accuracy")]
}

fn m(latency: f64, accuracy: f64) -> NamedMetrics {
    NamedMetrics::new().with("latency", s(latency)).with("accuracy", s(accuracy))
}

#[test]
fn insert_keeps_non_dominated() {
    let mut front = ParetoFront::new(objs());
    // Lower latency & higher accuracy both better.
    assert!(front.insert(TrialId(0), &m(10.0, 0.90)));
    assert!(front.insert(TrialId(1), &m(20.0, 0.95))); // trades latency for accuracy
    assert_eq!(front.len(), 2);
    // A point worse on both is dominated -> rejected.
    assert!(!front.insert(TrialId(2), &m(25.0, 0.85)));
    assert_eq!(front.len(), 2);
    // A point better on both dominates trial 0 -> replaces it.
    assert!(front.insert(TrialId(3), &m(8.0, 0.92)));
    assert!(!front.trial_ids().contains(&TrialId(0)));
    assert!(front.trial_ids().contains(&TrialId(3)));
}

#[test]
fn a_front_holds_each_point_once() {
    let mut front = ParetoFront::new(objs());
    assert!(front.insert(TrialId(0), &m(10.0, 0.9)));
    assert!(!front.insert(TrialId(1), &m(10.0, 0.9)));
    assert!(front.insert(TrialId(2), &m(0.0, 0.5)));
    assert!(!front.insert(TrialId(3), &m(-0.0, 0.5)));
    assert_eq!(front.trial_ids(), vec![TrialId(0), TrialId(2)]);
}

#[test]
fn dominance_respects_direction() {
    let front = ParetoFront::new(objs());
    // Lower latency, higher accuracy => (5, 0.9) dominates (10, 0.8).
    assert!(front.dominates(&m(5.0, 0.9), &m(10.0, 0.8)));
    assert!(!front.dominates(&m(10.0, 0.8), &m(5.0, 0.9)));
    // Trade-off: neither dominates.
    assert!(!front.dominates(&m(5.0, 0.8), &m(10.0, 0.9)));
}

#[test]
fn incomplete_metrics_never_enter_a_front() {
    let mut front = ParetoFront::new(objs());
    assert!(!front.insert(TrialId(0), &single("latency", 1.0)));
    assert!(front.is_empty());
    assert!(front.insert(TrialId(1), &m(1.0, 0.5)));
    assert!(!front.insert(TrialId(2), &m(1.0, 0.5)));
    assert_eq!(front.members().len(), 1);
    assert_eq!(front.objectives().len(), 2);
}

// ---- executors and devices -------------------------------------------------------------------

#[test]
fn thread_executor_borrows_non_static_state() {
    // A stack-local the jobs borrow.
    let data = [1u64, 2, 3, 4];
    let sum = AtomicUsize::new(0);
    let jobs: Vec<_> = data
        .iter()
        .map(|&v| {
            let sum = &sum;
            move || {
                sum.fetch_add(v as usize, Ordering::SeqCst);
            }
        })
        .collect();
    for bucket in ThreadExecutor::new(3).buckets(jobs) {
        assert!(SequentialExecutor.run_all(bucket));
    }
    assert_eq!(sum.load(Ordering::SeqCst), 10);
}

#[test]
fn executors_describe_themselves() {
    assert_eq!(SequentialExecutor.preferred_batch_size(), 1);
    assert_eq!(SequentialExecutor.name(), "sequential");
    assert_eq!(SequentialExecutor.capacity().cpus, UNIT);
    let t = ThreadExecutor::new(0);
    assert_eq!(t.preferred_batch_size(), 1);
    assert_eq!(ThreadExecutor::new(4).capacity().cpus, 4 * UNIT);
    assert_eq!(t.name(), "thread");
}

fn cpus(n: f64) -> ResourceSpec {
    ResourceSpec::cpus((n * UNIT as f64).round() as u64)
}

fn part(x: f64) -> u64 {
    (x * UNIT as f64).round() as u64
}

fn scheduler() -> DeviceScheduler {
    DeviceScheduler::new(vec![
        Device::new("gpu:0", cpus(4.0).with_gpus(part(1.0)).with_memory_mb(8000)),
        Device::new("gpu:1", cpus(4.0).with_gpus(part(1.0)).with_memory_mb(8000)),
    ])
}

#[test]
fn admits_until_capacity_then_refuses() {
    let mut sch = scheduler();
    let req = cpus(2.0).with_gpus(part(0.5)).with_memory_mb(4000);
    // Two devices, each fits two of these -> four leases total.
    let l1 = sch.try_admit(&req).unwrap();
    let l2 = sch.try_admit(&req).unwrap();
    let l3 = sch.try_admit(&req).unwrap();
    let l4 = sch.try_admit(&req).unwrap();
    // Fifth exceeds all remaining capacity.
    assert!(matches!(sch.try_admit(&req), Err(AdmissionError::NoCapacityAvailable)));

    // Releasing one frees room for exactly one more.
    sch.release(l1);
    let l5 = sch.try_admit(&req).unwrap();
    assert!(matches!(sch.try_admit(&req), Err(AdmissionError::NoCapacityAvailable)));
    for lease in [l2, l3, l4, l5] {
        sch.release(lease);
    }
    assert_eq!(sch.used("gpu:0").unwrap().cpus, 0);
}

#[test]
fn rejects_impossible_configuration() {
    let mut sch = scheduler();
    // No device has 32 GB, so this can never be scheduled.
    let too_big = cpus(1.0).with_memory_mb(32_000);
    assert!(matches!(sch.try_admit(&too_big), Err(AdmissionError::Impossible)));
    assert!(!sch.is_feasible(&too_big));
}

#[test]
fn lease_release_restores_capacity() {
    let mut sch = scheduler();
    let req = cpus(4.0).with_gpus(part(1.0)).with_memory_mb(8000);
    let full = sch.try_admit(&req).unwrap();
    // gpu:0 is now fully used.
    assert!(sch.used("gpu:0").unwrap().gpus >= part(1.0));
    assert_eq!(full.device_id(), "gpu:0");
    sch.release(full);
    // After the release, the device is free again.
    assert!(sch.used("gpu:0").unwrap().gpus < 1);
}

#[test]
fn shared_fractional_gpu_packs_onto_one_device() {
    // Three 0.3-GPU trials should share a single 1.0-GPU device (best-fit).
    let mut sch = DeviceScheduler::new(vec![Device::new(
        "gpu:0",
        cpus(8.0).with_gpus(part(1.0)).with_memory_mb(16000),
    )]);
    let req = cpus(1.0).with_gpus(part(0.3)).with_memory_mb(1000);
    let _a = sch.try_admit(&req).unwrap();
    let _b = sch.try_admit(&req).unwrap();
    let _c = sch.try_admit(&req).unwrap();
    assert_eq!(sch.used("gpu:0").unwrap().gpus, part(0.9));
}

#[test]
fn admission_errors_explain_themselves() {
    assert!(AdmissionError::Impossible.message().contains("no device"));
    assert_ne!(
        AdmissionError::Impossible.message(),
        AdmissionError::NoCapacityAvailable.message()
    );
    assert!(scheduler().used("gpu:7").is_none());
}

// ---- checkpoints ------------------------------------------------------------------------------

fn promoter(dir: Direction) -> CheckpointPromoter<InMemoryStorage> {
    CheckpointPromoter::new(InMemoryStorage::new(), 1, 3, dir)
}

#[test]
fn rungs_are_geometric() {
    let p = promoter(Direction::Maximize); // min=1, eta=3 -> 1, 3, 9, 27
    assert_eq!(p.rung_of(1), Some(0));
    assert_eq!(p.rung_of(3), Some(1));
    assert_eq!(p.rung_of(9), Some(2));
    assert_eq!(p.rung_of(27), Some(3));
    // Between rungs: not a rung.
    assert_eq!(p.rung_of(2), None);
    assert_eq!(p.rung_of(4), None);
    assert_eq!(p.rung_of(0), None);
}

#[test]
fn promotes_top_fraction_and_warm_starts_from_best() {
    let mut p = promoter(Direction::Maximize);
    // Six trials reach rung 0 with distinct scores; top ceil(6/3)=2 promoted.
    for (i, score) in [0.1, 0.9, 0.5, 0.8, 0.2, 0.3].into_iter().enumerate() {
        let payload = format!("weights-{i}");
        p.record(0, TrialId(i as u64), s(score), payload.as_bytes().to_vec()).unwrap();
    }
    let promoted = p.promoted(0);
    assert_eq!(promoted.len(), 2);
    assert!(promoted.contains(&TrialId(1))); // score 0.9
    assert!(promoted.contains(&TrialId(3))); // score 0.8
    assert!(p.is_promoted(0, TrialId(1)));
    assert!(!p.is_promoted(0, TrialId(0)));
    // The warm-start checkpoint is the single best trial's bytes.
    let bytes = p.warm_start(0).unwrap().unwrap();
    assert_eq!(bytes, b"weights-1");
}

#[test]
fn minimize_selects_lowest_scores() {
    let mut p = promoter(Direction::Minimize);
    for (i, loss) in [0.5, 0.1, 0.9].into_iter().enumerate() {
        p.record(0, TrialId(i as u64), s(loss), b"w".to_vec()).unwrap();
    }
    // ceil(3/3)=1 promoted: the lowest loss (trial 1, 0.1).
    assert_eq!(p.promoted(0), vec![TrialId(1)]);
}

#[test]
fn record_is_idempotent_by_trial_and_rung() {
    let mut p = promoter(Direction::Maximize);
    p.record(0, TrialId(0), s(0.2), b"old".to_vec()).unwrap();
    p.record(0, TrialId(0), s(0.7), b"new".to_vec()).unwrap();
    // One entry, updated score and checkpoint.
    let ranked = p.ranked(0);
    assert_eq!(ranked, vec![(TrialId(0), s(0.7))]);
    assert_eq!(p.warm_start(0).unwrap().unwrap(), b"new");
}

#[test]
fn empty_rung_has_no_warm_start() {
    let p = promoter(Direction::Maximize);
    assert!(p.warm_start(0).unwrap().is_none());
    assert!(p.promoted(0).is_empty());
}

#[test]
fn checkpoints_are_named_by_rung() {
    assert_eq!(CheckpointPromoter::<InMemoryStorage>::checkpoint_name(2), "ckpt@rung2");
    let p = promoter(Direction::Maximize);
    assert_eq!(p.rung_of(u64::MAX), None);
}

// ---- process supervision ----------------------------------------------------------------------

#[test]
fn report_defaults_are_sane() {
    let pool = ProcessPool::new("noop")
        .arg("a")
        .arg("b")
        .workers(3)
        .lease_ttl_ms(500)
        .max_restarts(4);
    assert_eq!(pool.workers, 3);
    assert_eq!(pool.lease_ttl_ms, 500);
    assert_eq!(pool.max_restarts, 4);
    assert_eq!(pool.base_args.len(), 2);
}

#[test]
fn workers_are_numbered_across_rounds() {
    let pool = ProcessPool::new("worker").workers(3).arg("--drain");
    let mut ids: Vec<String> = Vec::new();
    for round in 0..3 {
        for w in 0..3 {
            let args = pool.arguments(round, w);
            assert_eq!(args[0], "--drain");
            ids.push(args[1].clone());
        }
    }
    assert_eq!(ids, ["w0", "w1", "w2", "w3", "w4", "w5", "w6", "w7", "w8"]);
}

#[test]
fn supervision_stops_when_drained_or_out_of_restarts() {
    let pool = ProcessPool::new("worker").workers(2).max_restarts(1).env("K", "v");
    assert_eq!(pool.envs, vec![("K".to_string(), "v".to_string())]);
    assert_eq!(pool.arguments(0, 1).last().unwrap(), "w1");
    let start = pool.start();
    assert!(matches!(pool.inspected(start, true), Decision::Stop(r) if r.drained && r.spawned == 0));
    let after = match pool.inspected(start, false) {
        Decision::Run(_) => pool.finished(start, 1),
        other => panic!("unexpected {other:?}"),
    };
    assert_eq!(after.report.spawned, 2);
    assert_eq!(after.report.crashed, 1);
    let last = match pool.inspected(after, false) {
        Decision::Run(_) => pool.finished(after, 2),
        other => panic!("unexpected {other:?}"),
    };
    assert!(matches!(
        pool.inspected(last, false),
        Decision::Stop(r) if !r.drained && r.spawned == 4 && r.crashed == 3
    ));
}

#[test]
fn a_queue_is_drained_when_every_trial_is_terminal() {
    let mut done = TrialRecord::new(TrialId(0), StudyId(0), ParamSet::new(), 0);
    done.state = TrialState::Failed;
    let waiting = TrialRecord::new(TrialId(1), StudyId(0), ParamSet::new(), 0);
    assert!(ProcessPool::is_drained(&TrialHistory::new(vec![done.clone()])));
    assert!(!ProcessPool::is_drained(&TrialHistory::new(vec![done, waiting])));
}

// ---- fusion -----------------------------------------------------------------------------------

struct Floats;

impl Blend<f32> for Floats {
    fn total(&self, values: &Vec<f32>) -> f32 {
        values.iter().sum()
    }

    fn share(&self, total: f32, n: usize) -> f32 {
        total / n as f32
    }
}

#[test]
fn fuse_concat_and_mean() {
    let a = vec![1.0, 2.0];
    let b = vec![3.0, 4.0];
    let both = vec![a, b];
    assert_eq!(fuse(&both, Fusion::Concat, &Floats).unwrap(), vec![1.0, 2.0, 3.0, 4.0]);
    assert_eq!(fuse(&both, Fusion::Mean, &Floats).unwrap(), vec![2.0, 3.0]);
    assert_eq!(fuse(&both, Fusion::Sum, &Floats).unwrap(), vec![4.0, 6.0]);
}

#[test]
fn mean_fusion_rejects_mismatched_dims() {
    let ragged = vec![vec![1.0, 2.0], vec![3.0]];
    let bad = fuse(&ragged, Fusion::Mean, &Floats);
    assert!(bad.is_err());
    // Concat tolerates ragged dims.
    assert!(fuse(&ragged, Fusion::Concat, &Floats).is_ok());
}

#[test]
fn fusing_nothing_is_an_error() {
    let none: Vec<Vec<f32>> = Vec::new();
    assert!(matches!(fuse(&none, Fusion::Sum, &Floats), Err(Error::Objective(_))));
    assert_eq!(automl_core::fusion::column(&vec![vec![1.0f32, 2.0], vec![3.0, 4.0]], 1), vec![2.0, 4.0]);
}

#[test]
fn multimodal_validates_before_scheduling() {
    let bad = MultimodalPlan {
        encoders: vec![
            ModalityChoice { name: "img".into(), encoder: "cnn".into(), dim: 8 },
            ModalityChoice { name: "txt".into(), encoder: "rnn".into(), dim: 4 },
        ],
        fusion: Fusion::Mean,
    };
    assert!(bad.validate().is_err(), "mismatched dims must be rejected up front");

    let fused = fuse(&vec![vec![1.0, 2.0], vec![3.0, 4.0]], Fusion::Concat, &Floats).unwrap();
    assert_eq!(fused, vec![1.0, 2.0, 3.0, 4.0]);
}

#[test]
fn fusions_are_read_from_their_labels() {
    assert_eq!(Fusion::from_label("concat"), Some(Fusion::Concat));
    assert_eq!(Fusion::from_label("mean"), Some(Fusion::Mean));
    assert_eq!(Fusion::from_label("sum"), Some(Fusion::Sum));
    assert_eq!(Fusion::from_label("attention"), None);
    assert!(Fusion::Mean.requires_equal_dims());
    assert!(!Fusion::Concat.requires_equal_dims());
    let ms = MultimodalSpace::new(vec![Modality::new("image", texts(&["cnn"]), 4, 8)])
        .with_fusions(vec![Fusion::Sum]);
    let sp = ms.to_search_space();
    assert!(sp.validate().is_ok());
    assert_eq!(sp.len(), 3);
}

// ---- architectures ------------------------------------------------------------------------------

fn macro_space() -> MacroSpace {
    let palette = OpPalette::new(texts(&["conv3", "conv5", "identity"])).unwrap();
    MacroSpace::new(palette, 2, 4, vec![8, 16, 32]).unwrap()
}

#[test]
fn encoded_space_has_gated_cells() {
    let sp = macro_space().to_search_space();
    // depth + 4*(op,width,skip) but cell 0 has no skip: 1 + (4*3 - 1) = 12.
    assert_eq!(sp.len(), 12);
    assert!(sp.get("depth").unwrap().condition.is_none());
    // op0 is gated (only active once depth >= 1), and cell 0 has no skip.
    assert!(sp.get("op0").unwrap().condition.is_some());
    assert!(sp.get("skip0").is_none());
    assert!(sp.get("skip1").unwrap().condition.is_some());
}

#[test]
fn mutation_stays_within_bounds() {
    let ms = macro_space();
    let mut rng = TrialRng::new(1);
    let mut arch = ms.sample(&mut rng);
    for _ in 0..500 {
        arch = ms.mutate(&arch, &mut rng);
        assert!((2..=4).contains(&arch.depth()));
        assert!(!arch.layers[0].skip_from_prev);
        for l in &arch.layers {
            assert!(ms.palette().ops().contains(&l.op));
            assert!(ms.widths().contains(&l.width));
        }
    }
}

#[test]
fn mutation_changes_exactly_one_thing() {
    // Over many trials a mutation always produces a different architecture
    // (some single edit was applied).
    let ms = macro_space();
    let mut rng = TrialRng::new(4);
    let arch = ms.sample(&mut rng);
    let mut changed = 0;
    for _ in 0..200 {
        let next = ms.mutate(&arch, &mut rng);
        if next.describe() != arch.describe() {
            changed += 1;
        }
    }
    // An op/width re-pick can land on the same value, so a minority of
    // mutations are no-ops; the operator should still change the graph the
    // large majority of the time.
    assert!(changed > 140, "mutation rarely changed the graph: {changed}/200");
}

#[test]
fn a_macro_space_needs_operations_and_widths() {
    assert!(matches!(
        OpPalette::new(Vec::new()),
        Err(Error::InvalidDistribution { reason: Reason::NeedsOperation, .. })
    ));
    let palette = OpPalette::new(texts(&["a"])).unwrap();
    assert!(matches!(
        MacroSpace::new(palette, 1, 2, Vec::new()),
        Err(Error::InvalidDistribution { reason: Reason::NeedsWidth, .. })
    ));
    let palette = OpPalette::new(texts(&["a"])).unwrap();
    let ms = MacroSpace::new(palette, 0, 0, vec![16, 8, 16]).unwrap().without_skips();
    assert_eq!(ms.depth_bounds(), (1, 1));
    assert_eq!(ms.widths(), &vec![8, 16]);
    let sp = ms.to_search_space();
    assert!(sp.get("skip1").is_none());
    let bad = ParamSet::new().with("depth", ParamValue::Int(1));
    assert!(matches!(ms.decode(&bad), Err(Error::MissingParam(_))));
}

// ---- random draws and Halton bases ---------------------------------------------------------------

#[test]
fn draws_replay_and_move_on() {
    let mut a = TrialRng::new(3);
    let mut b = TrialRng::new(3);
    let xs: Vec<u64> = (0..100).map(|_| a.below(10)).collect();
    let ys: Vec<u64> = (0..100).map(|_| b.below(10)).collect();
    assert_eq!(xs, ys);
    assert!(xs.iter().all(|x| *x < 10));
    assert!((0..10).all(|d| xs.contains(&d)));
    assert!(a.word > 0);
    let flips: Vec<bool> = (0..100).map(|_| a.coin()).collect();
    assert!(flips.contains(&true) && flips.contains(&false));
    let order = a.shuffle((0..50).collect());
    assert_ne!(order, (0..50).collect::<Vec<usize>>());
    let mut back = order.clone();
    back.sort();
    assert_eq!(back, (0..50).collect::<Vec<usize>>());
}

#[test]
fn radical_digits_mirror_the_index() {
    assert_eq!(radical_digits(6, 2), vec![0, 1, 1]);
    assert_eq!(radical_digits(11, 3), vec![2, 0, 1]);
    assert_eq!(radical_digits(0, 2), Vec::<u64>::new());
    assert_eq!(prime(0), 2);
    assert_eq!(prime(63), 311);
    assert_eq!(prime(64), 2);
}
