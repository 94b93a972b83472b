use automl_core::error::Error;
use automl_core::hypervolume::{count_hits, ideal, is_swept, longest, staircase, to_loss, Outline, Stair};
use automl_core::memory::InMemoryStorage;
use automl_core::metrics::{Direction, NamedMetrics, Objective};
use automl_core::order::{middle_of, ranking, ranking_by, Middle};
use automl_core::param::ParamSet;
use automl_core::pareto::ParetoFront;
use automl_core::provenance::{now_ms, timestamp, EnvSnapshot};
use automl_core::scalar::Scalar;
use automl_core::storage::{Storage, StudyMeta};
use automl_core::study::conclude;
use automl_core::trial::{TrialId, TrialState};
use std::time::{SystemTime, UNIX_EPOCH};

fn s(x: f64) -> Scalar {
    Scalar::from_bits(x.to_bits())
}

fn row(values: &[f64]) -> Vec<Scalar> {
    values.iter().map(|x| s(*x)).collect()
}

#[test]
fn rankings_are_fixed_by_the_keys() {
    let keys = row(&[2.0, 1.0, 3.0, 1.0]);
    assert_eq!(ranking(&keys, Direction::Minimize), vec![1, 3, 0, 2]);
    assert_eq!(ranking(&keys, Direction::Maximize), vec![2, 0, 1, 3]);
    assert_eq!(ranking_by(&keys, &vec![5, 9, 1, 4], Direction::Minimize), vec![3, 1, 0, 2]);
    let mut all = ranking(&row(&[1.0, f64::NAN, 0.0]), Direction::Minimize);
    all.sort();
    assert_eq!(all, vec![0, 1, 2]);
}

#[test]
fn the_middle_leaves_out_what_is_no_number() {
    assert_eq!(middle_of(&row(&[])), Middle::Nothing);
    assert_eq!(middle_of(&row(&[f64::NAN])), Middle::Nothing);
    assert_eq!(middle_of(&row(&[3.0, f64::NAN, 1.0, 2.0])), Middle::One(s(2.0)));
    assert_eq!(middle_of(&row(&[4.0, 1.0, 3.0, 2.0])), Middle::Two(s(2.0), s(3.0)));
}

#[test]
fn better_values_are_smaller_losses() {
    let objectives = vec![Objective::minimize("latency"), Objective::maximize("accuracy")];
    assert_eq!(to_loss(&objectives, &row(&[5.0, 0.25])), row(&[5.0, -0.25]));
    assert_eq!(to_loss(&objectives, &row(&[5.0, 0.75])), row(&[5.0, -0.75]));
    assert!(Direction::Maximize.is_better(s(0.75), s(0.25)));
    assert!(Direction::Minimize.is_better(s(-0.75), s(-0.25)));
}

#[test]
fn staircases_descend() {
    let points = vec![row(&[2.0, 1.0]), row(&[1.0, 3.0]), row(&[3.0, 2.0]), row(&[9.0, 0.0])];
    let stairs = staircase(&points, &row(&[4.0, 4.0]));
    assert_eq!(
        stairs,
        vec![
            Stair { x: s(1.0), y: s(3.0), ceiling: s(4.0) },
            Stair { x: s(2.0), y: s(1.0), ceiling: s(3.0) },
        ]
    );
    assert!(staircase(&points, &row(&[0.0, 0.0])).is_empty());
}

#[test]
fn sweeps_and_ideals_look_at_every_axis() {
    let points = vec![row(&[1.0, 3.0, 2.0]), row(&[2.0, 1.0, 4.0])];
    assert_eq!(ideal(&points, 3), row(&[1.0, 1.0, 2.0]));
    assert!(is_swept(&points, &row(&[1.0, 3.0, 2.0])));
    assert!(is_swept(&points, &row(&[2.5, 1.5, 4.5])));
    assert!(!is_swept(&points, &row(&[2.5, 1.5, 3.5])));
}

fn pair(latency: f64, accuracy: f64) -> NamedMetrics {
    NamedMetrics::single("latency", s(latency)).with("accuracy", s(accuracy))
}

#[test]
fn outlines_say_what_is_left_to_measure() {
    let named = |names: &[&str]| names.iter().map(|n| Objective::minimize(n)).collect::<Vec<_>>();
    let bag = |names: &[&str], v: f64| {
        names.iter().fold(NamedMetrics::new(), |m, n| m.with(n, s(v)))
    };
    let mut line = ParetoFront::new(named(&["a"]));
    assert!(matches!(line.outline(&bag(&["a"], 4.0)), Outline::Empty));
    line.insert(TrialId(1), &bag(&["a"], 1.5));
    assert!(matches!(line.outline(&NamedMetrics::new()), Outline::Empty));
    match line.outline(&bag(&["a"], 4.0)) {
        Outline::Line { from, to } => assert_eq!((from, to), (row(&[1.5]), s(4.0))),
        _ => panic!("one objective is a line"),
    }
    let mut flat = ParetoFront::new(named(&["a", "b"]));
    flat.insert(TrialId(1), &bag(&["a", "b"], 1.0));
    match flat.outline(&bag(&["a", "b"], 3.0)) {
        Outline::Stairs { stairs, right } => {
            assert_eq!(stairs, vec![Stair { x: s(1.0), y: s(1.0), ceiling: s(3.0) }]);
            assert_eq!(right, s(3.0));
        }
        _ => panic!("two objectives are stairs"),
    }
    let mut deep = ParetoFront::new(named(&["a", "b", "c"]));
    deep.insert(TrialId(1), &bag(&["a", "b", "c"], 1.0));
    match deep.outline(&bag(&["a", "b", "c"], 2.0)) {
        Outline::Cloud { points, low, high } => {
            assert_eq!(points, vec![row(&[1.0, 1.0, 1.0])]);
            assert_eq!((low, high), (row(&[1.0, 1.0, 1.0]), row(&[2.0, 2.0, 2.0])));
        }
        _ => panic!("three objectives are a cloud"),
    }
    assert_eq!(longest(&row(&[])), s(0.0));
    assert_eq!(longest(&row(&[1.0, f64::NAN, 3.0, -2.0])), s(3.0));
    let samples = vec![row(&[1.0, 1.0]), row(&[0.5, 1.0]), row(&[2.0, 2.0]), row(&[2.0])];
    assert_eq!(count_hits(&vec![row(&[1.0, 1.0])], 2, &samples), 2);
}

#[test]
fn a_trial_ends_by_what_its_objective_returned() {
    let m = || NamedMetrics::single("loss", s(0.5));
    let (state, metrics) = conclude(Ok(m()), false);
    assert_eq!((state, metrics.unwrap().get("loss")), (TrialState::Complete, Some(s(0.5))));
    let (state, metrics) = conclude(Ok(m()), true);
    assert_eq!((state, metrics.unwrap().get("loss")), (TrialState::Pruned, Some(s(0.5))));
    let (state, metrics) = conclude(Err(Error::Objective("no".into())), true);
    assert!(state == TrialState::Failed && metrics.is_none());
}

#[test]
fn a_store_stamps_its_environment() {
    let env = EnvSnapshot { os: "os".into(), arch: "arch".into(), core_version: "1".into() };
    let mut store = InMemoryStorage::new().with_env(env);
    let study = store
        .create_study(StudyMeta {
            name: "t".into(),
            directions: vec![],
            sampler_name: "random".into(),
            pruner_name: "none".into(),
        })
        .unwrap();
    let trial = store.enqueue_trial(study, ParamSet::new(), 7).unwrap();
    assert_eq!(store.load_trial(trial).unwrap().env.arch, "arch");
}

#[test]
fn dominance_is_a_strict_order() {
    let front = ParetoFront::new(vec![Objective::minimize("latency"), Objective::maximize("accuracy")]);
    let (best, middle, worst) = (pair(1.0, 0.9), pair(2.0, 0.9), pair(3.0, 0.5));
    assert!(!front.dominates(&best, &best));
    assert!(front.dominates(&best, &middle) && !front.dominates(&middle, &best));
    assert!(front.dominates(&middle, &worst) && front.dominates(&best, &worst));
}

#[test]
fn better_is_a_strict_order() {
    let d = Direction::Maximize;
    assert!(d.is_better(s(3.0), s(2.0)) && d.is_better(s(2.0), s(1.0)) && d.is_better(s(3.0), s(1.0)));
    assert!(!d.is_better(s(1.0), s(3.0)) && !d.is_better(s(2.0), s(2.0)));
}

#[test]
fn a_finished_trial_is_never_claimed_or_requeued() {
    let mut store = InMemoryStorage::new();
    let study = store
        .create_study(StudyMeta {
            name: "t".into(),
            directions: vec![("loss".into(), Direction::Minimize)],
            sampler_name: "random".into(),
            pruner_name: "none".into(),
        })
        .unwrap();
    let trial = store.enqueue_trial(study, ParamSet::new(), 7).unwrap();
    assert_eq!(store.claim_trial(study, "w", 10, 20).unwrap(), Some(trial));
    store.complete(trial, TrialState::Complete, Some(NamedMetrics::single("loss", s(0.5)))).unwrap();
    assert!(store.claim_trial(study, "w", 1_000, 2_000).unwrap().is_none());
    assert_eq!(store.load_trial(trial).unwrap().state, TrialState::Complete);
}

#[test]
fn the_clock_reads_milliseconds_since_the_epoch() {
    let at = || SystemTime::now().duration_since(UNIX_EPOCH).unwrap().as_millis() as u64;
    let before = at();
    let read = now_ms();
    let after = at();
    assert!(before <= read && read <= after);
    assert_eq!(timestamp(None), 0);
    assert_eq!(timestamp(Some(1_700_000_000_000)), 1_700_000_000_000);
}
