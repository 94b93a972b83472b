use automl_core::error::Error;
use automl_core::metrics::NamedMetrics;
use automl_core::objective::{ReportLog, ReportSink};
use automl_core::reals::Reals;
use automl_core::rng::TrialRng;
use automl_core::robust::Replicate;
use automl_core::scalar::Scalar;
use automl_core::storage::Storage;
use automl_core::tasks::anomaly::{at_rank, f1, flag, knn_anomaly_scores, nearest, quantile, tally, AutoAnomaly};
use automl_core::tasks::clustering::{first_spent, kmeans, members, silhouette, AutoCluster};
use automl_core::tasks::pipeline::{
    centroid_accuracy, classes, classify, extent, hits, knn_accuracy, nearest_labels, split, vote, AutoPipeline,
    Preprocess,
};
use automl_core::tasks::rl::{AutoRl, GridWorld, QLearner, Returns, Rollout};
use automl_core::tasks::vectors::{center_of, first_least, least_number, Vectors};
use automl_core::trial::{TrialId, TrialState};
use rand::seq::SliceRandom;
use rand::{Rng, SeedableRng};
use rand_chacha::ChaCha8Rng;
use std::f64::consts::PI;

fn row(xs: &[f32]) -> Vec<Scalar> {
    xs.iter().map(|x| widen(*x)).collect()
}

fn rows(points: &[Vec<f32>]) -> Vec<Vec<Scalar>> {
    points.iter().map(|p| row(p)).collect()
}

// ---- anomaly detection --------------------------------------------------------------------------

#[test]
fn detects_injected_outliers() {
    let mut rng = ChaCha8Rng::seed_from_u64(1);
    // Reference: a tight normal cluster near the origin.
    let reference: Vec<Vec<f32>> = (0..200)
        .map(|_| vec![rng.gen_range(-1.0..1.0), rng.gen_range(-1.0..1.0)])
        .collect();
    // Eval: normals near origin (label 0) + far outliers (label 1).
    let mut eval: Vec<Vec<f32>> = Vec::new();
    let mut labels = Vec::new();
    for _ in 0..60 {
        eval.push(vec![rng.gen_range(-1.0..1.0), rng.gen_range(-1.0..1.0)]);
        labels.push(0);
    }
    for _ in 0..20 {
        eval.push(vec![rng.gen_range(8.0..12.0), rng.gen_range(8.0..12.0)]);
        labels.push(1);
    }
    let study = AutoAnomaly::new(rows(&reference), rows(&eval), labels)
        .trials(10)
        .seed(1)
        .fit(Arith, Arith)
        .unwrap();
    let best = study.best_trial().unwrap().unwrap();
    // Well-separated outliers should be detected near-perfectly.
    let f1 = number(best.final_value("f1").unwrap());
    assert!(f1 > 0.9, "F1 {f1}");
}

#[test]
fn empty_inputs_error() {
    assert!(AutoAnomaly::new(Vec::new(), Vec::new(), Vec::new()).fit(Arith, Arith).is_err());
}

#[test]
fn anomaly_scores_are_exact() {
    let reference = rows(&[vec![0.0], vec![1.0], vec![10.0]]);
    let queries = rows(&[vec![0.0], vec![4.0]]);
    // The two nearest of 0 are at 0 and 1; those of 4 at 3 and 4.
    assert_eq!(knn_anomaly_scores(&reference, &queries, 2, &Arith), row(&[0.5, 3.5]));
    // A neighbour count beyond the reference set takes all of it.
    assert_eq!(knn_anomaly_scores(&reference, &queries, 9, &Arith)[1], widen(13.0 / 3.0));
    assert_eq!(quantile(&row(&[3.0, 1.0, 2.0]), scalar(0.5), &Arith), widen(2.0));
    assert_eq!(quantile(&row(&[3.0, 1.0, 2.0]), scalar(1.0), &Arith), widen(3.0));
    assert_eq!(quantile(&Vec::new(), scalar(0.5), &Arith), widen(0.0));
    assert_eq!(at_rank(&row(&[3.0, 1.0, 2.0]), 1), widen(2.0));
    assert_eq!(at_rank(&row(&[3.0, 1.0, 2.0]), 9), widen(3.0));
    assert_eq!(flag(&row(&[1.0, 2.0, 3.0]), widen(2.0)), vec![0, 0, 1]);
    let t = tally(&vec![1, 1, 0, 0], &vec![1, 0, 1, 0]);
    assert_eq!((t.hits, t.false_alarms, t.misses), (1, 1, 1));
    assert_eq!(f1(&vec![1, 1, 0, 0], &vec![1, 0, 1, 0], &Arith), widen(0.5));
    assert_eq!(f1(&vec![0], &vec![0], &Arith), widen(0.0));
    assert_eq!(nearest(&row(&[3.0, 1.0, 2.0]), 2), row(&[1.0, 2.0]));
}

// ---- clustering -----------------------------------------------------------------------------------

/// `k` well-separated blobs in the plane.
fn blobs(k: usize, per: usize, seed: u64) -> Vec<Vec<Scalar>> {
    let mut rng = ChaCha8Rng::seed_from_u64(seed);
    let mut pts: Vec<Vec<f32>> = Vec::new();
    for c in 0..k {
        let (cx, cy) = ((c as f32) * 10.0, (c as f32 % 2.0) * 10.0);
        for _ in 0..per {
            pts.push(vec![cx + rng.gen_range(-0.6..0.6), cy + rng.gen_range(-0.6..0.6)]);
        }
    }
    rows(&pts)
}

#[test]
fn kmeans_recovers_separated_blobs() {
    let pts = blobs(3, 30, 1);
    let c = kmeans(&pts, 3, 7, 50, &Arith);
    // Well-separated blobs => high silhouette.
    let s = number(silhouette(&pts, &c.assignments, &Arith));
    assert!(s > 0.7, "silhouette {s} too low for separated blobs");
}

#[test]
fn auto_cluster_finds_the_true_k() {
    let pts = blobs(3, 40, 2);
    let study = AutoCluster::new(pts, 6).trials(5).seed(2).fit(Arith, Arith).unwrap();
    let best = study.best_trial().unwrap().unwrap();
    let k = best.params.integer("k").unwrap();
    assert_eq!(k, 3, "expected 3 clusters, chose {k}");
    assert!(number(best.final_value("silhouette").unwrap()) > 0.7);
}

#[test]
fn too_few_points_errors() {
    assert!(AutoCluster::new(rows(&[vec![0.0]]), 3).fit(Arith, Arith).is_err());
}

#[test]
fn points_may_hold_more_numbers_than_the_first() {
    let pts = rows(&[vec![0.0], vec![0.5, 90.0], vec![10.0], vec![10.5, -7.0]]);
    let study = AutoCluster::new(pts, 3).trials(4).seed(2).fit(Arith, Arith).unwrap();
    assert_eq!(study.history().unwrap().completed().len(), 4);
    // A point with fewer numbers fails its trials.
    let short = rows(&[vec![0.0, 1.0], vec![2.0], vec![10.0, 3.0]]);
    let study = AutoCluster::new(short, 2).trials(3).seed(2).fit(Arith, Arith).unwrap();
    let history = study.history().unwrap();
    assert!(history.records().iter().all(|r| r.state == TrialState::Failed));
}

#[test]
fn clusters_are_exact_on_a_line() {
    let pts = rows(&[vec![0.0], vec![2.0], vec![10.0], vec![12.0]]);
    let c = kmeans(&pts, 2, 3, 50, &Arith);
    assert_eq!(c.assignments[0], c.assignments[1]);
    assert_eq!(c.assignments[2], c.assignments[3]);
    assert_ne!(c.assignments[0], c.assignments[2]);
    let mut centers: Vec<f64> = c.centroids.iter().map(|m| number(m[0])).collect();
    centers.sort_by(|a, b| a.partial_cmp(b).unwrap());
    assert_eq!(centers, vec![1.0, 11.0]);
    assert_eq!(number(c.inertia), 4.0);
    assert_eq!(members(&c.assignments, c.assignments[0]), vec![0, 1]);
    // Each point is 2 from its own, and 11 or 9 from the others on average.
    let s = number(silhouette(&pts, &c.assignments, &Arith));
    let want = (9.0 / 11.0 + 7.0 / 9.0) / 2.0;
    assert!((s - want).abs() < 1e-6, "silhouette {s}, want {want}");
    // A request for more clusters than points is cut down.
    assert_eq!(kmeans(&pts, 9, 3, 50, &Arith).centroids.len(), 4);
}

#[test]
fn a_cluster_at_no_distance_is_passed_over() {
    // The first cluster lies nowhere; the distance to the last one still counts.
    let pts = rows(&[vec![0.0], vec![1.0], vec![f32::NAN], vec![10.0]]);
    let s = number(silhouette(&pts, &vec![1, 1, 0, 2], &Arith));
    let want = (9.0 / 10.0 + 8.0 / 9.0) / 2.0;
    assert!((s - want).abs() < 1e-6, "silhouette {s}, want {want}");
    let least = |xs: &[f32]| number(least_number(&row(xs)));
    assert_eq!(least(&[f32::NAN, 3.0, 2.0]), 2.0);
    assert_eq!(least(&[f32::NAN]), f64::INFINITY);
}

#[test]
fn the_first_least_stays_with_what_is_no_number() {
    let at = |xs: &[f64]| first_least(&xs.iter().map(|x| scalar(*x)).collect());
    assert_eq!(at(&[3.0, 1.0, 2.0, 1.0]), 1);
    assert_eq!(at(&[2.0, f64::NAN, 1.0]), 2);
    assert_eq!(at(&[f64::NAN, 1.0, 0.5]), 0);
    assert_eq!(at(&[5.0]), 0);
}

#[test]
fn a_center_is_the_mean_of_the_listed_rows() {
    let pts = rows(&[vec![0.0, 1.0], vec![100.0, 100.0], vec![4.0, 3.0]]);
    assert_eq!(center_of(&pts, &vec![0, 2], 2, &Arith), row(&[2.0, 2.0]));
}

// ---- pipelines --------------------------------------------------------------------------------------

/// Two classes separated along a *small-scale* feature, buried next to a large-scale noise
/// feature. Raw distances are dominated by the noise, so only a pipeline that
/// standardizes/normalizes recovers the signal.
fn scale_trap(n: usize, seed: u64) -> (Vec<Vec<Scalar>>, Vec<i64>) {
    let mut rng = ChaCha8Rng::seed_from_u64(seed);
    let (mut x, mut y): (Vec<Vec<f32>>, Vec<i64>) = (Vec::new(), Vec::new());
    for _ in 0..n {
        let label = rng.gen_range(0..2);
        let signal = if label == 0 { rng.gen_range(-1.0..0.0) } else { rng.gen_range(0.0..1.0) };
        let noise = rng.gen_range(-500.0..500.0); // huge scale, label-independent
        x.push(vec![noise, signal]);
        y.push(label);
    }
    (rows(&x), y)
}

#[test]
fn auto_pipeline_finds_a_preprocessing_that_works() {
    let (x, y) = scale_trap(200, 1);
    let study = AutoPipeline::new(x, y).trials(16).seed(1).fit(Arith, Arith).unwrap();
    let best = study.best_trial().unwrap().unwrap();
    let acc = number(best.final_value("accuracy").unwrap());
    // Only a scaling preprocessing recovers the small-scale signal.
    assert!(acc > 80.0, "best pipeline accuracy was {acc}");
}

#[test]
fn fitted_studies_are_named_after_their_task() {
    let pts = blobs(2, 6, 1);
    let study = AutoCluster::new(pts.clone(), 3).trials(1).fit(Arith, Arith).unwrap();
    assert_eq!(study.storage().load_meta(study.id()).unwrap().name, "auto-cluster");
    let study = AutoAnomaly::new(pts.clone(), pts, vec![0; 12]).trials(1).fit(Arith, Arith).unwrap();
    assert_eq!(study.storage().load_meta(study.id()).unwrap().name, "auto-anomaly");
    let (x, y) = scale_trap(40, 2);
    let study = AutoPipeline::new(x, y).trials(1).fit(Arith, Arith).unwrap();
    assert_eq!(study.storage().load_meta(study.id()).unwrap().name, "auto-pipeline");
    let quick = AutoRl::new(GridWorld::new(3, scalar(0.0))).train_episodes(2).eval_episodes(1);
    let study = quick.replicates(1).trials(1).fit(Arith, Arith).unwrap();
    assert_eq!(study.storage().load_meta(study.id()).unwrap().name, "auto-rl");
}

#[test]
fn bad_shape_errors() {
    let ragged = rows(&[vec![0.0; 2], vec![0.0; 3]]);
    assert!(AutoPipeline::new(ragged, vec![0, 1]).fit(Arith, Arith).is_err());
}

#[test]
fn pipeline_search_end_to_end() {
    let mut rng = ChaCha8Rng::seed_from_u64(4);
    let (mut x, mut y): (Vec<Vec<f32>>, Vec<i64>) = (Vec::new(), Vec::new());
    for _ in 0..200 {
        let label = rng.gen_range(0..2);
        let signal = if label == 0 { rng.gen_range(-1.0..0.0) } else { rng.gen_range(0.0..1.0) };
        x.push(vec![rng.gen_range(-400.0f32..400.0), signal]);
        y.push(label);
    }
    let study = AutoPipeline::new(rows(&x), y).trials(14).seed(4).fit(Arith, Arith).unwrap();
    let best = study.best_trial().unwrap().unwrap();
    assert!(number(best.final_value("accuracy").unwrap()) > 80.0);
}

#[test]
fn pipeline_stages_are_exact() {
    let data = rows(&[vec![0.0, 5.0], vec![4.0, 5.0], vec![100.0, 100.0]]);
    let scaled = Preprocess::fit("normalize", &data, &vec![0, 1], &Arith);
    assert_eq!(scaled.apply(&row(&[1.0, 5.0]), &Arith), row(&[0.25, 0.0]));
    let standard = Preprocess::fit("standardize", &data, &vec![0, 1], &Arith);
    assert_eq!(standard.apply(&row(&[4.0, 5.0]), &Arith), row(&[1.0, 0.0]));
    let none = Preprocess::fit("none", &data, &vec![0, 1], &Arith);
    assert_eq!(none.apply(&row(&[1.0, 2.0]), &Arith), row(&[1.0, 2.0]));
    assert_eq!(extent(&row(&[3.0, 1.0, 2.0])), (widen(1.0), widen(3.0)));
    // The label with most votes wins, the larger one on a tie.
    assert_eq!(vote(&vec![1, 2, 2]), Some(2));
    assert_eq!(vote(&vec![1, 2, 1, 2]), Some(2));
    assert_eq!(vote(&Vec::new()), None);
    assert_eq!(nearest_labels(&row(&[3.0, 1.0, 2.0]), &vec![7, 8, 9], 2), vec![8, 9]);
    assert_eq!(classes(&vec![3, 1, 3, 2]), vec![1, 2, 3]);
    assert_eq!(classify(&row(&[3.0, 1.0, 2.0, 9.0]), &vec![7, 8, 8, 7], 3), Some(8));
    assert_eq!(classify(&Vec::new(), &Vec::new(), 3), None);
    assert_eq!(hits(&vec![Some(1), None, Some(2)], &vec![1, 1, 3]), 1);
    let train = rows(&[vec![0.0], vec![1.0], vec![10.0]]);
    let val = rows(&[vec![0.2], vec![9.0]]);
    let acc = |k: usize| number(knn_accuracy(&train, &vec![0, 0, 1], &val, &vec![0, 1], k, &Arith));
    assert_eq!(acc(1), 100.0);
    assert_eq!(acc(3), 50.0);
    let acc = centroid_accuracy(&train, &vec![0, 0, 1], &val, &vec![1, 1], &Arith);
    assert_eq!(number(acc), 50.0);
}

#[test]
fn a_split_is_a_partition() {
    let (train, val) = split(10, 3, 5);
    assert_eq!(val.len(), 3);
    let mut all: Vec<usize> = train.iter().chain(&val).copied().collect();
    all.sort();
    assert_eq!(all, (0..10).collect::<Vec<usize>>());
    // The order is that of `shuffle` on the stream of the seed.
    let mut want: Vec<usize> = (0..10).collect();
    want.shuffle(&mut ChaCha8Rng::seed_from_u64(5));
    assert_eq!(train, want[..7].to_vec());
    assert_eq!(val, want[7..].to_vec());
    // One row is always held out, and one always trains where there are two.
    assert_eq!(split(10, 0, 5).1.len(), 1);
    assert_eq!(split(10, 99, 5).0.len(), 1);
}

// ---- reinforcement learning ---------------------------------------------------------------------------

#[test]
fn gridworld_pays_out_at_the_goal() {
    let env = GridWorld::new(3, scalar(0.0)); // deterministic
    let mut rng = TrialRng::new(0);
    // From state 1, moving right reaches the goal (state 2).
    let (next, reward, done) = env.step(1, 1, &mut rng);
    assert_eq!(next, 2);
    assert_eq!(reward, scalar(10.0));
    assert!(done);
}

#[test]
fn trained_agent_beats_random_policy() {
    let env = GridWorld::new(5, scalar(0.1));
    let mut rng = TrialRng::new(1);
    let mut agent = QLearner::new(env.size);
    agent.train(&env, 300, scalar(0.5), scalar(0.95), scalar(0.2), 50, &mut rng, &Arith);
    let trained = number(agent.greedy_return(&env, 50, 50, &mut rng, &Arith));
    let random =
        number(QLearner::new(env.size).greedy_return(&env, 50, 50, &mut rng, &Arith));
    assert!(trained > random, "trained {trained} should beat untrained {random}");
    assert!(trained > 0.0, "trained policy should reach the goal: {trained}");
}

#[test]
fn auto_rl_finds_a_good_policy() {
    let env = GridWorld::new(5, scalar(0.1));
    let study = AutoRl::new(env)
        .train_episodes(200)
        .eval_episodes(15)
        .replicates(3)
        .trials(12)
        .seed(7)
        .fit(Arith, Arith)
        .unwrap();
    let best = study.best_trial().unwrap().unwrap();
    let ret = number(best.final_value("return").unwrap());
    // A learned policy reaches the goal for a clearly positive return; a
    // random walk pays the step penalty for the full horizon.
    assert!(ret > 2.0, "best robust return was {ret}");
}

#[test]
fn tiny_env_errors_are_clamped_not_panicked() {
    // Size is clamped to >= 2, so this constructs and runs rather than panics.
    let env = GridWorld::new(0, scalar(2.0));
    assert_eq!(env.size, 2);
    assert!(number(env.slip) <= 0.9);
}

#[test]
fn a_walk_stays_inside_and_learns() {
    let env = GridWorld::new(4, scalar(0.0));
    assert_eq!(env.outcome(0, 0, false), (0, scalar(-1.0), false));
    assert_eq!(env.outcome(0, 0, true), (1, scalar(-1.0), false));
    assert_eq!(env.outcome(2, 1, false), (3, scalar(10.0), true));
    // Untaught, both actions tie and the agent goes right; the walk pays -1, -1 and 10.
    let agent = QLearner::new(4);
    assert_eq!(agent.greedy_action(0), 1);
    let mut rng = TrialRng::new(2);
    let ret = number(agent.greedy_return(&env, 3, 50, &mut rng, &Arith));
    assert_eq!(ret, 8.0);
    assert_eq!(agent.greedy_rollouts(&env, 3, 50, &mut rng), (3, 9));
    assert_eq!(agent.greedy_rollouts(&env, 2, 2, &mut rng), (0, 4));
}

#[test]
fn slips_are_drawn_from_the_stream() {
    let env = GridWorld::new(6, scalar(0.3));
    let agent = QLearner::new(6);
    let mut rng = TrialRng::new(11);
    let got = agent.greedy_rollouts(&env, 20, 15, &mut rng);
    let mut stream = ChaCha8Rng::seed_from_u64(11);
    let (mut goals, mut steps) = (0usize, 0u128);
    for _ in 0..20 {
        let mut at = 0i64;
        for _ in 0..15 {
            at = if stream.gen_bool(0.3) { (at - 1).max(0) } else { at + 1 };
            steps += 1;
            if at == 5 {
                goals += 1;
                break;
            }
        }
    }
    assert_eq!(got, (goals, steps));
    assert!(goals > 0 && goals < 20);
    // Training touches only the value of the action tried.
    let mut taught = QLearner::new(6);
    taught.train(&env, 0, scalar(0.5), scalar(0.9), scalar(0.1), 15, &mut rng, &Arith);
    assert_eq!(taught.greedy_action(3), 1);
}

struct Quiet;

impl ReportSink for Quiet {
    type Anchor = ();

    fn anchor(&self) {
        unreachable!("only contracts speak of it")
    }

    fn trial_of(_: ()) -> TrialId {
        unreachable!("only contracts speak of it")
    }

    fn log(&self) -> ReportLog {
        unreachable!("only contracts speak of it")
    }

    fn stopping(&self) -> bool {
        unreachable!("only contracts speak of it")
    }

    fn sound(&self) -> bool {
        true
    }

    fn trial_id(&self) -> TrialId {
        TrialId(0)
    }

    fn report(&mut self, _step: u64, _metrics: NamedMetrics) -> Result<(), Error> {
        Ok(())
    }

    fn should_stop(&self) -> bool {
        false
    }
}

#[test]
fn odd_probabilities_fail_the_replicate() {
    let sound = GridWorld::new(3, scalar(0.1));
    let broken = GridWorld { size: 3, slip: scalar(f64::NAN) };
    for (env, epsilon, fine) in [(sound, 0.1, true), (sound, 1.5, false), (broken, 0.1, false)] {
        let mut run = Rollout {
            env,
            train_episodes: 2,
            eval_episodes: 2,
            max_steps: 5,
            alpha: scalar(0.5),
            gamma: scalar(0.9),
            epsilon: scalar(epsilon),
            sums: Arith,
        };
        assert_eq!(run.evaluate(1, &mut Quiet).is_ok(), fine);
    }
}

#[test]
fn a_draw_by_weight_ends_where_the_lot_is_used_up() {
    let left = |xs: &[f64]| xs.iter().map(|x| scalar(*x)).collect::<Vec<Scalar>>();
    assert_eq!(first_spent(&left(&[0.5, 0.0, -1.0])), 1);
    assert_eq!(first_spent(&left(&[-0.5, 0.0])), 0);
    assert_eq!(first_spent(&left(&[0.5, f64::NAN, 0.25])), 2);
}

// ---- floating-point arithmetic ------------------------------------------------------------

/// The arithmetic of `f64` (and of `f32` for feature vectors), over the `ChaCha8Rng` stream
/// that a `TrialRng` stands for.
#[derive(Debug, Clone, Copy, Default)]
struct Arith;

/// A float as the library holds it.
fn scalar(x: f64) -> Scalar {
    Scalar::from_bits(x.to_bits())
}

/// The float that the library holds.
fn number(s: Scalar) -> f64 {
    f64::from_bits(s.to_bits())
}

fn numbers(values: &[Scalar]) -> Vec<f64> {
    values.iter().map(|s| number(*s)).collect()
}

fn single(s: Scalar) -> f32 {
    number(s) as f32
}

fn widen(x: f32) -> Scalar {
    scalar(f64::from(x))
}

/// Runs `draw` on the stream of `rng` and moves `rng` behind it.
fn on_stream<T>(rng: &mut TrialRng, draw: impl FnOnce(&mut ChaCha8Rng) -> T) -> T {
    let mut stream = ChaCha8Rng::seed_from_u64(rng.seed);
    stream.set_word_pos(rng.word);
    let out = draw(&mut stream);
    rng.word = stream.get_word_pos();
    out
}

/// A standard-normal sample via the Box-Muller transform.
fn gaussian(rng: &mut ChaCha8Rng) -> f64 {
    let u1 = rng.gen::<f64>().max(1e-12);
    let u2 = rng.gen::<f64>();
    (-2.0 * u1.ln()).sqrt() * (2.0 * PI * u2).cos()
}

fn variance_of(ys: &[f64]) -> f64 {
    let n = ys.len() as f64;
    if n == 0.0 {
        return 0.0;
    }
    let mean = ys.iter().sum::<f64>() / n;
    ys.iter().map(|y| (y - mean).powi(2)).sum::<f64>() / n
}

impl Reals for Arith {
    fn ln(&self, x: Scalar) -> Scalar {
        scalar(number(x).ln())
    }

    fn exp(&self, x: Scalar) -> Scalar {
        scalar(number(x).exp())
    }

    fn difference(&self, a: Scalar, b: Scalar) -> Scalar {
        scalar(number(a) - number(b))
    }

    fn ratio(&self, part: usize, whole: usize) -> Scalar {
        scalar(part as f64 / whole as f64)
    }

    fn mix(&self, low: Scalar, high: Scalar, t: Scalar) -> Scalar {
        scalar(number(low) + number(t) * (number(high) - number(low)))
    }

    fn stretch(&self, low: i64, high: i64, t: Scalar) -> Scalar {
        scalar(low as f64 + number(t) * (high as f64 - low as f64 + 1.0))
    }

    fn parts(&self, t: Scalar, n: usize) -> usize {
        (number(t) * n as f64).floor() as usize
    }

    fn floor(&self, x: Scalar) -> Scalar {
        scalar(number(x).floor())
    }

    fn round(&self, x: Scalar) -> i64 {
        number(x).round() as i64
    }

    fn snap(&self, x: Scalar, low: Scalar, step: Scalar) -> Scalar {
        let k = ((number(x) - number(low)) / number(step)).round();
        scalar(number(low) + k * number(step))
    }

    fn last_step(&self, low: Scalar, high: Scalar, step: Scalar) -> Scalar {
        let (low, high, step) = (number(low), number(high), number(step));
        let k = ((high - low) / step + 1e-9).floor();
        scalar((low + k * step).min(high))
    }

    fn steps(&self, x: Scalar, low: i64, step: i64) -> i64 {
        ((number(x) - low as f64) / step as f64).round() as i64
    }

    fn uniform(&self, low: Scalar, high: Scalar, mut rng: TrialRng) -> (Scalar, TrialRng) {
        let x = on_stream(&mut rng, |r| r.gen_range(number(low)..=number(high)));
        (scalar(x), rng)
    }

    fn normal(&self, mean: Scalar, deviation: Scalar, mut rng: TrialRng) -> (Scalar, TrialRng) {
        let z = on_stream(&mut rng, gaussian);
        (scalar(number(mean) + number(deviation) * z), rng)
    }

    fn nudge(
        &self,
        x: Scalar,
        scale: Scalar,
        low: Scalar,
        high: Scalar,
        mut rng: TrialRng,
    ) -> (Scalar, TrialRng) {
        let z = on_stream(&mut rng, gaussian);
        (scalar(number(x) + z * number(scale) * (number(high) - number(low))), rng)
    }

    fn log_density(&self, x: Scalar, mean: Scalar, deviation: Scalar, n: usize) -> Scalar {
        let sigma = number(deviation);
        let z = (number(x) - number(mean)) / sigma;
        scalar((1.0 / n as f64).ln() - 0.5 * z * z - sigma.ln() - 0.5 * (2.0 * PI).ln())
    }

    fn log_sum(&self, terms: &Vec<Scalar>, greatest: Scalar) -> Scalar {
        let m = number(greatest);
        scalar(m + terms.iter().map(|t| (number(*t) - m).exp()).sum::<f64>().ln())
    }

    fn fraction(&self, digits: &Vec<u64>, base: u64) -> Scalar {
        let mut result = 0.0;
        let mut f = 1.0 / base as f64;
        for d in digits {
            result += *d as f64 * f;
            f /= base as f64;
        }
        scalar(result)
    }

    fn grid_steps(&self, low: Scalar, high: Scalar, step: Scalar) -> Vec<Scalar> {
        let (low, high) = (number(low), number(high));
        let mut out = Vec::new();
        let mut v = low;
        while v <= high + f64::EPSILON {
            out.push(scalar(v.min(high)));
            v += number(step);
        }
        out
    }

    fn midpoint(&self, a: Scalar, b: Scalar) -> Scalar {
        scalar((number(a) + number(b)) / 2.0)
    }

    fn crowd(
        &self,
        distance: Scalar,
        below: Scalar,
        above: Scalar,
        lowest: Scalar,
        highest: Scalar,
    ) -> Scalar {
        let span = (number(highest) - number(lowest)).max(1e-12);
        scalar(number(distance) + (number(above) - number(below)) / span)
    }

    fn share(&self, gamma: Scalar, n: usize) -> usize {
        (number(gamma) * n as f64).ceil() as usize
    }

    fn log_ratios(&self, good: &Vec<u128>, bad: &Vec<u128>) -> Vec<Scalar> {
        let logs = |counts: &Vec<u128>| -> Vec<f64> {
            let total: f64 = counts.iter().map(|c| *c as f64).sum();
            counts.iter().map(|c| (*c as f64 / total).ln()).collect()
        };
        logs(good).into_iter().zip(logs(bad)).map(|(l, g)| scalar(l - g)).collect()
    }

    fn of_int(&self, x: i64) -> Scalar {
        scalar(x as f64)
    }

    fn sum(&self, values: &Vec<Scalar>) -> Scalar {
        scalar(numbers(values).iter().sum())
    }

    fn quotient(&self, a: Scalar, b: Scalar) -> Scalar {
        scalar(number(a) / number(b))
    }

    fn mean(&self, values: &Vec<Scalar>) -> Scalar {
        scalar(numbers(values).iter().sum::<f64>() / values.len() as f64)
    }

    fn variance(&self, values: &Vec<Scalar>) -> Scalar {
        scalar(variance_of(&numbers(values)))
    }

    fn between(&self, groups: &Vec<Vec<Scalar>>) -> Scalar {
        let groups: Vec<Vec<f64>> = groups.iter().map(|g| numbers(g)).collect();
        let n: usize = groups.iter().map(|g| g.len()).sum();
        if n == 0 {
            return scalar(0.0);
        }
        let grand = groups.iter().flat_map(|g| g.iter()).sum::<f64>() / n as f64;
        scalar(
            groups
                .iter()
                .filter(|g| !g.is_empty())
                .map(|g| {
                    let w = g.len() as f64 / n as f64;
                    let mean = g.iter().sum::<f64>() / g.len() as f64;
                    w * (mean - grand).powi(2)
                })
                .sum(),
        )
    }

    fn tail(&self, fraction: Scalar, n: usize) -> usize {
        (n as f64 * number(fraction)).floor() as usize
    }

    fn mean_error(&self, values: &Vec<Scalar>) -> Scalar {
        let v = numbers(values);
        let n = v.len() as f64;
        let mean = v.iter().sum::<f64>() / n;
        let var = v.iter().map(|x| (x - mean).powi(2)).sum::<f64>() / (n - 1.0);
        scalar((var / n).sqrt())
    }

    fn distances(&self, values: &Vec<Scalar>, center: Scalar) -> Vec<Scalar> {
        values.iter().map(|x| scalar((number(*x) - number(center)).abs())).collect()
    }

    fn deviation_error(&self, deviation: Scalar, n: usize) -> Scalar {
        scalar((1.4826 * number(deviation)) / (n as f64).sqrt())
    }
}

fn distance2_of(a: &[Scalar], b: &[Scalar]) -> f32 {
    a.iter().zip(b).map(|(x, y)| (single(*x) - single(*y)).powi(2)).sum()
}

impl Vectors for Arith {
    fn distance(&self, a: &Vec<Scalar>, b: &Vec<Scalar>) -> Scalar {
        widen(distance2_of(a, b).sqrt())
    }

    fn distance2(&self, a: &Vec<Scalar>, b: &Vec<Scalar>) -> Scalar {
        widen(distance2_of(a, b))
    }

    fn total(&self, values: &Vec<Scalar>) -> Scalar {
        widen(values.iter().map(|x| single(*x)).sum())
    }

    fn mean(&self, values: &Vec<Scalar>) -> Scalar {
        widen(values.iter().map(|x| single(*x)).sum::<f32>() / values.len().max(1) as f32)
    }

    fn ratio(&self, part: u128, whole: u128) -> Scalar {
        widen(part as f32 / whole as f32)
    }

    fn percent(&self, part: usize, whole: usize) -> Scalar {
        scalar(part as f64 / whole as f64 * 100.0)
    }

    fn rank(&self, q: Scalar, n: usize) -> usize {
        (single(q).clamp(0.0, 1.0) * (n - 1) as f32).round() as usize
    }

    fn held_out(&self, fraction: Scalar, n: usize) -> usize {
        (n as f64 * number(fraction)).round() as usize
    }

    fn lot(&self, sum: Scalar, mut rng: TrialRng) -> (Scalar, TrialRng) {
        let share = on_stream(&mut rng, |s| s.gen::<f32>());
        (widen(share * single(sum)), rng)
    }

    fn minus(&self, a: Scalar, b: Scalar) -> Scalar {
        widen(single(a) - single(b))
    }

    fn silhouette(&self, own: Scalar, other: Scalar) -> Scalar {
        let (a, b) = (single(own), single(other));
        widen((b - a) / a.max(b))
    }

    fn deviation(&self, values: &Vec<Scalar>, mean: Scalar) -> Scalar {
        let total: f32 = values.iter().map(|v| (single(*v) - single(mean)).powi(2)).sum();
        widen((total / values.len().max(1) as f32).sqrt().max(1e-6))
    }

    fn span(&self, low: Scalar, high: Scalar) -> Scalar {
        widen((single(high) - single(low)).max(1e-6))
    }

    fn scaled(&self, x: Scalar, shift: Scalar, scale: Scalar) -> Scalar {
        widen((single(x) - single(shift)) / single(scale))
    }
}

impl Returns for Arith {
    fn averaged(&self, goals: usize, steps: u128, n: usize) -> Scalar {
        let total = 10.0 * goals as f64 - (steps as f64 - goals as f64);
        scalar(total / n as f64)
    }

    fn learned(
        &self,
        value: Scalar,
        reward: Scalar,
        follow: Option<Scalar>,
        alpha: Scalar,
        gamma: Scalar,
    ) -> Scalar {
        let next = follow.map_or(0.0, |f| number(gamma) * number(f));
        let target = number(reward) + next;
        scalar(number(value) + number(alpha) * (target - number(value)))
    }
}
