use automl_core::axis::{float_axis, float_off_axis, int_off_axis, onto_axis};
use automl_core::budget::{Consumption, EpochBudget, TrialBudget, WallTimeBudget};
use automl_core::distributed::{enqueue_pending, LeaseDesk, Poll, Worker};
use automl_core::distribution::{Bounds, Distribution};
use automl_core::error::Error;
use automl_core::evolution::{inherit, inherited, mutate, snap_int, EvolutionarySampler};
use automl_core::executor::{Executor, ResourceSpec, SequentialExecutor, ThreadExecutor};
use automl_core::fusion::{Modality, MultimodalSpace};
use automl_core::hypervolume::Volumes;
use automl_core::importance::{group_by_key, importance, quantile_bins};
use automl_core::memory::InMemoryStorage;
use automl_core::metrics::{Direction, NamedMetrics, Objective as Aim};
use automl_core::multifidelity::{BracketPlan, EvalLog, Fidelity, Hyperband};
use automl_core::nas::{MacroSpace, OpPalette};
use automl_core::nsga2::{crowding_distances, dominates, non_dominated_ranks, survival_order, Nsga2Sampler};
use automl_core::named::Named;
use automl_core::objective::{Objective, Outcome, ReportLog, ReportSink};
use automl_core::order::ranking;
use automl_core::param::{Assignment, ParamSet, ParamValue};
use automl_core::pareto::ParetoFront;
use automl_core::parzen::{bands, candidates, Parzen};
use automl_core::pipeline::{Component, PipelineSpace, Stage};
use automl_core::pruner::{AshaPruner, MedianPruner, MultiObjectivePruner, NoPruner, Pruner};
use automl_core::qmc::{radical_inverse, unit_to_value, QmcSampler};
use automl_core::reals::Reals;
use automl_core::rng::TrialRng;
use automl_core::robust::{replicate, summarize, trimmed, Aggregator, Replicate};
use automl_core::sampler::{trial_rng, GridSampler, RandomSampler, Sampler};
use automl_core::scalar::Scalar;
use automl_core::space::{Condition, SearchSpace, SpaceModel};
use automl_core::storage::{Storage, StoreModel, StudyMeta};
use automl_core::study::Study;
use automl_core::tpe::{argmax, choice_counts, pick, pick_choice, TpeSampler};
use automl_core::trial::{
    HistoryModel, IntermediateReport, Metrics, StudyId, TrialHistory, TrialId, TrialModel, TrialProgress, TrialRecord,
    TrialState,
};
use automl_core::warmstart::{best_configs, WarmStartSampler};
use rand::seq::SliceRandom;
use rand::{Rng, SeedableRng};
use rand_chacha::ChaCha8Rng;
use std::cell::RefCell;
use std::f64::consts::PI;
use std::rc::Rc;

fn texts(items: &[&str]) -> Vec<String> {
    items.iter().map(|t| t.to_string()).collect()
}

fn bounds(low: f64, high: f64) -> Bounds {
    Bounds { low: scalar(low), high: scalar(high), floor: scalar(low - 1e-9), ceiling: scalar(high + 1e-9) }
}

fn float(low: f64, high: f64) -> Distribution {
    Distribution::float(bounds(low, high))
}

fn log_float(low: f64, high: f64) -> Distribution {
    Distribution::log_float(bounds(low, high))
}

fn categorical(choices: &[&str]) -> Distribution {
    Distribution::categorical(texts(choices))
}

fn single(name: &str, x: f64) -> NamedMetrics {
    NamedMetrics::single(name, scalar(x))
}

fn value(p: &ParamSet, name: &str) -> f64 {
    number(p.float(name).unwrap())
}

fn with_x(x: f64) -> ParamSet {
    ParamSet::new().with("x", ParamValue::Float(scalar(x)))
}

fn completed(id: u64, params: ParamSet, loss: f64) -> TrialRecord {
    let mut r = TrialRecord::new(TrialId(id), StudyId(0), params, id);
    r.state = TrialState::Complete;
    r.final_metrics = Some(single("loss", loss));
    r
}

fn dummy(id: u64) -> TrialRecord {
    TrialRecord::new(TrialId(id), StudyId(0), ParamSet::new(), id)
}

fn line() -> SearchSpace {
    SearchSpace::new().add("x", float(-5.0, 5.0))
}

fn branching() -> SearchSpace {
    SearchSpace::new()
        .add("model", categorical(&["mlp", "transformer"]))
        .add_conditional(
            "d_model",
            Distribution::integer(64, 128),
            Condition::when_eq("model", "transformer"),
        )
        .add_conditional(
            "hidden",
            Distribution::integer(16, 32),
            Condition::when_eq("model", "mlp"),
        )
}

fn assert_branch(p: &ParamSet) {
    match p.categorical("model").unwrap() {
        "transformer" => assert!(p.contains("d_model") && !p.contains("hidden")),
        "mlp" => assert!(p.contains("hidden") && !p.contains("d_model")),
        other => panic!("unexpected model {other}"),
    }
}

struct Fun<F>(F);

impl<F: Fn(&ParamSet) -> Result<NamedMetrics, Error>> Objective for Fun<F> {
    fn allows(&self, _: Assignment, _: ReportLog, _: bool, _: Outcome) -> bool {
        unreachable!("only contracts speak of it")
    }

    fn evaluate<R: ReportSink>(&self, params: &ParamSet, _report: &mut R) -> Result<NamedMetrics, Error> {
        (self.0)(params)
    }
}

fn quadratic(params: &ParamSet) -> Result<NamedMetrics, Error> {
    let x = number(params.float("x")?);
    Ok(single("loss", (x - 2.0).powi(2)))
}

// ---- distributions ----------------------------------------------------------------------------

#[test]
fn float_sample_within_bounds() {
    let d = float(-1.0, 1.0);
    let mut r = TrialRng::new(42);
    for _ in 0..1000 {
        match d.sample(&mut r, &Arith) {
            ParamValue::Float(v) => assert!((-1.0..=1.0).contains(&number(v))),
            _ => panic!("expected float"),
        }
    }
}

#[test]
fn log_float_within_bounds() {
    let d = log_float(1e-4, 1e-1);
    let mut r = TrialRng::new(42);
    for _ in 0..1000 {
        if let ParamValue::Float(v) = d.sample(&mut r, &Arith) {
            let v = number(v);
            assert!((1e-4 - 1e-9..=1e-1 + 1e-9).contains(&v), "v={v}");
        }
    }
}

#[test]
fn int_sample_respects_step() {
    let d = Distribution::Int { low: 0, high: 10, log: false, step: 2 };
    let mut r = TrialRng::new(42);
    for _ in 0..1000 {
        if let ParamValue::Int(v) = d.sample(&mut r, &Arith) {
            assert!((0..=10).contains(&v));
            assert_eq!(v % 2, 0, "v={v} not on step grid");
        }
    }
}

#[test]
fn categorical_sample_is_a_choice() {
    let d = categorical(&["a", "b", "c"]);
    let mut r = TrialRng::new(42);
    for _ in 0..100 {
        if let ParamValue::Categorical(s) = d.sample(&mut r, &Arith) {
            assert!(["a", "b", "c"].contains(&s.as_str()));
        }
    }
}

#[test]
fn validate_rejects_bad_bounds() {
    assert!(float(2.0, 1.0).validate("x").is_err());
    assert!(log_float(-1.0, 1.0).validate("x").is_err());
    assert!(Distribution::categorical(Vec::<String>::new()).validate("x").is_err());
    assert!(float(0.0, 1.0).validate("x").is_ok());
}

#[test]
fn grid_int_enumerates_step() {
    let d = Distribution::Int { low: 0, high: 6, log: false, step: 3 };
    let g = d.grid_values(5, &Arith);
    assert_eq!(g, vec![ParamValue::Int(0), ParamValue::Int(3), ParamValue::Int(6)]);
}

#[test]
fn grid_float_endpoints() {
    let d = float(0.0, 10.0);
    let g = d.grid_values(3, &Arith);
    assert_eq!(
        g,
        vec![
            ParamValue::Float(scalar(0.0)),
            ParamValue::Float(scalar(5.0)),
            ParamValue::Float(scalar(10.0))
        ]
    );
}

#[test]
fn stepped_draws_stay_on_their_steps() {
    let d = Distribution::stepped_float(bounds(0.0, 11.0), scalar(4.0));
    let mut r = TrialRng::new(3);
    let mut seen: Vec<f64> = Vec::new();
    for _ in 0..300 {
        match d.sample(&mut r, &Arith) {
            ParamValue::Float(v) => seen.push(number(v)),
            other => panic!("unexpected {other:?}"),
        }
    }
    // 12 is the step nearest to 11, and lies above it: such draws come down to 8.
    for x in [0.0, 4.0, 8.0] {
        assert!(seen.contains(&x));
    }
    assert!(seen.iter().all(|x| [0.0, 4.0, 8.0].contains(x)));
}

#[test]
fn odd_distributions_have_grids_too() {
    assert!(Distribution::integer(5, 1).grid_values(3, &Arith).is_empty());
    assert!(categorical(&[]).grid_values(3, &Arith).is_empty());
    assert_eq!(log_float(0.0, 1.0).grid_values(4, &Arith).len(), 4);
    assert_eq!(float(2.0, 1.0).grid_values(1, &Arith).len(), 1);
    // A parameter without values leaves no point.
    let space = SearchSpace::new().add("x", Distribution::integer(5, 1));
    let mut grid = GridSampler::new(2);
    assert!(grid.advance(&space, &Arith).is_empty());
    assert!(grid.is_empty());
    let mut pairs = GridSampler::new(2);
    let flat = SearchSpace::new().add("a", Distribution::integer(1, 2)).add("b", Distribution::integer(7, 8));
    let got: Vec<(i64, i64)> = (0..5)
        .map(|_| pairs.advance(&flat, &Arith))
        .map(|p| (p.integer("a").unwrap(), p.integer("b").unwrap()))
        .collect();
    assert_eq!(got, vec![(1, 7), (1, 8), (2, 7), (2, 8), (1, 7)]);
}

#[test]
fn draws_are_the_streams_own() {
    // A draw of the library is the draw of `rand` on the same stream.
    let mut stream = ChaCha8Rng::seed_from_u64(42);
    let mut r = TrialRng::new(42);
    let d = Distribution::integer(0, 1_000_000);
    let c = categorical(&["a", "b", "c"]);
    for _ in 0..200 {
        let want = stream.gen_range(0..=1_000_000i64);
        assert_eq!(d.sample(&mut r, &Arith), ParamValue::Int(want));
        let want = ["a", "b", "c"][stream.gen_range(0..3usize)];
        assert_eq!(c.sample(&mut r, &Arith), ParamValue::Categorical(want.into()));
        let want = stream.gen_bool(0.5);
        assert_eq!(Distribution::boolean().sample(&mut r, &Arith), ParamValue::Bool(want));
        let want = stream.gen_range(-1.0..=1.0);
        assert_eq!(float(-1.0, 1.0).sample(&mut r, &Arith), ParamValue::Float(scalar(want)));
    }
    let mut want: Vec<usize> = (0..20).collect();
    want.shuffle(&mut stream);
    assert_eq!(r.shuffle((0..20).collect()), want);
}

#[test]
fn chances_are_the_streams_own() {
    let mut stream = ChaCha8Rng::seed_from_u64(7);
    let mut r = TrialRng::new(7);
    let odds = [0.0, -0.0, 5e-324, 1e-300, 1e-19, 1e-10, 0.2, 0.25, 0.3, 0.5, 0.7, 0.999, 1.0 - f64::EPSILON, 1.0];
    for _ in 0..300 {
        for p in odds {
            let want = stream.gen_bool(p);
            assert_eq!(r.chance(scalar(p)), want, "{p}");
        }
    }
    assert!(scalar(1.0).is_probability() && scalar(-0.0).is_probability());
    assert!(!scalar(f64::NAN).is_probability() && !scalar(1.5).is_probability() && !scalar(-0.1).is_probability());
}

#[test]
fn likelier_events_come_about_too() {
    let odds = [0.0, 0.1, 0.4, 0.6, 0.95, 1.0];
    for seed in 0..200 {
        let drawn: Vec<bool> = odds.iter().map(|p| TrialRng::new(seed).chance(scalar(*p))).collect();
        assert!(drawn.windows(2).all(|w| w[0] <= w[1]));
        assert!(!drawn[0] && drawn[5]);
    }
}

#[test]
fn unmutated_children_inherit() {
    let space = SearchSpace::new()
        .add("x", float(0.0, 1.0))
        .add("n", Distribution::integer(0, 9))
        .add("c", categorical(&["a", "b", "c"]));
    let a = ParamSet::new()
        .with("x", ParamValue::Float(scalar(0.25)))
        .with("n", ParamValue::Int(1))
        .with("c", ParamValue::Categorical("a".into()));
    let b = ParamSet::new()
        .with("x", ParamValue::Float(scalar(0.75)))
        .with("n", ParamValue::Int(8))
        .with("c", ParamValue::Categorical("b".into()));
    let mut seen = [0usize; 2];
    for seed in 0..60 {
        let mut rng = TrialRng::new(seed);
        let child = EvolutionarySampler::new("loss", Direction::Minimize, 0)
            .with_mutation_prob(scalar(0.0))
            .cross(&space, &a, &b, &mut rng, &Arith);
        // The coin of each parameter names the parent; the draw for mutation follows it.
        let mut stream = ChaCha8Rng::seed_from_u64(seed);
        for name in ["x", "n", "c"] {
            let from = if stream.gen_bool(0.5) { &a } else { &b };
            assert!(!stream.gen_bool(0.0));
            assert_eq!(child.get(name), from.get(name));
            seen[(child.get(name) == b.get(name)) as usize] += 1;
        }
    }
    assert!(seen[0] > 50 && seen[1] > 50);
}

#[test]
fn always_mutated_choices_are_drawn_anew() {
    let space = SearchSpace::new().add("c", categorical(&["a", "b", "c"]));
    let a = ParamSet::new().with("c", ParamValue::Categorical("a".into()));
    let mut rng = TrialRng::new(3);
    let child = Nsga2Sampler::new(vec![("loss".into(), Direction::Minimize)], 0)
        .with_mutation_prob(scalar(1.0))
        .cross(&space, &a, &a, &mut rng, &Arith);
    let mut stream = ChaCha8Rng::seed_from_u64(3);
    stream.gen_bool(0.5);
    let want = ["a", "b", "c"][stream.gen_range(0..3usize)];
    assert_eq!(child.get("c"), Some(&ParamValue::Categorical(want.into())));
}

#[test]
fn a_lacking_parent_is_helped_out_only_by_the_single_objective_sampler() {
    let space = SearchSpace::new().add("n", Distribution::integer(0, 1_000_000));
    let a = ParamSet::new().with("n", ParamValue::Int(7));
    let none = ParamSet::new();
    for seed in 0..40 {
        let helped = EvolutionarySampler::new("loss", Direction::Minimize, 0)
            .with_mutation_prob(scalar(0.0))
            .cross(&space, &a, &none, &mut TrialRng::new(seed), &Arith);
        assert_eq!(helped.integer("n").unwrap(), 7);
        let alone = Nsga2Sampler::new(vec![("loss".into(), Direction::Minimize)], 0)
            .with_mutation_prob(scalar(0.0))
            .cross(&space, &a, &none, &mut TrialRng::new(seed), &Arith);
        let mut stream = ChaCha8Rng::seed_from_u64(seed);
        let want = if stream.gen_bool(0.5) { 7 } else { stream.gen_range(0..=1_000_000i64) };
        assert_eq!(alone.integer("n").unwrap(), want);
    }
}

#[test]
fn log_integers_stay_in_range() {
    let d = Distribution::log_int(1, 8);
    let mut r = TrialRng::new(1);
    for _ in 0..200 {
        assert!(d.contains(&d.sample(&mut r, &Arith)));
    }
}

#[test]
fn stepped_log_integers_stay_on_their_steps() {
    let d = Distribution::Int { low: 1, high: 100, log: true, step: 10 };
    let mut r = TrialRng::new(7);
    let mut seen = Vec::new();
    for _ in 0..400 {
        match d.sample(&mut r, &Arith) {
            ParamValue::Int(v) => seen.push(v),
            other => panic!("unexpected {other:?}"),
        }
    }
    assert!(seen.iter().all(|v| (1..=91).contains(v) && (v - 1) % 10 == 0));
    assert!(seen.contains(&1) && seen.contains(&11) && seen.iter().any(|v| *v > 50));
}

// ---- random and grid search ---------------------------------------------------------------------

fn flat_space() -> SearchSpace {
    SearchSpace::new()
        .add("lr", log_float(1e-4, 1e-1))
        .add("depth", Distribution::integer(1, 4))
        .add("model", categorical(&["a", "b"]))
}

#[test]
fn random_is_deterministic_for_same_history_len() {
    let space = flat_space();
    let hist = TrialHistory::default();
    let mut s1 = RandomSampler::new(7);
    let mut s2 = RandomSampler::new(7);
    let a = s1.suggest(&space, &hist, &Arith);
    let b = s2.suggest(&space, &hist, &Arith);
    assert_eq!(a.iter(), b.iter());
}

#[test]
fn random_respects_conditions() {
    let space = branching();
    let mut s = RandomSampler::new(1);
    for _ in 0..50 {
        let h = TrialHistory::new(vec![]);
        let p = s.suggest(&space, &h, &Arith);
        match p.categorical("model").unwrap() {
            "transformer" => {
                assert!(p.contains("d_model"));
                assert!(!p.contains("hidden"));
            }
            "mlp" => {
                assert!(p.contains("hidden"));
                assert!(!p.contains("d_model"));
            }
            other => panic!("unexpected model {other}"),
        }
    }
}

#[test]
fn grid_enumerates_conditional_product() {
    let space = branching();
    let hist = TrialHistory::default();
    let mut g = GridSampler::new(1);
    let first = g.suggest(&space, &hist, &Arith);
    // model has 2 choices; transformer expands d_model(64..=128) and mlp
    // expands hidden(16..=32). Grid size = 65 + 17 = 82.
    assert_eq!(g.len(), 65 + 17);
    // Every emitted point respects the active-parameter rule.
    assert!(first.contains("model"));
}

#[test]
fn grid_never_emits_inactive_param() {
    let space = branching();
    let hist = TrialHistory::default();
    let mut g = GridSampler::new(1);
    for _ in 0..(65 + 17) {
        let p = g.suggest(&space, &hist, &Arith);
        assert_branch(&p);
    }
}

#[test]
fn grid_starts_over_after_the_last_point() {
    let space = SearchSpace::new().add("k", Distribution::integer(2, 4));
    let hist = TrialHistory::default();
    let mut g = GridSampler::new(1);
    assert!(g.is_empty());
    let ks: Vec<i64> = (0..7)
        .map(|_| g.suggest(&space, &hist, &Arith).integer("k").unwrap())
        .collect();
    assert_eq!(ks, vec![2, 3, 4, 2, 3, 4, 2]);
    assert_eq!(g.name(), "grid");
}

// ---- evolution ------------------------------------------------------------------------------------

#[test]
fn startup_returns_valid_random_params() {
    let mut s = EvolutionarySampler::new("loss", Direction::Minimize, 1);
    let p = s.suggest(&line(), &TrialHistory::default(), &Arith);
    assert!((-5.0..=5.0).contains(&value(&p, "x")));
}

#[test]
fn evolution_deterministic_for_same_history() {
    let mut records = Vec::new();
    for i in 0..25u64 {
        let x = -5.0 + i as f64 * 0.4;
        records.push(completed(i, with_x(x), (x - 2.0).powi(2)));
    }
    let hist = TrialHistory::new(records);
    let mut s1 = EvolutionarySampler::new("loss", Direction::Minimize, 9);
    let mut s2 = EvolutionarySampler::new("loss", Direction::Minimize, 9);
    let a = s1.suggest(&line(), &hist, &Arith);
    let b = s2.suggest(&line(), &hist, &Arith);
    assert_eq!(a.iter(), b.iter());
}

#[test]
fn evolution_respects_conditional_branches() {
    let space = branching();
    let mut s = EvolutionarySampler::new("loss", Direction::Minimize, 2);
    for _ in 0..30 {
        let p = s.suggest(&space, &TrialHistory::default(), &Arith);
        assert_branch(&p);
    }
}

#[test]
fn mutations_and_tournaments_are_exact() {
    assert_eq!(snap_int(0, 10, 3, 2), 6);
    // Past the last whole step a value comes down to it.
    assert_eq!(snap_int(0, 10, 3, 9), 9);
    assert_eq!(snap_int(0, 11, 4, 3), 8);
    assert_eq!(snap_int(0, 10, 3, -4), 0);
    assert_eq!(snap_int(i64::MIN, i64::MAX, i64::MAX, i64::MAX), i64::MAX - 1);
    // A scale of zero leaves a number where it is.
    let mut r = TrialRng::new(5);
    let kept = mutate(&float(0.0, 1.0), &ParamValue::Float(scalar(0.25)), scalar(0.0), &mut r, &Arith);
    assert_eq!(kept, ParamValue::Float(scalar(0.25)));
    let kept = mutate(&Distribution::integer(0, 9), &ParamValue::Int(4), scalar(0.0), &mut r, &Arith);
    assert_eq!(kept, ParamValue::Int(4));
    // A child takes a value from its first parent, or else from the second, or draws one.
    let (a, b) = (with_x(1.0), with_x(2.0).with("y", ParamValue::Int(7)));
    assert_eq!(inherited("x", &a, &b), Some(&ParamValue::Float(scalar(1.0))));
    assert_eq!(inherited("y", &a, &b), Some(&ParamValue::Int(7)));
    assert_eq!(inherited("z", &a, &b), None);
    let taken = inherit(&Distribution::integer(0, 9), inherited("y", &a, &b), &mut r, &Arith);
    assert_eq!(taken, ParamValue::Int(7));
    let one = Distribution::integer(4, 4);
    assert_eq!(inherit(&one, None, &mut r, &Arith), ParamValue::Int(4));
    // A tournament over one trial can only pick it; a long one finds the best.
    let s = EvolutionarySampler::new("loss", Direction::Maximize, 1).with_tournament_size(64);
    assert_eq!(s.select(&vec![scalar(1.0)], &mut r), 0);
    assert_eq!(s.select(&vec![scalar(1.0), scalar(3.0), scalar(2.0)], &mut r), 1);
}

// ---- TPE ----------------------------------------------------------------------------------------------

#[test]
fn falls_back_to_random_before_startup() {
    let mut s = TpeSampler::new("loss", Direction::Minimize, 1);
    let p = s.suggest(&line(), &TrialHistory::default(), &Arith);
    assert!(p.contains("x"));
    let x = value(&p, "x");
    assert!((-5.0..=5.0).contains(&x));
}

#[test]
fn tpe_deterministic_for_same_history() {
    let mut history = Vec::new();
    for i in 0..15u64 {
        let x = -5.0 + (i as f64) * 0.5;
        history.push(completed(i, with_x(x), (x - 2.0).powi(2)));
    }
    let hist = TrialHistory::new(history);
    let mut s1 = TpeSampler::new("loss", Direction::Minimize, 99);
    let mut s2 = TpeSampler::new("loss", Direction::Minimize, 99);
    let a = s1.suggest(&line(), &hist, &Arith);
    let b = s2.suggest(&line(), &hist, &Arith);
    assert_eq!(a.iter(), b.iter());
}

#[test]
fn concentrates_near_optimum() {
    // Feed TPE a set of observations of (x-2)^2 and check that the values it
    // proposes concentrate near x=2 (better than uniform expectation).
    let space = line();
    let mut history = Vec::new();
    let mut seed_rng = ChaCha8Rng::seed_from_u64(7);
    for i in 0..40u64 {
        let x: f64 = seed_rng.gen_range(-5.0..=5.0);
        history.push(completed(i, with_x(x), (x - 2.0).powi(2)));
    }
    let hist = TrialHistory::new(history);
    // suggest() derives its RNG from (seed, history.len()); history is fixed
    // here, so vary the seed per draw to sample the proposal distribution.
    let mut close = 0;
    for seed in 0..40u64 {
        let mut s = TpeSampler::new("loss", Direction::Minimize, seed);
        let p = s.suggest(&space, &hist, &Arith);
        if (value(&p, "x") - 2.0).abs() < 2.0 {
            close += 1;
        }
    }
    // A uniform sampler would land within |x-2|<2 about 40% of the time
    // (range 4 of 10). TPE should do clearly better.
    assert!(close > 24, "only {close}/40 proposals were near the optimum");
}

#[test]
fn tpe_respects_conditional_branches() {
    let space = branching();
    // Enough startup evidence so TPE modeling engages.
    let mut history = Vec::new();
    for i in 0..20u64 {
        let p = ParamSet::new()
            .with("model", ParamValue::Categorical("mlp".into()))
            .with("hidden", ParamValue::Int(24));
        history.push(completed(i, p, 1.0));
    }
    let hist = TrialHistory::new(history);
    let mut s = TpeSampler::new("loss", Direction::Minimize, 5);
    for _ in 0..20 {
        let p = s.suggest(&space, &hist, &Arith);
        assert_branch(&p);
    }
}

#[test]
fn tpe_optimizes_a_conditional_space_end_to_end() {
    let space = SearchSpace::new()
        .add("model", categorical(&["a", "b"]))
        .add_conditional("x", float(-5.0, 5.0), Condition::when_eq("model", "a"))
        .add_conditional("y", float(-5.0, 5.0), Condition::when_eq("model", "b"));

    let objective = Fun(|p: &ParamSet| {
        let loss = match p.categorical("model")? {
            "a" => 5.0 + (number(p.float("x")?) - 2.0).powi(2), // best 5.0
            "b" => (number(p.float("y")?) + 3.0).powi(2),       // best 0.0 at y=-3
            _ => unreachable!(),
        };
        Ok(single("loss", loss))
    });

    let mut study = Study::builder(space, Arith)
        .minimize("loss")
        .sampler(TpeSampler::new("loss", Direction::Minimize, 11))
        .seed(11)
        .build()
        .unwrap();
    study.optimize_n(&objective, 120).unwrap();

    let best = study.best_trial().unwrap().unwrap();
    // TPE should discover branch "b" is superior and hone in on y ≈ -3.
    assert_eq!(best.params.categorical("model").unwrap(), "b", "should prefer branch b");
    let loss = number(best.final_value("loss").unwrap());
    assert!(loss < 0.5, "best loss {loss} — did not find the conditional optimum");
}

#[test]
fn mixtures_are_as_wide_as_their_gaps() {
    // Centers at 0, 1 and 4, and the prior at 5: the gaps are 1, 3 and 1.
    let obs: Vec<Scalar> = [4.0, 0.0, 1.0].iter().map(|x| scalar(*x)).collect();
    let p = Parzen::new(&obs, scalar(0.0), scalar(10.0), &Arith);
    let all = |v: &Vec<Scalar>| v.iter().map(|x| number(*x)).collect::<Vec<f64>>();
    assert_eq!(all(&p.mus), vec![4.0, 0.0, 1.0, 5.0]);
    assert_eq!(all(&p.sigmas), vec![1.0, 1.0, 1.0, 10.0]);
    // Gaps are kept between a hundredth of the axis and all of it.
    let close: Vec<Scalar> = [0.0, 1e-6].iter().map(|x| scalar(*x)).collect();
    let p = Parzen::new(&close, scalar(0.0), scalar(10.0), &Arith);
    assert_eq!(all(&p.sigmas), vec![0.1, 0.1, 10.0]);
    let none = Parzen::new(&vec![], scalar(2.0), scalar(2.0), &Arith);
    assert_eq!((all(&none.mus), all(&none.sigmas)), (vec![2.0], vec![1e-12]));
    // Widths by given gaps: the nearer of the two, the widest where there is no finite one.
    let gaps = vec![scalar(0.5), scalar(f64::INFINITY)];
    assert_eq!(all(&bands(&vec![1, 0, 2], &gaps, scalar(0.1), scalar(4.0))), vec![0.5, 0.5, 4.0]);
    // Draws stay on the axis, and there is at least one.
    let mut rng = TrialRng::new(5);
    let found = candidates(&p, &none, 0, &mut rng, &Arith);
    assert_eq!(found.len(), 1);
    for (x, _) in candidates(&p, &none, 40, &mut rng, &Arith) {
        assert!((0.0..=10.0).contains(&number(x)));
    }
}

#[test]
fn splits_and_counts_are_exact() {
    // A quarter of the trials is good, at least one, at most 25, never all of them.
    assert_eq!(TpeSampler::n_below(3, 10), 3);
    assert_eq!(TpeSampler::n_below(0, 10), 1);
    assert_eq!(TpeSampler::n_below(10, 10), 9);
    assert_eq!(TpeSampler::n_below(100, 400), 25);
    assert_eq!(argmax(&vec![scalar(1.0), scalar(3.0), scalar(3.0), scalar(2.0)]), 1);
    assert_eq!(argmax(&vec![scalar(f64::NAN), scalar(-1.0)]), 1);
    // The leading candidate is the first of the highest scores.
    let found = vec![(scalar(0.2), scalar(1.0)), (scalar(9.0), scalar(2.0)), (scalar(0.4), scalar(2.0))];
    assert_eq!(pick(&found), scalar(9.0));
    // What lies on the axis is moved into the range and snapped to its steps.
    let unit = bounds(0.0, 1.0);
    assert_eq!(float_off_axis(&unit, false, None, scalar(9.0), &Arith), scalar(1.0));
    assert_eq!(float_off_axis(&unit, false, None, scalar(0.3), &Arith), scalar(0.3));
    assert_eq!(float_off_axis(&unit, false, Some(scalar(0.25)), scalar(0.3), &Arith), scalar(0.25));
    assert_eq!(float_off_axis(&bounds(1.0, 9.0), true, None, scalar(0.0), &Arith), scalar(1.0));
    assert_eq!(int_off_axis(10, 20, false, 3, scalar(15.0), &Arith), 16);
    assert_eq!(int_off_axis(10, 20, false, 3, scalar(99.0), &Arith), 19);
    assert_eq!(float_axis(&bounds(1.0, 2.0), false, &Arith), (scalar(1.0), scalar(2.0)));
    assert_eq!(onto_axis(scalar(-3.0), true, scalar(1.0), &Arith), scalar(0.0));
    assert_eq!(onto_axis(scalar(-3.0), false, scalar(1.0), &Arith), scalar(-3.0));
    assert_eq!(pick_choice(&vec![scalar(0.0), scalar(1.0)], 2), 1);
    assert_eq!(pick_choice(&vec![scalar(0.0), scalar(1.0)], 3), 0);
    let obs = vec![
        ParamValue::Categorical("b".into()),
        ParamValue::Categorical("b".into()),
        ParamValue::Categorical("z".into()),
        ParamValue::Int(1),
    ];
    assert_eq!(choice_counts(&obs, &texts(&["a", "b"])), vec![1, 3]);
}

// ---- quasi-random search ----------------------------------------------------------------------------

#[test]
fn radical_inverse_base2_matches_known_sequence() {
    // van der Corput base 2: 1/2, 1/4, 3/4, 1/8, 5/8, 3/8, 7/8.
    let expected = [0.5, 0.25, 0.75, 0.125, 0.625, 0.375, 0.875];
    for (i, e) in expected.iter().enumerate() {
        let got = number(radical_inverse(i as u64 + 1, 2, &Arith));
        assert!((got - e).abs() < 1e-12, "i={i}: got {got}, want {e}");
    }
}

#[test]
fn deterministic_and_within_bounds() {
    let space = SearchSpace::new()
        .add("x", float(-5.0, 5.0))
        .add("k", Distribution::integer(1, 10))
        .add("c", categorical(&["a", "b", "c"]));
    let hist = TrialHistory::default();
    let mut s1 = QmcSampler::new();
    let mut s2 = QmcSampler::new();
    let p1 = s1.suggest(&space, &hist, &Arith);
    assert_eq!(p1.iter(), s2.suggest(&space, &hist, &Arith).iter());
    assert!((-5.0..=5.0).contains(&value(&p1, "x")));
    assert!((1..=10).contains(&p1.integer("k").unwrap()));
    assert!(["a", "b", "c"].contains(&p1.categorical("c").unwrap()));
}

#[test]
fn low_discrepancy_covers_the_range() {
    // Over N points on [0,1], the largest gap between sorted samples should
    // be far smaller than random sampling would typically give.
    let space = SearchSpace::new().add("x", float(0.0, 1.0));
    let mut xs = Vec::new();
    for i in 0..64u64 {
        let mut s = QmcSampler::new();
        // History length varies the sequence index, so successive trials
        // draw successive Halton points.
        let hist = TrialHistory::new((0..i).map(dummy).collect());
        xs.push(value(&s.suggest(&space, &hist, &Arith), "x"));
    }
    xs.sort_by(|a, b| a.partial_cmp(b).unwrap());
    let mut max_gap = xs[0]; // gap from 0
    for w in xs.windows(2) {
        max_gap = max_gap.max(w[1] - w[0]);
    }
    max_gap = max_gap.max(1.0 - xs[xs.len() - 1]);
    // 64 Halton base-2 points cover [0,1] with gaps ~1/64; allow slack.
    assert!(max_gap < 0.06, "max gap {max_gap} too large — poor coverage");
}

#[test]
fn qmc_respects_conditional_branches() {
    let space = branching();
    for i in 0..40u64 {
        let mut s = QmcSampler::new();
        let hist = TrialHistory::new((0..i).map(dummy).collect());
        let p = s.suggest(&space, &hist, &Arith);
        assert_branch(&p);
    }
}

#[test]
fn halton_points_are_exact() {
    // With no points skipped, the first trial has index 1: a half in base 2, a third in base 3.
    let space = SearchSpace::new()
        .add("x", float(0.0, 1.0))
        .add("k", Distribution::integer(0, 8))
        .add("b", Distribution::boolean());
    let mut s = QmcSampler::new().with_skip(0);
    assert_eq!(s.index(0), 1);
    assert_eq!(QmcSampler::default().index(0), 6);
    let p = s.suggest(&space, &TrialHistory::default(), &Arith);
    assert_eq!(value(&p, "x"), 0.5);
    assert_eq!(p.integer("k").unwrap(), 3);
    assert!(!p.boolean("b").unwrap());
    assert_eq!(s.name(), "qmc");
}

#[test]
fn quasi_random_search_walks_spaces_out_of_order() {
    // A condition on what is declared later is not met yet, and a name given twice is taken twice.
    let space = SearchSpace::new()
        .add_conditional("k", Distribution::integer(0, 8), Condition::when_eq("model", "cnn"))
        .add("model", categorical(&["cnn"]))
        .add("x", Distribution::integer(0, 8))
        .add("x", float(0.0, 1.0));
    let p = QmcSampler::new().with_skip(0).suggest(&space, &TrialHistory::default(), &Arith);
    assert_eq!(p.get("k"), None);
    assert_eq!(p.categorical("model").unwrap(), "cnn");
    // The last word is that of the fourth parameter, at a seventh.
    assert!((value(&p, "x") - 1.0 / 7.0).abs() < 1e-12);
}

#[test]
fn the_ends_of_the_unit_interval_give_the_ends() {
    let at = |d: &Distribution, u: f64| unit_to_value(d, scalar(u), &Arith);
    let ops = categorical(&["a", "b", "c"]);
    assert_eq!(at(&ops, 0.0), ParamValue::Categorical("a".into()));
    assert_eq!(at(&ops, 0.5), ParamValue::Categorical("b".into()));
    assert_eq!(at(&ops, 1.0), ParamValue::Categorical("c".into()));
    assert_eq!(at(&Distribution::boolean(), 0.0), ParamValue::Bool(false));
    assert_eq!(at(&Distribution::boolean(), 1.0), ParamValue::Bool(true));
    assert_eq!(at(&Distribution::integer(1, 10), 0.0), ParamValue::Int(1));
    assert_eq!(at(&Distribution::integer(1, 10), 1.0), ParamValue::Int(10));
    assert_eq!(at(&float(-5.0, 5.0), 0.0), ParamValue::Float(scalar(-5.0)));
    // Past the ends, and at what is no number, the point is moved into the interval.
    assert_eq!(at(&ops, -3.0), ParamValue::Categorical("a".into()));
    assert_eq!(at(&ops, 7.0), ParamValue::Categorical("c".into()));
    // The last whole step of a range need not be its end.
    let quarters = Distribution::Int { low: 0, high: 11, log: false, step: 4 };
    assert_eq!(at(&quarters, 1.0), ParamValue::Int(8));
}

// ---- NSGA-II ---------------------------------------------------------------------------------------

fn points(rows: &[[f64; 2]]) -> Vec<Vec<Scalar>> {
    rows.iter().map(|r| r.iter().map(|x| scalar(*x)).collect()).collect()
}

#[test]
fn dominance_and_ranks() {
    // Minimization-normalized points.
    let pop = points(&[
        [1.0, 1.0], // front 0
        [2.0, 2.0], // dominated by [1,1] -> front 1
        [1.0, 3.0], // non-dominated vs [1,1]? [1,1] <= [1,3], strict on 2nd -> dominated
        [0.5, 4.0], // trades off with [1,1] -> front 0
    ]);
    assert!(dominates(&pop[0], &pop[1]));
    assert!(!dominates(&pop[0], &pop[3]));
    let ranks = non_dominated_ranks(&pop);
    assert_eq!(ranks[0], 0);
    assert_eq!(ranks[3], 0);
    assert!(ranks[1] >= 1);
    assert!(ranks[2] >= 1);
}

#[test]
fn crowding_marks_boundaries_infinite() {
    let pop = points(&[[0.0, 3.0], [1.0, 2.0], [2.0, 1.0], [3.0, 0.0]]);
    let ranks = vec![0, 0, 0, 0];
    let d: Vec<f64> = crowding_distances(&pop, &ranks, &Arith).into_iter().map(number).collect();
    assert!(d[0].is_infinite() && d[3].is_infinite());
    assert!(d[1].is_finite() && d[2].is_finite());
}

#[test]
fn survivors_are_ordered_by_rank_then_room() {
    let pop = points(&[[0.0, 3.0], [1.0, 2.0], [2.0, 1.0], [3.0, 0.0], [3.0, 3.0]]);
    let ranks = non_dominated_ranks(&pop);
    assert_eq!(ranks, vec![0, 0, 0, 0, 1]);
    let crowd = crowding_distances(&pop, &ranks, &Arith);
    // Each inner point spans two thirds of both objectives.
    assert!((number(crowd[1]) - 4.0 / 3.0).abs() < 1e-12);
    assert_eq!(survival_order(&ranks, &crowd), vec![0, 3, 1, 2, 4]);
}

#[test]
fn nsga2_beats_random_on_zdt1() {
    // ZDT1 (2 variables): the Pareto front lies at y = 0, so a sampler must
    // apply selection pressure to drive y down — random cannot, NSGA-II can.
    //   f1 = x ; g = 1 + 9y ; f2 = g*(1 - sqrt(x/g))
    let objective = Fun(|p: &ParamSet| {
        let x = number(p.float("x")?);
        let y = number(p.float("y")?);
        let g = 1.0 + 9.0 * y;
        let f2 = g * (1.0 - (x / g).sqrt());
        Ok(single("f1", x).with("f2", scalar(f2)))
    });
    // Reference dominated by every achievable point.
    let reference = single("f1", 1.1).with("f2", scalar(11.0));
    let space = || {
        SearchSpace::new().add("x", float(0.0, 1.0)).add("y", float(0.0, 1.0))
    };
    let mut nsga = Study::builder(space(), Arith)
        .minimize("f1")
        .minimize("f2")
        .seed(3)
        .sampler(Nsga2Sampler::new(
            vec![("f1".into(), Direction::Minimize), ("f2".into(), Direction::Minimize)],
            3,
        ))
        .build()
        .unwrap();
    nsga.optimize_n(&objective, 120).unwrap();
    let nsga_hv = number(nsga.hypervolume(&reference, &Arith).unwrap());
    let mut random = Study::builder(space(), Arith)
        .minimize("f1")
        .minimize("f2")
        .seed(3)
        .sampler(RandomSampler::new(3))
        .build()
        .unwrap();
    random.optimize_n(&objective, 120).unwrap();
    let rand_hv = number(random.hypervolume(&reference, &Arith).unwrap());
    assert!(nsga_hv > 0.0, "NSGA-II produced an empty/zero front");
    // Driving y -> 0 gives a strictly better front than random scattering.
    assert!(nsga_hv > rand_hv, "NSGA-II hypervolume {nsga_hv} should beat random {rand_hv} on ZDT1");
}

// ---- hypervolume -----------------------------------------------------------------------------------

#[test]
fn nsga2_starts_out_like_random_sampling() {
    let aims = vec![("err".to_string(), Direction::Minimize), ("size".to_string(), Direction::Maximize)];
    let mut nsga = Nsga2Sampler::new(aims, 11).with_startup_trials(3);
    let mut random = RandomSampler::new(11);
    for n in 0..3u64 {
        let history = TrialHistory::new((0..n).map(dummy).collect());
        let (a, b) = (nsga.suggest(&line(), &history, &Arith), random.suggest(&line(), &history, &Arith));
        assert_eq!(value(&a, "x"), value(&b, "x"));
    }
}

#[test]
fn a_tenth_of_the_values_is_mutated_unless_set() {
    let aims = || vec![("loss".to_string(), Direction::Minimize)];
    let make = || Nsga2Sampler::new(aims(), 5).with_startup_trials(2);
    let mut told_apart = false;
    for n in 4..40u64 {
        let history = TrialHistory::new((0..n).map(|i| completed(i, with_x(i as f64 / 8.0), i as f64)).collect());
        let usual = value(&make().suggest(&line(), &history, &Arith), "x");
        let tenth = value(&make().with_mutation_prob(scalar(0.1)).suggest(&line(), &history, &Arith), "x");
        let always = value(&make().with_mutation_prob(scalar(1.0)).suggest(&line(), &history, &Arith), "x");
        assert_eq!(usual, tenth);
        told_apart |= usual != always;
    }
    assert!(told_apart);
}

fn front_of(pts: &[(f64, f64)]) -> ParetoFront {
    let mut f = ParetoFront::new(vec![Aim::minimize("a"), Aim::minimize("b")]);
    for (i, (a, b)) in pts.iter().enumerate() {
        f.insert(TrialId(i as u64), &single("a", *a).with("b", scalar(*b)));
    }
    f
}

#[test]
fn hypervolume_2d_matches_hand_calculation() {
    let front = front_of(&[(1.0, 3.0), (2.0, 2.0)]);
    // Reference (4, 4): union area of [1,4]x[3,4] and [2,4]x[2,4] = 5.
    let hv = number(front.hypervolume(&single("a", 4.0).with("b", scalar(4.0)), &Arith));
    assert!((hv - 5.0).abs() < 1e-9, "hv = {hv}");
}

#[test]
fn hypervolume_grows_with_better_front() {
    let mk = |pts: &[(f64, f64)]| {
        number(front_of(pts).hypervolume(&single("a", 10.0).with("b", scalar(10.0)), &Arith))
    };
    let worse = mk(&[(5.0, 5.0)]);
    let better = mk(&[(2.0, 2.0)]);
    assert!(better > worse, "better={better} worse={worse}");
}

#[test]
fn hypervolume_in_other_dimensions() {
    let mut one = ParetoFront::new(vec![Aim::maximize("a")]);
    one.insert(TrialId(0), &single("a", 3.0));
    assert_eq!(number(one.hypervolume(&single("a", 1.0), &Arith)), 2.0);
    assert_eq!(number(one.hypervolume(&single("b", 1.0), &Arith)), 0.0);
    let mut three =
        ParetoFront::new(vec![Aim::minimize("a"), Aim::minimize("b"), Aim::minimize("c")]);
    let at = |a: f64, b: f64, c: f64| single("a", a).with("b", scalar(b)).with("c", scalar(c));
    three.insert(TrialId(0), &at(0.0, 0.0, 0.0));
    // One point sweeps its whole box.
    assert_eq!(number(three.hypervolume(&at(1.0, 2.0, 3.0), &Arith)), 6.0);
    let none = ParetoFront::new(vec![Aim::minimize("a")]);
    assert_eq!(number(none.hypervolume(&single("a", 1.0), &Arith)), 0.0);
}

// ---- studies ----------------------------------------------------------------------------------------

#[test]
fn optimize_runs_and_finds_reasonable_min() {
    let mut study = Study::builder(line(), Arith)
        .minimize("loss")
        .sampler(RandomSampler::new(123))
        .seed(123)
        .build()
        .unwrap();
    let n = study.optimize_n(&Fun(quadratic), 200).unwrap();
    assert_eq!(n, 200);
    let best = study.best_trial().unwrap().unwrap();
    let x = value(&best.params, "x");
    // With 200 random samples the best x should be near 2.
    assert!((x - 2.0).abs() < 0.5, "best x = {x}");
}

#[test]
fn a_wall_time_budget_stops_a_study() {
    // Each trial takes five milliseconds or more, so thirty are used up after six trials at most.
    let slow = Fun(|_: &ParamSet| {
        let began = std::time::Instant::now();
        while began.elapsed().as_millis() < 5 {}
        Ok(single("loss", 0.5))
    });
    let mut study = Study::builder(line(), Arith).minimize("loss").random().build().unwrap();
    let n = study.optimize(&slow, &WallTimeBudget { limit: 30_000_000 }).unwrap();
    assert!((1..=6).contains(&n), "ran {n} trials");
    assert_eq!(study.optimize(&slow, &WallTimeBudget { limit: 0 }).unwrap(), 0);
}

#[test]
fn a_search_leaves_other_studies_alone() {
    let mut storage = InMemoryStorage::new();
    let other = study_with(&mut storage);
    let theirs = storage.enqueue_trial(other, with_x(0.25), 9).unwrap();
    storage.save_artifact(theirs, "weights", vec![1, 2, 3]).unwrap();
    let before = storage.load_trial(theirs).unwrap();
    let mut study = Study::builder(line(), Arith).minimize("loss").storage(storage).random().build().unwrap();
    assert_eq!(study.optimize_n(&Fun(quadratic), 10).unwrap(), 10);
    let id = study.id();
    let storage = study.into_storage();
    assert_eq!(storage.load_history(id).unwrap().len(), 10);
    assert_eq!(storage.load_history(other).unwrap().len(), 1);
    let after = storage.load_trial(theirs).unwrap();
    assert_eq!(after.state, TrialState::Waiting);
    assert_eq!(value(&after.params, "x"), 0.25);
    assert_eq!(after.timing.queued_at_ms, before.timing.queued_at_ms);
    assert_eq!(after.timing.started_at_ms, None);
    assert_eq!(storage.load_artifact(theirs, "weights").unwrap(), Some(vec![1, 2, 3]));
}

struct Epochs;

impl Objective for Epochs {
    fn allows(&self, _: Assignment, _: ReportLog, _: bool, _: Outcome) -> bool {
        unreachable!("only contracts speak of it")
    }

    fn evaluate<R: ReportSink>(&self, _params: &ParamSet, report: &mut R) -> Result<NamedMetrics, Error> {
        for step in 1..=5u64 {
            report.report(step, single("loss", 0.1))?;
        }
        Ok(single("loss", 0.1))
    }
}

#[test]
fn epoch_budget_stops_after_total_epochs() {
    // Each trial reports 5 epochs, so consumption grows by 5 per trial.
    let mut study = Study::builder(line(), Arith)
        .minimize("loss")
        .sampler(RandomSampler::new(1))
        .seed(1)
        .build()
        .unwrap();
    // Budget of 12 epochs: trial1 -> 5, trial2 -> 10, trial3 -> 15 (>=12 stops
    // the loop before trial4). The budget is checked per trial.
    let n = study.optimize(&Epochs, &EpochBudget { max_epochs: 12 }).unwrap();
    assert_eq!(n, 3, "expected to stop after 3 trials (15 epochs) got {n}");
}

#[test]
fn thread_executor_runs_all_trials_concurrently() {
    let mut study = Study::builder(line(), Arith)
        .minimize("loss")
        .sampler(RandomSampler::new(9))
        .batch(ThreadExecutor::new(4).preferred_batch_size())
        .seed(9)
        .build()
        .unwrap();
    let n = study.optimize_n(&Fun(quadratic), 200).unwrap();
    assert_eq!(n, 200);
    // Every trial must have been evaluated and completed.
    let history = study.history().unwrap();
    assert_eq!(history.len(), 200);
    assert_eq!(history.completed().len(), 200);
    // The search still works in batches of four, as a pool of four threads asks for them.
    let best = study.best_trial().unwrap().unwrap();
    assert!((value(&best.params, "x") - 2.0).abs() < 0.6);
}

#[test]
fn multi_objective_study_builds_a_pareto_front() {
    // Two conflicting objectives over x in [0, 10]:
    //   minimize `err`  = x
    //   maximize `size` = x   (they trade off perfectly)
    // Every distinct x is non-dominated, so the front has many members.
    let space = SearchSpace::new().add("x", float(0.0, 10.0));
    let mut study = Study::builder(space, Arith)
        .minimize("err")
        .maximize("size")
        .sampler(RandomSampler::new(3))
        .seed(3)
        .build()
        .unwrap();
    let objective = Fun(|p: &ParamSet| {
        let x = p.float("x")?;
        Ok(NamedMetrics::new().with("err", x).with("size", x))
    });
    study.optimize_n(&objective, 40).unwrap();

    // best_trial is None for multi-objective studies.
    assert!(study.best_trial().unwrap().is_none());

    let front = study.pareto_front().unwrap();
    assert!(front.len() > 1, "expected a multi-point front, got {}", front.len());
    // Hypervolume relative to a worst-case reference is positive.
    let hv = number(front.hypervolume(&single("err", 10.0).with("size", scalar(0.0)), &Arith));
    assert!(hv > 0.0, "hv = {hv}");
}

#[test]
fn tpe_drives_full_loop_and_converges() {
    let mut study = Study::builder(line(), Arith)
        .minimize("loss")
        .sampler(TpeSampler::new("loss", Direction::Minimize, 42))
        .seed(42)
        .build()
        .unwrap();
    study.optimize_n(&Fun(quadratic), 80).unwrap();
    let best = study.best_trial().unwrap().unwrap();
    let x = value(&best.params, "x");
    // TPE should reliably pin a smooth 1-D convex objective near its optimum.
    assert!((x - 2.0).abs() < 0.4, "best x = {x}");
}

#[test]
fn study_replay_is_deterministic() {
    let run = || {
        let mut s = Study::builder(line(), Arith)
            .minimize("loss")
            .sampler(RandomSampler::new(7))
            .seed(7)
            .build()
            .unwrap();
        s.optimize_n(&Fun(quadratic), 50).unwrap();
        value(&s.best_trial().unwrap().unwrap().params, "x")
    };
    assert_eq!(run(), run());
}

struct Curve;

impl Objective for Curve {
    fn allows(&self, _: Assignment, _: ReportLog, _: bool, _: Outcome) -> bool {
        unreachable!("only contracts speak of it")
    }

    fn evaluate<R: ReportSink>(&self, params: &ParamSet, report: &mut R) -> Result<NamedMetrics, Error> {
        let offset = params.float("x")?; // higher x => worse curve
        for step in 1..=10u64 {
            report.report(step, NamedMetrics::single("loss", offset))?;
            if report.should_stop() {
                break;
            }
        }
        Ok(NamedMetrics::single("loss", offset))
    }
}

#[test]
fn pruning_marks_trials_pruned() {
    // The objective reports a curve and honors should_stop.
    let mut study = Study::builder(SearchSpace::new().add("x", float(0.0, 10.0)), Arith)
        .minimize("loss")
        .sampler(RandomSampler::new(5))
        .pruner(MedianPruner::new("loss", Direction::Minimize).with_min_trials(1))
        .seed(5)
        .build()
        .unwrap();
    study.optimize_n(&Curve, 30).unwrap();
    let history = study.history().unwrap();
    let pruned = history.records().iter().filter(|r| r.state == TrialState::Pruned).count();
    // With a median pruner and varied offsets, some trials must be pruned.
    assert!(pruned > 0, "expected some pruned trials, got {pruned}");
}

#[test]
fn failing_trials_do_not_stop_a_study() {
    let mut study = Study::builder(line(), Arith).minimize("loss").seed(4).random().build().unwrap();
    let objective = Fun(|p: &ParamSet| {
        let x = number(p.float("x")?);
        if x < 0.0 {
            Err(Error::Objective("negative".into()))
        } else {
            Ok(single("loss", x))
        }
    });
    assert_eq!(study.optimize_n(&objective, 40).unwrap(), 40);
    let history = study.history().unwrap();
    let failed = history.records().iter().filter(|r| r.state == TrialState::Failed).count();
    assert!(failed > 0);
    assert_eq!(history.completed().len() + failed, 40);
    // The best trial is the least loss, and its importance is all of it.
    let best = study.best_trial().unwrap().unwrap();
    let least = history
        .completed_values("loss")
        .into_iter()
        .map(number)
        .fold(f64::INFINITY, f64::min);
    assert_eq!(number(best.final_value("loss").unwrap()), least);
    let profile = study.importance(&Arith).unwrap();
    assert_eq!(profile.len(), 1);
    assert!((number(profile[0].importance) - 1.0).abs() < 1e-9);
}

#[test]
fn a_resumed_study_appends() {
    let mut study = Study::builder(line(), Arith)
        .name("resumable")
        .minimize("loss")
        .sampler(RandomSampler::new(1))
        .seed(1)
        .build()
        .unwrap();
    study.optimize_n(&Fun(quadratic), 30).unwrap();
    let id = study.id();
    let storage = study.into_storage();
    let mut resumed =
        Study::resume(line(), storage, id, RandomSampler::new(2), NoPruner, Arith, 2).unwrap();
    assert_eq!(resumed.history().unwrap().len(), 30, "prior trials must survive");
    resumed.optimize_n(&Fun(quadratic), 30).unwrap();
    assert_eq!(resumed.history().unwrap().len(), 60, "resumed run appends, not replaces");
    assert!(resumed.best_trial().unwrap().is_some());
    assert_eq!(resumed.directions(), &vec![("loss".to_string(), Direction::Minimize)]);
    assert_eq!(resumed.storage().load_meta(id).unwrap().name, "resumable");
    let missing = Study::resume(line(), InMemoryStorage::new(), id, RandomSampler::new(2), NoPruner, Arith, 2);
    assert!(missing.is_err());
}

#[test]
fn an_unsound_space_is_refused() {
    let bad = SearchSpace::new().add("x", float(2.0, 1.0));
    let built = Study::builder(bad, Arith).minimize("loss").random().build();
    assert!(matches!(built, Err(Error::InvalidDistribution { .. })));
}

/// Counts the studies that it is asked to create, and remembers what they were.
#[derive(Clone)]
struct Registry(Rc<RefCell<Vec<StudyMeta>>>);

impl Storage for Registry {
    fn model(&self) -> StoreModel {
        unreachable!("only contracts speak of it")
    }

    fn dependable(&self) -> bool {
        unreachable!("only contracts speak of it")
    }

    fn takes_artifacts_of(&self, _: TrialId) -> bool {
        unreachable!("only contracts speak of it")
    }

    fn create_study(&mut self, meta: StudyMeta) -> Result<StudyId, Error> {
        self.0.borrow_mut().push(meta);
        Ok(StudyId(self.0.borrow().len() as u64 - 1))
    }

    fn enqueue_trial(&mut self, _: StudyId, _: ParamSet, _: u64) -> Result<TrialId, Error> {
        unreachable!("nothing is enqueued")
    }

    fn start_trial(&mut self, _: TrialId) -> Result<(), Error> {
        unreachable!("nothing is enqueued")
    }

    fn report(&mut self, _: TrialId, _: u64, _: NamedMetrics) -> Result<(), Error> {
        unreachable!("nothing is enqueued")
    }

    fn complete(&mut self, _: TrialId, _: TrialState, _: Option<NamedMetrics>) -> Result<(), Error> {
        unreachable!("nothing is enqueued")
    }

    fn load_trial(&self, _: TrialId) -> Result<TrialRecord, Error> {
        unreachable!("nothing is enqueued")
    }

    fn load_history(&self, _: StudyId) -> Result<TrialHistory, Error> {
        unreachable!("nothing is enqueued")
    }

    fn load_meta(&self, _: StudyId) -> Result<StudyMeta, Error> {
        unreachable!("nothing is loaded")
    }

    fn save_artifact(&mut self, _: TrialId, _: &str, _: Vec<u8>) -> Result<(), Error> {
        unreachable!("nothing is enqueued")
    }

    fn load_artifact(&self, _: TrialId, _: &str) -> Result<Option<Vec<u8>>, Error> {
        unreachable!("nothing is enqueued")
    }

    fn list_artifacts(&self, _: TrialId) -> Result<Vec<String>, Error> {
        unreachable!("nothing is enqueued")
    }

    fn claim_trial(&mut self, _: StudyId, _: &str, _: u64, _: u64) -> Result<Option<TrialId>, Error> {
        unreachable!("nothing is enqueued")
    }

    fn renew_lease(&mut self, _: TrialId, _: &str, _: u64) -> Result<bool, Error> {
        unreachable!("nothing is enqueued")
    }

    fn recover_orphans(&mut self, _: StudyId, _: u64) -> Result<usize, Error> {
        unreachable!("nothing is enqueued")
    }
}

#[test]
fn a_study_is_recorded_once_and_only_over_a_sound_space() {
    let registry = Registry(Rc::new(RefCell::new(Vec::new())));
    let bad = SearchSpace::new().add("x", float(2.0, 1.0));
    let mut refused = Study::builder(bad, Arith).storage(registry.clone()).random();
    assert!(matches!(refused.record(), Err(Error::InvalidDistribution { .. })));
    assert!(refused.build().is_err());
    assert!(registry.0.borrow().is_empty());
    // A sound one is recorded with its names, and with an objective where none was given.
    let built = Study::builder(line(), Arith).storage(registry.clone()).build().unwrap();
    assert_eq!(built.directions(), &vec![("objective".to_string(), Direction::Minimize)]);
    let metas = registry.0.borrow();
    assert_eq!(metas.len(), 1);
    assert_eq!(metas[0].name, "study");
    assert_eq!(metas[0].directions, vec![("objective".to_string(), Direction::Minimize)]);
    assert_eq!((metas[0].sampler_name.as_str(), metas[0].pruner_name.as_str()), ("random", "none"));
}

#[test]
fn multi_objective_builds_a_pareto_front() {
    // Minimize x^2 while maximizing x (a genuine trade-off over x in [0, 3]).
    let space = SearchSpace::new().add("x", float(0.0, 3.0));
    let mut study = Study::builder(space, Arith)
        .name("e2e-mo")
        .minimize("sq")
        .maximize("lin")
        .sampler(RandomSampler::new(2))
        .seed(2)
        .build()
        .unwrap();
    let objective = Fun(|p: &ParamSet| {
        let x = number(p.float("x")?);
        Ok(single("sq", x * x).with("lin", scalar(x)))
    });
    study.optimize_n(&objective, 40).unwrap();

    let front = study.pareto_front().unwrap();
    assert!(front.len() >= 2, "a trade-off should yield multiple non-dominated points");
    // Single-objective best_trial is None for a multi-objective study.
    assert!(study.best_trial().unwrap().is_none());
    // Reference worse than any point on both objectives -> positive hypervolume.
    let reference = single("sq", 10.0).with("lin", scalar(-1.0));
    assert!(number(study.hypervolume(&reference, &Arith).unwrap()) > 0.0);
}

#[test]
fn end_to_end_replay_is_deterministic() {
    fn run() -> Vec<f64> {
        let space = SearchSpace::new().add("x", float(-5.0, 5.0)).add("y", log_float(1e-3, 1.0));
        let mut study = Study::builder(space, Arith)
            .name("e2e-determinism")
            .minimize("loss")
            .sampler(TpeSampler::new("loss", Direction::Minimize, 42))
            .seed(42)
            .build()
            .unwrap();
        let objective = Fun(|p: &ParamSet| {
            Ok(single("loss", number(p.float("x")?).powi(2) + number(p.float("y")?)))
        });
        study.optimize_n(&objective, 20).unwrap();
        let mut xs: Vec<f64> =
            study.history().unwrap().records().iter().map(|r| value(&r.params, "x")).collect();
        xs.sort_by(|a, b| a.partial_cmp(b).unwrap());
        xs
    }
    assert_eq!(run(), run(), "same seed must replay bit-identically");
}

/// Runs jobs in order, and would rather have several at a time.
struct Wide(usize);

impl Executor for Wide {
    fn run_all<F: FnOnce() + Send>(&self, jobs: Vec<F>) -> bool {
        SequentialExecutor.run_all(jobs)
    }

    fn capacity(&self) -> ResourceSpec {
        SequentialExecutor.capacity()
    }

    fn preferred_batch_size(&self) -> usize {
        self.0
    }

    fn name(&self) -> &'static str {
        "wide"
    }
}

#[test]
fn batches_can_be_run_by_hand() {
    let mut study = Study::builder(line(), Arith)
        .minimize("loss")
        .sampler(RandomSampler::new(4))
        .executor(&Wide(3))
        .seed(4)
        .build()
        .unwrap();
    assert_eq!(study.batch(), 3);
    let single_file = Study::builder(line(), Arith).executor(&Wide(0)).random().build().unwrap();
    assert_eq!(single_file.batch(), 1);
    let budget = TrialBudget { max_trials: 5 };
    let mut spent = Consumption::new();
    let jobs = study.ask_batch(&budget, &spent).unwrap();
    assert_eq!(jobs.len(), 3);
    let history = study.history().unwrap();
    assert!(history.records().iter().all(|r| r.state == TrialState::Running));
    for (record, job) in history.records().iter().zip(&jobs) {
        assert_eq!(record.id, job.0);
        assert_eq!(value(&record.params, "x"), value(&job.1, "x"));
    }
    for step in [4, 7] {
        assert!(!study.report(jobs[0].0, step, single("loss", 1.0)).unwrap());
    }
    study.conclude_trial(jobs[0].0, Ok(single("loss", 1.0)), false).unwrap();
    study.conclude_trial(jobs[1].0, Ok(single("loss", 2.0)), true).unwrap();
    study.conclude_trial(jobs[2].0, Err(Error::Objective("no".to_string())), false).unwrap();
    spent = study.tally(&jobs, spent);
    assert_eq!((spent.epochs, spent.steps), (7, 2));
    spent.trials += jobs.len() as u64;
    let states: Vec<TrialState> = study.history().unwrap().records().iter().map(|r| r.state).collect();
    assert_eq!(states, vec![TrialState::Complete, TrialState::Pruned, TrialState::Failed]);
    // Two trials are left of the budget, then none.
    let rest = study.ask_batch(&budget, &spent).unwrap();
    assert_eq!(rest.len(), 2);
    spent.trials += rest.len() as u64;
    assert!(study.ask_batch(&budget, &spent).unwrap().is_empty());
    assert!(study.report(TrialId(99), 1, single("loss", 1.0)).is_err());
    assert!(study.conclude_trial(TrialId(99), Ok(single("loss", 1.0)), false).is_err());
}

#[test]
fn a_report_by_hand_asks_the_pruner() {
    let mut study = Study::builder(line(), Arith)
        .minimize("loss")
        .sampler(RandomSampler::new(4))
        .pruner(MedianPruner::new("loss", Direction::Minimize).with_min_trials(1))
        .build()
        .unwrap();
    let (first, _) = study.ask().unwrap();
    assert!(!study.report(first, 1, single("loss", 1.0)).unwrap());
    study.conclude_trial(first, Ok(single("loss", 1.0)), false).unwrap();
    let (second, _) = study.ask().unwrap();
    assert!(study.report(second, 1, single("loss", 2.0)).unwrap());
    assert!(!study.report(second, 1, single("loss", 0.5)).unwrap());
}

#[test]
fn a_study_without_a_sampler_searches_at_random() {
    let run = |built: Result<Study<InMemoryStorage, RandomSampler, NoPruner, Arith>, Error>| {
        let mut study = built.unwrap();
        study.optimize_n(&Fun(quadratic), 12).unwrap();
        let records = study.history().unwrap();
        records.records().iter().map(|r| value(&r.params, "x")).collect::<Vec<f64>>()
    };
    let unset = run(Study::builder(line(), Arith).minimize("loss").seed(6).build());
    let asked = run(Study::builder(line(), Arith).minimize("loss").seed(6).random().build());
    assert_eq!(unset, asked);
    assert_eq!(unset.len(), 12);
    assert!(unset.windows(2).all(|w| w[0] != w[1]));
}

#[test]
fn a_replayed_random_search_repeats_every_trial() {
    let run = || {
        let mut study = Study::builder(line(), Arith)
            .minimize("loss")
            .sampler(RandomSampler::new(8))
            .pruner(MedianPruner::new("loss", Direction::Minimize).with_min_trials(1))
            .executor(&Wide(2))
            .seed(8)
            .build()
            .unwrap();
        study.optimize_n(&Curve, 20).unwrap();
        let history = study.history().unwrap();
        history
            .records()
            .iter()
            .map(|r| (r.id, r.seed, r.state, value(&r.params, "x").to_bits(), r.intermediate.len()))
            .collect::<Vec<_>>()
    };
    let first = run();
    assert_eq!(first, run());
    assert!(first.iter().any(|t| t.2 == TrialState::Pruned));
}

/// The parameters and states of a study of `n` trials, bit by bit.
fn replayed<A: Sampler<Arith>, P: Pruner<Arith>>(sampler: A, pruner: P, n: u64) -> Vec<(u64, i64, TrialState)> {
    let space = SearchSpace::new().add("x", float(-5.0, 5.0)).add("k", Distribution::log_int(1, 64));
    let mut study = Study::builder(space, Arith)
        .minimize("loss")
        .sampler(sampler)
        .pruner(pruner)
        .seed(3)
        .build()
        .unwrap();
    study.optimize_n(&Curve, n).unwrap();
    let history = study.history().unwrap();
    history
        .records()
        .iter()
        .map(|r| (value(&r.params, "x").to_bits(), r.params.integer("k").unwrap(), r.state))
        .collect()
}

#[test]
fn searches_replay_whatever_the_sampler() {
    let aims = || vec![("loss".to_string(), Direction::Minimize)];
    let down = Direction::Minimize;
    assert_eq!(
        replayed(TpeSampler::new("loss", down, 5), NoPruner, 30),
        replayed(TpeSampler::new("loss", down, 5), NoPruner, 30)
    );
    assert_eq!(
        replayed(EvolutionarySampler::new("loss", down, 5), NoPruner, 30),
        replayed(EvolutionarySampler::new("loss", down, 5), NoPruner, 30)
    );
    assert_eq!(
        replayed(Nsga2Sampler::new(aims(), 5).with_startup_trials(5), NoPruner, 30),
        replayed(Nsga2Sampler::new(aims(), 5).with_startup_trials(5), NoPruner, 30)
    );
    assert_eq!(replayed(QmcSampler::new(), NoPruner, 20), replayed(QmcSampler::new(), NoPruner, 20));
    assert_eq!(replayed(GridSampler::new(3), NoPruner, 20), replayed(GridSampler::new(3), NoPruner, 20));
    let seeds = || vec![with_x(1.5).with("k", ParamValue::Int(7))];
    let warm = || WarmStartSampler::new(RandomSampler::new(5), seeds());
    let first = replayed(warm(), NoPruner, 10);
    assert_eq!(first[0], (1.5f64.to_bits(), 7, TrialState::Complete));
    assert_eq!(first, replayed(warm(), NoPruner, 10));
    let median = || MedianPruner::new("loss", down).with_min_trials(1);
    let pruned = replayed(RandomSampler::new(5), median(), 30);
    assert_eq!(pruned, replayed(RandomSampler::new(5), median(), 30));
    assert!(pruned.iter().any(|t| t.2 == TrialState::Pruned));
    // Without a pruner nothing is pruned.
    let unpruned = replayed(RandomSampler::new(5), NoPruner, 30);
    assert!(unpruned.iter().all(|t| t.2 == TrialState::Complete));
    // Another seed gives another search.
    assert_ne!(unpruned, replayed(RandomSampler::new(6), NoPruner, 30));
}

#[test]
fn rankings_are_stable_and_a_nan_stays_where_it_is() {
    let down = Direction::Minimize;
    assert_eq!(ranking(&scalars(&[3.0, 1.0, 2.0, 1.0]), down), vec![1, 3, 2, 0]);
    assert_eq!(ranking(&scalars(&[3.0, 1.0, 2.0, 1.0]), Direction::Maximize), vec![0, 2, 1, 3]);
    assert_eq!(ranking(&scalars(&[3.0, f64::NAN, 1.0, 0.5]), down), vec![0, 1, 3, 2]);
}

#[test]
fn the_earliest_of_equal_trials_leads() {
    let mut study = Study::builder(line(), Arith)
        .minimize("loss")
        .sampler(RandomSampler::new(2))
        .build()
        .unwrap();
    study.optimize_n(&Fun(|_: &ParamSet| Ok(single("loss", 1.0))), 4).unwrap();
    let first = study.history().unwrap().records()[0].id;
    assert_eq!(study.best_trial().unwrap().unwrap().id, first);
}

// ---- multi-fidelity ---------------------------------------------------------------------------------

/// The true loss is (x-2)^2, and a low-resource evaluation adds noise that shrinks as the
/// resource grows: cheap evaluations rank configurations approximately, full ones exactly.
struct Noisy {
    seed_base: u64,
}

impl Fidelity for Noisy {
    fn gives(&self, _: Assignment, _: u64, _: Metrics) -> bool {
        unreachable!("only contracts speak of it")
    }

    fn calls(&self) -> EvalLog {
        unreachable!("only contracts speak of it")
    }

    fn evaluate(&mut self, params: &ParamSet, resource: u64) -> NamedMetrics {
        let x = value(params, "x");
        let true_loss = (x - 2.0).powi(2);
        // Deterministic pseudo-noise keyed by the config and resource.
        let key = (x * 1000.0) as i64 as u64 ^ resource.wrapping_mul(0x9E37) ^ self.seed_base;
        let mut rng = ChaCha8Rng::seed_from_u64(key);
        let noise = rng.gen_range(-1.0..1.0) / resource as f64;
        single("loss", true_loss + noise)
    }
}

#[test]
fn hyperband_finds_the_optimum_with_multi_fidelity() {
    let hb = Hyperband::new("loss", Direction::Minimize, 27, 3);
    let mut sampler = RandomSampler::new(1);
    let out = hb.optimize(&line(), &mut sampler, &mut Noisy { seed_base: 1 }, &Arith, &Arith);

    assert!(out.evaluations > 0);
    assert!(out.total_resource > 0);
    // The best config is near x = 2 (the true optimum).
    let x = value(&out.best_params, "x");
    assert!((x - 2.0).abs() < 0.6, "best x = {x}, score {}", number(out.best_score));
}

#[test]
fn successive_halving_saves_resource_vs_all_at_max() {
    // Hyperband evaluates most configs cheaply, so its total resource is far
    // below evaluating every sampled config at the maximum resource.
    let hb = Hyperband::new("loss", Direction::Minimize, 27, 3);
    let mut sampler = RandomSampler::new(2);
    let out = hb.optimize(&line(), &mut sampler, &mut Noisy { seed_base: 2 }, &Arith, &Arith);
    // If every one of the `evaluations` runs had used the max resource:
    let naive = out.evaluations as u128 * 27;
    assert!(out.total_resource < naive, "total {} should beat naive {}", out.total_resource, naive);
}

#[test]
fn bohb_pairs_hyperband_with_tpe() {
    // BOHB: the same runner driven by a model-based sampler.
    let hb = Hyperband::new("loss", Direction::Minimize, 27, 3);
    let mut sampler = TpeSampler::new("loss", Direction::Minimize, 3);
    let out = hb.optimize(&line(), &mut sampler, &mut Noisy { seed_base: 3 }, &Arith, &Arith);
    assert!((value(&out.best_params, "x") - 2.0).abs() < 0.6);
}

#[test]
fn deterministic_for_a_fixed_seed() {
    let run = || {
        let hb = Hyperband::new("loss", Direction::Minimize, 27, 3);
        let mut sampler = RandomSampler::new(7);
        let out = hb.optimize(&line(), &mut sampler, &mut Noisy { seed_base: 7 }, &Arith, &Arith);
        value(&out.best_params, "x")
    };
    assert_eq!(run(), run());
}

#[test]
fn brackets_spend_what_the_plan_says() {
    // With a resource of 9 and a factor of 3 there are three brackets: 9 configurations at 1,
    // 3 at 3, 1 at 9; then 5 at 3, 1 at 9; then 3 at 9.
    struct Silent;
    impl Fidelity for Silent {
        fn gives(&self, _: Assignment, _: u64, _: Metrics) -> bool {
            unreachable!("only contracts speak of it")
        }

        fn calls(&self) -> EvalLog {
            unreachable!("only contracts speak of it")
        }

        fn evaluate(&mut self, _params: &ParamSet, _resource: u64) -> NamedMetrics {
            single("loss", 1.0)
        }
    }
    let hb = Hyperband::new("loss", Direction::Minimize, 9, 3);
    let out = hb.optimize(&line(), &mut RandomSampler::new(1), &mut Silent, &Arith, &Arith);
    assert_eq!(out.evaluations, 9 + 3 + 1 + 5 + 1 + 3);
    assert_eq!(out.total_resource, 9 + 9 + 9 + 15 + 9 + 27);
    assert_eq!(out.best_resource, 9);
    assert_eq!(number(out.best_score), 1.0);
    let kept = hb.promote(
        &vec![scalar(3.0), scalar(1.0), scalar(2.0)],
        &vec![with_x(0.0), with_x(1.0), with_x(2.0)],
        2,
    );
    let xs: Vec<f64> = kept.iter().map(|p| value(p, "x")).collect();
    assert_eq!(xs, vec![1.0, 2.0]);
}

// ---- warm starts -------------------------------------------------------------------------------------

struct Recorder {
    calls: Vec<(i64, u64)>,
}

impl Fidelity for Recorder {
    fn gives(&self, _: Assignment, _: u64, _: Metrics) -> bool {
        unreachable!("only contracts speak of it")
    }

    fn calls(&self) -> EvalLog {
        unreachable!("only contracts speak of it")
    }

    fn evaluate(&mut self, params: &ParamSet, resource: u64) -> NamedMetrics {
        let x = params.integer("x").unwrap();
        self.calls.push((x, resource));
        single("loss", [5.0, 6.0, 3.0, 4.0][x as usize])
    }
}

#[test]
fn hyperband_evaluates_promotes_and_picks_exactly() {
    let space = SearchSpace::new().add("x", Distribution::integer(0, 3));
    let hb = Hyperband::new("loss", Direction::Minimize, 2, 2);
    let mut eval = Recorder { calls: Vec::new() };
    let out = hb.optimize(&space, &mut GridSampler::new(1), &mut eval, &Arith, &Arith);
    // Two configurations at 1, the better one at 2; then two fresh ones at 2.
    assert_eq!(eval.calls, vec![(0, 1), (1, 1), (0, 2), (2, 2), (3, 2)]);
    assert_eq!(out.best_params.integer("x").unwrap(), 2);
    assert_eq!(number(out.best_score), 3.0);
    assert_eq!(out.best_resource, 2);
    assert_eq!(out.evaluations, 5);
    assert_eq!(out.total_resource, 8);
}

/// Proposes how many trials it has been told of.
struct Told(i64);

impl Named for Told {
    fn label(&self) -> vstd::seq::Seq<char> {
        unreachable!("only contracts speak of it")
    }

    fn name(&self) -> &'static str {
        "told"
    }
}

impl Sampler<Arith> for Told {
    fn proposes(&self, _: &Arith, _: SpaceModel, _: HistoryModel, _: Assignment, _: Self) -> bool {
        unreachable!("only contracts speak of it")
    }

    fn observes(&self, _: TrialModel, _: Self) -> bool {
        unreachable!("only contracts speak of it")
    }

    fn suggest(&mut self, _: &SearchSpace, _: &TrialHistory, _: &Arith) -> ParamSet {
        with_x(self.0 as f64)
    }

    fn on_trial_complete(&mut self, _: &TrialRecord) {
        self.0 += 1;
    }
}

#[test]
fn a_warm_start_passes_on_what_it_is_told() {
    let mut sampler = WarmStartSampler::new(Told(0), vec![with_x(4.0)]);
    let history = TrialHistory::default();
    assert_eq!(value(&sampler.suggest(&line(), &history, &Arith), "x"), 4.0);
    Sampler::<Arith>::on_trial_complete(&mut sampler, &dummy(0));
    assert_eq!(value(&sampler.suggest(&line(), &history, &Arith), "x"), 1.0);
    Sampler::<Arith>::on_trial_complete(&mut sampler, &dummy(1));
    Sampler::<Arith>::on_trial_complete(&mut sampler, &dummy(2));
    assert_eq!(value(&sampler.suggest(&line(), &history, &Arith), "x"), 3.0);
    assert_eq!(sampler.name(), "warm-start");
}

#[test]
fn best_configs_returns_top_n_in_order() {
    let history = TrialHistory::new(vec![
        completed(0, with_x(1.0), 0.5),
        completed(1, with_x(2.0), 0.1),
        completed(2, with_x(3.0), 0.9),
        completed(3, with_x(4.0), 0.2),
    ]);
    let top = best_configs(&history, "loss", Direction::Minimize, 2);
    assert_eq!(top.len(), 2);
    assert_eq!(value(&top[0], "x"), 2.0); // loss 0.1
    assert_eq!(value(&top[1], "x"), 4.0); // loss 0.2
}

#[test]
fn warm_start_replays_seeds_then_delegates() {
    let space = line();
    let seeds = vec![with_x(2.0), with_x(-2.0)];
    let mut sampler = WarmStartSampler::new(RandomSampler::new(1), seeds);
    let history = TrialHistory::default();

    assert_eq!(sampler.remaining(), 2);
    assert_eq!(value(&sampler.suggest(&space, &history, &Arith), "x"), 2.0);
    assert_eq!(value(&sampler.suggest(&space, &history, &Arith), "x"), -2.0);
    assert_eq!(sampler.remaining(), 0);
    // Seeds exhausted: now the inner random sampler drives, in range.
    let v = value(&sampler.suggest(&space, &history, &Arith), "x");
    assert!((-5.0..=5.0).contains(&v));
}

#[test]
fn warm_start_projects_onto_the_space() {
    // A seed carrying an extra parameter keeps only what the space defines.
    let seed = with_x(1.0).with("obsolete", ParamValue::Int(9));
    let mut sampler = WarmStartSampler::new(RandomSampler::new(1), vec![seed]);
    let s = sampler.suggest(&line(), &TrialHistory::default(), &Arith);
    assert_eq!(value(&s, "x"), 1.0);
    assert!(s.get("obsolete").is_none());
}

#[test]
fn warm_started_study_finds_the_optimum_immediately() {
    // Seed the exact optimum of (x-2)^2 + (y+1)^2; the first trial nails it.
    let space = SearchSpace::new().add("x", float(-5.0, 5.0)).add("y", float(-5.0, 5.0));
    let seed = with_x(2.0).with("y", ParamValue::Float(scalar(-1.0)));
    let sampler =
        WarmStartSampler::new(TpeSampler::new("loss", Direction::Minimize, 1), vec![seed]);
    let mut study =
        Study::builder(space, Arith).minimize("loss").sampler(sampler).seed(1).build().unwrap();
    let objective = Fun(|p: &ParamSet| {
        let (x, y) = (number(p.float("x")?), number(p.float("y")?));
        Ok(single("loss", (x - 2.0).powi(2) + (y + 1.0).powi(2)))
    });
    study.optimize_n(&objective, 5).unwrap();
    let best = study.best_trial().unwrap().unwrap();
    assert!(
        number(best.final_value("loss").unwrap()) < 1e-9,
        "warm start should evaluate the seeded optimum first"
    );
}

// ---- importance --------------------------------------------------------------------------------------

#[test]
fn empty_when_too_few_trials() {
    let h = TrialHistory::new(vec![completed(0, ParamSet::new(), 1.0)]);
    assert!(importance(&h, "loss", &Arith).is_empty());
}

#[test]
fn a_flat_objective_leaves_nothing_to_attribute() {
    let h = TrialHistory::new(vec![completed(0, with_x(1.0), 0.5), completed(1, with_x(2.0), 0.5)]);
    assert!(importance(&h, "loss", &Arith).is_empty());
    let h = TrialHistory::new(vec![completed(0, with_x(1.0), 0.5), completed(1, with_x(2.0), 0.75)]);
    assert_eq!(importance(&h, "loss", &Arith).len(), 1);
}

#[test]
fn influential_parameter_ranks_higher() {
    // y depends strongly on `a`, negligibly on `b`.
    let space = SearchSpace::new().add("a", float(-5.0, 5.0)).add("b", float(-5.0, 5.0));
    let mut sampler = RandomSampler::new(1);
    let mut records: Vec<TrialRecord> = Vec::new();
    for i in 0..200u64 {
        let p = sampler.suggest(&space, &TrialHistory::new(records.clone()), &Arith);
        let y = (value(&p, "a") - 2.0).powi(2) + 1e-4 * value(&p, "b");
        records.push(completed(i, p, y));
    }
    let imp = importance(&TrialHistory::new(records), "loss", &Arith);
    assert_eq!(imp.len(), 2);
    assert_eq!(imp[0].param, "a", "a should dominate: {imp:?}");
    assert!(number(imp[0].importance) > 0.8, "a importance = {}", number(imp[0].importance));
    // Importances sum to ~1.
    let sum: f64 = imp.iter().map(|i| number(i.importance)).sum();
    assert!((sum - 1.0).abs() < 1e-9, "sum = {sum}");
}

#[test]
fn single_parameter_gets_all_importance() {
    let mut records = Vec::new();
    for i in 0..10u64 {
        records.push(completed(i, with_x(i as f64), (i as f64 - 3.0).powi(2)));
    }
    let imp = importance(&TrialHistory::new(records), "loss", &Arith);
    assert_eq!(imp.len(), 1);
    assert!((number(imp[0].importance) - 1.0).abs() < 1e-9);
}

#[test]
fn bins_and_groups_are_exact() {
    let row = |xs: &[f64]| -> Vec<Scalar> { xs.iter().map(|x| scalar(*x)).collect() };
    // Three distinct positions make three bins, cut by rank.
    let bins = quantile_bins(&row(&[3.0, 1.0, 2.0, 1.0]), &row(&[30.0, 10.0, 20.0, 11.0]));
    assert_eq!(bins, vec![row(&[10.0, 11.0]), row(&[20.0]), row(&[30.0])]);
    let flat = quantile_bins(&row(&[1.0, 1.0]), &row(&[5.0, 6.0]));
    assert_eq!(flat, vec![row(&[5.0, 6.0])]);
    let keys = vec![
        ParamValue::Categorical("b".into()),
        ParamValue::Categorical("a".into()),
        ParamValue::Categorical("b".into()),
    ];
    assert_eq!(group_by_key(&keys, &row(&[1.0, 2.0, 3.0])), vec![row(&[2.0]), row(&[1.0, 3.0])]);
}

// ---- robust aggregation ------------------------------------------------------------------------------

fn scalars(xs: &[f64]) -> Vec<Scalar> {
    xs.iter().map(|x| scalar(*x)).collect()
}

fn aggregate(a: Aggregator, xs: &[f64]) -> Option<f64> {
    a.aggregate(&scalars(xs), &Arith).map(number)
}

#[test]
fn median_resists_outliers_mean_does_not() {
    let scores = [1.0, 1.1, 0.9, 1.0, 10.0]; // one diverged run.
    let mean = aggregate(Aggregator::Mean, &scores).unwrap();
    let median = aggregate(Aggregator::Median, &scores).unwrap();
    assert!(mean > 2.0, "mean dragged by the outlier: {mean}");
    assert!((median - 1.0).abs() < 1e-9, "median stayed robust: {median}");
}

#[test]
fn trimmed_mean_between_mean_and_median() {
    let scores = [1.0, 2.0, 3.0, 4.0, 100.0];
    let trimmed = aggregate(Aggregator::TrimmedMean(scalar(0.2)), &scores).unwrap();
    // Drops one from each tail -> mean of [2,3,4] = 3.
    assert!((trimmed - 3.0).abs() < 1e-9, "trimmed mean was {trimmed}");
}

#[test]
fn aggregate_ignores_nan_and_empty() {
    assert_eq!(aggregate(Aggregator::Median, &[]), None);
    assert_eq!(aggregate(Aggregator::Median, &[f64::NAN]), None);
    let m = aggregate(Aggregator::Mean, &[2.0, f64::NAN, 4.0]).unwrap();
    assert!((m - 3.0).abs() < 1e-9);
}

#[test]
fn spread_shrinks_with_agreement() {
    let spread = |a: Aggregator, xs: &[f64]| number(a.spread(&scalars(xs), &Arith));
    let tight = spread(Aggregator::Mean, &[1.0, 1.01, 0.99, 1.0]);
    let loose = spread(Aggregator::Mean, &[1.0, 5.0, -3.0, 2.0]);
    assert!(tight < loose, "tight {tight} should be < loose {loose}");
    assert_eq!(spread(Aggregator::Median, &[1.0]), 0.0);
    // Median 2, deviations 1, 0, 1: a deviation of 1 over three scores.
    let mad = spread(Aggregator::Median, &[1.0, 2.0, 3.0]);
    assert!((mad - 1.4826 / 3f64.sqrt()).abs() < 1e-12);
}

struct VecSink {
    id: TrialId,
    steps: Vec<(u64, f64)>,
    costs: Vec<f64>,
}

impl ReportSink for VecSink {
    type Anchor = ();

    fn anchor(&self) {
        unreachable!("only contracts speak of it")
    }

    fn trial_of(_: ()) -> TrialId {
        unreachable!("only contracts speak of it")
    }

    fn log(&self) -> ReportLog {
        unreachable!("only contracts speak of it")
    }

    fn stopping(&self) -> bool {
        unreachable!("only contracts speak of it")
    }

    fn sound(&self) -> bool {
        true
    }

    fn trial_id(&self) -> TrialId {
        self.id
    }

    fn report(&mut self, step: u64, metrics: NamedMetrics) -> Result<(), Error> {
        if let Some(v) = metrics.get("reward") {
            self.steps.push((step, number(v)));
        }
        if let Some(v) = metrics.get("cost") {
            self.costs.push(number(v));
        }
        Ok(())
    }

    fn should_stop(&self) -> bool {
        false
    }
}

struct Parity;

impl Replicate for Parity {
    fn allows(&self, _: u64, _: ReportLog, _: bool, _: Outcome) -> bool {
        unreachable!("only contracts speak of it")
    }

    fn evaluate<K: ReportSink>(&mut self, seed: u64, _sink: &mut K) -> Result<NamedMetrics, Error> {
        let reward = if seed % 2 == 1 { 1.0 } else { 3.0 };
        Ok(single("reward", reward).with("cost", scalar(5.0)))
    }
}

#[test]
fn replicate_aggregates_and_reports_spread() {
    let mut sink = VecSink { id: TrialId(0), steps: Vec::new(), costs: Vec::new() };
    // A "noisy" objective: reward = seed parity gives 1.0 or 3.0, plus a fixed
    // secondary metric. Median over 4 seeds (1,2,3,4) -> {1,3,1,3} -> 2.0.
    let out =
        replicate(Aggregator::Median, 4, 1, "reward", &mut sink, &mut Parity, &Arith).unwrap();
    assert_eq!(out.get("reward"), Some(scalar(2.0)));
    assert_eq!(out.get("cost"), Some(scalar(5.0)));
    assert!(number(out.get("reward.spread").unwrap()) > 0.0);
    // A curve was reported at each replicate step.
    assert_eq!(sink.steps.len(), 4);
    assert_eq!(sink.steps.last().unwrap().0, 4);
}

#[test]
fn replicates_report_what_they_measured() {
    let mut sink = VecSink { id: TrialId(0), steps: Vec::new(), costs: Vec::new() };
    replicate(Aggregator::Mean, 3, 1, "reward", &mut sink, &mut Parity, &Arith).unwrap();
    // Seeds 1, 2, 3 give 1, 3, 1: each report holds its own replicate, not the running mean.
    assert_eq!(sink.steps, vec![(1, 1.0), (2, 3.0), (3, 1.0)]);
    assert_eq!(sink.costs, vec![5.0, 5.0, 5.0]);
}

#[test]
fn spread_counts_finite_scores_alone() {
    let spread = |a: Aggregator, xs: &[f64]| number(a.spread(&scalars(xs), &Arith));
    for a in [Aggregator::Mean, Aggregator::Median] {
        assert_eq!(spread(a, &[1.0, f64::INFINITY]), 0.0);
        assert_eq!(spread(a, &[f64::NAN, 1.0, f64::NEG_INFINITY]), 0.0);
        assert_eq!(spread(a, &[1.0, f64::NAN, 2.0, 3.0]), spread(a, &[1.0, 2.0, 3.0]));
    }
}

#[test]
fn trimming_keeps_the_middle() {
    assert_eq!(trimmed(&scalars(&[1.0, 2.0, 3.0, 4.0, 5.0]), 1), scalars(&[2.0, 3.0, 4.0]));
    assert_eq!(trimmed(&scalars(&[1.0, 2.0]), 0), scalars(&[1.0, 2.0]));
    let runs = vec![single("a", 1.0), single("a", 3.0).with("b", scalar(7.0))];
    let out = summarize(Aggregator::Mean, &runs, "a", &Arith);
    assert_eq!(out.get("a"), Some(scalar(2.0)));
    assert_eq!(out.get("b"), Some(scalar(7.0)));
    assert_eq!(out.get("a.spread"), Some(scalar(1.0)));
    assert_eq!(out.len(), 3);
}

// ---- pruning -------------------------------------------------------------------------------------------

fn completed_with_curve(id: u64, curve: &[(u64, f64)]) -> TrialRecord {
    let mut r = TrialRecord::new(TrialId(id), StudyId(0), ParamSet::new(), id);
    r.state = TrialState::Complete;
    r.intermediate = reports(curve);
    r
}

fn reports(curve: &[(u64, f64)]) -> Vec<IntermediateReport> {
    curve
        .iter()
        .map(|(s, v)| IntermediateReport { step: *s, metrics: single("loss", *v) })
        .collect()
}

fn prunes<P: Pruner<Arith>>(pruner: &P, curve: &Vec<IntermediateReport>, history: &TrialHistory) -> bool {
    let progress = TrialProgress { id: TrialId(9), intermediate: curve };
    pruner.should_prune(&progress, history, &Arith)
}

#[test]
fn prunes_worse_than_median() {
    let history = TrialHistory::new(vec![
        completed_with_curve(0, &[(1, 0.1)]),
        completed_with_curve(1, &[(1, 0.2)]),
        completed_with_curve(2, &[(1, 0.3)]),
    ]);
    let pruner = MedianPruner::new("loss", Direction::Minimize);
    // Current trial reports 0.5 at step 1; median of peers is 0.2 -> prune.
    assert!(prunes(&pruner, &reports(&[(1, 0.5)]), &history));
}

#[test]
fn keeps_better_than_median() {
    let history = TrialHistory::new(vec![
        completed_with_curve(0, &[(1, 0.4)]),
        completed_with_curve(1, &[(1, 0.5)]),
    ]);
    let pruner = MedianPruner::new("loss", Direction::Minimize);
    assert!(!prunes(&pruner, &reports(&[(1, 0.1)]), &history));
}

#[test]
fn respects_warmup() {
    let history = TrialHistory::new(vec![completed_with_curve(0, &[(1, 0.1)])]);
    let pruner = MedianPruner::new("loss", Direction::Minimize).with_warmup_steps(5);
    assert!(!prunes(&pruner, &reports(&[(1, 9.9)]), &history));
}

#[test]
fn robust_window_smooths_a_noisy_spike() {
    // Peers sit at loss 0.2; the current trial's curve is good (0.1) but its
    // latest point spiked to 0.9 from noise.
    let history = TrialHistory::new(vec![
        completed_with_curve(0, &[(3, 0.2)]),
        completed_with_curve(1, &[(3, 0.2)]),
        completed_with_curve(2, &[(3, 0.2)]),
    ]);
    let curve = reports(&[(1, 0.10), (2, 0.12), (3, 0.90)]);
    // Latest-value mode prunes on the spike (0.9 worse than 0.2)...
    let plain = MedianPruner::new("loss", Direction::Minimize);
    assert!(prunes(&plain, &curve, &history));
    // ...but a robust window of 3 compares median{0.10,0.12,0.90}=0.12 < 0.2,
    // so the trial survives its unlucky spike.
    let robust = MedianPruner::new("loss", Direction::Minimize).with_robust_window(3);
    assert!(!prunes(&robust, &curve, &history));
}

#[test]
fn asha_prunes_bottom_fraction_at_rung() {
    // Three peers reached rung step=1 with good values; a fourth (current)
    // is worst. eta=3, n=4 -> keep floor(4/3)=1, so all but the best prune.
    let history = TrialHistory::new(vec![
        completed_with_curve(0, &[(1, 0.1)]),
        completed_with_curve(1, &[(1, 0.2)]),
        completed_with_curve(2, &[(1, 0.3)]),
    ]);
    let asha = AshaPruner::new("loss", Direction::Minimize).with_reduction_factor(3);
    assert!(prunes(&asha, &reports(&[(1, 0.9)]), &history));
}

#[test]
fn asha_promotes_top_trial() {
    let history = TrialHistory::new(vec![
        completed_with_curve(0, &[(1, 0.4)]),
        completed_with_curve(1, &[(1, 0.5)]),
        completed_with_curve(2, &[(1, 0.6)]),
    ]);
    let asha = AshaPruner::new("loss", Direction::Minimize).with_reduction_factor(3);
    // Current is the best -> promoted (not pruned).
    assert!(!prunes(&asha, &reports(&[(1, 0.1)]), &history));
}

#[test]
fn asha_never_prunes_between_rungs_or_with_too_few_peers() {
    let asha = AshaPruner::new("loss", Direction::Minimize).with_reduction_factor(3);
    // Non-rung step: never prune even if worst.
    let history = TrialHistory::new(vec![
        completed_with_curve(0, &[(2, 0.1)]),
        completed_with_curve(1, &[(2, 0.2)]),
        completed_with_curve(2, &[(2, 0.3)]),
    ]);
    assert!(!prunes(&asha, &reports(&[(2, 9.9)]), &history));

    // Rung step but fewer than eta trials present -> no decision yet.
    let history = TrialHistory::new(vec![completed_with_curve(0, &[(1, 0.1)])]);
    assert!(!prunes(&asha, &reports(&[(1, 9.9)]), &history));
}

#[test]
fn pruned_trials_count_for_asha_and_not_for_the_median() {
    let mut pruned = completed_with_curve(1, &[(1, 0.9)]);
    pruned.state = TrialState::Pruned;
    let history = TrialHistory::new(vec![completed_with_curve(0, &[(1, 0.2)]), pruned]);
    assert_eq!(history.intermediate_values_at(1, "loss"), vec![scalar(0.2)]);
    assert_eq!(history.settled_values_at(1, "loss"), vec![scalar(0.2), scalar(0.9)]);
    // The median of the completed peer alone is 0.2, so 0.5 is worse than it; with the pruned
    // peer it would not be.
    let median = MedianPruner::new("loss", Direction::Minimize).with_min_trials(1);
    assert!(prunes(&median, &reports(&[(1, 0.5)]), &history));
    // ASHA has three values at the rung with the pruned one, enough for a decision.
    let asha = AshaPruner::new("loss", Direction::Minimize).with_reduction_factor(3);
    assert!(prunes(&asha, &reports(&[(1, 0.5)]), &history));
    assert!(!prunes(&asha, &reports(&[(1, 0.1)]), &history));
    let alone = TrialHistory::new(vec![completed_with_curve(0, &[(1, 0.2)])]);
    assert!(!prunes(&asha, &reports(&[(1, 0.5)]), &alone));
}

fn both(err: f64, size: f64) -> NamedMetrics {
    single("err", err).with("size", scalar(size))
}

fn mo_completed(id: u64, step: u64, err: f64, size: f64) -> TrialRecord {
    let mut r = TrialRecord::new(TrialId(id), StudyId(0), ParamSet::new(), id);
    r.state = TrialState::Complete;
    r.intermediate = vec![IntermediateReport { step, metrics: both(err, size) }];
    r
}

#[test]
fn multi_objective_prunes_dominated_point() {
    // Minimize both err and size. Peers are all good; current is worse on
    // both, so a majority dominate it -> prune.
    let history = TrialHistory::new(vec![
        mo_completed(0, 1, 0.1, 0.1),
        mo_completed(1, 1, 0.2, 0.2),
        mo_completed(2, 1, 0.3, 0.3),
    ]);
    let pruner = MultiObjectivePruner::new(vec![Aim::minimize("err"), Aim::minimize("size")]);
    let curve = vec![IntermediateReport { step: 1, metrics: both(0.9, 0.9) }];
    assert!(prunes(&pruner, &curve, &history));
}

#[test]
fn multi_objective_keeps_non_dominated_tradeoff() {
    // Current trades err for size: best on err, worst on size. No peer
    // dominates it, so it must be kept.
    let history = TrialHistory::new(vec![
        mo_completed(0, 1, 0.5, 0.1),
        mo_completed(1, 1, 0.4, 0.2),
        mo_completed(2, 1, 0.3, 0.3),
    ]);
    let pruner = MultiObjectivePruner::new(vec![Aim::minimize("err"), Aim::minimize("size")]);
    let curve = vec![IntermediateReport { step: 1, metrics: both(0.05, 0.9) }];
    assert!(!prunes(&pruner, &curve, &history));
}

#[test]
fn no_pruner_never_prunes() {
    let history = TrialHistory::new(vec![completed_with_curve(0, &[(1, 0.1)])]);
    assert!(!prunes(&NoPruner, &reports(&[(1, 9.9)]), &history));
    assert_eq!(NoPruner.name(), "none");
    assert_eq!(MedianPruner::new("loss", Direction::Minimize).name(), "median");
}

// ---- distributed search ----------------------------------------------------------------------------------

fn study_with(storage: &mut InMemoryStorage) -> StudyId {
    storage
        .create_study(StudyMeta {
            name: "dist".into(),
            directions: vec![("loss".into(), Direction::Minimize)],
            sampler_name: "random".into(),
            pruner_name: "none".into(),
        })
        .unwrap()
}

fn queue(n: usize, seed: u64) -> (InMemoryStorage, StudyId, Vec<TrialId>) {
    let mut storage = InMemoryStorage::new();
    let study = study_with(&mut storage);
    let mut sampler = RandomSampler::new(seed);
    let ids =
        enqueue_pending(&mut storage, study, &line(), &mut sampler, n, seed, &Arith).unwrap();
    (storage, study, ids)
}

#[test]
fn two_workers_share_the_queue_without_double_running() {
    let (storage, study, ids) = queue(8, 1);
    let mut desk = LeaseDesk::new(storage);
    let a = Worker::new("a", 60_000);
    let b = Worker::new("b", 60_000);
    // Interleave the two workers until the queue drains.
    let mut ran_by_a = Vec::new();
    let mut ran_by_b = Vec::new();
    loop {
        let pa = a.poll(&mut desk, study, &Fun(quadratic)).unwrap();
        let pb = b.poll(&mut desk, study, &Fun(quadratic)).unwrap();
        if let Poll::Ran(t) = pa {
            ran_by_a.push(t);
        }
        if let Poll::Ran(t) = pb {
            ran_by_b.push(t);
        }
        if pa == Poll::Idle && pb == Poll::Idle {
            break;
        }
    }

    // Every trial ran exactly once across the two workers.
    let mut all: Vec<u64> = ran_by_a.iter().chain(&ran_by_b).map(|t| t.0).collect();
    all.sort();
    let mut expected: Vec<u64> = ids.iter().map(|t| t.0).collect();
    expected.sort();
    assert_eq!(all, expected, "each trial must run exactly once");

    let history = desk.storage.load_history(study).unwrap();
    assert_eq!(history.completed().len(), 8);
}

#[test]
fn a_worker_drains_the_queue() {
    let (storage, study, _) = queue(30, 4);
    let mut desk = LeaseDesk::new(storage);
    let worker = Worker::new("w0", 60_000);
    assert_eq!(worker.run_until_idle(&mut desk, study, &Fun(quadratic)).unwrap(), 30);
    assert_eq!(worker.run_until_idle(&mut desk, study, &Fun(quadratic)).unwrap(), 0);
    assert!(desk.storage.load_history(study).unwrap().records().iter().all(|r| r.state.is_terminal()));
    assert_eq!(desk.storage.load_history(study).unwrap().completed().len(), 30);
    assert_eq!(worker.id(), "w0");
}

#[test]
fn expired_lease_is_reclaimed_and_completes_exactly_once() {
    let (mut storage, study, ids) = queue(1, 2);
    let t = ids[0];

    // Worker A claims with a lease expiring at t=100, then "dies".
    assert_eq!(storage.claim_trial(study, "a", 0, 100).unwrap(), Some(t));

    // Later, worker B claims: A's lease has expired, so the orphan is reassigned.
    assert_eq!(storage.claim_trial(study, "b", 200, 300).unwrap(), Some(t));

    // Exactly-once: A cannot renew (B owns it now), B can.
    assert!(!storage.renew_lease(t, "a", 400).unwrap());
    assert!(storage.renew_lease(t, "b", 400).unwrap());

    // B completes; the trial is terminal and complete once.
    storage.complete(t, TrialState::Complete, Some(single("loss", 0.0))).unwrap();
    assert_eq!(storage.load_trial(t).unwrap().state, TrialState::Complete);

    // A claimable scan finds nothing (the only trial is complete).
    assert_eq!(storage.claim_trial(study, "c", 500, 600).unwrap(), None);
}

#[test]
fn recover_orphans_requeues_expired_leases() {
    let (mut storage, study, ids) = queue(2, 3);

    // Claim both with short leases.
    assert!(storage.claim_trial(study, "a", 0, 100).unwrap().is_some());
    assert!(storage.claim_trial(study, "a", 0, 100).unwrap().is_some());

    // Nothing claimable while leases are valid.
    assert_eq!(storage.claim_trial(study, "b", 50, 150).unwrap(), None);

    // After expiry, an explicit sweep requeues both orphans.
    assert_eq!(storage.recover_orphans(study, 200).unwrap(), 2);
    for t in &ids {
        assert_eq!(storage.load_trial(*t).unwrap().state, TrialState::Waiting);
    }
}

#[test]
fn worker_crash_mid_trial_is_recovered_and_completes_once() {
    let (mut storage, study, ids) = queue(1, 5);
    let t = ids[0];

    // Worker A claims and reports partial progress, then crashes (never
    // completes, never renews).
    assert_eq!(storage.claim_trial(study, "a", 0, 100).unwrap(), Some(t));
    storage.report(t, 1, single("loss", 9.0)).unwrap();

    // A sweep after the lease expiry requeues the orphan; B picks it up.
    assert_eq!(storage.recover_orphans(study, 150).unwrap(), 1);
    assert_eq!(storage.claim_trial(study, "b", 150, 250).unwrap(), Some(t));

    // The crashed worker A can no longer influence the trial (exactly-once).
    assert!(!storage.renew_lease(t, "a", 300).unwrap());
    assert!(storage.renew_lease(t, "b", 300).unwrap());
    storage.complete(t, TrialState::Complete, Some(single("loss", 0.0))).unwrap();

    // Completed exactly once, with B's result.
    let history = storage.load_history(study).unwrap();
    assert_eq!(history.completed().len(), 1);
    assert_eq!(storage.load_trial(t).unwrap().final_value("loss"), Some(scalar(0.0)));
}

#[test]
fn orphan_recovery_load_test_loses_no_trials() {
    // A larger queue processed with a deterministic crash pattern: every third
    // claim "crashes" (is left un-completed). Repeated recover-and-retry must
    // eventually complete every trial exactly once, with none lost.
    let n = 40;
    let (mut storage, study, _) = queue(n, 7);

    let mut clock: u64 = 0;
    let mut claims = 0usize;
    let mut done = 0usize;
    // Bound the loop generously; it should finish far sooner.
    for _ in 0..1000 {
        clock += 10;
        // Requeue anything whose (short) lease has expired.
        storage.recover_orphans(study, clock).unwrap();
        let Some(t) = storage.claim_trial(study, "w", clock, clock + 5).unwrap() else {
            // Nothing claimable now; if all are terminal we are done.
            if storage.load_history(study).unwrap().completed().len() == n {
                break;
            }
            continue;
        };
        claims += 1;
        // Every third claim crashes: leave the lease to expire un-completed.
        if claims % 3 == 0 {
            continue;
        }
        // Otherwise renew (still own it) and complete.
        assert!(storage.renew_lease(t, "w", clock + 100).unwrap());
        storage.complete(t, TrialState::Complete, Some(single("loss", 1.0))).unwrap();
        done += 1;
    }

    assert_eq!(done, n, "every trial completed exactly once");
    let history = storage.load_history(study).unwrap();
    assert_eq!(history.completed().len(), n);
    // No trial left stranded in Waiting/Running.
    assert!(history.records().iter().all(|r| r.state == TrialState::Complete));
}

#[test]
fn a_lost_lease_is_not_completed() {
    let (mut storage, study, ids) = queue(1, 6);
    let t = ids[0];
    assert_eq!(storage.claim_trial(study, "other", 0, u64::MAX).unwrap(), Some(t));
    let worker = Worker::new("late", 60_000);
    let poll = worker.finish(&mut storage, t, Ok(single("loss", 1.0)), 100).unwrap();
    assert_eq!(poll, Poll::LostLease(t));
    assert_eq!(storage.load_trial(t).unwrap().state, TrialState::Running);
}

#[test]
fn a_worker_leaves_live_leases_alone_and_takes_over_expired_ones() {
    let (mut storage, study, ids) = queue(1, 8);
    let t = ids[0];
    let worker = Worker::new("w", 60_000);
    assert_eq!(storage.claim_trial(study, "other", 0, u64::MAX).unwrap(), Some(t));
    let mut desk = LeaseDesk::new(storage);
    assert_eq!(worker.poll(&mut desk, study, &Fun(quadratic)).unwrap(), Poll::Idle);
    assert_eq!(worker.run_until_idle(&mut desk, study, &Fun(quadratic)).unwrap(), 0);
    assert_eq!(desk.storage.load_trial(t).unwrap().state, TrialState::Running);
    // A lease that ran out long ago is anybody's.
    assert!(desk.storage.renew_lease(t, "other", 100).unwrap());
    assert_eq!(worker.poll(&mut desk, study, &Fun(quadratic)).unwrap(), Poll::Ran(t));
    assert_eq!(desk.storage.load_trial(t).unwrap().state, TrialState::Complete);
}

// ---- encodings -----------------------------------------------------------------------------------------

#[test]
fn decodes_every_sampled_plan() {
    let ms = MultimodalSpace::new(vec![
        Modality::new("image", texts(&["cnn", "vit"]), 4, 8),
        Modality::new("text", texts(&["rnn", "transformer"]), 4, 8),
    ]);
    let sp = ms.to_search_space();
    let mut sampler = RandomSampler::new(9);
    let history = TrialHistory::default();
    for _ in 0..200 {
        let plan = ms.decode(&sampler.suggest(&sp, &history, &Arith)).unwrap();
        assert_eq!(plan.encoders.len(), 2);
        for m in &plan.encoders {
            assert!((4..=8).contains(&m.dim));
        }
        // Validation is total: it either passes or returns an error, never panics.
        let _ = plan.validate();
    }
}

#[test]
fn plans_need_every_choice_and_a_known_fusion() {
    let ms = MultimodalSpace::new(vec![Modality::new("image", texts(&["cnn", "vit"]), 4, 8)]);
    let params = |fusion: &str| {
        ParamSet::new()
            .with("image.encoder", ParamValue::Categorical("vit".into()))
            .with("image.dim", ParamValue::Int(6))
            .with("fusion", ParamValue::Categorical(fusion.into()))
    };
    for label in ["concat", "mean", "sum"] {
        let plan = ms.decode(&params(label)).unwrap();
        assert_eq!((plan.encoders[0].encoder.as_str(), plan.encoders[0].dim), ("vit", 6));
    }
    match ms.decode(&params("attention")) {
        Err(Error::Objective(m)) => assert_eq!(m, "unknown fusion strategy"),
        other => panic!("unexpected {other:?}"),
    }
    assert!(matches!(ms.decode(&ParamSet::new()), Err(Error::MissingParam(_))));
}

fn macro_space() -> MacroSpace {
    let palette = OpPalette::new(texts(&["conv3", "conv5", "identity"])).unwrap();
    MacroSpace::new(palette, 2, 4, vec![8, 16, 32]).unwrap()
}

#[test]
fn a_mutation_changes_one_thing_at_most() {
    let space = macro_space();
    let mut rng = TrialRng::new(5);
    let mut arch = space.sample(&mut rng);
    for _ in 0..200 {
        let next = space.mutate(&arch, &mut rng);
        let (a, b) = (&arch.layers, &next.layers);
        let mut changes = a.len().abs_diff(b.len());
        for (x, y) in a.iter().zip(b) {
            changes += (x.op != y.op) as usize
                + (x.width != y.width) as usize
                + (x.skip_from_prev != y.skip_from_prev) as usize;
        }
        assert!(changes <= 1, "{changes} changes");
        arch = next;
    }
}

#[test]
fn every_sampled_architecture_is_valid() {
    // A sampler over the encoded space decodes to a well-formed architecture
    // whose depth, ops and widths all respect the macro-space.
    let ms = macro_space();
    let sp = ms.to_search_space();
    let mut sampler = RandomSampler::new(7);
    let history = TrialHistory::default();
    for _ in 0..200 {
        let params = sampler.suggest(&sp, &history, &Arith);
        let arch = ms.decode(&params).unwrap();
        assert!((2..=4).contains(&arch.depth()));
        assert!(!arch.layers[0].skip_from_prev);
        for l in &arch.layers {
            assert!(ms.palette().ops().contains(&l.op));
            assert!(ms.widths().contains(&l.width));
        }
    }
}

#[test]
fn nas_architecture_search_via_ordinary_optimization() {
    let palette = OpPalette::new(texts(&["conv3", "conv5", "identity"])).unwrap();
    let macro_space = MacroSpace::new(palette, 1, 4, vec![8, 16, 32]).unwrap();
    let space = macro_space.to_search_space();

    // A cheap proxy objective scoring decoded architectures — no training needed
    // to prove the search/encode/decode loop works end to end.
    let mut study = Study::builder(space, Arith)
        .name("e2e-nas")
        .maximize("score")
        .sampler(EvolutionarySampler::new("score", Direction::Maximize, 3))
        .seed(3)
        .build()
        .unwrap();
    let objective = Fun(|p: &ParamSet| {
        let arch = macro_space.decode(p)?;
        // Prefer moderately deep nets with skips (a stand-in for accuracy).
        let score = arch.depth() as f64
            + arch.layers.iter().filter(|l| l.skip_from_prev).count() as f64;
        Ok(single("score", score))
    });
    study.optimize_n(&objective, 30).unwrap();
    let best = study.best_trial().unwrap().unwrap();
    // The decoded winner is a real, valid architecture.
    let arch = macro_space.decode(&best.params).unwrap();
    assert!((1..=4).contains(&arch.depth()));
}

fn pipeline_space() -> PipelineSpace {
    PipelineSpace::new()
        .stage(
            Stage::new("preprocess")
                .component(Component::new("standardize"))
                .component(Component::new("normalize"))
                .component(Component::new("none")),
        )
        .stage(
            Stage::new("model")
                .component(Component::new("knn").param("k", Distribution::integer(1, 15)))
                .component(Component::new("centroid")),
        )
}

#[test]
fn encodes_stages_and_gated_component_params() {
    let s = pipeline_space().to_search_space();
    assert!(s.validate().is_ok());
    // 2 stage categoricals + 1 gated param (model.knn.k) = 3.
    assert_eq!(s.len(), 3);
    assert!(s.get("preprocess").unwrap().condition.is_none());
    assert!(s.get("model").unwrap().condition.is_none());
    assert!(s.get("model.knn.k").unwrap().condition.is_some());
}

#[test]
fn decodes_choices_and_component_params() {
    let ps = pipeline_space();
    let sp = ps.to_search_space();
    let mut sampler = RandomSampler::new(3);
    let history = TrialHistory::default();
    for _ in 0..300 {
        let params = sampler.suggest(&sp, &history, &Arith);
        let plan = ps.decode(&params).unwrap();
        assert_eq!(plan.stages.len(), 2);
        let pre = plan.component("preprocess").unwrap();
        assert!(["standardize", "normalize", "none"].contains(&pre));
        let model = plan.choice("model").unwrap();
        if model.component == "knn" {
            // The gated k is present and within range only for the knn branch.
            let k = model.params.integer("k").unwrap();
            assert!((1..=15).contains(&k));
        } else {
            assert!(model.params.integer("k").is_err());
        }
    }
}

#[test]
fn pipeline_describe_is_readable() {
    let ps = pipeline_space();
    let sp = ps.to_search_space();
    let mut sampler = RandomSampler::new(1);
    let plan = ps.decode(&sampler.suggest(&sp, &TrialHistory::default(), &Arith)).unwrap();
    let d = plan.describe();
    assert!(d.starts_with("preprocess="));
    assert!(d.contains("· model="));
}

#[test]
fn elapsed_time_spends_a_wall_time_budget() {
    let study = || {
        Study::builder(line(), Arith).minimize("loss").sampler(RandomSampler::new(1)).seed(1).build().unwrap()
    };
    let mut none = study();
    assert_eq!(none.optimize(&Fun(quadratic), &WallTimeBudget { limit: 0 }).unwrap(), 0);
    let mut brief = study();
    assert_eq!(brief.optimize(&Fun(quadratic), &WallTimeBudget { limit: 1 }).unwrap(), 1);
}

#[test]
fn a_flat_grid_multiplies() {
    let space = SearchSpace::new()
        .add("x", float(0.0, 1.0))
        .add("n", Distribution::integer(1, 4))
        .add("b", Distribution::boolean());
    for (samples, points) in [(0, 8), (1, 8), (2, 16), (5, 40)] {
        let mut grid = GridSampler::new(samples);
        let first = grid.suggest(&space, &TrialHistory::default(), &Arith);
        assert_eq!(grid.len(), points);
        assert_eq!(first.float("x").unwrap(), scalar(0.0));
    }
}

#[test]
fn trial_generators_and_progress_read_back() {
    assert_eq!(trial_rng(9), TrialRng::new(9));
    let reports: Vec<IntermediateReport> = [(1, 0.5), (3, 0.25)]
        .iter()
        .map(|(step, x)| IntermediateReport { step: *step, metrics: single("loss", *x) })
        .collect();
    let progress = TrialProgress { id: TrialId(1), intermediate: &reports };
    assert_eq!(progress.value_at(3, "loss"), Some(scalar(0.25)));
    assert_eq!(progress.value_at(2, "loss"), None);
    assert_eq!(progress.value_at(1, "gain"), None);
    // A tuned model-based sampler still proposes members of the space.
    let mut s = TpeSampler::new("loss", Direction::Minimize, 3).with_gamma(scalar(5.0)).with_candidates(0);
    let mut study = Study::builder(line(), Arith).minimize("loss").random().build().unwrap();
    study.optimize_n(&Fun(quadratic), 25).unwrap();
    let p = s.suggest(&line(), &study.history().unwrap(), &Arith);
    assert!(line().params()[0].distribution.contains(p.get("x").unwrap()));
}

// ---- floating-point arithmetic ------------------------------------------------------------

/// The arithmetic of `f64` (and of `f32` for feature vectors), over the `ChaCha8Rng` stream
/// that a `TrialRng` stands for.
#[derive(Debug, Clone, Copy, Default)]
struct Arith;

/// A float as the library holds it.
fn scalar(x: f64) -> Scalar {
    Scalar::from_bits(x.to_bits())
}

/// The float that the library holds.
fn number(s: Scalar) -> f64 {
    f64::from_bits(s.to_bits())
}

fn numbers(values: &[Scalar]) -> Vec<f64> {
    values.iter().map(|s| number(*s)).collect()
}

/// Runs `draw` on the stream of `rng` and moves `rng` behind it.
fn on_stream<T>(rng: &mut TrialRng, draw: impl FnOnce(&mut ChaCha8Rng) -> T) -> T {
    let mut stream = ChaCha8Rng::seed_from_u64(rng.seed);
    stream.set_word_pos(rng.word);
    let out = draw(&mut stream);
    rng.word = stream.get_word_pos();
    out
}

/// A standard-normal sample via the Box-Muller transform.
fn gaussian(rng: &mut ChaCha8Rng) -> f64 {
    let u1 = rng.gen::<f64>().max(1e-12);
    let u2 = rng.gen::<f64>();
    (-2.0 * u1.ln()).sqrt() * (2.0 * PI * u2).cos()
}

fn variance_of(ys: &[f64]) -> f64 {
    let n = ys.len() as f64;
    if n == 0.0 {
        return 0.0;
    }
    let mean = ys.iter().sum::<f64>() / n;
    ys.iter().map(|y| (y - mean).powi(2)).sum::<f64>() / n
}

impl Reals for Arith {
    fn ln(&self, x: Scalar) -> Scalar {
        scalar(number(x).ln())
    }

    fn exp(&self, x: Scalar) -> Scalar {
        scalar(number(x).exp())
    }

    fn difference(&self, a: Scalar, b: Scalar) -> Scalar {
        scalar(number(a) - number(b))
    }

    fn ratio(&self, part: usize, whole: usize) -> Scalar {
        scalar(part as f64 / whole as f64)
    }

    fn mix(&self, low: Scalar, high: Scalar, t: Scalar) -> Scalar {
        scalar(number(low) + number(t) * (number(high) - number(low)))
    }

    fn stretch(&self, low: i64, high: i64, t: Scalar) -> Scalar {
        scalar(low as f64 + number(t) * (high as f64 - low as f64 + 1.0))
    }

    fn parts(&self, t: Scalar, n: usize) -> usize {
        (number(t) * n as f64).floor() as usize
    }

    fn floor(&self, x: Scalar) -> Scalar {
        scalar(number(x).floor())
    }

    fn round(&self, x: Scalar) -> i64 {
        number(x).round() as i64
    }

    fn snap(&self, x: Scalar, low: Scalar, step: Scalar) -> Scalar {
        let k = ((number(x) - number(low)) / number(step)).round();
        scalar(number(low) + k * number(step))
    }

    fn last_step(&self, low: Scalar, high: Scalar, step: Scalar) -> Scalar {
        let (low, high, step) = (number(low), number(high), number(step));
        let k = ((high - low) / step + 1e-9).floor();
        scalar((low + k * step).min(high))
    }

    fn steps(&self, x: Scalar, low: i64, step: i64) -> i64 {
        ((number(x) - low as f64) / step as f64).round() as i64
    }

    fn uniform(&self, low: Scalar, high: Scalar, mut rng: TrialRng) -> (Scalar, TrialRng) {
        let x = on_stream(&mut rng, |r| r.gen_range(number(low)..=number(high)));
        (scalar(x), rng)
    }

    fn normal(&self, mean: Scalar, deviation: Scalar, mut rng: TrialRng) -> (Scalar, TrialRng) {
        let z = on_stream(&mut rng, gaussian);
        (scalar(number(mean) + number(deviation) * z), rng)
    }

    fn nudge(
        &self,
        x: Scalar,
        scale: Scalar,
        low: Scalar,
        high: Scalar,
        mut rng: TrialRng,
    ) -> (Scalar, TrialRng) {
        let z = on_stream(&mut rng, gaussian);
        (scalar(number(x) + z * number(scale) * (number(high) - number(low))), rng)
    }

    fn log_density(&self, x: Scalar, mean: Scalar, deviation: Scalar, n: usize) -> Scalar {
        let sigma = number(deviation);
        let z = (number(x) - number(mean)) / sigma;
        scalar((1.0 / n as f64).ln() - 0.5 * z * z - sigma.ln() - 0.5 * (2.0 * PI).ln())
    }

    fn log_sum(&self, terms: &Vec<Scalar>, greatest: Scalar) -> Scalar {
        let m = number(greatest);
        scalar(m + terms.iter().map(|t| (number(*t) - m).exp()).sum::<f64>().ln())
    }

    fn fraction(&self, digits: &Vec<u64>, base: u64) -> Scalar {
        let mut result = 0.0;
        let mut f = 1.0 / base as f64;
        for d in digits {
            result += *d as f64 * f;
            f /= base as f64;
        }
        scalar(result)
    }

    fn grid_steps(&self, low: Scalar, high: Scalar, step: Scalar) -> Vec<Scalar> {
        let (low, high) = (number(low), number(high));
        let mut out = Vec::new();
        let mut v = low;
        while v <= high + f64::EPSILON {
            out.push(scalar(v.min(high)));
            v += number(step);
        }
        out
    }

    fn midpoint(&self, a: Scalar, b: Scalar) -> Scalar {
        scalar((number(a) + number(b)) / 2.0)
    }

    fn crowd(
        &self,
        distance: Scalar,
        below: Scalar,
        above: Scalar,
        lowest: Scalar,
        highest: Scalar,
    ) -> Scalar {
        let span = (number(highest) - number(lowest)).max(1e-12);
        scalar(number(distance) + (number(above) - number(below)) / span)
    }

    fn share(&self, gamma: Scalar, n: usize) -> usize {
        (number(gamma) * n as f64).ceil() as usize
    }

    fn log_ratios(&self, good: &Vec<u128>, bad: &Vec<u128>) -> Vec<Scalar> {
        let logs = |counts: &Vec<u128>| -> Vec<f64> {
            let total: f64 = counts.iter().map(|c| *c as f64).sum();
            counts.iter().map(|c| (*c as f64 / total).ln()).collect()
        };
        logs(good).into_iter().zip(logs(bad)).map(|(l, g)| scalar(l - g)).collect()
    }

    fn of_int(&self, x: i64) -> Scalar {
        scalar(x as f64)
    }

    fn sum(&self, values: &Vec<Scalar>) -> Scalar {
        scalar(numbers(values).iter().sum())
    }

    fn quotient(&self, a: Scalar, b: Scalar) -> Scalar {
        scalar(number(a) / number(b))
    }

    fn mean(&self, values: &Vec<Scalar>) -> Scalar {
        scalar(numbers(values).iter().sum::<f64>() / values.len() as f64)
    }

    fn variance(&self, values: &Vec<Scalar>) -> Scalar {
        scalar(variance_of(&numbers(values)))
    }

    fn between(&self, groups: &Vec<Vec<Scalar>>) -> Scalar {
        let groups: Vec<Vec<f64>> = groups.iter().map(|g| numbers(g)).collect();
        let n: usize = groups.iter().map(|g| g.len()).sum();
        if n == 0 {
            return scalar(0.0);
        }
        let grand = groups.iter().flat_map(|g| g.iter()).sum::<f64>() / n as f64;
        scalar(
            groups
                .iter()
                .filter(|g| !g.is_empty())
                .map(|g| {
                    let w = g.len() as f64 / n as f64;
                    let mean = g.iter().sum::<f64>() / g.len() as f64;
                    w * (mean - grand).powi(2)
                })
                .sum(),
        )
    }

    fn tail(&self, fraction: Scalar, n: usize) -> usize {
        (n as f64 * number(fraction)).floor() as usize
    }

    fn mean_error(&self, values: &Vec<Scalar>) -> Scalar {
        let v = numbers(values);
        let n = v.len() as f64;
        let mean = v.iter().sum::<f64>() / n;
        let var = v.iter().map(|x| (x - mean).powi(2)).sum::<f64>() / (n - 1.0);
        scalar((var / n).sqrt())
    }

    fn distances(&self, values: &Vec<Scalar>, center: Scalar) -> Vec<Scalar> {
        values.iter().map(|x| scalar((number(*x) - number(center)).abs())).collect()
    }

    fn deviation_error(&self, deviation: Scalar, n: usize) -> Scalar {
        scalar((1.4826 * number(deviation)) / (n as f64).sqrt())
    }
}

impl Volumes for Arith {
    fn length(&self, from: Scalar, to: Scalar) -> Scalar {
        scalar((number(to) - number(from)).max(0.0))
    }

    fn widened(
        &self,
        area: Scalar,
        left: Scalar,
        right: Scalar,
        low: Scalar,
        high: Scalar,
    ) -> Scalar {
        scalar(number(area) + (number(right) - number(left)) * (number(high) - number(low)))
    }

    fn volume(&self, low: &Vec<Scalar>, high: &Vec<Scalar>) -> Scalar {
        scalar(low.iter().zip(high).map(|(l, h)| (number(*h) - number(*l)).max(0.0)).product())
    }

    fn draw(&self, low: &Vec<Scalar>, high: &Vec<Scalar>, rng: TrialRng) -> (Vec<Scalar>, TrialRng) {
        let mut rng = rng;
        let point = on_stream(&mut rng, |r| {
            low.iter().zip(high).map(|(l, h)| scalar(r.gen_range(number(*l)..number(*h)))).collect()
        });
        (point, rng)
    }

    fn portion(&self, volume: Scalar, part: usize, whole: usize) -> Scalar {
        scalar(number(volume) * part as f64 / whole as f64)
    }
}

impl BracketPlan for Arith {
    fn halvings(&self, max_resource: u64, eta: usize) -> u64 {
        let s_max = (max_resource as f64).ln().div_euclid((eta as f64).ln()) as i64;
        s_max.max(0) as u64
    }

    fn starters(&self, eta: usize, s_max: u64, s: u64) -> usize {
        ((s_max as f64 + 1.0) * (eta as f64).powi(s as i32) / (s as f64 + 1.0)).ceil() as usize
    }

    fn resource(&self, max_resource: u64, eta: usize, s: u64, i: u64) -> u64 {
        let eta = eta as f64;
        let first = max_resource as f64 * eta.powi(-(s as i32));
        (first * eta.powi(i as i32)).round().max(1.0) as u64
    }

    fn survivors(&self, eta: usize, n: usize, i: u64) -> usize {
        let eta = eta as f64;
        let here = (n as f64 * eta.powi(-(i as i32))).floor();
        (here / eta).floor() as usize
    }
}
