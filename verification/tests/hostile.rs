//! Arithmetic that answers nonsense must not lead the engine outside its own rules.

use automl_core::distribution::{Bounds, Distribution};
use automl_core::error::Error;
use automl_core::evolution::EvolutionarySampler;
use automl_core::hypervolume::Volumes;
use automl_core::importance::importance;
use automl_core::metrics::{Direction, NamedMetrics, Objective as Aim};
use automl_core::multifidelity::{BracketPlan, EvalLog, Fidelity, Hyperband};
use automl_core::nsga2::Nsga2Sampler;
use automl_core::objective::{Objective, Outcome, ReportLog, ReportSink};
use automl_core::param::{Assignment, ParamSet, ParamValue};
use automl_core::pareto::ParetoFront;
use automl_core::pruner::MedianPruner;
use automl_core::qmc::QmcSampler;
use automl_core::reals::Reals;
use automl_core::rng::TrialRng;
use automl_core::robust::Aggregator;
use automl_core::sampler::{GridSampler, RandomSampler, Sampler};
use automl_core::scalar::Scalar;
use automl_core::space::{Condition, SearchSpace};
use automl_core::study::Study;
use automl_core::tpe::TpeSampler;
use automl_core::trial::{Metrics, StudyId, TrialHistory, TrialId, TrialRecord, TrialState};

/// Answers every question with one number, as a float, an integer and a count.
#[derive(Clone, Copy)]
struct Always(f64, i64, usize);

fn s(x: f64) -> Scalar {
    Scalar::from_bits(x.to_bits())
}

impl Reals for Always {
    fn ln(&self, _: Scalar) -> Scalar {
        s(self.0)
    }

    fn exp(&self, _: Scalar) -> Scalar {
        s(self.0)
    }

    fn difference(&self, _: Scalar, _: Scalar) -> Scalar {
        s(self.0)
    }

    fn ratio(&self, _: usize, _: usize) -> Scalar {
        s(self.0)
    }

    fn mix(&self, _: Scalar, _: Scalar, _: Scalar) -> Scalar {
        s(self.0)
    }

    fn stretch(&self, _: i64, _: i64, _: Scalar) -> Scalar {
        s(self.0)
    }

    fn parts(&self, _: Scalar, _: usize) -> usize {
        self.2
    }

    fn floor(&self, _: Scalar) -> Scalar {
        s(self.0)
    }

    fn round(&self, _: Scalar) -> i64 {
        self.1
    }

    fn snap(&self, _: Scalar, _: Scalar, _: Scalar) -> Scalar {
        s(self.0)
    }

    fn last_step(&self, _: Scalar, _: Scalar, _: Scalar) -> Scalar {
        s(self.0)
    }

    fn steps(&self, _: Scalar, _: i64, _: i64) -> i64 {
        self.1
    }

    fn uniform(&self, _: Scalar, _: Scalar, rng: TrialRng) -> (Scalar, TrialRng) {
        (s(self.0), rng)
    }

    fn normal(&self, _: Scalar, _: Scalar, rng: TrialRng) -> (Scalar, TrialRng) {
        (s(self.0), rng)
    }

    fn nudge(
        &self,
        _: Scalar,
        _: Scalar,
        _: Scalar,
        _: Scalar,
        rng: TrialRng,
    ) -> (Scalar, TrialRng) {
        (s(self.0), rng)
    }

    fn log_density(&self, _: Scalar, _: Scalar, _: Scalar, _: usize) -> Scalar {
        s(self.0)
    }

    fn log_sum(&self, _: &Vec<Scalar>, _: Scalar) -> Scalar {
        s(self.0)
    }

    fn fraction(&self, _: &Vec<u64>, _: u64) -> Scalar {
        s(self.0)
    }

    fn grid_steps(&self, _: Scalar, _: Scalar, _: Scalar) -> Vec<Scalar> {
        vec![s(self.0)]
    }

    fn midpoint(&self, _: Scalar, _: Scalar) -> Scalar {
        s(self.0)
    }

    fn crowd(&self, _: Scalar, _: Scalar, _: Scalar, _: Scalar, _: Scalar) -> Scalar {
        s(self.0)
    }

    fn share(&self, _: Scalar, _: usize) -> usize {
        self.2
    }

    fn log_ratios(&self, _: &Vec<u128>, _: &Vec<u128>) -> Vec<Scalar> {
        vec![s(self.0); 1000]
    }

    fn of_int(&self, _: i64) -> Scalar {
        s(self.0)
    }

    fn sum(&self, _: &Vec<Scalar>) -> Scalar {
        s(self.0)
    }

    fn quotient(&self, _: Scalar, _: Scalar) -> Scalar {
        s(self.0)
    }

    fn mean(&self, _: &Vec<Scalar>) -> Scalar {
        s(self.0)
    }

    fn variance(&self, _: &Vec<Scalar>) -> Scalar {
        s(self.0)
    }

    fn between(&self, _: &Vec<Vec<Scalar>>) -> Scalar {
        s(self.0)
    }

    fn tail(&self, _: Scalar, _: usize) -> usize {
        self.2
    }

    fn mean_error(&self, _: &Vec<Scalar>) -> Scalar {
        s(self.0)
    }

    fn distances(&self, _: &Vec<Scalar>, _: Scalar) -> Vec<Scalar> {
        Vec::new()
    }

    fn deviation_error(&self, _: Scalar, _: usize) -> Scalar {
        s(self.0)
    }
}

impl Volumes for Always {
    fn length(&self, _: Scalar, _: Scalar) -> Scalar {
        s(self.0)
    }

    fn widened(&self, _: Scalar, _: Scalar, _: Scalar, _: Scalar, _: Scalar) -> Scalar {
        s(self.0)
    }

    fn volume(&self, _: &Vec<Scalar>, _: &Vec<Scalar>) -> Scalar {
        s(self.0)
    }

    fn draw(&self, _: &Vec<Scalar>, _: &Vec<Scalar>, rng: TrialRng) -> (Vec<Scalar>, TrialRng) {
        (Vec::new(), rng)
    }

    fn portion(&self, _: Scalar, _: usize, _: usize) -> Scalar {
        s(self.0)
    }
}

const ANSWERS: [Always; 5] = [
    Always(f64::NAN, i64::MIN, 0),
    Always(f64::INFINITY, i64::MAX, usize::MAX),
    Always(f64::NEG_INFINITY, -1, 1),
    Always(0.0, 0, 7),
    Always(-1e300, 3, 2),
];

fn bounds(low: f64, high: f64) -> Bounds {
    Bounds { low: s(low), high: s(high), floor: s(low - 1e-9), ceiling: s(high + 1e-9) }
}

fn texts(items: &[&str]) -> Vec<String> {
    items.iter().map(|t| t.to_string()).collect()
}

fn space() -> SearchSpace {
    SearchSpace::new()
        .add("lr", Distribution::log_float(bounds(1e-4, 1e-1)))
        .add("drop", Distribution::stepped_float(bounds(0.0, 0.5), s(0.1)))
        .add("depth", Distribution::integer(1, 4))
        .add("width", Distribution::log_int(8, 64))
        .add("model", Distribution::categorical(texts(&["mlp", "cnn"])))
        .add_conditional("kernel", Distribution::integer(3, 7), Condition::when_eq("model", "cnn"))
        .add("bn", Distribution::boolean())
}

/// Every active parameter is there with a value of its distribution, and no other is.
fn assert_legal(space: &SearchSpace, p: &ParamSet) {
    for def in space.params() {
        match p.get(&def.name) {
            Some(v) => {
                assert!(SearchSpace::is_active(def, p), "{} is inactive", def.name);
                assert!(def.distribution.contains(v), "{} = {v:?}", def.name);
            }
            None => assert!(!SearchSpace::is_active(def, p), "{} is missing", def.name),
        }
    }
    for (name, _) in p.iter() {
        assert!(space.get(name).is_some(), "{name} is not a parameter");
    }
}

fn history(n: u64) -> TrialHistory {
    let mut rng = TrialRng::new(3);
    let records = (0..n)
        .map(|i| {
            let p = RandomSampler::sample_space(&space(), &mut rng, &ANSWERS[3]);
            let mut r = TrialRecord::new(TrialId(i), StudyId(0), p, i);
            r.state = TrialState::Complete;
            r.final_metrics = Some(NamedMetrics::single("loss", s(i as f64)));
            r
        })
        .collect();
    TrialHistory::new(records)
}

#[test]
fn proposals_stay_legal_whatever_the_arithmetic_answers() {
    let space = space();
    let full = history(60);
    for answer in ANSWERS {
        for hist in [&TrialHistory::default(), &full] {
            let p = RandomSampler::new(1).suggest(&space, hist, &answer);
            assert_legal(&space, &p);
            let p = QmcSampler::new().suggest(&space, hist, &answer);
            assert_legal(&space, &p);
            let mut tpe = TpeSampler::new("loss", Direction::Minimize, 1).with_min_branch_obs(0);
            assert_legal(&space, &tpe.suggest(&space, hist, &answer));
            let mut evolution = EvolutionarySampler::new("loss", Direction::Minimize, 1);
            assert_legal(&space, &evolution.suggest(&space, hist, &answer));
            let aims = vec![("loss".to_string(), Direction::Minimize)];
            assert_legal(&space, &Nsga2Sampler::new(aims, 1).suggest(&space, hist, &answer));
        }
    }
}

#[test]
fn draws_never_leave_their_bounds() {
    let dists = [
        Distribution::float(bounds(-1.0, 1.0)),
        Distribution::log_float(bounds(1e-4, 1e-1)),
        Distribution::stepped_float(bounds(0.0, 0.5), s(0.1)),
    ];
    let ends = [(-1.0, 1.0), (1e-4, 1e-1), (0.0, 0.5)];
    for answer in ANSWERS {
        for (dist, (low, high)) in dists.iter().zip(ends) {
            match dist.sample(&mut TrialRng::new(1), &answer) {
                ParamValue::Float(v) => assert!((low..=high).contains(&f64::from_bits(v.bits)), "{v:?}"),
                other => panic!("unexpected {other:?}"),
            }
        }
    }
}

#[test]
fn grids_stay_legal_for_finite_ranges() {
    // A grid over the discrete parameters alone asks nothing of the arithmetic.
    let space = SearchSpace::new()
        .add("depth", Distribution::integer(1, 4))
        .add("model", Distribution::categorical(texts(&["mlp", "cnn"])))
        .add_conditional("kernel", Distribution::integer(3, 7), Condition::when_eq("model", "cnn"));
    let mut g = GridSampler::new(3);
    let hist = TrialHistory::default();
    let mut seen = Vec::new();
    for _ in 0..4 * (1 + 5) {
        let p = g.suggest(&space, &hist, &ANSWERS[0]);
        assert_legal(&space, &p);
        let text = format!("{:?}", p.iter());
        assert!(!seen.contains(&text), "{text} twice");
        seen.push(text);
    }
    assert_eq!(g.len(), 4 * (1 + 5));
}

struct Depth;

impl Objective for Depth {
    fn allows(&self, _: Assignment, _: ReportLog, _: bool, _: Outcome) -> bool {
        unreachable!("only contracts speak of it")
    }

    fn evaluate<R: ReportSink>(&self, params: &ParamSet, report: &mut R) -> Result<NamedMetrics, Error> {
        let depth = params.integer("depth")?;
        report.report(1, NamedMetrics::single("loss", s(depth as f64)))?;
        Ok(NamedMetrics::single("loss", s(depth as f64)))
    }
}

#[test]
fn studies_keep_their_books_whatever_the_arithmetic_answers() {
    for answer in ANSWERS {
        let mut study = Study::builder(space(), answer)
            .minimize("loss")
            .sampler(TpeSampler::new("loss", Direction::Minimize, 1))
            .pruner(MedianPruner::new("loss", Direction::Minimize))
            .seed(1)
            .build()
            .unwrap();
        assert_eq!(study.optimize_n(&Depth, 25).unwrap(), 25);
        let history = study.history().unwrap();
        assert_eq!(history.len(), 25);
        assert!(history.records().iter().all(|r| r.state.is_terminal()));
        for record in history.records() {
            assert_legal(&space(), &record.params);
        }
        let profile = importance(&history, "loss", &answer);
        assert!(profile.len() <= space().len());
    }
}

struct Flat;

impl Fidelity for Flat {
    fn gives(&self, _: Assignment, _: u64, _: Metrics) -> bool {
        unreachable!("only contracts speak of it")
    }

    fn calls(&self) -> EvalLog {
        unreachable!("only contracts speak of it")
    }

    fn evaluate(&mut self, _params: &ParamSet, _resource: u64) -> NamedMetrics {
        NamedMetrics::single("loss", s(1.0))
    }
}

/// A plan that never asks for more than the resource and never runs long.
struct Erratic;

impl BracketPlan for Erratic {
    fn halvings(&self, _: u64, _: usize) -> u64 {
        2
    }

    fn starters(&self, _: usize, _: u64, _: u64) -> usize {
        0
    }

    fn resource(&self, _: u64, _: usize, _: u64, _: u64) -> u64 {
        u64::MAX
    }

    fn survivors(&self, _: usize, _: usize, _: u64) -> usize {
        usize::MAX
    }
}

#[test]
fn brackets_cap_what_the_plan_asks() {
    let hb = Hyperband::new("loss", Direction::Minimize, 9, 3);
    let out = hb.optimize(&space(), &mut RandomSampler::new(1), &mut Flat, &ANSWERS[3], &Erratic);
    // One starter per bracket, kept through all of its rungs at the full resource.
    assert_eq!(out.evaluations, 3 + 2 + 1);
    assert_eq!(out.total_resource, 6 * 9);
    assert_eq!(out.best_resource, 9);
}

#[test]
fn summaries_and_volumes_never_fail() {
    let values = vec![s(1.0), s(2.0), s(3.0)];
    for answer in ANSWERS {
        for a in [Aggregator::Mean, Aggregator::Median, Aggregator::TrimmedMean(s(0.3))] {
            assert!(a.aggregate(&values, &answer).is_some());
            a.spread(&values, &answer);
        }
        let mut front =
            ParetoFront::new(vec![Aim::minimize("a"), Aim::minimize("b"), Aim::minimize("c")]);
        let at = |x: f64| NamedMetrics::single("a", s(x)).with("b", s(x)).with("c", s(x));
        front.insert(TrialId(0), &at(0.0));
        front.hypervolume(&at(1.0), &answer);
    }
    assert_eq!(ParamValue::Bool(true).kind(), "bool");
}
