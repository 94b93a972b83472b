use automl_core::executor::{Executor, SequentialExecutor, ThreadExecutor};
use automl_core::fusion::{Fusion, ModalityChoice, MultimodalPlan};
use automl_core::metrics::Direction;
use automl_core::nas::{Architecture, Layer, OpPalette};
use automl_core::provenance::TrialTiming;
use automl_core::pruner::AshaPruner;
use automl_core::trial::TrialState;
use std::sync::atomic::{AtomicUsize, Ordering};
use std::sync::Mutex;

fn texts(items: &[&str]) -> Vec<String> {
    items.iter().map(|s| s.to_string()).collect()
}

#[test]
fn sequential_runs_all_in_order() {
    let order = Mutex::new(Vec::new());
    let jobs: Vec<_> = (0..5)
        .map(|i| {
            let order = &order;
            move || order.lock().unwrap().push(i)
        })
        .collect();
    assert!(SequentialExecutor.run_all(jobs));
    assert_eq!(*order.lock().unwrap(), vec![0, 1, 2, 3, 4]);
}

#[test]
fn thread_executor_runs_every_job() {
    let counter = AtomicUsize::new(0);
    let jobs: Vec<_> = (0..100)
        .map(|_| {
            let counter = &counter;
            move || {
                counter.fetch_add(1, Ordering::SeqCst);
            }
        })
        .collect();
    // Each bucket is what one thread of the pool runs.
    for bucket in ThreadExecutor::new(4).buckets(jobs) {
        assert!(SequentialExecutor.run_all(bucket));
    }
    assert_eq!(counter.load(Ordering::SeqCst), 100);
}

fn choice(name: &str, encoder: &str, dim: usize) -> ModalityChoice {
    ModalityChoice { name: name.into(), encoder: encoder.into(), dim }
}

#[test]
fn plan_validates_dims_before_scheduling() {
    let ok = MultimodalPlan {
        encoders: vec![choice("a", "x", 6), choice("b", "y", 6)],
        fusion: Fusion::Mean,
    };
    assert!(ok.validate().is_ok());
    assert_eq!(ok.fused_dim(), 6);

    let bad = MultimodalPlan {
        encoders: vec![choice("a", "x", 6), choice("b", "y", 4)],
        fusion: Fusion::Mean,
    };
    assert!(bad.validate().is_err());
    let concat = MultimodalPlan { fusion: Fusion::Concat, ..bad };
    assert!(concat.validate().is_ok());
    assert_eq!(concat.fused_dim(), 10);
}

#[test]
fn palette_dedups_and_rejects_empty() {
    let p = OpPalette::new(texts(&["a", "b", "a"])).unwrap();
    assert_eq!(p.ops(), &["a".to_string(), "b".to_string()]);
    assert!(OpPalette::new(Vec::<String>::new()).is_err());
}

#[test]
fn nas_describe_is_readable() {
    let arch = Architecture {
        layers: vec![
            Layer { op: "conv3".into(), width: 16, skip_from_prev: false },
            Layer { op: "conv5".into(), width: 32, skip_from_prev: true },
        ],
    };
    assert_eq!(arch.describe(), "conv3x16 -> conv5x32(+skip)");
}

#[test]
fn widths_stand_apart_from_names_without_a_digit() {
    let layer = |op: &str, width: usize, skip: bool| Layer { op: op.into(), width, skip_from_prev: skip };
    let arch = Architecture {
        layers: vec![layer("conv3", 16, false), layer("conv5", 32, true), layer("identity", 16, false)],
    };
    assert_eq!(arch.describe(), "conv3x16 -> conv5x32(+skip) -> identity x16");
    assert_eq!(Architecture { layers: vec![layer("", 8, true)] }.describe(), " x8(+skip)");
    assert_eq!(Architecture { layers: Vec::new() }.describe(), "");
}

#[test]
fn wall_time_needs_both_ends() {
    let mut t = TrialTiming::queued_now();
    assert_eq!(t.wall_time_ms(), None);
    t.started_at_ms = Some(1000);
    t.completed_at_ms = Some(1500);
    assert_eq!(t.wall_time_ms(), Some(500));
}

#[test]
fn asha_rung_detection() {
    let asha = AshaPruner::new("loss", Direction::Minimize)
        .with_min_resource(1)
        .with_reduction_factor(3);
    assert!(asha.is_rung(1));
    assert!(asha.is_rung(3));
    assert!(asha.is_rung(9));
    assert!(!asha.is_rung(2));
    assert!(!asha.is_rung(4));
    assert!(!asha.is_rung(0));
}

#[test]
fn state_terminality() {
    assert!(TrialState::Complete.is_terminal());
    assert!(!TrialState::Running.is_terminal());
    assert!(!TrialState::Waiting.is_terminal());
}
