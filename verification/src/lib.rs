//! A hyper-parameter optimization engine whose decisions are verified.

pub mod axis;
pub mod breeding;
pub mod budget;
pub mod checkpoint;
pub mod clock;
pub mod crowding;
pub mod distributed;
pub mod distribution;
pub mod error;
pub mod evolution;
pub mod executor;
pub mod fusion;
pub mod guidance;
pub mod hypervolume;
pub mod importance;
pub mod memory;
pub mod metrics;
pub mod modeling;
pub mod models;
pub mod multifidelity;
pub mod named;
pub mod names;
pub mod nas;
pub mod nsga2;
pub mod objective;
pub mod order;
pub mod outcome;
pub mod param;
pub mod pareto;
pub mod parzen;
pub mod pipeline;
pub mod process;
pub mod provenance;
pub mod pruner;
pub mod qmc;
pub mod reals;
pub mod replay;
pub mod rng;
pub mod robust;
pub mod rows;
pub mod run;
pub mod sampler;
pub mod scalar;
pub mod scheduler;
pub mod selection;
pub mod space;
pub mod steady;
pub mod storage;
pub mod study;
pub mod tasks;
pub mod text;
pub mod tpe;
pub mod trial;
pub mod warmstart;
