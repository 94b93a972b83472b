//! Environment and timing provenance for reproducibility.
//!
//! Each trial records the environment it ran in (crate version, operating system, architecture)
//! and the timestamps of its lifecycle, alongside its parameters, metrics and seed.

use std::time::{Duration, SystemTime, SystemTimeError, UNIX_EPOCH};
use vstd::prelude::*;

verus! {

/// `std::time::SystemTime`, carried from reading the clock to measuring it.
#[verifier::external_type_specification]
#[verifier::external_body]
pub struct ExSystemTime(std::time::SystemTime);

/// `std::time::SystemTimeError`, which says that the clock stands before the epoch.
#[verifier::external_type_specification]
#[verifier::external_body]
pub struct ExSystemTimeError(std::time::SystemTimeError);

/// Reads the clock with `SystemTime::now`. Nothing is promised of the time.
#[verifier::external_body]
fn read_clock() -> SystemTime {
    SystemTime::now()
}

/// Measures a time against the Unix epoch with `SystemTime::duration_since`. Nothing is
/// promised of the answer.
#[verifier::external_body]
fn since_epoch(t: SystemTime) -> Result<Duration, SystemTimeError> {
    t.duration_since(UNIX_EPOCH)
}

/// The whole milliseconds of a duration, by `Duration::as_millis`. Nothing is promised of the
/// number, as a duration is opaque here.
#[verifier::external_body]
fn whole_millis(d: Duration) -> u128 {
    d.as_millis()
}

/// The timestamp for a clock reading: the milliseconds since the epoch in sixty-four bits, or 0
/// for a clock before the epoch.
pub fn timestamp(millis: Option<u128>) -> (r: u64)
    ensures
        millis is None ==> r == 0,
        millis matches Some(m) ==> m <= u64::MAX ==> r == m,
        millis matches Some(m) ==> r == m as u64,
{
    match millis {
        Some(m) => #[verifier::truncate] (m as u64),
        None => 0,
    }
}

/// Whether `millis` is what the clock may say: the whole milliseconds of a reading since the
/// epoch, or nothing for a reading before it.
pub closed spec fn is_reading(millis: Option<u128>) -> bool {
    exists|t: SystemTime, since: Result<Duration, SystemTimeError>|
        call_ensures(read_clock, (), t) && #[trigger] call_ensures(since_epoch, (t,), since)
            && match since {
            Ok(d) => millis matches Some(m) && call_ensures(whole_millis, (d,), m),
            Err(_) => millis is None,
        }
}

/// Whether `r` may be the time: the milliseconds that the clock says, or 0 if it is before the
/// epoch.
pub open spec fn is_now(r: u64) -> bool {
    exists|millis: Option<u128>| #[trigger]
        is_reading(millis) && r == match millis {
            Some(m) => m as u64,
            None => 0,
        }
}

/// Milliseconds since the Unix epoch, or 0 if the clock is before it. What the clock says is
/// not constrained here; [`timestamp`] says what is made of its reading.
pub fn now_ms() -> (r: u64)
    ensures
        is_now(r),
{
    let now = read_clock();
    let since = since_epoch(now);
    let ghost answer = since;
    let reading = match since {
        Ok(d) => Some(whole_millis(d)),
        Err(_) => None,
    };
    proof {
        assert(call_ensures(since_epoch, (now,), answer));
        assert(is_reading(reading));
    }
    timestamp(reading)
}

/// A snapshot of the environment a trial ran in.
#[derive(Debug, PartialEq, Eq)]
pub struct EnvSnapshot {
    /// Operating system, e.g. "windows" or "linux".
    pub os: String,
    /// CPU architecture, e.g. "x86_64".
    pub arch: String,
    /// The version of this crate that produced the trial.
    pub core_version: String,
}

/// What an [`EnvSnapshot`] stands for in contracts.
pub struct EnvModel {
    /// Operating system.
    pub os: Seq<char>,
    /// CPU architecture.
    pub arch: Seq<char>,
    /// Crate version.
    pub core_version: Seq<char>,
}

impl View for EnvSnapshot {
    type V = EnvModel;

    open spec fn view(&self) -> EnvModel {
        EnvModel { os: self.os@, arch: self.arch@, core_version: self.core_version@ }
    }
}

/// The environment of which nothing is known.
pub open spec fn unknown_env() -> EnvModel {
    EnvModel { os: Seq::empty(), arch: Seq::empty(), core_version: Seq::empty() }
}

impl EnvSnapshot {
    /// A snapshot that says nothing about the environment.
    pub fn unknown() -> (e: Self)
        ensures
            e@ == unknown_env(),
    {
        let e = EnvSnapshot { os: String::new(), arch: String::new(), core_version: String::new() };
        proof {
            assert(e@.os =~= unknown_env().os);
            assert(e@.arch =~= unknown_env().arch);
            assert(e@.core_version =~= unknown_env().core_version);
        }
        e
    }
}

impl Clone for EnvSnapshot {
    fn clone(&self) -> (e: Self)
        ensures
            e == *self,
    {
        EnvSnapshot {
            os: self.os.clone(),
            arch: self.arch.clone(),
            core_version: self.core_version.clone(),
        }
    }
}

/// Lifecycle timestamps for a trial, in Unix milliseconds.
#[derive(Debug, Clone, Copy, PartialEq, Eq, Structural)]
pub struct TrialTiming {
    /// When the trial was enqueued.
    pub queued_at_ms: u64,
    /// When execution started, if it has.
    pub started_at_ms: Option<u64>,
    /// When the trial reached a terminal state, if it has.
    pub completed_at_ms: Option<u64>,
}

impl TrialTiming {
    /// A timing record marking "queued at `now`".
    pub fn queued_at(now: u64) -> (t: Self)
        ensures
            t == (TrialTiming { queued_at_ms: now, started_at_ms: None, completed_at_ms: None }),
    {
        TrialTiming { queued_at_ms: now, started_at_ms: None, completed_at_ms: None }
    }

    /// A timing record marking "queued now".
    pub fn queued_now() -> (t: Self)
        ensures
            is_now(t.queued_at_ms),
            t.started_at_ms is None,
            t.completed_at_ms is None,
    {
        TrialTiming::queued_at(now_ms())
    }

    /// The time from start to completion.
    pub open spec fn wall_time(self) -> Option<u64> {
        match (self.started_at_ms, self.completed_at_ms) {
            (Some(s), Some(e)) => Some(
                if e >= s {
                    (e - s) as u64
                } else {
                    0
                },
            ),
            _ => None,
        }
    }

    /// Wall-clock duration from start to completion, if both are recorded.
    pub fn wall_time_ms(&self) -> (r: Option<u64>)
        ensures
            r == self.wall_time(),
    {
        match (self.started_at_ms, self.completed_at_ms) {
            (Some(s), Some(e)) => Some(e.saturating_sub(s)),
            _ => None,
        }
    }
}

impl Default for TrialTiming {
    fn default() -> (t: Self)
        ensures
            t == (TrialTiming { queued_at_ms: 0, started_at_ms: None, completed_at_ms: None }),
    {
        TrialTiming::queued_at(0)
    }
}

} // verus!
