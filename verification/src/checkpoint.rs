//! Checkpoint promotion for successive-halving searches.
//!
//! Rungs of resource grow geometrically. When a trial reaches a rung, its checkpoint is stored
//! as a trial artifact; a promoted continuation then warm-starts from the best predecessor's
//! checkpoint at the rung below instead of training from scratch. The promoter moves opaque
//! bytes through the artifacts of a [`Storage`] and ranks trials by their score.

use vstd::prelude::*;
use crate::error::Error;
use crate::metrics::Direction;
use crate::order::ranking_by;
use crate::scalar::Scalar;
use crate::storage::Storage;
use crate::text::{decimal_text, join};
use crate::trial::TrialId;
#[allow(unused_imports)]
use crate::models;
#[allow(unused_imports)]
use crate::order;
#[allow(unused_imports)]
use crate::pruner;
#[allow(unused_imports)]
use crate::text;

verus! {

/// That a trial reached a rung, with its score.
#[derive(Debug, Clone, Copy)]
pub struct Arrival {
    /// The rung.
    pub rung: usize,
    /// The trial.
    pub trial: TrialId,
    /// Its score.
    pub score: Scalar,
}

/// Whether no trial stands twice at a rung.
pub open spec fn once_each(ledger: Seq<Arrival>) -> bool {
    forall|i: int, j: int|
        #![trigger ledger[i], ledger[j]]
        0 <= i < j < ledger.len() ==> !(ledger[i].rung == ledger[j].rung && ledger[i].trial
            == ledger[j].trial)
}

/// The ledger after `trial` reached `rung` with `score`: an earlier arrival gets the new score,
/// otherwise one is added.
pub open spec fn recorded(ledger: Seq<Arrival>, a: Arrival) -> Seq<Arrival>
    decreases ledger.len(),
{
    if ledger.len() == 0 {
        seq![a]
    } else if ledger[0].rung == a.rung && ledger[0].trial == a.trial {
        seq![a] + ledger.drop_first()
    } else {
        seq![ledger[0]] + recorded(ledger.drop_first(), a)
    }
}

proof fn recorded_at(ledger: Seq<Arrival>, a: Arrival, i: int)
    requires
        0 <= i <= ledger.len(),
        i < ledger.len() ==> ledger[i].rung == a.rung && ledger[i].trial == a.trial,
        forall|k: int|
            0 <= k < i ==> !((#[trigger] ledger[k]).rung == a.rung && ledger[k].trial == a.trial),
    ensures
        recorded(ledger, a) == if i < ledger.len() {
            ledger.update(i, a)
        } else {
            ledger.push(a)
        },
    decreases ledger.len(),
{
    if ledger.len() == 0 {
        assert(recorded(ledger, a) =~= ledger.push(a));
    } else if i == 0 {
        assert(recorded(ledger, a) =~= ledger.update(0, a));
    } else {
        let rest = ledger.drop_first();
        assert forall|k: int| 0 <= k < i - 1 implies !((#[trigger] rest[k]).rung == a.rung
            && rest[k].trial == a.trial) by {
            assert(rest[k] == ledger[k + 1]);
        }
        recorded_at(rest, a, i - 1);
        if i < ledger.len() {
            assert(recorded(ledger, a) =~= ledger.update(i, a));
        } else {
            assert(recorded(ledger, a) =~= ledger.push(a));
        }
    }
}

/// Recording a trial again at the same rung replaces its score.
pub proof fn law_record_is_idempotent(
    ledger: Seq<Arrival>,
    rung: usize,
    trial: TrialId,
    first: Scalar,
    second: Scalar,
)
    ensures
        recorded(
            recorded(ledger, Arrival { rung, trial, score: first }),
            Arrival { rung, trial, score: second },
        ) == recorded(ledger, Arrival { rung, trial, score: second }),
    decreases ledger.len(),
{
    let a = Arrival { rung, trial, score: first };
    let b = Arrival { rung, trial, score: second };
    let mid = recorded(ledger, a);
    reveal_with_fuel(recorded, 2);
    if ledger.len() == 0 {
        assert(recorded(mid, b) =~= recorded(ledger, b));
    } else {
        assert(mid.drop_first() =~= if ledger[0].rung == rung && ledger[0].trial == trial {
            ledger.drop_first()
        } else {
            recorded(ledger.drop_first(), a)
        });
        law_record_is_idempotent(ledger.drop_first(), rung, trial, first, second);
        assert(recorded(mid, b) =~= recorded(ledger, b));
    }
}

/// Selects the arrivals at a rung.
pub open spec fn at_rung(rung: usize) -> spec_fn(Arrival) -> Option<(TrialId, Scalar)> {
    |a: Arrival|
        if a.rung == rung {
            Some((a.trial, a.score))
        } else {
            None
        }
}

/// The trials that reached `rung`, with their scores, in order of arrival.
pub open spec fn reached(ledger: Seq<Arrival>, rung: usize) -> Seq<(TrialId, Scalar)> {
    models::pick(ledger, at_rung(rung))
}

/// The scores of trials.
pub open spec fn scores_of(trials: Seq<(TrialId, Scalar)>) -> Seq<Scalar> {
    trials.map_values(|t: (TrialId, Scalar)| t.1)
}

/// The ids of trials.
pub open spec fn ids_of(trials: Seq<(TrialId, Scalar)>) -> Seq<u64> {
    trials.map_values(|t: (TrialId, Scalar)| (t.0).0)
}

/// Whether `ranked` holds `trials` best first, lower ids first among equals. Scores that are
/// not numbers leave the order open.
pub open spec fn is_ranked(
    trials: Seq<(TrialId, Scalar)>,
    d: Direction,
    ranked: Seq<(TrialId, Scalar)>,
) -> bool {
    exists|p: Seq<usize>| #[trigger]
        order::is_permutation(p, trials.len() as int) && (order::all_numbers(scores_of(trials))
            ==> order::is_ranking_by(scores_of(trials), ids_of(trials), d, p)) && ranked
            == Seq::new(p.len(), |i: int| trials[p[i] as int])
}

/// How many of `n` trials are promoted: one in `eta`, rounded up.
pub open spec fn quota(n: int, eta: int) -> int {
    if n % eta == 0 {
        n / eta
    } else {
        n / eta + 1
    }
}

/// Whether `top` holds the promoted trials of a rung, best first.
pub open spec fn is_promotion(
    trials: Seq<(TrialId, Scalar)>,
    d: Direction,
    eta: int,
    top: Seq<TrialId>,
) -> bool {
    exists|ranked: Seq<(TrialId, Scalar)>| #[trigger]
        is_ranked(trials, d, ranked) && top == Seq::new(
            quota(trials.len() as int, eta) as nat,
            |i: int| ranked[i].0,
        )
}

/// The promotion quota lies between one and the number of trials.
pub proof fn law_quota_is_within(n: int, eta: int)
    requires
        n >= 1,
        eta >= 2,
    ensures
        1 <= quota(n, eta) <= n,
        quota(n, eta) * eta >= n,
        (quota(n, eta) - 1) * eta < n,
{
    assert(n == eta * (n / eta) + n % eta && 0 <= n % eta < eta) by {
        vstd::arithmetic::div_mod::lemma_fundamental_div_mod(n, eta);
        vstd::arithmetic::div_mod::lemma_mod_bound(n, eta);
    }
    let q = n / eta;
    let r = n % eta;
    assert(0 <= q) by (nonlinear_arith)
        requires
            n == eta * q + r,
            r < eta,
            n >= 1,
            eta >= 2,
    ;
    assert(q * eta == eta * q) by (nonlinear_arith);
    assert((q + 1) * eta == eta * q + eta) by (nonlinear_arith);
    assert((q - 1) * eta == eta * q - eta) by (nonlinear_arith);
    assert(eta * q >= 2 * q) by (nonlinear_arith)
        requires
            q >= 0,
            eta >= 2,
    ;
}

/// The best of a ranking: with scores that are numbers, no trial of the rung has a better one.
pub proof fn law_best_is_first(
    trials: Seq<(TrialId, Scalar)>,
    d: Direction,
    ranked: Seq<(TrialId, Scalar)>,
    i: int,
)
    requires
        is_ranked(trials, d, ranked),
        order::all_numbers(scores_of(trials)),
        0 <= i < trials.len(),
    ensures
        trials.contains(ranked[0]),
        !d.better(trials[i].1, ranked[0].1),
{
    let p = choose|p: Seq<usize>| #[trigger]
        order::is_permutation(p, trials.len() as int) && (order::all_numbers(scores_of(trials))
            ==> order::is_ranking_by(scores_of(trials), ids_of(trials), d, p)) && ranked
            == Seq::new(p.len(), |i: int| trials[p[i] as int]);
    assert(p[0] < trials.len());
    assert(trials[p[0] as int] == ranked[0]);
    order::permutation_is_onto(p, trials.len() as int, i);
    let k = choose|k: int| 0 <= k < p.len() && #[trigger] p[k] == i;
    assert(scores_of(trials)[p[0] as int] == ranked[0].1);
    assert(scores_of(trials)[i] == trials[i].1);
    if k > 0 {
        assert(order::goes_before_by(
            scores_of(trials),
            ids_of(trials),
            d,
            p[0] as int,
            p[k] as int,
        ));
    }
}

/// Records checkpoints at successive-halving rungs and selects which trials are promoted, so a
/// continuation can inherit the best predecessor's weights.
pub struct CheckpointPromoter<S: Storage> {
    storage: S,
    min_resource: u64,
    eta: usize,
    direction: Direction,
    ledger: Vec<Arrival>,
}

impl<S: Storage> CheckpointPromoter<S> {
    /// The storage.
    pub closed spec fn store(self) -> S {
        self.storage
    }

    /// The resource of the first rung.
    pub closed spec fn first(self) -> u64 {
        self.min_resource
    }

    /// The rung spacing and inverse promotion fraction.
    pub closed spec fn factor(self) -> usize {
        self.eta
    }

    /// Which way is better.
    pub closed spec fn aim(self) -> Direction {
        self.direction
    }

    /// The arrivals so far.
    pub closed spec fn arrivals(self) -> Seq<Arrival> {
        self.ledger@
    }

    /// Each trial stands once at a rung, with its checkpoint in the storage.
    pub open spec fn well_formed(self) -> bool {
        &&& self.first() >= 1
        &&& self.factor() >= 2
        &&& once_each(self.arrivals())
        &&& forall|i: int|
            0 <= i < self.arrivals().len() ==> self.store().model().artifacts.contains_key(
                ((#[trigger] self.arrivals()[i]).trial, Self::label(self.arrivals()[i].rung)),
            )
    }

    /// The artifact name used for a rung's checkpoint.
    pub open spec fn label(rung: usize) -> Seq<char> {
        "ckpt@rung"@ + text::decimal(rung as nat)
    }

    /// A promoter over `storage`. `min_resource` is the first rung's resource level (at least
    /// 1), `eta` (at least 2) is both the rung spacing and the inverse promotion fraction, and
    /// `direction` orders scores.
    pub fn new(storage: S, min_resource: u64, eta: usize, direction: Direction) -> (p: Self)
        ensures
            p.well_formed(),
            p.store() == storage,
            p.first() == if min_resource < 1 {
                1
            } else {
                min_resource
            },
            p.factor() == if eta < 2 {
                2
            } else {
                eta
            },
            p.aim() == direction,
            p.arrivals() == Seq::<Arrival>::empty(),
    {
        CheckpointPromoter {
            storage,
            min_resource: if min_resource < 1 {
                1
            } else {
                min_resource
            },
            eta: if eta < 2 {
                2
            } else {
                eta
            },
            direction,
            ledger: Vec::new(),
        }
    }

    /// The storage.
    pub fn storage(&self) -> (s: &S)
        ensures
            *s == self.store(),
    {
        &self.storage
    }

    /// The rung index a resource level maps to, if it lands exactly on a rung; nothing for
    /// levels between rungs.
    pub fn rung_of(&self, resource: u64) -> (r: Option<usize>)
        requires
            self.well_formed(),
        ensures
            match r {
                Some(k) => pruner::rung(self.first() as int, self.factor() as int, k as nat)
                    == resource,
                None => !pruner::on_rung(
                    self.first() as int,
                    self.factor() as int,
                    resource as int,
                ),
            },
    {
        let ghost min = self.min_resource as int;
        let ghost eta = self.eta as int;
        if resource < self.min_resource {
            proof {
                if pruner::on_rung(min, eta, resource as int) {
                    let k = choose|k: nat| #[trigger] pruner::rung(min, eta, k) == resource as int;
                    if k > 0 {
                        pruner::rungs_grow(min, eta, 0, k);
                    }
                }
            }
            return None;
        }
        let step = self.eta as u64;
        let mut level: u64 = self.min_resource;
        let mut k: usize = 0;
        while level < resource
            invariant
                min == self.min_resource,
                eta == self.eta,
                step == self.eta,
                min >= 1,
                eta >= 2,
                level == pruner::rung(min, eta, k as nat),
                1 <= level <= resource,
                k < 64,
                level >= pow_two(k as nat),
            decreases resource - level,
        {
            proof {
                let (l, s, e) = (level as int, resource as int, eta);
                assert(l > s / e ==> l * e > s) by (nonlinear_arith)
                    requires
                        e >= 2,
                        s >= 0,
                ;
                assert(l <= s / e ==> l * e <= s) by (nonlinear_arith)
                    requires
                        e >= 2,
                        s >= 0,
                ;
                assert(l * e >= 2 * l) by (nonlinear_arith)
                    requires
                        e >= 2,
                        l >= 1,
                ;
            }
            if level > resource / step {
                proof {
                    if pruner::on_rung(min, eta, resource as int) {
                        let j = choose|j: nat| #[trigger]
                            pruner::rung(min, eta, j) == resource as int;
                        if j < k {
                            pruner::rungs_grow(min, eta, j, k as nat);
                        } else if j > k {
                            pruner::rungs_grow(min, eta, k as nat, j);
                        }
                    }
                }
                return None;
            }
            level = level * step;
            k = k + 1;
            proof {
                two_to_64(k as nat);
            }
        }
        Some(k)
    }

    /// The artifact name used for a rung's checkpoint.
    pub fn checkpoint_name(rung: usize) -> (s: String)
        ensures
            s@ == Self::label(rung),
    {
        join("ckpt@rung", decimal_text(rung as u64).as_str())
    }

    /// Record that `trial` reached `rung` with `score`, persisting its checkpoint as a trial
    /// artifact. A trial recorded again at the same rung gets the new checkpoint and score.
    pub fn record(&mut self, rung: usize, trial: TrialId, score: Scalar, bytes: Vec<u8>) -> (r:
        Result<(), Error>)
        requires
            old(self).well_formed(),
        ensures
            final(self).well_formed(),
            final(self).first() == old(self).first(),
            final(self).factor() == old(self).factor(),
            final(self).aim() == old(self).aim(),
            final(self).store().dependable() == old(self).store().dependable(),
            old(self).store().dependable() && (old(self).store().model().trials.contains_key(trial)
                || old(self).store().takes_artifacts_of(trial)) ==> r is Ok,
            match r {
                Ok(_) => final(self).arrivals() == recorded(
                    old(self).arrivals(),
                    Arrival { rung, trial, score },
                ) && final(self).store().model() == old(self).store().model().with_artifact(
                    trial,
                    Self::label(rung),
                    bytes@,
                ),
                Err(_) => final(self).arrivals() == old(self).arrivals()
                    && final(self).store().model() == old(self).store().model(),
            },
    {
        let ghost before = self.ledger@;
        let ghost a = Arrival { rung, trial, score };
        let name = Self::checkpoint_name(rung);
        let saved = self.storage.save_artifact(trial, name.as_str(), bytes);
        if let Err(e) = saved {
            return Err(e);
        }
        let mut i: usize = 0;
        while i < self.ledger.len() && !(self.ledger[i].rung == rung && self.ledger[i].trial
            == trial)
            invariant
                i <= self.ledger@.len(),
                forall|k: int|
                    0 <= k < i ==> !((#[trigger] self.ledger@[k]).rung == rung
                        && self.ledger@[k].trial == trial),
            decreases self.ledger@.len() - i,
        {
            i += 1;
        }
        proof {
            recorded_at(before, a, i as int);
        }
        if i < self.ledger.len() {
            self.ledger[i].score = score;
            proof {
                assert(self.ledger@ =~= before.update(i as int, a));
            }
        } else {
            self.ledger.push(Arrival { rung, trial, score });
        }
        proof {
            assert forall|x: int, y: int|
                #![trigger self.ledger@[x], self.ledger@[y]]
                0 <= x < y < self.ledger@.len() implies !(self.ledger@[x].rung
                == self.ledger@[y].rung && self.ledger@[x].trial == self.ledger@[y].trial) by {
                if y < before.len() {
                    assert(!(before[x].rung == before[y].rung && before[x].trial
                        == before[y].trial));
                } else {
                    assert(before[x] == self.ledger@[x]);
                }
            }
            assert forall|x: int| 0 <= x < self.arrivals().len() implies self.store()
                .model().artifacts.contains_key(
                ((#[trigger] self.arrivals()[x]).trial, Self::label(self.arrivals()[x].rung)),
            ) by {
                if x < before.len() {
                    assert(before[x] == old(self).arrivals()[x]);
                }
            }
        }
        Ok(())
    }

    /// The trials that reached `rung`, best first; ties go to the lower trial id.
    pub fn ranked(&self, rung: usize) -> (r: Vec<(TrialId, Scalar)>)
        ensures
            is_ranked(reached(self.arrivals(), rung), self.aim(), r@),
    {
        let mut trials: Vec<(TrialId, Scalar)> = Vec::new();
        let mut values: Vec<Scalar> = Vec::new();
        let mut ids: Vec<u64> = Vec::new();
        let ghost f = at_rung(rung);
        let mut i: usize = 0;
        while i < self.ledger.len()
            invariant
                i <= self.ledger@.len(),
                f == at_rung(rung),
                trials@ == models::pick(self.ledger@.take(i as int), f),
                values@ == scores_of(trials@),
                ids@ == ids_of(trials@),
            decreases self.ledger@.len() - i,
        {
            proof {
                models::pick_step(self.ledger@, i as int, f);
            }
            if self.ledger[i].rung == rung {
                let a = self.ledger[i];
                let ghost before = trials@;
                trials.push((a.trial, a.score));
                values.push(a.score);
                ids.push(a.trial.0);
                proof {
                    assert(scores_of(trials@) =~= scores_of(before).push(a.score));
                    assert(ids_of(trials@) =~= ids_of(before).push(a.trial.0));
                }
            }
            i += 1;
        }
        proof {
            models::pick_whole(self.ledger@, f);
            assert(values@.len() == trials@.len());
            assert(ids@.len() == trials@.len());
        }
        let p = ranking_by(&values, &ids, self.direction);
        let mut out: Vec<(TrialId, Scalar)> = Vec::new();
        let mut j: usize = 0;
        while j < p.len()
            invariant
                j <= p@.len(),
                order::is_permutation(p@, trials@.len() as int),
                out@.len() == j,
                forall|k: int| 0 <= k < j ==> #[trigger] out@[k] == trials@[p@[k] as int],
            decreases p@.len() - j,
        {
            let at = p[j];
            out.push(trials[at]);
            j += 1;
        }
        proof {
            assert(out@ =~= Seq::new(p@.len(), |i: int| trials@[p@[i] as int]));
        }
        out
    }

    /// The promoted set at `rung`: the top `ceil(n / eta)` trials by score.
    pub fn promoted(&self, rung: usize) -> (top: Vec<TrialId>)
        requires
            self.well_formed(),
        ensures
            is_promotion(
                reached(self.arrivals(), rung),
                self.aim(),
                self.factor() as int,
                top@,
            ),
    {
        let ranked = self.ranked(rung);
        let n = ranked.len();
        let ghost trials = reached(self.arrivals(), rung);
        proof {
            assert(n == trials.len());
            if n > 0 {
                law_quota_is_within(n as int, self.eta as int);
            } else {
                assert(0int / self.eta as int == 0 && 0int % self.eta as int == 0) by {
                    vstd::arithmetic::div_mod::lemma_fundamental_div_mod(0, self.eta as int);
                    vstd::arithmetic::div_mod::lemma_small_mod(0, self.eta as nat);
                    vstd::arithmetic::div_mod::lemma_basic_div(0, self.eta as int);
                }
            }
        }
        let keep: usize = if n % self.eta == 0 {
            n / self.eta
        } else {
            n / self.eta + 1
        };
        let mut top: Vec<TrialId> = Vec::new();
        let mut i: usize = 0;
        while i < keep
            invariant
                i <= keep,
                keep <= ranked@.len(),
                top@.len() == i,
                forall|k: int| 0 <= k < i ==> #[trigger] top@[k] == ranked@[k].0,
            decreases keep - i,
        {
            top.push(ranked[i].0);
            i += 1;
        }
        proof {
            assert(top@ =~= Seq::new(
                quota(trials.len() as int, self.factor() as int) as nat,
                |i: int| ranked@[i].0,
            ));
        }
        top
    }

    /// Whether `trial` is currently promoted at `rung`.
    pub fn is_promoted(&self, rung: usize, trial: TrialId) -> (r: bool)
        requires
            self.well_formed(),
        ensures
            exists|top: Seq<TrialId>| #[trigger]
                is_promotion(
                    reached(self.arrivals(), rung),
                    self.aim(),
                    self.factor() as int,
                    top,
                ) && r == top.contains(trial),
    {
        let top = self.promoted(rung);
        let mut i: usize = 0;
        while i < top.len()
            invariant
                i <= top@.len(),
                is_promotion(
                    reached(self.arrivals(), rung),
                    self.aim(),
                    self.factor() as int,
                    top@,
                ),
                forall|k: int| 0 <= k < i ==> #[trigger] top@[k] != trial,
            decreases top@.len() - i,
        {
            if top[i] == trial {
                proof {
                    assert(top@[i as int] == trial);
                    assert(top@.contains(trial));
                }
                return true;
            }
            i += 1;
        }
        false
    }

    /// The checkpoint a promoted continuation should warm-start from: the bytes of the best
    /// trial that reached `rung`, or nothing if no trial has reached it yet.
    pub fn warm_start(&self, rung: usize) -> (r: Result<Option<Vec<u8>>, Error>)
        requires
            self.well_formed(),
        ensures
            reached(self.arrivals(), rung).len() == 0 ==> r matches Ok(None),
            reached(self.arrivals(), rung).len() > 0 ==> match r {
                Ok(Some(bytes)) => exists|ranked: Seq<(TrialId, Scalar)>| #[trigger]
                    is_ranked(reached(self.arrivals(), rung), self.aim(), ranked) && bytes@
                        == self.store().model().artifacts[(ranked[0].0, Self::label(rung))],
                Ok(None) => false,
                Err(_) => !self.store().dependable(),
            },
    {
        let ranked = self.ranked(rung);
        let ghost trials = reached(self.arrivals(), rung);
        if ranked.len() == 0 {
            return Ok(None);
        }
        let name = Self::checkpoint_name(rung);
        let trial = ranked[0].0;
        proof {
            let p = choose|p: Seq<usize>| #[trigger]
                order::is_permutation(p, trials.len() as int) && (order::all_numbers(
                    scores_of(trials),
                ) ==> order::is_ranking_by(scores_of(trials), ids_of(trials), self.aim(), p))
                    && ranked@ == Seq::new(p.len(), |i: int| trials[p[i] as int]);
            assert(p[0] < trials.len());
            let i = models::pick_origin(self.arrivals(), at_rung(rung), p[0] as int);
            assert(self.arrivals()[i].trial == trial && self.arrivals()[i].rung == rung);
        }
        self.storage.load_artifact(trial, name.as_str())
    }
}

/// Two to the power `k`.
spec fn pow_two(k: nat) -> int
    decreases k,
{
    if k == 0 {
        1
    } else {
        2 * pow_two((k - 1) as nat)
    }
}

proof fn two_to_64(k: nat)
    requires
        pow_two(k) <= u64::MAX,
    ensures
        k < 64,
{
    if k >= 64 {
        pow_two_grows(64, k);
        assert(pow_two(64) == 0x1_0000_0000_0000_0000int) by {
            reveal_with_fuel(pow_two, 65);
        }
    }
}

proof fn pow_two_grows(j: nat, k: nat)
    requires
        j <= k,
    ensures
        1 <= pow_two(j) <= pow_two(k),
    decreases k,
{
    if j < k {
        pow_two_grows(j, (k - 1) as nat);
    } else if k > 0 {
        pow_two_grows((k - 1) as nat, (k - 1) as nat);
    }
}

/// Whether an arrival was at `rung`.
pub open spec fn arrived_at(rung: usize) -> spec_fn(Arrival) -> bool {
    |a: Arrival| a.rung == rung
}

/// Whether a trial arrived at `rung`.
pub open spec fn was_there(ledger: Seq<Arrival>, rung: usize, trial: TrialId) -> bool {
    exists|i: int|
        0 <= i < ledger.len() && (#[trigger] ledger[i]).rung == rung && ledger[i].trial == trial
}

/// A promotion takes the top share of a rung: as few trials as make up one in `eta`, and no trial
/// that stays behind has a better score than one that is promoted.
pub proof fn law_promotion_takes_the_top_share(
    ledger: Seq<Arrival>,
    rung: usize,
    d: Direction,
    eta: int,
    top: Seq<TrialId>,
)
    requires
        is_promotion(reached(ledger, rung), d, eta, top),
        once_each(ledger),
        eta >= 2,
        ledger.filter(arrived_at(rung)).len() > 0,
        forall|i: int| 0 <= i < ledger.len() ==> !(#[trigger] ledger[i]).score.nan(),
    ensures
        top.len() * eta >= ledger.filter(arrived_at(rung)).len() > (top.len() - 1) * eta,
        forall|k: int| 0 <= k < top.len() ==> was_there(ledger, rung, #[trigger] top[k]),
        forall|i: int, j: int|
            0 <= i < ledger.len() && 0 <= j < ledger.len() && (#[trigger] ledger[i]).rung == rung && (
            #[trigger] ledger[j]).rung == rung && top.contains(ledger[i].trial) && !top.contains(
                ledger[j].trial,
            ) ==> !d.better(ledger[j].score, ledger[i].score),
{
    let trials = reached(ledger, rung);
    models::picked_as_many(ledger, at_rung(rung), arrived_at(rung));
    let n = trials.len() as int;
    law_quota_is_within(n, eta);
    let ranked = choose|ranked: Seq<(TrialId, Scalar)>| #[trigger]
        is_ranked(trials, d, ranked) && top == Seq::new(
            quota(trials.len() as int, eta) as nat,
            |i: int| ranked[i].0,
        );
    let values = scores_of(trials);
    assert(order::all_numbers(values)) by {
        assert forall|i: int| 0 <= i < values.len() implies !(#[trigger] values[i]).nan() by {
            let k = models::pick_origin(ledger, at_rung(rung), i);
            assert(!ledger[k].score.nan());
        }
    }
    let p = choose|p: Seq<usize>| #[trigger]
        order::is_permutation(p, trials.len() as int) && (order::all_numbers(values)
            ==> order::is_ranking_by(values, ids_of(trials), d, p)) && ranked == Seq::new(
            p.len(),
            |i: int| trials[p[i] as int],
        );
    assert forall|k: int| 0 <= k < top.len() implies was_there(ledger, rung, #[trigger] top[k]) by {
        assert(p[k] < trials.len());
        let i = models::pick_origin(ledger, at_rung(rung), p[k] as int);
        assert(ledger[i].rung == rung && ledger[i].trial == top[k]);
    }
    assert forall|i: int, j: int|
        0 <= i < ledger.len() && 0 <= j < ledger.len() && (#[trigger] ledger[i]).rung == rung && (
        #[trigger] ledger[j]).rung == rung && top.contains(ledger[i].trial) && !top.contains(
            ledger[j].trial,
        ) implies !d.better(ledger[j].score, ledger[i].score) by {
        let a = choose|a: int| 0 <= a < top.len() && top[a] == ledger[i].trial;
        assert(p[a] < trials.len());
        let from = models::pick_origin(ledger, at_rung(rung), p[a] as int);
        assert(ledger[from].rung == rung && ledger[from].trial == ledger[i].trial);
        assert(from == i) by {
            if from < i {
                assert(!(ledger[from].rung == ledger[i].rung && ledger[from].trial
                    == ledger[i].trial));
            }
            if i < from {
                assert(!(ledger[i].rung == ledger[from].rung && ledger[i].trial
                    == ledger[from].trial));
            }
        }
        let x = models::pick_holds(ledger, at_rung(rung), j);
        order::permutation_is_onto(p, trials.len() as int, x);
        let b = choose|b: int| 0 <= b < p.len() && #[trigger] p[b] == x;
        assert(ranked[b].0 == ledger[j].trial);
        if b < top.len() {
            assert(top[b] == ledger[j].trial);
        }
        order::law_rankings_by_id_put_the_better_first(values, ids_of(trials), d, p, a, b);
        assert(values[p[a] as int] == ledger[i].score);
        assert(values[p[b] as int] == ledger[j].score);
    }
}

} // verus!
