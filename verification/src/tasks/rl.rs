//! Reinforcement-learning hyperparameter search.
//!
//! A small stochastic environment, a slippery corridor, is paired with a tabular Q-learning
//! agent whose learning rate, discount and exploration are searched to maximize episode return.
//! Returns are noisy, so each configuration is evaluated with replicated robust aggregation.

use vstd::prelude::*;
use crate::distribution::{Bounds, DistModel, Distribution};
use crate::error::Error;
use crate::memory::InMemoryStorage;
use crate::metrics::{Direction, NamedMetrics};
#[allow(unused_imports)]
use crate::objective::{Objective, Outcome, ReportLog, ReportSink};
#[allow(unused_imports)]
use crate::objective;
#[allow(unused_imports)]
use crate::param::Assignment;
use crate::param::ParamSet;
use crate::pruner::NoPruner;
use crate::reals::Reals;
use crate::rng::TrialRng;
use crate::robust::{replicate, Aggregator, Replicate};
use crate::scalar::Scalar;
use crate::space::SearchSpace;
use crate::study::Study;
#[allow(unused_imports)]
use crate::run::Bench;
#[allow(unused_imports)]
use crate::trial::{Metrics, TrialModel};
use crate::tpe::TpeSampler;
#[allow(unused_imports)]
use crate::param;
#[allow(unused_imports)]
use crate::robust;
#[allow(unused_imports)]
use crate::run;
#[allow(unused_imports)]
use crate::space;
#[allow(unused_imports)]
use crate::tpe;

verus! {

/// The arithmetic of episode returns. Nothing is assumed of the answers.
pub trait Returns {
    /// The mean return of `n` episodes that reached the goal `goals` times, which pays ten, and
    /// took `steps` steps in all, each of the others at a cost of one.
    fn averaged(&self, goals: usize, steps: u128, n: usize) -> Scalar;

    /// A value moved towards a reward plus the discounted value of what may follow it.
    fn learned(
        &self,
        value: Scalar,
        reward: Scalar,
        follow: Option<Scalar>,
        alpha: Scalar,
        gamma: Scalar,
    ) -> Scalar;
}

/// Whether `r` is an answer to the mean return of episodes.
pub open spec fn is_averaged<T: Returns>(
    sums: &T,
    goals: usize,
    steps: u128,
    n: usize,
    r: Scalar,
) -> bool {
    call_ensures(T::averaged, (sums, goals, steps, n), r)
}

/// Whether `r` is an answer to what becomes of a value.
pub open spec fn is_learned<T: Returns>(
    sums: &T,
    value: Scalar,
    reward: Scalar,
    follow: Option<Scalar>,
    alpha: Scalar,
    gamma: Scalar,
    r: Scalar,
) -> bool {
    call_ensures(T::learned, (sums, value, reward, follow, alpha, gamma), r)
}

/// A slippery corridor. The agent starts at cell `0` and reaches the goal at the last cell.
/// Actions are `0` (left) and `1` (right); a slip reverses the move. Each step costs one;
/// reaching the goal pays ten and ends the episode.
#[derive(Debug, Clone, Copy)]
pub struct GridWorld {
    /// Number of cells in the corridor.
    pub size: usize,
    /// Probability that a step goes the opposite way.
    pub slip: Scalar,
}

/// The cell reached from `state` by `action`, given whether the step slipped.
pub open spec fn moved(size: usize, state: usize, action: usize, slipped: bool) -> usize {
    let right = if slipped {
        action == 0
    } else {
        action == 1
    };
    if right {
        if state + 1 < size - 1 {
            (state + 1) as usize
        } else {
            (size - 1) as usize
        }
    } else if state > 0 {
        (state - 1) as usize
    } else {
        0
    }
}

/// What reaching a cell pays, and whether it ends the episode.
pub open spec fn payout(size: usize, next: usize) -> (Scalar, bool) {
    if next == size - 1 {
        (Scalar { bits: 0x4024_0000_0000_0000 }, true)
    } else {
        (Scalar { bits: 0xbff0_0000_0000_0000 }, false)
    }
}

impl GridWorld {
    /// A corridor of `size` cells (at least two) with the given slip probability, moved into the
    /// range from zero to nine tenths.
    pub fn new(size: usize, slip: Scalar) -> (g: Self)
        ensures
            g.size == if size < 2 {
                2
            } else {
                size
            },
            g.slip == slip.clamped(
                Scalar { bits: 0 },
                Scalar { bits: 0x3fec_cccc_cccc_cccd },
            ),
    {
        GridWorld {
            size: if size < 2 {
                2
            } else {
                size
            },
            slip: slip.clamp(
                &Scalar::from_bits(0),
                &Scalar::from_bits(0x3fec_cccc_cccc_cccd),
            ),
        }
    }

    /// Where a step leads, given whether it slipped: the next cell, the reward, and whether the
    /// episode is over.
    pub fn outcome(&self, state: usize, action: usize, slipped: bool) -> (r: (usize, Scalar, bool))
        requires
            self.size >= 2,
        ensures
            r.0 == moved(self.size, state, action, slipped),
            (r.1, r.2) == payout(self.size, r.0),
            state < self.size ==> r.0 < self.size,
    {
        let right = if slipped {
            action == 0
        } else {
            action == 1
        };
        let last = self.size - 1;
        let next: usize = if right {
            if state < last {
                state + 1
            } else {
                last
            }
        } else if state > 0 {
            state - 1
        } else {
            0
        };
        if next == last {
            (next, Scalar::from_bits(0x4024_0000_0000_0000), true)
        } else {
            (next, Scalar::from_bits(0xbff0_0000_0000_0000), false)
        }
    }

    /// Step the environment: the next cell, the reward, and whether the episode is over.
    pub fn step(&self, state: usize, action: usize, rng: &mut TrialRng) -> (r: (
        usize,
        Scalar,
        bool,
    ))
        requires
            self.size >= 2,
            self.slip.probability(),
        ensures
            r.0 == moved(self.size, state, action, old(rng).strikes(self.slip)),
            (r.1, r.2) == payout(self.size, r.0),
            *final(rng) == old(rng).past_strike(self.slip),
            state < self.size ==> r.0 < self.size,
    {
        let slipped = rng.chance(self.slip);
        self.outcome(state, action, slipped)
    }
}

/// A walk never leaves the corridor, and the goal alone ends it.
pub proof fn law_walk_stays_inside(size: usize, state: usize, action: usize, slipped: bool)
    requires
        size >= 2,
        state < size,
    ensures
        moved(size, state, action, slipped) < size,
        payout(size, moved(size, state, action, slipped)).1 <==> moved(
            size,
            state,
            action,
            slipped,
        ) == size - 1,
{
}

/// The action with the greater value in a state, right among equals.
pub open spec fn greedy(table: Seq<(Scalar, Scalar)>, state: usize) -> usize {
    let (left, right) = table[state as int];
    if left.less(right) || left.same(right) {
        1
    } else {
        0
    }
}

/// An episode of the greedy policy from `state`, of at most `n` steps: whether it reaches the
/// goal, in how many steps, and the position behind it.
pub open spec fn episode(
    table: Seq<(Scalar, Scalar)>,
    env: GridWorld,
    state: usize,
    n: nat,
    rng: TrialRng,
) -> (bool, nat, TrialRng)
    decreases n,
{
    if n == 0 {
        (false, 0, rng)
    } else {
        let next = moved(env.size, state, greedy(table, state), rng.strikes(env.slip));
        let then = rng.past_strike(env.slip);
        if next == env.size - 1 {
            (true, 1, then)
        } else {
            let rest = episode(table, env, next, (n - 1) as nat, then);
            (rest.0, rest.1 + 1, rest.2)
        }
    }
}

/// Episodes of the greedy policy, one after the other: how many reach the goal, how many steps
/// they take in all, and the position behind them.
pub open spec fn rollouts(
    table: Seq<(Scalar, Scalar)>,
    env: GridWorld,
    episodes: nat,
    max_steps: nat,
    rng: TrialRng,
) -> (nat, nat, TrialRng)
    decreases episodes,
{
    if episodes == 0 {
        (0, 0, rng)
    } else {
        let before = rollouts(table, env, (episodes - 1) as nat, max_steps, rng);
        let one = episode(table, env, 0, max_steps, before.2);
        (
            before.0 + if one.0 {
                1nat
            } else {
                0nat
            },
            before.1 + one.1,
            one.2,
        )
    }
}

/// Whether `v` is the mean return of the greedy policy over `episodes` rollouts.
pub open spec fn is_mean_return<T: Returns>(
    sums: &T,
    table: Seq<(Scalar, Scalar)>,
    env: GridWorld,
    episodes: usize,
    max_steps: usize,
    rng: TrialRng,
    v: Scalar,
) -> bool {
    let (goals, steps, _) = rollouts(table, env, episodes as nat, max_steps as nat, rng);
    is_averaged(sums, goals as usize, steps as u128, episodes, v)
}

/// An episode takes no more steps than it may, and one that reaches the goal takes at least as
/// many as there are cells to cross.
pub proof fn law_arriving_takes_a_step_per_cell(
    table: Seq<(Scalar, Scalar)>,
    env: GridWorld,
    state: usize,
    n: nat,
    rng: TrialRng,
)
    requires
        env.size >= 2,
        state < env.size,
    ensures
        episode(table, env, state, n, rng).1 <= n,
        episode(table, env, state, n, rng).0 ==> episode(table, env, state, n, rng).1
            >= env.size - 1 - state,
    decreases n,
{
    if n > 0 {
        let next = moved(env.size, state, greedy(table, state), rng.strikes(env.slip));
        law_arriving_takes_a_step_per_cell(
            table,
            env,
            next,
            (n - 1) as nat,
            rng.past_strike(env.slip),
        );
    }
}

/// Where learning stands: the values, the cell, and the position in the stream.
pub struct Lesson {
    /// The values of the two actions in each state.
    pub table: Seq<(Scalar, Scalar)>,
    /// The cell that the agent stands in.
    pub state: usize,
    /// The position in the stream.
    pub rng: TrialRng,
}

/// How an agent learns.
pub struct Manner {
    /// The learning rate.
    pub alpha: Scalar,
    /// The discount.
    pub gamma: Scalar,
    /// The exploration probability.
    pub epsilon: Scalar,
}

/// The action that is tried, and the position behind its choice: any action with probability
/// `epsilon`, and else the greedy one.
pub open spec fn tried(epsilon: Scalar, l: Lesson) -> (usize, TrialRng) {
    let then = l.rng.past_strike(epsilon);
    if l.rng.strikes(epsilon) {
        (then.pick(2) as usize, then.past_pick(2))
    } else {
        (greedy(l.table, l.state), then)
    }
}

/// The value of what may follow a cell: the greater of its two values, and nothing behind the
/// goal.
pub open spec fn prospect(
    size: usize,
    table: Seq<(Scalar, Scalar)>,
    next: usize,
) -> Option<Scalar> {
    if payout(size, next).1 {
        None
    } else {
        Some(greater(table[next as int].0, table[next as int].1))
    }
}

/// Whether a step of learning leads from one lesson to the next: the tried action moves the
/// agent, and of all values that of the tried action alone changes, towards the reward.
pub open spec fn learns<T: Returns>(
    sums: &T,
    env: GridWorld,
    manner: Manner,
    before: Lesson,
    after: Lesson,
) -> bool {
    let (action, then) = tried(manner.epsilon, before);
    let (old_left, old_right) = before.table[before.state as int];
    let (left, right) = after.table[before.state as int];
    let reward = payout(env.size, after.state).0;
    let follow = prospect(env.size, before.table, after.state);
    &&& after.state == moved(env.size, before.state, action, then.strikes(env.slip))
    &&& after.rng == then.past_strike(env.slip)
    &&& after.table =~= before.table.update(before.state as int, (left, right))
    &&& if action == 0 {
        right == old_right && is_learned(
            sums,
            old_left,
            reward,
            follow,
            manner.alpha,
            manner.gamma,
            left,
        )
    } else {
        left == old_left && is_learned(
            sums,
            old_right,
            reward,
            follow,
            manner.alpha,
            manner.gamma,
            right,
        )
    }
}

/// Whether lessons make up a training episode of at most `max_steps` steps: it starts in the
/// first cell, goes on until the goal is reached, and ends there or for want of further steps.
pub open spec fn is_course<T: Returns>(
    sums: &T,
    env: GridWorld,
    manner: Manner,
    max_steps: int,
    lessons: Seq<Lesson>,
) -> bool {
    &&& is_partial_course(sums, env, manner, max_steps, lessons)
    &&& lessons.len() == max_steps + 1 || lessons.last().state == env.size - 1
}

/// Whether lessons begin a training episode.
pub open spec fn is_partial_course<T: Returns>(
    sums: &T,
    env: GridWorld,
    manner: Manner,
    max_steps: int,
    lessons: Seq<Lesson>,
) -> bool {
    &&& 1 <= lessons.len() <= max_steps + 1
    &&& lessons[0].state == 0
    &&& forall|i: int|
        0 <= i < lessons.len() - 1 ==> learns(
            sums,
            env,
            manner,
            #[trigger] lessons[i],
            lessons[i + 1],
        ) && lessons[i].state != env.size - 1
}

/// Whether training episodes lead, one after the other, from `from` to `to`.
pub open spec fn is_training<T: Returns>(
    sums: &T,
    env: GridWorld,
    manner: Manner,
    max_steps: int,
    courses: Seq<Seq<Lesson>>,
    from: (Seq<(Scalar, Scalar)>, TrialRng),
    to: (Seq<(Scalar, Scalar)>, TrialRng),
) -> bool
    decreases courses.len(),
{
    if courses.len() == 0 {
        to == from
    } else {
        let course = courses.last();
        &&& is_course(sums, env, manner, max_steps, course)
        &&& (course.last().table, course.last().rng) == to
        &&& is_training(
            sums,
            env,
            manner,
            max_steps,
            courses.drop_last(),
            from,
            (course[0].table, course[0].rng),
        )
    }
}

/// The greater of two numbers, or the one that is a number.
pub open spec fn greater(left: Scalar, right: Scalar) -> Scalar {
    if left.less(right) || left.nan() {
        right
    } else {
        left
    }
}

/// A tabular Q-learning agent over discrete states and two actions.
#[derive(Debug)]
pub struct QLearner {
    q: Vec<(Scalar, Scalar)>,
}

impl QLearner {
    /// The values of the two actions in each state.
    pub closed spec fn table(self) -> Seq<(Scalar, Scalar)> {
        self.q@
    }

    /// A zero-initialized table for a `size`-cell corridor.
    pub fn new(size: usize) -> (l: Self)
        ensures
            l.table() == Seq::new(size as nat, |i: int| (Scalar { bits: 0 }, Scalar { bits: 0 })),
    {
        let mut q: Vec<(Scalar, Scalar)> = Vec::new();
        let mut i: usize = 0;
        while i < size
            invariant
                i <= size,
                q@.len() == i,
                forall|k: int|
                    0 <= k < i ==> #[trigger] q@[k] == (Scalar { bits: 0 }, Scalar { bits: 0 }),
            decreases size - i,
        {
            q.push((Scalar::from_bits(0), Scalar::from_bits(0)));
            i += 1;
        }
        let l = QLearner { q };
        proof {
            assert(l.table() =~= Seq::new(
                size as nat,
                |i: int| (Scalar { bits: 0 }, Scalar { bits: 0 }),
            ));
        }
        l
    }

    /// The action with the greater value, right among equals.
    pub fn greedy_action(&self, state: usize) -> (a: usize)
        requires
            state < self.table().len(),
        ensures
            a == greedy(self.table(), state),
    {
        let (left, right) = self.q[state];
        if left.le(&right) {
            1
        } else {
            0
        }
    }

    /// The greater of the two values in a state.
    fn best_value(&self, state: usize) -> (v: Scalar)
        requires
            state < self.table().len(),
        ensures
            v == greater(self.table()[state as int].0, self.table()[state as int].1),
    {
        let (left, right) = self.q[state];
        if left.lt(&right) || left.is_nan() {
            right
        } else {
            left
        }
    }

    /// Train for `episodes` episodes of at most `max_steps` steps with epsilon-greedy
    /// exploration. The new value of a tried action is the answer of `sums`.
    pub fn train<T: Returns>(
        &mut self,
        env: &GridWorld,
        episodes: usize,
        alpha: Scalar,
        gamma: Scalar,
        epsilon: Scalar,
        max_steps: usize,
        rng: &mut TrialRng,
        sums: &T,
    )
        requires
            env.size >= 2,
            env.slip.probability(),
            epsilon.probability(),
            old(self).table().len() == env.size,
        ensures
            final(self).table().len() == env.size,
            final(self).table()[env.size - 1] == old(self).table()[env.size - 1],
            exists|courses: Seq<Seq<Lesson>>|
                courses.len() == episodes && #[trigger] is_training(
                    sums,
                    *env,
                    Manner { alpha, gamma, epsilon },
                    max_steps as int,
                    courses,
                    (old(self).table(), *old(rng)),
                    (final(self).table(), *final(rng)),
                ),
    {
        let ghost from = (self.q@, *rng);
        let ghost manner = Manner { alpha, gamma, epsilon };
        let ghost mut courses: Seq<Seq<Lesson>> = Seq::empty();
        let mut e: usize = 0;
        while e < episodes
            invariant
                e <= episodes,
                e == courses.len(),
                env.size >= 2,
                env.slip.probability(),
                epsilon.probability(),
                self.q@.len() == env.size,
                self.q@[env.size - 1] == old(self).q@[env.size - 1],
                manner == (Manner { alpha, gamma, epsilon }),
                is_training(sums, *env, manner, max_steps as int, courses, from, (self.q@, *rng)),
            decreases episodes - e,
        {
            let ghost start = (self.q@, *rng);
            let mut state: usize = 0;
            let mut step: usize = 0;
            let mut done = false;
            let ghost mut lessons: Seq<Lesson> = seq![
                Lesson { table: self.q@, state: 0, rng: *rng },
            ];
            while !done && step < max_steps
                invariant
                    step <= max_steps,
                    e < episodes,
                    env.size >= 2,
                    env.slip.probability(),
                    epsilon.probability(),
                    self.q@.len() == env.size,
                    state < env.size,
                    done == (state == env.size - 1),
                    self.q@[env.size - 1] == old(self).q@[env.size - 1],
                    lessons.len() == step + 1,
                    lessons.last() == (Lesson { table: self.q@, state, rng: *rng }),
                    (lessons[0].table, lessons[0].rng) == start,
                    manner == (Manner { alpha, gamma, epsilon }),
                    is_partial_course(sums, *env, manner, max_steps as int, lessons),
                decreases max_steps - step,
            {
                let ghost before = Lesson { table: self.q@, state, rng: *rng };
                let action: usize = if rng.chance(epsilon) {
                    rng.below(2) as usize
                } else {
                    self.greedy_action(state)
                };
                let (next, reward, over) = env.step(state, action, rng);
                let follow = if over {
                    None
                } else {
                    Some(self.best_value(next))
                };
                let (left, right) = self.q[state];
                if action == 0 {
                    let v = sums.learned(left, reward, follow, alpha, gamma);
                    self.q.set(state, (v, right));
                } else {
                    let v = sums.learned(right, reward, follow, alpha, gamma);
                    self.q.set(state, (left, v));
                }
                proof {
                    let after = Lesson { table: self.q@, state: next, rng: *rng };
                    assert(learns(sums, *env, manner, before, after));
                    let more = lessons.push(after);
                    assert forall|i: int| 0 <= i < more.len() - 1 implies learns(
                        sums,
                        *env,
                        manner,
                        #[trigger] more[i],
                        more[i + 1],
                    ) && more[i].state != env.size - 1 by {
                        if i + 1 < lessons.len() {
                            assert(more[i] == lessons[i] && more[i + 1] == lessons[i + 1]);
                        }
                    }
                    lessons = more;
                }
                state = next;
                done = over;
                step += 1;
            }
            proof {
                let before = courses;
                courses = before.push(lessons);
                assert(courses.drop_last() =~= before);
            }
            e += 1;
        }
        proof {
            assert(is_training(
                sums,
                *env,
                manner,
                max_steps as int,
                courses,
                (old(self).table(), *old(rng)),
                (self.table(), *rng),
            ));
        }
    }

    /// One episode of the greedy policy: whether it reached the goal, and in how many steps.
    fn roll(&self, env: &GridWorld, max_steps: usize, rng: &mut TrialRng) -> (r: (bool, usize))
        requires
            env.size >= 2,
            env.slip.probability(),
            self.table().len() == env.size,
        ensures
            (r.0, r.1 as nat, *final(rng)) == episode(
                self.table(),
                *env,
                0,
                max_steps as nat,
                *old(rng),
            ),
            r.1 <= max_steps,
    {
        let mut state: usize = 0;
        let mut step: usize = 0;
        let ghost whole = episode(self.table(), *env, 0, max_steps as nat, *rng);
        while step < max_steps
            invariant
                step <= max_steps,
                env.size >= 2,
                env.slip.probability(),
                self.table().len() == env.size,
                state < env.size,
                ({
                    let rest = episode(
                        self.table(),
                        *env,
                        state,
                        (max_steps - step) as nat,
                        *rng,
                    );
                    whole == (rest.0, rest.1 + step as nat, rest.2)
                }),
                whole == episode(self.table(), *env, 0, max_steps as nat, *old(rng)),
            decreases max_steps - step,
        {
            let action = self.greedy_action(state);
            let (next, _reward, over) = env.step(state, action, rng);
            state = next;
            step += 1;
            if over {
                return (true, step);
            }
        }
        (false, step)
    }

    /// Rolls the greedy policy out over `episodes` episodes: how often it reached the goal, and
    /// how many steps it took in all.
    pub fn greedy_rollouts(
        &self,
        env: &GridWorld,
        episodes: usize,
        max_steps: usize,
        rng: &mut TrialRng,
    ) -> (r: (usize, u128))
        requires
            env.size >= 2,
            env.slip.probability(),
            self.table().len() == env.size,
        ensures
            (r.0 as nat, r.1 as nat, *final(rng)) == rollouts(
                self.table(),
                *env,
                episodes as nat,
                max_steps as nat,
                *old(rng),
            ),
    {
        let mut goals: usize = 0;
        let mut steps: u128 = 0;
        let mut e: usize = 0;
        while e < episodes
            invariant
                e <= episodes,
                env.size >= 2,
                env.slip.probability(),
                self.table().len() == env.size,
                goals <= e,
                steps <= e * max_steps,
                (goals as nat, steps as nat, *rng) == rollouts(
                    self.table(),
                    *env,
                    e as nat,
                    max_steps as nat,
                    *old(rng),
                ),
            decreases episodes - e,
        {
            let (arrived, taken) = self.roll(env, max_steps, rng);
            proof {
                let (a, b) = (e as int, max_steps as int);
                assert((a + 1) * b == a * b + b) by (nonlinear_arith);
                assert(0 <= (a + 1) * b <= 0xffff_ffff_ffff_ffff * 0xffff_ffff_ffff_ffff)
                    by (nonlinear_arith)
                    requires
                        0 <= a + 1 <= 0xffff_ffff_ffff_ffff,
                        0 <= b <= 0xffff_ffff_ffff_ffff,
                ;
            }
            if arrived {
                goals += 1;
            }
            steps += taken as u128;
            e += 1;
        }
        (goals, steps)
    }

    /// Mean return of the greedy policy over `episodes` rollouts: the answer of `sums` for the
    /// rollouts of `greedy_rollouts`.
    pub fn greedy_return<T: Returns>(
        &self,
        env: &GridWorld,
        episodes: usize,
        max_steps: usize,
        rng: &mut TrialRng,
        sums: &T,
    ) -> (v: Scalar)
        requires
            env.size >= 2,
            env.slip.probability(),
            self.table().len() == env.size,
        ensures
            *final(rng) == rollouts(
                self.table(),
                *env,
                episodes as nat,
                max_steps as nat,
                *old(rng),
            ).2,
            is_mean_return(
                sums,
                self.table(),
                *env,
                episodes,
                max_steps,
                *old(rng),
                v,
            ),
    {
        let (goals, steps) = self.greedy_rollouts(env, episodes, max_steps, rng);
        sums.averaged(goals, steps, episodes)
    }
}

/// One replicate of an evaluation: train an agent under a seed, then roll its policy out.
#[derive(Debug)]
pub struct Rollout<T> {
    /// The environment.
    pub env: GridWorld,
    /// Training episodes.
    pub train_episodes: usize,
    /// Evaluation episodes.
    pub eval_episodes: usize,
    /// Maximum steps per episode.
    pub max_steps: usize,
    /// The learning rate.
    pub alpha: Scalar,
    /// The discount.
    pub gamma: Scalar,
    /// The exploration probability.
    pub epsilon: Scalar,
    /// Arithmetic on episode rewards.
    pub sums: T,
}

/// A table of zeros for a corridor of `size` cells.
pub open spec fn blank(size: usize) -> Seq<(Scalar, Scalar)> {
    Seq::new(size as nat, |i: int| (Scalar { bits: 0 }, Scalar { bits: 0 }))
}

impl<T: Returns> Rollout<T> {
    /// Whether the environment and the exploration make sense.
    pub open spec fn usable(&self) -> bool {
        self.env.size >= 2 && self.env.slip.probability() && self.epsilon.probability()
    }

    /// Whether `v` is the return under `seed`: that of an agent which started from a blank table
    /// and was trained first.
    pub open spec fn earns(&self, seed: u64, v: Scalar) -> bool {
        exists|
            courses: Seq<Seq<Lesson>>,
            table: Seq<(Scalar, Scalar)>,
            rng: TrialRng,
        |
            courses.len() == self.train_episodes && #[trigger] is_training(
                &self.sums,
                self.env,
                Manner { alpha: self.alpha, gamma: self.gamma, epsilon: self.epsilon },
                self.max_steps as int,
                courses,
                (blank(self.env.size), TrialRng { seed, word: 0 }),
                (table, rng),
            ) && is_mean_return(
                &self.sums,
                table,
                self.env,
                self.eval_episodes,
                self.max_steps,
                rng,
                v,
            )
    }
}

impl<T: Returns> Replicate for Rollout<T> {
    open spec fn allows(
        &self,
        seed: u64,
        reports: ReportLog,
        stopped: bool,
        outcome: Outcome,
    ) -> bool {
        reports == Seq::<(u64, Metrics)>::empty() && match outcome {
            Ok(m) => self.usable() && m.dom() == set!["return"@] && self.earns(
                seed,
                m["return"@],
            ),
            Err(e) => !self.usable() && (e matches Error::Objective(t) && t@ == if self.env.size
                < 2 {
                "grid world needs at least 2 cells"@
            } else {
                "slip and exploration are probabilities"@
            }),
        }
    }

    fn evaluate<K: ReportSink>(&mut self, seed: u64, sink: &mut K) -> (r: Result<
        NamedMetrics,
        Error,
    >)
        ensures
            *final(self) == *old(self),
    {
        proof {
            let none = Seq::<(u64, Metrics)>::empty();
            assert(sink.log() + none =~= sink.log());
            assert(objective::log_grows(sink.log(), none, sink.log()));
        }
        if self.env.size < 2 {
            return Err(Error::Objective("grid world needs at least 2 cells".to_owned()));
        }
        if !self.env.slip.is_probability() || !self.epsilon.is_probability() {
            return Err(Error::Objective("slip and exploration are probabilities".to_owned()));
        }
        let mut rng = TrialRng::new(seed);
        let mut agent = QLearner::new(self.env.size);
        proof {
            assert(agent.table() =~= blank(self.env.size));
        }
        let env = self.env;
        agent.train(
            &env,
            self.train_episodes,
            self.alpha,
            self.gamma,
            self.epsilon,
            self.max_steps,
            &mut rng,
            &self.sums,
        );
        let ghost trained = (agent.table(), rng);
        let value = agent.greedy_return(
            &env,
            self.eval_episodes,
            self.max_steps,
            &mut rng,
            &self.sums,
        );
        let m = NamedMetrics::single("return", value);
        proof {
            assert(m@.dom() =~= set!["return"@]);
            let manner = Manner { alpha: self.alpha, gamma: self.gamma, epsilon: self.epsilon };
            let courses = choose|courses: Seq<Seq<Lesson>>|
                courses.len() == self.train_episodes && #[trigger] is_training(
                    &self.sums,
                    env,
                    manner,
                    self.max_steps as int,
                    courses,
                    (blank(self.env.size), TrialRng { seed, word: 0 }),
                    trained,
                );
            assert(is_training(
                &self.sums,
                self.env,
                manner,
                self.max_steps as int,
                courses,
                (blank(self.env.size), TrialRng { seed, word: 0 }),
                (trained.0, trained.1),
            ));
            assert(self.earns(seed, value));
        }
        Ok(m)
    }
}

/// The objective of a search over agents: the robust return of a configuration.
#[derive(Debug)]
pub struct RlObjective<R, T> {
    env: GridWorld,
    train_episodes: usize,
    eval_episodes: usize,
    max_steps: usize,
    replicates: usize,
    reals: R,
    sums: T,
}

/// What an [`RlObjective`] stands for in contracts.
pub struct RlTask<R, T> {
    /// The environment.
    pub env: GridWorld,
    /// Training episodes per replicate.
    pub train_episodes: usize,
    /// Evaluation episodes per replicate.
    pub eval_episodes: usize,
    /// Maximum steps per episode.
    pub max_steps: usize,
    /// Replicates per configuration.
    pub replicates: usize,
    /// Who is asked for floating-point arithmetic.
    pub reals: R,
    /// Who is asked for arithmetic on episode rewards.
    pub sums: T,
}

impl<R, T> View for RlObjective<R, T> {
    type V = RlTask<R, T>;

    closed spec fn view(&self) -> RlTask<R, T> {
        RlTask {
            env: self.env,
            train_episodes: self.train_episodes,
            eval_episodes: self.eval_episodes,
            max_steps: self.max_steps,
            replicates: self.replicates,
            reals: self.reals,
            sums: self.sums,
        }
    }
}

impl<A: Reals, T: Returns + Clone> RlTask<A, T> {
    /// The replicate of a configuration.
    pub open spec fn run(self, manner: Manner, sums: T) -> Rollout<T> {
        Rollout {
            env: self.env,
            train_episodes: self.train_episodes,
            eval_episodes: self.eval_episodes,
            max_steps: self.max_steps,
            alpha: manner.alpha,
            gamma: manner.gamma,
            epsilon: manner.epsilon,
            sums,
        }
    }

    /// Whether the robust return of a configuration is `outcome`, with `reports` left behind: the
    /// summary of its replicates by their medians, under the seeds from one on.
    pub open spec fn assesses(
        self,
        manner: Manner,
        reports: ReportLog,
        stopped: bool,
        outcome: Outcome,
    ) -> bool {
        exists|sums: T|
            cloned(self.sums, sums) && #[trigger] robust::is_replicated(
                &self.reals,
                &self.run(manner, sums),
                Aggregator::Median,
                self.replicates,
                1,
                "return"@,
                reports,
                stopped,
                outcome,
            )
    }

    /// Whether the replicates of a configuration can run.
    pub open spec fn usable(self, epsilon: Scalar) -> bool {
        self.env.size >= 2 && self.env.slip.probability() && epsilon.probability()
    }
}

impl<A: Reals + Clone, T: Returns + Clone> Objective for RlObjective<A, T> {
    open spec fn allows(
        &self,
        params: Assignment,
        reports: ReportLog,
        stopped: bool,
        outcome: Outcome,
    ) -> bool {
        let none = Seq::<(u64, Metrics)>::empty();
        match (
            param::float_in(params, "alpha"@),
            param::float_in(params, "gamma"@),
            param::float_in(params, "epsilon"@),
        ) {
            (Some(alpha), Some(gamma), Some(epsilon)) => self@.assesses(
                Manner { alpha, gamma, epsilon },
                reports,
                stopped,
                outcome,
            ) && (outcome is Ok <==> self@.usable(epsilon)),
            (None, _, _) => reports == none && (outcome matches Err(e) && param::is_refusal(
                e,
                params,
                "alpha"@,
                "float"@,
            )),
            (_, None, _) => reports == none && (outcome matches Err(e) && param::is_refusal(
                e,
                params,
                "gamma"@,
                "float"@,
            )),
            (_, _, None) => reports == none && (outcome matches Err(e) && param::is_refusal(
                e,
                params,
                "epsilon"@,
                "float"@,
            )),
        }
    }

    fn evaluate<K: ReportSink>(&self, params: &ParamSet, report: &mut K) -> (r: Result<
        NamedMetrics,
        Error,
    >) {
        proof {
            let none = Seq::<(u64, Metrics)>::empty();
            assert(report.log() + none =~= report.log());
            assert(objective::log_grows(report.log(), none, report.log()));
        }
        let alpha = match params.float("alpha") {
            Ok(x) => x,
            Err(e) => {
                return Err(e);
            },
        };
        let gamma = match params.float("gamma") {
            Ok(x) => x,
            Err(e) => {
                return Err(e);
            },
        };
        let epsilon = match params.float("epsilon") {
            Ok(x) => x,
            Err(e) => {
                return Err(e);
            },
        };
        let sums = self.sums.clone();
        let ghost own = sums;
        let ghost manner = Manner { alpha, gamma, epsilon };
        let mut run = Rollout {
            env: self.env,
            train_episodes: self.train_episodes,
            eval_episodes: self.eval_episodes,
            max_steps: self.max_steps,
            alpha,
            gamma,
            epsilon,
            sums,
        };
        let ghost first = run;
        let r = replicate(
            Aggregator::Median,
            self.replicates,
            1,
            "return",
            report,
            &mut run,
            &self.reals,
        );
        proof {
            assert(first == self@.run(manner, own));
            let reports = choose|reports: ReportLog| #[trigger]
                objective::log_grows(old(report).log(), reports, report.log()) && robust::is_replicated(
                    &self.reals,
                    &first,
                    Aggregator::Median,
                    self.replicates,
                    1,
                    "return"@,
                    reports,
                    report.stopping(),
                    objective::outcome_of(r),
                );
            let task = self@;
            assert(robust::is_replicated(
                &task.reals,
                &task.run(manner, own),
                Aggregator::Median,
                task.replicates,
                1,
                "return"@,
                reports,
                report.stopping(),
                objective::outcome_of(r),
            ));
            assert(self@.assesses(manner, reports, report.stopping(), objective::outcome_of(r)));
            let attempts = choose|attempts: Seq<robust::Attempt>| #[trigger]
                robust::are_attempts(&first, 1, attempts) && match objective::outcome_of(r) {
                    Ok(_) => 1 <= attempts.len(),
                    Err(e) => robust::fails_after(
                        &first,
                        1,
                        attempts,
                        reports,
                        report.stopping(),
                        e,
                    ),
                };
            if r is Ok {
                assert(first.allows(
                    1,
                    attempts[0].reports,
                    attempts[0].stopped,
                    Ok(attempts[0].metrics),
                ));
            }
        }
        r
    }
}

/// One-call reinforcement-learning hyperparameter search: learning rate, discount and
/// exploration of a tabular agent, maximizing the robust mean episode return.
#[derive(Debug)]
pub struct AutoRl {
    env: GridWorld,
    train_episodes: usize,
    eval_episodes: usize,
    max_steps: usize,
    replicates: usize,
    trials: u64,
    seed: u64,
}

/// What an [`AutoRl`] stands for in contracts.
pub struct RlModel {
    /// The environment.
    pub env: GridWorld,
    /// Training episodes per replicate.
    pub train_episodes: usize,
    /// Evaluation episodes per replicate.
    pub eval_episodes: usize,
    /// Maximum steps per episode.
    pub max_steps: usize,
    /// Replicates per configuration.
    pub replicates: usize,
    /// Search trials.
    pub trials: u64,
    /// The seed.
    pub seed: u64,
}

impl View for AutoRl {
    type V = RlModel;

    closed spec fn view(&self) -> RlModel {
        RlModel {
            env: self.env,
            train_episodes: self.train_episodes,
            eval_episodes: self.eval_episodes,
            max_steps: self.max_steps,
            replicates: self.replicates,
            trials: self.trials,
            seed: self.seed,
        }
    }
}

/// What is searched: learning rate, discount and exploration.
pub open spec fn searched() -> space::SpaceModel {
    let alpha = Bounds {
        low: Scalar { bits: 0x3fa9_9999_9999_999a },
        high: Scalar { bits: 0x3fec_cccc_cccc_cccd },
        floor: Scalar { bits: 0x3fa9_9999_9102_93a6 },
        ceiling: Scalar { bits: 0x3fec_cccc_cd56_3d2c },
    };
    let gamma = Bounds {
        low: Scalar { bits: 0x3fe0_0000_0000_0000 },
        high: Scalar { bits: 0x3fef_f7ce_d916_872b },
        floor: Scalar { bits: 0x3fdf_ffff_feed_1f41 },
        ceiling: Scalar { bits: 0x3fef_f7ce_d99f_f78a },
    };
    let epsilon = Bounds {
        low: Scalar { bits: 0 },
        high: Scalar { bits: 0x3fe0_0000_0000_0000 },
        floor: Scalar { bits: 0xbe11_2e0b_e826_d695 },
        ceiling: Scalar { bits: 0x3fe0_0000_0089_705f },
    };
    seq![
        space::free("alpha"@, DistModel::Float { bounds: alpha, log: false, step: None }),
        space::free("gamma"@, DistModel::Float { bounds: gamma, log: false, step: None }),
        space::free("epsilon"@, DistModel::Float { bounds: epsilon, log: false, step: None }),
    ]
}

/// A count of at least one.
pub open spec fn at_least_one(n: usize) -> usize {
    if n < 1 {
        1
    } else {
        n
    }
}

fn one_or(n: usize) -> (r: usize)
    ensures
        r == at_least_one(n),
{
    if n < 1 {
        1
    } else {
        n
    }
}

impl AutoRl {
    /// A search over `env` with sensible episode and step budgets.
    pub fn new(env: GridWorld) -> (a: Self)
        ensures
            a@ == (RlModel {
                env,
                train_episodes: 200,
                eval_episodes: 20,
                max_steps: 50,
                replicates: 5,
                trials: 20,
                seed: 0,
            }),
    {
        AutoRl {
            env,
            train_episodes: 200,
            eval_episodes: 20,
            max_steps: 50,
            replicates: 5,
            trials: 20,
            seed: 0,
        }
    }

    /// Training episodes per replicate.
    pub fn train_episodes(self, n: usize) -> (a: Self)
        ensures
            a@ == (RlModel { train_episodes: at_least_one(n), ..self@ }),
    {
        let mut a = self;
        a.train_episodes = one_or(n);
        a
    }

    /// Evaluation episodes per replicate.
    pub fn eval_episodes(self, n: usize) -> (a: Self)
        ensures
            a@ == (RlModel { eval_episodes: at_least_one(n), ..self@ }),
    {
        let mut a = self;
        a.eval_episodes = one_or(n);
        a
    }

    /// Maximum steps per episode.
    pub fn max_steps(self, n: usize) -> (a: Self)
        ensures
            a@ == (RlModel { max_steps: at_least_one(n), ..self@ }),
    {
        let mut a = self;
        a.max_steps = one_or(n);
        a
    }

    /// Number of noisy replicates aggregated per configuration.
    pub fn replicates(self, n: usize) -> (a: Self)
        ensures
            a@ == (RlModel { replicates: at_least_one(n), ..self@ }),
    {
        let mut a = self;
        a.replicates = one_or(n);
        a
    }

    /// Number of hyperparameter configurations to try.
    pub fn trials(self, t: u64) -> (a: Self)
        ensures
            a@ == (RlModel { trials: t, ..self@ }),
    {
        let mut a = self;
        a.trials = t;
        a
    }

    /// Seed for the search and environment.
    pub fn seed(self, s: u64) -> (a: Self)
        ensures
            a@ == (RlModel { seed: s, ..self@ }),
    {
        let mut a = self;
        a.seed = s;
        a
    }

    /// The search space: learning rate, discount and exploration.
    pub fn space() -> (s: SearchSpace)
        ensures
            s@ == searched(),
            space::space_sound(s@),
            space::drawable_space(s@),
    {
        let alpha = Bounds {
            low: Scalar::from_bits(0x3fa9_9999_9999_999a),
            high: Scalar::from_bits(0x3fec_cccc_cccc_cccd),
            floor: Scalar::from_bits(0x3fa9_9999_9102_93a6),
            ceiling: Scalar::from_bits(0x3fec_cccc_cd56_3d2c),
        };
        let gamma = Bounds {
            low: Scalar::from_bits(0x3fe0_0000_0000_0000),
            high: Scalar::from_bits(0x3fef_f7ce_d916_872b),
            floor: Scalar::from_bits(0x3fdf_ffff_feed_1f41),
            ceiling: Scalar::from_bits(0x3fef_f7ce_d99f_f78a),
        };
        let epsilon = Bounds {
            low: Scalar::from_bits(0),
            high: Scalar::from_bits(0x3fe0_0000_0000_0000),
            floor: Scalar::from_bits(0xbe11_2e0b_e826_d695),
            ceiling: Scalar::from_bits(0x3fe0_0000_0089_705f),
        };
        let s = SearchSpace::new().add("alpha", Distribution::float(alpha)).add(
            "gamma",
            Distribution::float(gamma),
        ).add("epsilon", Distribution::float(epsilon));
        proof {
            assert(s@ =~= searched());
            reveal_strlit("alpha");
            reveal_strlit("gamma");
            reveal_strlit("epsilon");
            assert("alpha"@[0] == 'a' && "gamma"@[0] == 'g' && "epsilon"@[0] == 'e');
            assert forall|i: int| 0 <= i < s@.len() implies #[trigger] space::def_sound(
                s@,
                i,
            ) by {
                assert forall|j: int| 0 <= j < i implies (#[trigger] s@[j]).name
                    != s@[i].name by {}
            }
        }
        s
    }

    /// Run the search, returning the study (maximizing robust median return).
    pub fn fit<R: Reals + Clone, T: Returns + Clone>(self, reals: R, sums: T) -> (r: Result<
        Study<InMemoryStorage, TpeSampler, NoPruner, R>,
        Error,
    >)
        requires
            self@.trials < u64::MAX,
        ensures
            r is Ok <==> self@.env.size >= 2,
            match r {
                Ok(s) => s.well_formed() && s.meta().name == "auto-rl"@
                    && s.aims() == seq![("return"@, Direction::Maximize)]
                    && s.searches() == searched() && s.seed() == self@.seed && s.trials().len()
                    == self@.trials && (forall|i: int|
                    0 <= i < s.trials().len() ==> run::settled(#[trigger] s.trials()[i]))
                    && s.rig().reals == reals && exists|
                    o: RlObjective<R, T>,
                    sampler: TpeSampler,
                | #[trigger]
                    s.searched(o, self@.trials, sampler) && o@ == (RlTask {
                        env: self@.env,
                        train_episodes: self@.train_episodes,
                        eval_episodes: self@.eval_episodes,
                        max_steps: self@.max_steps,
                        replicates: self@.replicates,
                        reals: o@.reals,
                        sums,
                    }) && cloned(reals, o@.reals) && sampler@ == tpe::usual(
                        "return"@,
                        Direction::Maximize,
                        self@.seed,
                    ),
                Err(e) => e matches Error::Objective(m) && m@
                    == "grid world needs at least 2 cells"@,
            },
    {
        if self.env.size < 2 {
            return Err(Error::Objective("grid world needs at least 2 cells".to_owned()));
        }
        let own = reals.clone();
        let sampler = TpeSampler::new("return", Direction::Maximize, self.seed);
        let ghost first = sampler;
        let builder = Study::builder(Self::space(), reals).name("auto-rl").maximize(
            "return",
        ).sampler(sampler).seed(self.seed);
        let mut study = match builder.build() {
            Ok(s) => s,
            Err(e) => {
                return Err(e);
            },
        };
        let objective = RlObjective {
            env: self.env,
            train_episodes: self.train_episodes,
            eval_episodes: self.eval_episodes,
            max_steps: self.max_steps,
            replicates: self.replicates,
            reals: own,
            sums,
        };
        let ghost fresh = study.bench();
        proof {
            assert(fresh.trials =~= Seq::<TrialModel>::empty());
            assert(fresh == (Bench { trials: Seq::<TrialModel>::empty(), sampler: first }));
        }
        match study.optimize_n(&objective, self.trials) {
            Ok(_) => {},
            Err(e) => {
                return Err(e);
            },
        }
        proof {
            assert(study.aims() =~= seq![("return"@, Direction::Maximize)]);
            assert(study.searched(objective, self.trials, first));
        }
        Ok(study)
    }
}

/// Right leads one cell on and left one back, as far as there are cells, and a slip leads the other
/// way.
pub proof fn law_slips_reverse_the_way(size: usize, state: usize, action: usize)
    requires
        size >= 2,
        state < size,
        action <= 1,
    ensures
        moved(size, state, action, true) == moved(size, state, (1 - action) as usize, false),
        state < size - 1 ==> moved(size, state, 1, false) == state + 1,
        state == size - 1 ==> moved(size, state, 1, false) == state,
        state > 0 ==> moved(size, state, 0, false) == state - 1,
        moved(size, 0, 0, false) == 0,
{
}

/// Only the goal pays: any other cell is worth less to reach than the goal, and ends nothing.
pub proof fn law_only_the_goal_pays(size: usize, next: usize)
    requires
        size >= 2,
        next < size - 1,
    ensures
        payout(size, next).0.less(payout(size, (size - 1) as usize).0),
        payout(size, next).0.key() < 0,
        payout(size, (size - 1) as usize).0.key() > 0,
        !payout(size, next).1,
        payout(size, (size - 1) as usize).1,
{
}

/// The greedy policy takes the action of the greater value, and goes right where both are equal.
pub proof fn law_greedy_takes_the_greater_value(table: Seq<(Scalar, Scalar)>, state: usize)
    requires
        state < table.len(),
        !table[state as int].0.nan(),
        !table[state as int].1.nan(),
    ensures
        table[state as int].0.less(table[state as int].1) ==> greedy(table, state) == 1,
        table[state as int].1.less(table[state as int].0) ==> greedy(table, state) == 0,
        table[state as int].0.same(table[state as int].1) ==> greedy(table, state) == 1,
{
}

/// Without slips a policy that always goes right reaches the goal in as many steps as there are
/// cells to cross, if it may take that many.
pub proof fn law_going_right_arrives(
    table: Seq<(Scalar, Scalar)>,
    env: GridWorld,
    state: usize,
    n: nat,
    rng: TrialRng,
)
    requires
        env.size >= 2,
        state < env.size - 1,
        env.slip.key() == 0,
        table.len() == env.size,
        forall|s: int| 0 <= s < table.len() ==> (#[trigger] table[s]).0.less(table[s].1),
    ensures
        n >= env.size - 1 - state ==> episode(table, env, state, n, rng).0 && episode(
            table,
            env,
            state,
            n,
            rng,
        ).1 == env.size - 1 - state,
        n < env.size - 1 - state ==> !episode(table, env, state, n, rng).0 && episode(
            table,
            env,
            state,
            n,
            rng,
        ).1 == n,
    decreases n,
{
    crate::rng::law_certain_events_are_certain(rng, env.slip);
    if n > 0 {
        assert(table[state as int].0.less(table[state as int].1));
        if state + 1 < env.size - 1 {
            law_going_right_arrives(
                table,
                env,
                (state + 1) as usize,
                (n - 1) as nat,
                rng.past_strike(env.slip),
            );
        }
    }
}

/// Without slips a policy that always goes left stays where the corridor starts, and never arrives.
pub proof fn law_going_left_stays(
    table: Seq<(Scalar, Scalar)>,
    env: GridWorld,
    n: nat,
    rng: TrialRng,
)
    requires
        env.size >= 2,
        env.slip.key() == 0,
        table.len() == env.size,
        table[0].1.less(table[0].0),
    ensures
        !episode(table, env, 0, n, rng).0,
        episode(table, env, 0, n, rng).1 == n,
    decreases n,
{
    crate::rng::law_certain_events_are_certain(rng, env.slip);
    if n > 0 {
        law_going_left_stays(table, env, (n - 1) as nat, rng.past_strike(env.slip));
    }
}

/// An agent that never explores tries the greedy action, and one that always does picks one of the
/// two at random.
pub proof fn law_exploration_goes_by_its_probability(epsilon: Scalar, l: Lesson)
    ensures
        epsilon.key() == 0 ==> tried(epsilon, l).0 == greedy(l.table, l.state),
        epsilon.key() == crate::scalar::ONE ==> tried(epsilon, l).0 == l.rng.past_strike(
            epsilon,
        ).pick(2) as usize,
{
    crate::rng::law_certain_events_are_certain(l.rng, epsilon);
}

/// Whether `follow` is the best that may follow a cell: none of its two values is greater, and
/// nothing follows the goal.
pub open spec fn is_best_to_follow(
    size: usize,
    table: Seq<(Scalar, Scalar)>,
    state: usize,
    follow: Option<Scalar>,
) -> bool {
    match follow {
        Some(v) => state != size - 1 && !v.less(table[state as int].0) && !v.less(
            table[state as int].1,
        ) && (v == table[state as int].0 || v == table[state as int].1),
        None => state == size - 1,
    }
}

/// A lesson changes the value of the tried action alone, towards the reward of the cell that was
/// reached and the best that may follow there; behind the goal nothing follows.
pub proof fn law_lessons_value_the_best_that_follows<T: Returns>(
    sums: &T,
    env: GridWorld,
    manner: Manner,
    before: Lesson,
    after: Lesson,
)
    requires
        learns(sums, env, manner, before, after),
        env.size >= 2,
        before.table.len() == env.size,
        before.state < env.size,
        forall|s: int|
            0 <= s < before.table.len() ==> !(#[trigger] before.table[s]).0.nan()
                && !before.table[s].1.nan(),
    ensures
        after.state < env.size,
        after.table.len() == before.table.len(),
        forall|s: int|
            0 <= s < before.table.len() && s != before.state ==> #[trigger] after.table[s]
                == before.table[s],
        exists|follow: Option<Scalar>|
            #[trigger] is_best_to_follow(env.size, before.table, after.state, follow) && if tried(
                manner.epsilon,
                before,
            ).0 == 0 {
                after.table[before.state as int].1 == before.table[before.state as int].1
                    && is_learned(
                    sums,
                    before.table[before.state as int].0,
                    payout(env.size, after.state).0,
                    follow,
                    manner.alpha,
                    manner.gamma,
                    after.table[before.state as int].0,
                )
            } else {
                after.table[before.state as int].0 == before.table[before.state as int].0
                    && is_learned(
                    sums,
                    before.table[before.state as int].1,
                    payout(env.size, after.state).0,
                    follow,
                    manner.alpha,
                    manner.gamma,
                    after.table[before.state as int].1,
                )
            },
{
    let follow = prospect(env.size, before.table, after.state);
    let (action, then) = tried(manner.epsilon, before);
    law_walk_stays_inside(env.size, before.state, action, then.strikes(env.slip));
    assert(!before.table[after.state as int].0.nan());
    assert(is_best_to_follow(env.size, before.table, after.state, follow));
}

/// Episodes of a policy that always goes right all arrive where nothing slips, each in as many
/// steps as there are cells to cross.
pub proof fn law_sure_policies_always_arrive(
    table: Seq<(Scalar, Scalar)>,
    env: GridWorld,
    episodes: nat,
    max_steps: nat,
    rng: TrialRng,
)
    requires
        env.size >= 2,
        env.slip.key() == 0,
        table.len() == env.size,
        forall|s: int| 0 <= s < table.len() ==> (#[trigger] table[s]).0.less(table[s].1),
        max_steps >= env.size - 1,
    ensures
        rollouts(table, env, episodes, max_steps, rng).0 == episodes,
        rollouts(table, env, episodes, max_steps, rng).1 == episodes * (env.size - 1),
    decreases episodes,
{
    if episodes > 0 {
        law_sure_policies_always_arrive(table, env, (episodes - 1) as nat, max_steps, rng);
        let then = rollouts(table, env, (episodes - 1) as nat, max_steps, rng).2;
        law_going_right_arrives(table, env, 0, max_steps, then);
        assert((episodes - 1) * (env.size - 1) + (env.size - 1) == episodes * (env.size - 1))
            by (nonlinear_arith);
    }
}

/// What an agent earns is the average over its episodes of what arriving pays less what its steps
/// cost, after training from a blank table in as many episodes as were asked for.
pub proof fn law_returns_average_over_trained_episodes<T: Returns>(
    run: Rollout<T>,
    seed: u64,
    v: Scalar,
)
    requires
        run.earns(seed, v),
    ensures
        exists|
            courses: Seq<Seq<Lesson>>,
            start: Seq<(Scalar, Scalar)>,
            table: Seq<(Scalar, Scalar)>,
            rng: TrialRng,
        |
            start.len() == run.env.size && (forall|i: int|
                0 <= i < start.len() ==> (#[trigger] start[i]).0.pattern() == 0
                    && start[i].1.pattern() == 0) && courses.len() == run.train_episodes
                && #[trigger] is_training(
                &run.sums,
                run.env,
                Manner { alpha: run.alpha, gamma: run.gamma, epsilon: run.epsilon },
                run.max_steps as int,
                courses,
                (start, TrialRng { seed, word: 0 }),
                (table, rng),
            ) && call_ensures(
                T::averaged,
                (
                    &run.sums,
                    rollouts(
                        table,
                        run.env,
                        run.eval_episodes as nat,
                        run.max_steps as nat,
                        rng,
                    ).0 as usize,
                    rollouts(
                        table,
                        run.env,
                        run.eval_episodes as nat,
                        run.max_steps as nat,
                        rng,
                    ).1 as u128,
                    run.eval_episodes,
                ),
                v,
            ),
{
    let start = blank(run.env.size);
    assert(forall|i: int|
        0 <= i < start.len() ==> (#[trigger] start[i]).0.pattern() == 0 && start[i].1.pattern()
            == 0);
}

/// A lesson asks for what becomes of the value by the reward and by what follows, at the rate and
/// the discount of the agent, and a return for the average of as many episodes as there were.
pub proof fn law_returns_are_answers_to_their_questions<T: Returns>(
    sums: &T,
    value: Scalar,
    reward: Scalar,
    follow: Option<Scalar>,
    alpha: Scalar,
    gamma: Scalar,
    goals: usize,
    steps: u128,
    n: usize,
    r: Scalar,
)
    ensures
        is_learned(sums, value, reward, follow, alpha, gamma, r) <==> call_ensures(
            T::learned,
            (sums, value, reward, follow, alpha, gamma),
            r,
        ),
        is_averaged(sums, goals, steps, n, r) <==> call_ensures(
            T::averaged,
            (sums, goals, steps, n),
            r,
        ),
{
}

} // verus!
