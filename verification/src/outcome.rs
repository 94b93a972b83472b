//! Laws of outcomes: what a study hands back of the trials that it has run.

use vstd::prelude::*;
use crate::metrics::{Direction, ObjectiveModel};
use crate::pareto::MemberModel;
use crate::scalar::Scalar;
use crate::trial::{HistoryModel, TrialModel, TrialState};
#[allow(unused_imports)]
use crate::models;
#[allow(unused_imports)]
use crate::order;
#[allow(unused_imports)]
use crate::pareto;
#[allow(unused_imports)]
use crate::study;
#[allow(unused_imports)]
use crate::trial;

verus! {

/// Whether a trial is complete and has a value of `objective`.
pub open spec fn has_value(t: TrialModel, objective: Seq<char>) -> bool {
    t.state == TrialState::Complete && t.final_metrics is Some
        && t.final_metrics->0.contains_key(objective)
}

/// Whether the values that complete trials have of `objective` are numbers.
pub open spec fn all_values_known(history: HistoryModel, objective: Seq<char>) -> bool {
    forall|k: int|
        0 <= k < history.len() && has_value(#[trigger] history[k], objective)
            ==> !history[k].final_metrics->0[objective].nan()
}

/// The best trial is a complete one of the history, and no complete trial has a better value.
pub proof fn law_no_complete_trial_beats_the_best(
    d: Direction,
    history: HistoryModel,
    objective: Seq<char>,
    i: int,
)
    requires
        0 <= i < history.len(),
        has_value(history[i], objective),
        all_values_known(history, objective),
    ensures
        study::leader(d, models::pick(history, study::scored(objective))) matches Some(best)
            && history.contains(best.1) && has_value(best.1, objective) && !d.better(
            history[i].final_metrics->0[objective],
            best.1.final_metrics->0[objective],
        ),
{
    let f = study::scored(objective);
    let trials = models::pick(history, f);
    let at = models::pick_holds(history, f, i);
    assert forall|k: int| 0 <= k < trials.len() implies !(#[trigger] trials[k]).0.nan() && has_value(
        trials[k].1,
        objective,
    ) && trials[k].0 == trials[k].1.final_metrics->0[objective] && history.contains(
        trials[k].1,
    ) by {
        let j = models::pick_origin(history, f, k);
        assert(has_value(history[j], objective));
        assert(trials[k].1 == history[j]);
    }
    study::law_leader_is_best(d, trials, at);
    let best = study::leader_at(d, trials);
    assert(trials[best].0 == trials[best].1.final_metrics->0[objective]);
    assert(trials[at].0 == history[i].final_metrics->0[objective]);
}

/// Whether a trial has a number for every objective.
pub open spec fn is_measured(objectives: Seq<ObjectiveModel>, t: TrialModel) -> bool {
    t.state == TrialState::Complete && t.final_metrics is Some && pareto::has_all(
        objectives,
        t.final_metrics->0,
    )
}

/// Whether a member stands for a trial: it has its id and its values.
pub open spec fn stands_for(
    objectives: Seq<ObjectiveModel>,
    m: MemberModel,
    t: TrialModel,
) -> bool {
    &&& m.trial == t.id
    &&& m.values.len() == objectives.len()
    &&& forall|k: int|
        0 <= k < objectives.len() ==> #[trigger] m.values[k]
            == t.final_metrics->0[objectives[k].name]
}

/// Whether no objective is better met by `t` than by a member.
pub open spec fn is_matched(
    objectives: Seq<ObjectiveModel>,
    m: MemberModel,
    t: TrialModel,
) -> bool {
    forall|k: int|
        0 <= k < objectives.len() ==> !(#[trigger] objectives[k]).direction.better(
            t.final_metrics->0[objectives[k].name],
            m.values[k],
        )
}

/// Whether some member matches a trial on every objective.
pub open spec fn some_match(
    objectives: Seq<ObjectiveModel>,
    members: Seq<MemberModel>,
    t: TrialModel,
) -> bool {
    exists|j: int| 0 <= j < members.len() && is_matched(objectives, #[trigger] members[j], t)
}

/// Whether some measured trial of a history is what a member stands for.
pub open spec fn comes_from(
    objectives: Seq<ObjectiveModel>,
    history: HistoryModel,
    m: MemberModel,
) -> bool {
    exists|i: int|
        0 <= i < history.len() && is_measured(objectives, #[trigger] history[i]) && stands_for(
            objectives,
            m,
            history[i],
        )
}

/// Whether the values of all measured trials are numbers.
pub open spec fn all_are_numbers(objectives: Seq<ObjectiveModel>, history: HistoryModel) -> bool {
    forall|i: int, k: int|
        0 <= i < history.len() && 0 <= k < objectives.len() && is_measured(
            objectives,
            #[trigger] history[i],
        ) ==> !history[i].final_metrics->0[(#[trigger] objectives[k]).name].nan()
}

proof fn front_of_trials(
    objectives: Seq<ObjectiveModel>,
    history: HistoryModel,
)
    requires
        all_are_numbers(objectives, history),
    ensures
        pareto::mutually_non_dominated(
            objectives,
            study::front_of(objectives, models::pick(history, trial::if_complete())),
        ),
        forall|j: int|
            0 <= j < study::front_of(
                objectives,
                models::pick(history, trial::if_complete()),
            ).len() ==> comes_from(
                objectives,
                history,
                #[trigger] study::front_of(
                    objectives,
                    models::pick(history, trial::if_complete()),
                )[j],
            ),
        forall|i: int|
            0 <= i < history.len() && is_measured(objectives, #[trigger] history[i])
                ==> pareto::covered(
                objectives,
                study::front_of(objectives, models::pick(history, trial::if_complete())),
                pareto::values_of(objectives, history[i].final_metrics->0),
            ),
    decreases history.len(),
{
    let f = trial::if_complete();
    let front = study::front_of(objectives, models::pick(history, f));
    if history.len() > 0 {
        let rest = history.drop_last();
        let t = history.last();
        assert forall|i: int, k: int|
            0 <= i < rest.len() && 0 <= k < objectives.len() && is_measured(
                objectives,
                #[trigger] rest[i],
            ) implies !rest[i].final_metrics->0[(#[trigger] objectives[k]).name].nan() by {
            assert(rest[i] == history[i]);
        }
        front_of_trials(objectives, rest);
        let before = study::front_of(objectives, models::pick(rest, f));
        assert forall|j: int| 0 <= j < before.len() implies comes_from(
            objectives,
            history,
            #[trigger] before[j],
        ) && order::all_numbers(before[j].values) by {
            assert(comes_from(objectives, rest, before[j]));
            let i = choose|i: int|
                0 <= i < rest.len() && is_measured(objectives, #[trigger] rest[i]) && stands_for(
                    objectives,
                    before[j],
                    rest[i],
                );
            assert(history[i] == rest[i]);
            assert forall|k: int| 0 <= k < before[j].values.len() implies !(
            #[trigger] before[j].values[k]).nan() by {
                assert(!history[i].final_metrics->0[objectives[k].name].nan());
            }
        }
        if t.state == TrialState::Complete {
            assert(models::pick(history, f).drop_last() =~= models::pick(rest, f));
            assert(models::pick(history, f).last() == t);
        }
        if is_measured(objectives, t) {
            let v = pareto::values_of(objectives, t.final_metrics->0);
            assert(order::all_numbers(v)) by {
                assert forall|k: int| 0 <= k < v.len() implies !(#[trigger] v[k]).nan() by {
                    assert(is_measured(objectives, history[history.len() - 1]));
                    assert(!history[history.len() - 1].final_metrics->0[objectives[k].name].nan());
                }
            }
            assert(front == pareto::offered(objectives, before, t.id, v));
            pareto::law_front_stays_non_dominated(objectives, before, t.id, v);
            pareto::law_front_keeps_covering(objectives, before, t.id, v, v);
            assert forall|i: int|
                0 <= i < history.len() && is_measured(
                    objectives,
                    #[trigger] history[i],
                ) implies pareto::covered(
                objectives,
                front,
                pareto::values_of(objectives, history[i].final_metrics->0),
            ) by {
                if i < rest.len() {
                    assert(rest[i] == history[i]);
                    let w = pareto::values_of(objectives, rest[i].final_metrics->0);
                    assert(order::all_numbers(w)) by {
                        assert forall|k: int| 0 <= k < w.len() implies !(#[trigger] w[k]).nan() by {
                            assert(!history[i].final_metrics->0[objectives[k].name].nan());
                        }
                    }
                    pareto::law_front_keeps_covering(objectives, before, t.id, v, w);
                }
            }
            assert forall|j: int| 0 <= j < front.len() implies comes_from(
                objectives,
                history,
                #[trigger] front[j],
            ) by {
                if !pareto::covered(objectives, before, v) {
                    let kept = models::pick(before, pareto::unless_dominated(objectives, v));
                    if j < kept.len() {
                        let k = models::pick_origin(
                            before,
                            pareto::unless_dominated(objectives, v),
                            j,
                        );
                        assert(front[j] == before[k]);
                    } else {
                        assert(stands_for(objectives, front[j], history[history.len() - 1]));
                    }
                }
            }
        } else {
            assert(front == before);
            assert forall|i: int|
                0 <= i < history.len() && is_measured(
                    objectives,
                    #[trigger] history[i],
                ) implies pareto::covered(
                objectives,
                front,
                pareto::values_of(objectives, history[i].final_metrics->0),
            ) by {
                assert(rest[i] == history[i]);
            }
        }
    }
}

/// The front of a study stands for measured trials, and every measured trial is matched by a
/// member: on no objective is it better. No member is as good as another on all objectives and
/// better on one.
pub proof fn law_the_front_matches_every_trial(
    objectives: Seq<ObjectiveModel>,
    history: HistoryModel,
)
    requires
        all_are_numbers(objectives, history),
    ensures
        ({
            let front = study::front_of(objectives, models::pick(history, trial::if_complete()));
            &&& forall|j: int|
                0 <= j < front.len() ==> comes_from(objectives, history, #[trigger] front[j])
            &&& forall|i: int|
                0 <= i < history.len() && is_measured(objectives, #[trigger] history[i])
                    ==> some_match(objectives, front, history[i])
            &&& forall|a: int, b: int|
                0 <= a < front.len() && 0 <= b < front.len() && (forall|k: int|
                    0 <= k < objectives.len() ==> !(#[trigger] objectives[k]).direction.better(
                        (#[trigger] front[b]).values[k],
                        (#[trigger] front[a]).values[k],
                    )) ==> forall|k: int|
                    0 <= k < objectives.len() ==> !(#[trigger] objectives[k]).direction.better(
                        front[a].values[k],
                        front[b].values[k],
                    )
        }),
{
    front_of_trials(objectives, history);
    let front = study::front_of(objectives, models::pick(history, trial::if_complete()));
    assert forall|i: int|
        0 <= i < history.len() && is_measured(objectives, #[trigger] history[i]) implies some_match(
        objectives,
        front,
        history[i],
    ) by {
        let v = pareto::values_of(objectives, history[i].final_metrics->0);
        let j = choose|j: int|
            0 <= j < front.len() && pareto::covers(objectives, (#[trigger] front[j]).values, v);
        assert(is_matched(objectives, front[j], history[i])) by {
            assert forall|k: int| 0 <= k < objectives.len() implies !(
            #[trigger] objectives[k]).direction.better(
                history[i].final_metrics->0[objectives[k].name],
                front[j].values[k],
            ) by {
                assert(v[k] == history[i].final_metrics->0[objectives[k].name]);
                if pareto::same_point(front[j].values, v) {
                    assert(front[j].values[k].same(v[k]));
                }
            }
        }
    }
    assert forall|a: int, b: int|
        0 <= a < front.len() && 0 <= b < front.len() && (forall|k: int|
            0 <= k < objectives.len() ==> !(#[trigger] objectives[k]).direction.better(
                (#[trigger] front[b]).values[k],
                (#[trigger] front[a]).values[k],
            )) implies forall|k: int|
        0 <= k < objectives.len() ==> !(#[trigger] objectives[k]).direction.better(
            front[a].values[k],
            front[b].values[k],
        ) by {
        assert(!pareto::dominates_on(objectives, front[a].values, front[b].values));
    }
}

} // verus!
