//! What a model costs configured differently on this box. A store keeps one footprint per set of
//! memory flags, so a roster that does not fit at once comes with what other measured
//! configurations would save. It is reported and never acted on: a smaller footprint is usually
//! a smaller context.

use vstd::prelude::*;
use vstd::string::*;

use crate::cache::{cheaper, taken_views, ModelStore, ReadingView, StoreView};
use crate::config::normalize_ws;
use crate::model::{ModelRecord, ModelType, RecordView};
use crate::number::{gb2, gb2_text};
use crate::plan::{few_enough, models_total, InputView, PlanView};
use crate::policy::{OnUnconfirmed, Policy, PolicyView};
use crate::resolve::{footprint_in, lacks_confirmation, stored_views};
use crate::text::{join, joined, lemma_views_push, views, words};
use crate::units::{FootprintView, ModelFootprint};

verus! {

/// One measured configuration that holds less than the one planned with, on one line.
pub open spec fn saving_text(planned: i64, taken: (i64, Seq<char>)) -> Seq<char> {
    gb2(taken.0 as int) + " GB (saves "@ + gb2(planned - taken.0) + " GB) with `"@ + joined(
        words(taken.1),
        " "@,
    ) + "`"@
}

/// The measured configurations of a model that hold less than the one planned with.
pub open spec fn alternatives_text(
    id: Seq<char>,
    planned: i64,
    taken: Seq<(i64, Seq<char>)>,
) -> Seq<char> {
    "`"@ + id + "` is planned at "@ + gb2(planned as int)
        + " GB, and was measured on this box at less: "@ + joined(
        Seq::new(taken.len(), |i: int| saving_text(planned, taken[i])),
        ", "@,
    )
}

/// The reading that a model is planned with, where it is.
pub open spec fn planned_reading(
    record: RecordView,
    file: Option<StoreView>,
    policy: PolicyView,
) -> Option<ReadingView> {
    match footprint_in(record, file) {
        Some(reading) => if lacks_confirmation(record, reading) && policy.on_unconfirmed
            == OnUnconfirmed::Exclude {
            None
        } else {
            Some(reading)
        },
        None => None,
    }
}

/// What the other measured configurations of the first `bound` models would save.
pub open spec fn alternatives(
    records: Seq<RecordView>,
    files: Seq<Option<StoreView>>,
    policy: PolicyView,
    bound: nat,
) -> Seq<Seq<char>>
    decreases bound,
{
    if bound == 0 {
        Seq::empty()
    } else {
        let before = alternatives(records, files, policy, (bound - 1) as nat);
        let record = records[bound - 1];
        match planned_reading(record, files[bound - 1], policy) {
            Some(reading) => {
                let taken = cheaper(
                    files[bound - 1]->0.measurements,
                    record.param_hash,
                    reading.d_total,
                );
                if taken.len() > 0 {
                    before.push(alternatives_text(record.id, reading.d_total, taken))
                } else {
                    before
                }
            },
            None => before,
        }
    }
}

/// The models do not fit under the ceiling all at once, so some pack of them does not fit.
pub open spec fn crowded(input: InputView) -> bool {
    input.baseline + models_total(input.models) > input.ceiling()
}

/// A plan with the measured alternatives, where some pack does not fit.
pub open spec fn with_alternatives(
    plan: PlanView,
    input: InputView,
    texts: Seq<Seq<char>>,
) -> PlanView {
    if crowded(input) {
        PlanView { warnings: plan.warnings + texts, ..plan }
    } else {
        plan
    }
}

fn saving(planned: i64, taken: &(i64, String)) -> (text: String)
    ensures
        text@ == saving_text(planned, (taken.0, taken.1@)),
{
    gb2_text(taken.0 as i128).concat(" GB (saves ").concat(
        gb2_text(planned as i128 - taken.0 as i128).as_str(),
    ).concat(" GB) with `").concat(normalize_ws(taken.1.as_str()).as_str()).concat("`")
}

fn alternatives_line(id: &str, planned: i64, taken: &Vec<(i64, String)>) -> (text: String)
    ensures
        text@ == alternatives_text(id@, planned, taken_views(taken@)),
{
    let ghost all = taken_views(taken@);
    let ghost wanted = Seq::new(all.len(), |i: int| saving_text(planned, all[i]));
    let mut savings: Vec<String> = Vec::new();
    let mut at: usize = 0;
    proof {
        assert(views(savings@) =~= wanted.take(0));
    }
    while at < taken.len()
        invariant
            at <= taken@.len(),
            all == taken_views(taken@),
            wanted == Seq::new(all.len(), |i: int| saving_text(planned, all[i])),
            views(savings@) == wanted.take(at as int),
        decreases taken@.len() - at,
    {
        let one = saving(planned, &taken[at]);
        proof {
            lemma_views_push(savings@, one);
            assert(wanted.take(at + 1) =~= wanted.take(at as int).push(wanted[at as int]));
        }
        savings.push(one);
        at = at + 1;
    }
    proof {
        assert(wanted.take(at as int) =~= wanted);
    }
    "`".to_owned().concat(id).concat("` is planned at ").concat(
        gb2_text(planned as i128).as_str(),
    ).concat(" GB, and was measured on this box at less: ").concat(join(&savings, ", ").as_str())
}

/// What the other measured configurations of a roster's models would save.
pub fn alternatives_of(
    records: &Vec<ModelRecord>,
    files: &Vec<Option<ModelStore>>,
    policy: &Policy,
) -> (r: Vec<String>)
    requires
        files@.len() == records@.len(),
    ensures
        views(r@) == alternatives(
            views(records@),
            stored_views(files@),
            policy@,
            records@.len() as nat,
        ),
{
    let ghost all = views(records@);
    let ghost stored = stored_views(files@);
    let mut r: Vec<String> = Vec::new();
    let mut at: usize = 0;
    proof {
        assert(views(r@) =~= alternatives(all, stored, policy@, 0));
    }
    while at < records.len()
        invariant
            at <= records@.len(),
            files@.len() == records@.len(),
            all == views(records@),
            stored == stored_views(files@),
            views(r@) == alternatives(all, stored, policy@, at as nat),
        decreases records@.len() - at,
    {
        let record = &records[at];
        proof {
            assert(all[at as int] == record@);
        }
        if let Some(store) = &files[at] {
            proof {
                assert(stored[at as int] == Some(store@));
            }
            if let Some(reading) = store.select(record.param_hash.as_str()) {
                let unsure = record.model_type != ModelType::TtsProxy && !reading.is_confirmed();
                if !(unsure && policy.on_unconfirmed == OnUnconfirmed::Exclude) {
                    let taken = store.cheaper(record.param_hash.as_str(), reading.d_total);
                    proof {
                        assert(taken_views(taken@).len() == taken@.len());
                    }
                    if taken.len() > 0 {
                        let text = alternatives_line(record.id.as_str(), reading.d_total, &taken);
                        proof {
                            lemma_views_push(r@, text);
                        }
                        r.push(text);
                    }
                }
            }
        }
        at = at + 1;
    }
    r
}

/// Do the models not fit under the ceiling all at once?
pub fn is_crowded(models: &Vec<ModelFootprint>, baseline: i64, ceiling: i128) -> (r: bool)
    requires
        few_enough(models@.len() as int),
    ensures
        r == (baseline + models_total(views(models@)) > ceiling),
{
    let ghost all = views(models@);
    let mut total: i128 = baseline as i128;
    let mut at: usize = 0;
    proof {
        assert(all.take(0) =~= Seq::<FootprintView>::empty());
    }
    while at < models.len()
        invariant
            at <= models@.len() <= 0x0100_0000_0000_0000,
            all == views(models@),
            total == baseline + models_total(all.take(at as int)),
            -(at + 1) * 0x8000_0000_0000_0000 <= total <= (at + 1) * 0x8000_0000_0000_0000,
        decreases models@.len() - at,
    {
        proof {
            assert(all.take(at + 1).drop_last() =~= all.take(at as int));
            assert(all.take(at + 1).last() == models@[at as int]@);
        }
        total = total + models[at].d_total as i128;
        at = at + 1;
    }
    proof {
        assert(all.take(at as int) =~= all);
    }
    total > ceiling
}

/// Every cheaper measured configuration of a model that is planned with is named with what it
/// would save, wherever the models do not all fit at once.
pub proof fn law_cheaper_configurations_are_named(
    records: Seq<RecordView>,
    files: Seq<Option<StoreView>>,
    policy: PolicyView,
    plan: PlanView,
    input: InputView,
    bound: nat,
    i: int,
)
    requires
        crowded(input),
        0 <= i < bound <= records.len() == files.len(),
        planned_reading(records[i], files[i], policy) is Some,
        cheaper(
            files[i]->0.measurements,
            records[i].param_hash,
            planned_reading(records[i], files[i], policy)->0.d_total,
        ).len() > 0,
    ensures
        with_alternatives(
            plan,
            input,
            alternatives(records, files, policy, bound),
        ).warnings.contains(
            alternatives_text(
                records[i].id,
                planned_reading(records[i], files[i], policy)->0.d_total,
                cheaper(
                    files[i]->0.measurements,
                    records[i].param_hash,
                    planned_reading(records[i], files[i], policy)->0.d_total,
                ),
            ),
        ),
{
    let k = lemma_alternative_is_listed(records, files, policy, bound, i);
    let texts = alternatives(records, files, policy, bound);
    let warnings = plan.warnings + texts;
    assert(warnings[plan.warnings.len() + k] == texts[k]);
}

proof fn lemma_alternative_is_listed(
    records: Seq<RecordView>,
    files: Seq<Option<StoreView>>,
    policy: PolicyView,
    bound: nat,
    i: int,
) -> (k: int)
    requires
        0 <= i < bound <= records.len() == files.len(),
        planned_reading(records[i], files[i], policy) is Some,
        cheaper(
            files[i]->0.measurements,
            records[i].param_hash,
            planned_reading(records[i], files[i], policy)->0.d_total,
        ).len() > 0,
    ensures
        0 <= k < alternatives(records, files, policy, bound).len(),
        alternatives(records, files, policy, bound)[k] == alternatives_text(
            records[i].id,
            planned_reading(records[i], files[i], policy)->0.d_total,
            cheaper(
                files[i]->0.measurements,
                records[i].param_hash,
                planned_reading(records[i], files[i], policy)->0.d_total,
            ),
        ),
    decreases bound,
{
    let before = alternatives(records, files, policy, (bound - 1) as nat);
    if i == bound - 1 {
        before.len() as int
    } else {
        lemma_alternative_is_listed(records, files, policy, (bound - 1) as nat, i)
    }
}

/// Alternatives are told exactly where the models do not all fit at once, over what the empty pool
/// holds, under the margin below the budget.
pub proof fn law_alternatives_are_told_where_it_is_tight(
    plan: PlanView,
    input: InputView,
    texts: Seq<Seq<char>>,
)
    ensures
        input.baseline + models_total(input.models) > input.budget - input.policy.margin
            ==> with_alternatives(plan, input, texts).warnings == plan.warnings + texts,
        input.baseline + models_total(input.models) <= input.budget - input.policy.margin
            ==> with_alternatives(plan, input, texts) == plan,
        with_alternatives(plan, input, texts).sets == plan.sets,
        with_alternatives(plan, input, texts).evict_costs == plan.evict_costs,
        with_alternatives(plan, input, texts).excluded == plan.excluded,
{
}

/// They are those to the reading a model is planned with: the one under its command's key, unless
/// it was never confirmed and the policy leaves such models out.
pub proof fn law_a_model_is_compared_with_its_planned_reading(
    record: RecordView,
    file: StoreView,
    policy: PolicyView,
    reading: ReadingView,
)
    requires
        crate::tables::lookup(file.measurements, record.param_hash) == Some(reading),
    ensures
        reading.status != "ok"@ ==> planned_reading(record, Some(file), policy) is None,
        reading.status == "ok"@ && (reading.allocation_confirmed == Some(true)
            || policy.on_unconfirmed != OnUnconfirmed::Exclude || record.model_type
            == ModelType::TtsProxy) ==> planned_reading(record, Some(file), policy) == Some(
            reading,
        ),
        reading.allocation_confirmed != Some(true) && policy.on_unconfirmed
            == OnUnconfirmed::Exclude && record.model_type != ModelType::TtsProxy
            ==> planned_reading(record, Some(file), policy) is None,
        planned_reading(record, None, policy) is None,
{
}

} // verus!
