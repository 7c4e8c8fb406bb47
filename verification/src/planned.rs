//! What a roster is planned with: the operator's budget, each model's own reading and its host
//! cost, and who is named as doubtful or left out.

use vstd::prelude::*;
use vstd::string::*;

use crate::alternatives::{alternatives, with_alternatives};
use crate::cache::{BoxView, ReadingView, StoreView};
use crate::laws::law_every_declared_set_fits;
use crate::model::{cache_cap, ModelType, RecordView};
use crate::plan::PlanView;
use crate::policy::{OnUnconfirmed, PolicyView};
use crate::resolve::{
    first_unconfirmed, footprint_in, resolved_budget, resolved_input, scan, with_evidence,
};
use crate::tables::lookup;
use crate::text::words;
use crate::units::FootprintView;

verus! {

/// The plan of a roster from its files, the policy and the box, against a budget.
pub open spec fn plan_against(
    records: Seq<RecordView>,
    files: Seq<Option<StoreView>>,
    policy: PolicyView,
    meta: BoxView,
    budget: i64,
) -> PlanView {
    let found = scan(records, files, policy, records.len());
    let input = resolved_input(found, policy, meta, budget);
    with_alternatives(
        with_evidence(input.plan(), found, policy, meta),
        input,
        alternatives(records, files, policy, records.len()),
    )
}

// ---- the budget -----------------------------------------------------------------------------

/// A budget given for one run is planned against, whatever else is set; without one, the one in
/// the policy, whatever the box detected; and only without both, the detected total. Without
/// any there is no plan.
pub proof fn law_the_operators_budget_wins(flag: Option<i64>, policy: PolicyView, meta: BoxView)
    ensures
        flag is Some ==> resolved_budget(flag, policy, meta) == flag,
        flag is None && policy.budget is Some ==> resolved_budget(flag, policy, meta)
            == policy.budget,
        flag is None && policy.budget is None ==> resolved_budget(flag, policy, meta)
            == meta.detected_total,
{
}

/// The plan says which budget it is against, keeps the margin below it, and counts what the
/// empty pool holds.
pub proof fn law_a_plan_keeps_the_margin_below_its_budget(
    records: Seq<RecordView>,
    files: Seq<Option<StoreView>>,
    policy: PolicyView,
    meta: BoxView,
    budget: i64,
)
    ensures
        plan_against(records, files, policy, meta, budget).budget == budget,
        plan_against(records, files, policy, meta, budget).margin == policy.margin,
        plan_against(records, files, policy, meta, budget).ceiling == budget - policy.margin,
        plan_against(records, files, policy, meta, budget).baseline == meta.baseline,
{
}

/// A configured budget bounds every set: without a flag, each declared set holds at most the
/// configured budget less the margin, whatever the box detected; with a flag, at most the
/// flag's.
pub proof fn law_a_configured_budget_bounds_every_set(
    records: Seq<RecordView>,
    files: Seq<Option<StoreView>>,
    policy: PolicyView,
    meta: BoxView,
    flag: Option<i64>,
    i: int,
)
    requires
        resolved_budget(flag, policy, meta) is Some,
        ({
            let budget = resolved_budget(flag, policy, meta)->0;
            let found = scan(records, files, policy, records.len());
            resolved_input(found, policy, meta, budget).refusal() is None && 0 <= i
                < plan_against(records, files, policy, meta, budget).sets.len()
        }),
    ensures
        ({
            let budget = resolved_budget(flag, policy, meta)->0;
            let set = plan_against(records, files, policy, meta, budget).sets[i];
            &&& flag is Some ==> set.footprint <= flag->0 - policy.margin
            &&& flag is None && policy.budget is Some ==> set.footprint <= policy.budget->0
                - policy.margin
            &&& flag is None && policy.budget is None ==> set.footprint <= meta.detected_total->0
                - policy.margin
        }),
{
    let budget = resolved_budget(flag, policy, meta)->0;
    let found = scan(records, files, policy, records.len());
    let input = resolved_input(found, policy, meta, budget);
    law_every_declared_set_fits(input, i);
}

// ---- a model's reading ------------------------------------------------------------------------

/// A file holds a footprint under the very hash of a model's command.
pub open spec fn is_measured(
    record: RecordView,
    file: Option<StoreView>,
    reading: ReadingView,
) -> bool {
    &&& file is Some
    &&& lookup(file->0.measurements, record.param_hash) == Some(reading)
    &&& reading.status == "ok"@
}

/// A footprint whose allocation was seen to finish, or whose model never loads.
pub open spec fn is_trusted(record: RecordView, reading: ReadingView) -> bool {
    reading.allocation_confirmed == Some(true) || record.model_type == ModelType::TtsProxy
}

/// What a model costs the host while it is resident, by its type: a llama.cpp server what its
/// load added and the prompt cache that its command states, or that the policy assumes; any
/// other server what its load added; and a proxy what was set by hand.
pub open spec fn costs_the_host(
    footprint: FootprintView,
    record: RecordView,
    reading: ReadingView,
    policy: PolicyView,
) -> bool {
    let stated = cache_cap(words(record.cmd));
    match reading.d_host {
        Some(added) => match record.model_type {
            ModelType::Llm => footprint.host_gb == Some(with_cache(added, stated, policy)),
            ModelType::Embed => footprint.host_gb == Some(with_cache(added, stated, policy)),
            ModelType::Rerank => footprint.host_gb == Some(with_cache(added, stated, policy)),
            ModelType::Stt => footprint.host_gb == Some(in_range(added as int)),
            ModelType::Image => footprint.host_gb == Some(in_range(added as int)),
            ModelType::TtsProxy => footprint.host_gb == Some(in_range(added as int)),
        },
        None => match record.model_type {
            ModelType::TtsProxy => footprint.host_gb == Some(0int),
            _ => footprint.host_gb is None,
        },
    }
}

/// What a load added together with a prompt cache.
pub open spec fn with_cache(added: i64, stated: Option<int>, policy: PolicyView) -> int {
    in_range(
        added + match stated {
            Some(cap) => cap,
            None => policy.host_cache_gb,
        },
    )
}

/// A sum, as far as an amount can hold it.
pub open spec fn in_range(sum: int) -> int {
    if sum > 9_223_372_036_854_775_807 {
        9_223_372_036_854_775_807
    } else if sum < -9_223_372_036_854_775_807 {
        -9_223_372_036_854_775_807
    } else {
        sum
    }
}

/// A model is planned with its own reading.
pub open spec fn is_planned_as(
    footprint: FootprintView,
    record: RecordView,
    reading: ReadingView,
    policy: PolicyView,
) -> bool {
    &&& footprint.id == record.id
    &&& footprint.model_type == record.model_type
    &&& footprint.primary_file == record.primary_file
    &&& footprint.d_total == reading.d_total
    &&& costs_the_host(footprint, record, reading, policy)
    &&& holds_its_cache(footprint, record, policy)
}

/// A llama.cpp server holds a prompt cache unless its cap is nothing; the cache is assumed where
/// the command states no cap. No other server has one.
pub open spec fn holds_its_cache(
    footprint: FootprintView,
    record: RecordView,
    policy: PolicyView,
) -> bool {
    let stated = cache_cap(words(record.cmd));
    match record.model_type {
        ModelType::Llm | ModelType::Embed | ModelType::Rerank => match stated {
            Some(cap) => footprint.cache_gb == 0 && footprint.holds_cache == (cap > 0),
            None => footprint.cache_gb == policy.host_cache_gb && footprint.holds_cache == (
            policy.host_cache_gb > 0),
        },
        ModelType::Stt => footprint.cache_gb == 0 && !footprint.holds_cache,
        ModelType::Image => footprint.cache_gb == 0 && !footprint.holds_cache,
        ModelType::TtsProxy => footprint.cache_gb == 0 && !footprint.holds_cache,
    }
}

/// Every measured model that can be trusted, or that the policy plans with all the same, is
/// planned with the reading under its own hash, and at the host cost of its type.
pub proof fn law_a_measured_model_is_planned_with_its_reading(
    records: Seq<RecordView>,
    files: Seq<Option<StoreView>>,
    policy: PolicyView,
    bound: nat,
    i: int,
    reading: ReadingView,
) -> (k: int)
    requires
        records.len() == files.len(),
        0 <= i < bound <= records.len(),
        is_measured(records[i], files[i], reading),
        is_trusted(records[i], reading) || policy.on_unconfirmed != OnUnconfirmed::Exclude,
    ensures
        0 <= k < scan(records, files, policy, bound).footprints.len(),
        is_planned_as(
            scan(records, files, policy, bound).footprints[k],
            records[i],
            reading,
            policy,
        ),
    decreases bound,
{
    let before = scan(records, files, policy, (bound - 1) as nat);
    let found = scan(records, files, policy, bound);
    if i < bound - 1 {
        let k = law_a_measured_model_is_planned_with_its_reading(
            records,
            files,
            policy,
            (bound - 1) as nat,
            i,
            reading,
        );
        assert(found.footprints[k] == before.footprints[k]);
        k
    } else {
        assert(footprint_in(records[i], files[i]) == Some(reading));
        before.footprints.len() as int
    }
}

/// The reading that a model may be planned with: the one under its own hash, or, of a proxy's
/// file, one that was set by hand.
pub open spec fn may_be_planned_with(
    record: RecordView,
    file: Option<StoreView>,
    reading: ReadingView,
) -> bool {
    &&& file is Some
    &&& reading.status == "ok"@
    &&& lookup(file->0.measurements, record.param_hash) == Some(reading) || (
    file->0.model_type == "tts-proxy"@ && lookup(file->0.measurements, record.param_hash) is None)
}

/// Nothing else is planned with: every planned footprint is a model's, from such a reading, and
/// under a policy that excludes what cannot be trusted, from one that can.
pub proof fn law_only_measured_models_are_planned(
    records: Seq<RecordView>,
    files: Seq<Option<StoreView>>,
    policy: PolicyView,
    bound: nat,
    k: int,
) -> (r: (int, ReadingView))
    requires
        records.len() == files.len(),
        bound <= records.len(),
        0 <= k < scan(records, files, policy, bound).footprints.len(),
    ensures
        0 <= r.0 < bound,
        may_be_planned_with(records[r.0], files[r.0], r.1),
        is_planned_as(
            scan(records, files, policy, bound).footprints[k],
            records[r.0],
            r.1,
            policy,
        ),
        policy.on_unconfirmed == OnUnconfirmed::Exclude ==> is_trusted(records[r.0], r.1),
    decreases bound,
{
    let before = scan(records, files, policy, (bound - 1) as nat);
    let found = scan(records, files, policy, bound);
    if k < before.footprints.len() {
        assert(found.footprints[k] == before.footprints[k]);
        law_only_measured_models_are_planned(records, files, policy, (bound - 1) as nat, k)
    } else {
        let i = bound - 1;
        let reading = footprint_in(records[i], files[i])->0;
        crate::cache::law_selection_never_guesses(files[i]->0, records[i].param_hash);
        (i, reading)
    }
}

/// A model without a footprint under its hash, in a file that is no proxy's, is named as left
/// out of the plan.
pub proof fn law_an_unmeasured_model_is_named(
    records: Seq<RecordView>,
    files: Seq<Option<StoreView>>,
    policy: PolicyView,
    meta: BoxView,
    budget: i64,
    i: int,
)
    requires
        records.len() == files.len(),
        0 <= i < records.len(),
        files[i] is None || (files[i]->0.model_type != "tts-proxy"@ && match lookup(
            files[i]->0.measurements,
            records[i].param_hash,
        ) {
            Some(reading) => reading.status != "ok"@,
            None => true,
        }),
    ensures
        plan_against(records, files, policy, meta, budget).excluded.contains(records[i].id),
{
    let found = scan(records, files, policy, records.len());
    let input = resolved_input(found, policy, meta, budget);
    assert(footprint_in(records[i], files[i]) is None);
    crate::coverage::law_every_record_is_planned_or_named(
        records,
        files,
        policy,
        records.len(),
        i,
    );
    let named = found.unmeasured;
    let k = choose|k: int| 0 <= k < named.len() && named[k] == records[i].id;
    let excluded = plan_against(records, files, policy, meta, budget).excluded;
    assert(excluded == input.plan().excluded + named + found.dropped);
    assert(excluded[input.plan().excluded.len() + k] == records[i].id);
}

proof fn lemma_doubtful(
    records: Seq<RecordView>,
    files: Seq<Option<StoreView>>,
    policy: PolicyView,
    bound: nat,
    i: int,
    reading: ReadingView,
)
    requires
        records.len() == files.len(),
        0 <= i < bound <= records.len(),
        is_measured(records[i], files[i], reading),
        !is_trusted(records[i], reading),
    ensures
        scan(records, files, policy, bound).unconfirmed.contains(records[i].id),
        policy.on_unconfirmed == OnUnconfirmed::Exclude ==> scan(
            records,
            files,
            policy,
            bound,
        ).dropped.contains(records[i].id),
    decreases bound,
{
    let before = scan(records, files, policy, (bound - 1) as nat);
    let found = scan(records, files, policy, bound);
    let id = records[i].id;
    if i < bound - 1 {
        lemma_doubtful(records, files, policy, (bound - 1) as nat, i, reading);
        let k = choose|k: int| 0 <= k < before.unconfirmed.len() && before.unconfirmed[k] == id;
        assert(found.unconfirmed[k] == id);
        if policy.on_unconfirmed == OnUnconfirmed::Exclude {
            let d = choose|d: int| 0 <= d < before.dropped.len() && before.dropped[d] == id;
            assert(found.dropped[d] == id);
        }
    } else {
        assert(footprint_in(records[i], files[i]) == Some(reading));
        assert(found.unconfirmed[before.unconfirmed.len() as int] == id);
        if policy.on_unconfirmed == OnUnconfirmed::Exclude {
            assert(found.dropped[before.dropped.len() as int] == id);
        }
    }
}

/// A footprint that cannot be trusted is named in the plan, whatever the policy does with it;
/// where the policy excludes it, it is named as left out too.
pub proof fn law_a_doubtful_footprint_is_named(
    records: Seq<RecordView>,
    files: Seq<Option<StoreView>>,
    policy: PolicyView,
    meta: BoxView,
    budget: i64,
    i: int,
    reading: ReadingView,
)
    requires
        records.len() == files.len(),
        0 <= i < records.len(),
        is_measured(records[i], files[i], reading),
        !is_trusted(records[i], reading),
    ensures
        plan_against(records, files, policy, meta, budget).unconfirmed.contains(records[i].id),
        policy.on_unconfirmed == OnUnconfirmed::Exclude ==> plan_against(
            records,
            files,
            policy,
            meta,
            budget,
        ).excluded.contains(records[i].id),
{
    lemma_doubtful(records, files, policy, records.len(), i, reading);
    let found = scan(records, files, policy, records.len());
    let input = resolved_input(found, policy, meta, budget);
    if policy.on_unconfirmed == OnUnconfirmed::Exclude {
        let d = choose|d: int| 0 <= d < found.dropped.len() && found.dropped[d] == records[i].id;
        let excluded = plan_against(records, files, policy, meta, budget).excluded;
        assert(excluded == input.plan().excluded + found.unmeasured + found.dropped);
        assert(excluded[input.plan().excluded.len() + found.unmeasured.len() + d]
            == records[i].id);
    }
}

/// Where the policy refuses what cannot be trusted, one such footprint is enough for there to be
/// no plan, and without any nothing is refused on that account.
pub proof fn law_a_doubtful_footprint_can_be_refused(
    records: Seq<RecordView>,
    files: Seq<Option<StoreView>>,
    from: nat,
)
    requires
        records.len() == files.len(),
        from <= records.len(),
        forall|i: int|
            0 <= i < files.len() ==> ((#[trigger] files[i]) is Some ==> files[i]->0.model_type
                != "tts-proxy"@),
    ensures
        first_unconfirmed(records, files, from) is Some <==> exists|i: int|
            from <= i < records.len() && #[trigger] is_doubtful(records[i], files[i]),
    decreases records.len() - from,
{
    if from < records.len() {
        law_a_doubtful_footprint_can_be_refused(records, files, from + 1);
        let file = files[from as int];
        let record = records[from as int];
        crate::cache::law_selection_never_guesses(
            if file is Some {
                file->0
            } else {
                StoreView { model_type: Seq::empty(), file: None, measurements: Seq::empty() }
            },
            record.param_hash,
        );
        assert(is_doubtful(record, file) <==> footprint_in(record, file) is Some
            && crate::resolve::lacks_confirmation(record, footprint_in(record, file)->0));
        if is_doubtful(records[from as int], files[from as int]) {
        } else if exists|i: int|
            from <= i < records.len() && #[trigger] is_doubtful(records[i], files[i]) {
            let i = choose|i: int|
                from <= i < records.len() && #[trigger] is_doubtful(records[i], files[i]);
            assert(from + 1 <= i && is_doubtful(records[i], files[i]));
        }
    }
}

/// A file holds a footprint for a model's command that cannot be trusted.
pub open spec fn is_doubtful(record: RecordView, file: Option<StoreView>) -> bool {
    &&& file is Some
    &&& match lookup(file->0.measurements, record.param_hash) {
        Some(reading) => reading.status == "ok"@ && !is_trusted(record, reading),
        None => false,
    }
}

// ---- the host side ------------------------------------------------------------------------

/// The host is checked exactly if every planned model's host cost is known, the box recorded
/// what the host holds with nothing loaded, and a host budget is configured or its total was
/// recorded; against the configured one first, less the host margin. Where it is not checked
/// the plan says so.
pub proof fn law_the_host_is_checked_against_its_budget(
    records: Seq<RecordView>,
    files: Seq<Option<StoreView>>,
    policy: PolicyView,
    meta: BoxView,
    budget: i64,
)
    requires
        records.len() == files.len(),
    ensures
        ({
            let found = scan(records, files, policy, records.len());
            let plan = plan_against(records, files, policy, meta, budget);
            let known = forall|k: int|
                0 <= k < found.footprints.len() ==> (#[trigger] found.footprints[k]).host_gb is Some;
            &&& known && meta.host_baseline is Some && policy.host_budget is Some
                ==> plan.host_ceiling == Some(policy.host_budget->0 - policy.host_margin)
            &&& known && meta.host_baseline is Some && policy.host_budget is None
                && meta.host_total is Some ==> plan.host_ceiling == Some(
                meta.host_total->0 - policy.host_margin,
            )
            &&& !known || meta.host_baseline is None || (policy.host_budget is None
                && meta.host_total is None) ==> plan.host_ceiling is None
                && plan.host_skipped is Some
            &&& plan.host_ceiling is Some ==> plan.host_skipped is None
        }),
{
    lemma_host_known(records, files, policy, records.len());
}

proof fn lemma_host_known(
    records: Seq<RecordView>,
    files: Seq<Option<StoreView>>,
    policy: PolicyView,
    bound: nat,
)
    ensures
        ({
            let found = scan(records, files, policy, bound);
            found.host_unmeasured.len() == 0 <==> forall|k: int|
                0 <= k < found.footprints.len() ==> (#[trigger] found.footprints[k]).host_gb is Some
        }),
    decreases bound,
{
    if bound > 0 {
        lemma_host_known(records, files, policy, (bound - 1) as nat);
        let before = scan(records, files, policy, (bound - 1) as nat);
        let found = scan(records, files, policy, bound);
        if forall|k: int|
            0 <= k < found.footprints.len() ==> (#[trigger] found.footprints[k]).host_gb is Some {
            assert forall|k: int| 0 <= k < before.footprints.len() implies (
            #[trigger] before.footprints[k]).host_gb is Some by {
                assert(found.footprints[k] == before.footprints[k]);
            }
            if found.footprints.len() > before.footprints.len() {
                assert(found.footprints[before.footprints.len() as int].host_gb is Some);
            }
        } else if found.host_unmeasured.len() == 0 {
            assert forall|k: int| 0 <= k < found.footprints.len() implies (
            #[trigger] found.footprints[k]).host_gb is Some by {
                if k < before.footprints.len() {
                    assert(found.footprints[k] == before.footprints[k]);
                }
            }
        }
    }
}

} // verus!
