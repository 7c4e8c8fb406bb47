//! What a plan covers, whatever the roster: each model is declared or named as left out, any
//! variant of a unit may be the one that loads, and no set refers to one that was left out.

use vstd::prelude::*;
use vstd::string::*;

use crate::alternatives::{alternatives, with_alternatives};
use crate::cache::{BoxView, StoreView};
use crate::laws::{
    law_every_declared_set_fits, law_every_declared_set_is_within_the_cap,
    law_every_light_unit_is_declared, law_guards_only_leave_out, law_heavy_sets_fit,
    law_mixed_sets_fit, law_packs_fit, lemma_over_cap_named, lemma_positions,
};
use crate::model::RecordView;
use crate::plan::{
    greedy, known_host, models_host, models_total, names_over_cap, over_host, smaller_first,
    sort_by, unit_fanout, units_fanout, units_host, units_total, InputView, Room, SetView,
    FANOUT_CAP,
};
use crate::policy::{cost_of, CostRole, OnHostOverflow, OnUnconfirmed, PolicyView};
use crate::resolve::{footprint_in, lacks_confirmation, resolved_input, scan, with_evidence};
use crate::roster::lemma_sort_keeps;
use crate::text::lemma_filter;
use crate::units::{
    distinct_ids, holds, law_every_model_is_in_a_unit_that_holds_it,
    law_units_hold_whichever_member_is_loaded, lemma_units_host, model_ids, FootprintView, UnitView,
};

verus! {

// ---- every model is accounted for -----------------------------------------------------------

/// The model is an alternative of a unit of a declared pack.
pub open spec fn in_some_pack(input: InputView, model: FootprintView) -> bool {
    exists|i: int, k: usize|
        0 <= i < input.packs().len() && k < input.light().len()
            && #[trigger] input.packs()[i].contains(k) && holds(input.light()[k as int], model)
}

/// The model is an alternative of a heavy unit that has a set of its own.
pub open spec fn in_some_heavy_set(input: InputView, model: FootprintView) -> bool {
    exists|k: int|
        0 <= k < input.heavies().len() && holds(#[trigger] input.heavies()[k], model)
            && input.heavy_sets(input.heavies().len()).contains(
            input.heavy_set(input.heavies()[k]),
        )
}

pub(crate) proof fn lemma_heavy_is_declared_or_excluded(input: InputView, bound: nat, k: int)
    requires
        0 <= k < bound <= input.heavies().len(),
    ensures
        !input.cannot_run(input.heavies()[k]) ==> input.heavy_sets(bound).contains(
            input.heavy_set(input.heavies()[k]),
        ),
        input.cannot_run(input.heavies()[k]) ==> forall|id: Seq<char>|
            #[trigger] input.heavies()[k].ids.contains(id) ==> input.heavy_excluded(
                bound,
            ).contains(id),
    decreases bound,
{
    let unit = input.heavies()[k];
    let last = input.heavies()[bound - 1];
    let sets = input.heavy_sets((bound - 1) as nat);
    let gone = input.heavy_excluded((bound - 1) as nat);
    if k < bound - 1 {
        lemma_heavy_is_declared_or_excluded(input, (bound - 1) as nat, k);
        if !input.cannot_run(unit) {
            let j = choose|j: int| 0 <= j < sets.len() && sets[j] == input.heavy_set(unit);
            assert(input.heavy_sets(bound)[j] == input.heavy_set(unit));
        } else {
            assert forall|id: Seq<char>| #[trigger] unit.ids.contains(id) implies input.heavy_excluded(
                bound,
            ).contains(id) by {
                let j = choose|j: int| 0 <= j < gone.len() && gone[j] == id;
                assert(input.heavy_excluded(bound)[j] == id);
            }
        }
    } else if !input.cannot_run(unit) {
        assert(input.heavy_sets(bound)[sets.len() as int] == input.heavy_set(unit));
    } else {
        assert forall|id: Seq<char>| #[trigger] unit.ids.contains(id) implies input.heavy_excluded(
            bound,
        ).contains(id) by {
            let j = choose|j: int| 0 <= j < unit.ids.len() && unit.ids[j] == id;
            assert(input.heavy_excluded(bound)[gone.len() + j] == id);
        }
    }
}

/// The model is in a set of the image pool.
pub open spec fn in_some_image_set(input: InputView, model: FootprintView) -> bool {
    exists|r: int|
        0 <= r < input.image_runs(input.images().len()).len() && (#[trigger] input.image_runs(
            input.images().len(),
        )[r]).contains(model)
}

proof fn lemma_image_is_in_a_run(input: InputView, bound: nat, i: int) -> (r: int)
    requires
        0 <= i < bound <= input.images().len(),
    ensures
        0 <= r < input.image_runs(bound).len(),
        input.image_runs(bound)[r].contains(input.images()[i]),
    decreases bound,
{
    let before = input.image_runs((bound - 1) as nat);
    let after = input.image_runs(bound);
    let image = input.images()[bound - 1];
    if i == bound - 1 {
        let last = after.len() - 1;
        assert(after[last][after[last].len() - 1] == image);
        last
    } else {
        let r = lemma_image_is_in_a_run(input, (bound - 1) as nat, i);
        let k = choose|k: int| 0 <= k < before[r].len() && before[r][k] == input.images()[i];
        assert(after[r][k] == input.images()[i]);
        r
    }
}

/// No model is lost: a ride-along is in the ride-along pool and an image in the image pool;
/// any other model is an alternative of a declared pack or of a heavy unit's set, or it
/// cannot run at all and is named as excluded.
pub proof fn law_every_model_is_declared_or_excluded(input: InputView, i: int)
    requires
        input.light().len() <= usize::MAX,
        input.no_room() is None,
        input.found().complete,
        0 <= i < input.models.len(),
    ensures
        match input.role(input.models[i]) {
            CostRole::Aux => input.aux().contains(input.models[i]),
            CostRole::Image => in_some_image_set(input, input.models[i]),
            CostRole::Llm => in_some_pack(input, input.models[i]) || in_some_heavy_set(
                input,
                input.models[i],
            ) || input.plan().excluded.contains(input.models[i].id),
        },
{
    let model = input.models[i];
    let role = input.role(model);
    let peers = input.in_role(role);
    lemma_filter(input.models, |m: FootprintView| input.role(m) == role);
    assert(peers.contains(model));
    if role == CostRole::Image {
        let j = choose|j: int| 0 <= j < peers.len() && peers[j] == model;
        let r = lemma_image_is_in_a_run(input, input.images().len(), j);
        assert(input.image_runs(input.images().len())[r].contains(model));
    }
    if role == CostRole::Llm {
        let units = input.units();
        let j = choose|j: int| 0 <= j < peers.len() && peers[j] == model;
        law_every_model_is_in_a_unit_that_holds_it(peers, input.policy, j);
        let u = choose|u: int| 0 <= u < units.len() && holds(#[trigger] units[u], model);
        let heavy = input.heavy(u);
        let places = input.positions(heavy, units.len());
        lemma_positions(input, heavy, units.len());
        assert(places.contains(u));
        let k = choose|k: int| 0 <= k < places.len() && places[k] == u;
        if heavy {
            assert(input.heavies()[k] == units[u]);
            lemma_heavy_is_declared_or_excluded(input, input.heavies().len(), k);
            if input.cannot_run(units[u]) {
                assert(input.heavies()[k].ids.contains(model.id));
            } else {
                assert(in_some_heavy_set(input, model));
            }
        } else {
            assert(input.light()[k] == units[u]);
            law_every_light_unit_is_declared(input, k as usize);
            let p = choose|p: int|
                0 <= p < input.packs().len() && (#[trigger] input.packs()[p]).contains(k as usize);
            assert(input.packs()[p].contains(k as usize));
            assert(in_some_pack(input, model));
        }
    }
}

/// Nothing of a roster is passed over: each model is planned with, or named as unmeasured or
/// as left out for want of confirmation.
pub proof fn law_every_record_is_planned_or_named(
    records: Seq<RecordView>,
    files: Seq<Option<StoreView>>,
    policy: PolicyView,
    bound: nat,
    i: int,
)
    requires
        records.len() == files.len(),
        0 <= i < bound <= records.len(),
    ensures
        ({
            let found = scan(records, files, policy, bound);
            model_ids(found.footprints).contains(records[i].id) || found.unmeasured.contains(
                records[i].id,
            ) || found.dropped.contains(records[i].id)
        }),
        footprint_in(records[i], files[i]) is None ==> scan(
            records,
            files,
            policy,
            bound,
        ).unmeasured.contains(records[i].id),
    decreases bound,
{
    let before = scan(records, files, policy, (bound - 1) as nat);
    let found = scan(records, files, policy, bound);
    let id = records[i].id;
    if i < bound - 1 {
        law_every_record_is_planned_or_named(records, files, policy, (bound - 1) as nat, i);
        if before.unmeasured.contains(id) {
            let j = choose|j: int| 0 <= j < before.unmeasured.len() && before.unmeasured[j] == id;
            assert(found.unmeasured[j] == id);
        } else if before.dropped.contains(id) {
            let j = choose|j: int| 0 <= j < before.dropped.len() && before.dropped[j] == id;
            assert(found.dropped[j] == id);
        } else {
            let ids = model_ids(before.footprints);
            let j = choose|j: int| 0 <= j < ids.len() && ids[j] == id;
            assert(found.footprints[j] == before.footprints[j]);
            assert(model_ids(found.footprints)[j] == id);
        }
    } else {
        match footprint_in(records[i], files[i]) {
            None => {
                assert(found.unmeasured[before.unmeasured.len() as int] == id);
            },
            Some(_) => {
                if found.footprints.len() > before.footprints.len() {
                    assert(model_ids(found.footprints)[before.footprints.len() as int] == id);
                } else {
                    assert(found.dropped[before.dropped.len() as int] == id);
                }
            },
        }
    }
}

// ---- eviction costs -------------------------------------------------------------------------

proof fn lemma_costs(input: InputView, bound: nat)
    requires
        bound <= input.models.len(),
    ensures
        forall|i: int|
            0 <= i < bound && !input.excluded().contains((#[trigger] input.models[i]).id)
                ==> input.evict_costs(bound).contains(
                (
                    input.models[i].id,
                    cost_of(
                        input.policy.evict_costs,
                        input.models[i].id,
                        input.role(input.models[i]),
                        input.image_pool(input.images().len()),
                    ),
                ),
            ),
        forall|k: int|
            0 <= k < input.evict_costs(bound).len() ==> {
                &&& !input.excluded().contains((#[trigger] input.evict_costs(bound)[k]).0)
                &&& model_ids(input.models).contains(input.evict_costs(bound)[k].0)
            },
    decreases bound,
{
    if bound > 0 {
        lemma_costs(input, (bound - 1) as nat);
        let before = input.evict_costs((bound - 1) as nat);
        let costs = input.evict_costs(bound);
        assert forall|i: int|
            0 <= i < bound && !input.excluded().contains(
                (#[trigger] input.models[i]).id,
            ) implies costs.contains(
            (
                input.models[i].id,
                cost_of(
                    input.policy.evict_costs,
                    input.models[i].id,
                    input.role(input.models[i]),
                    input.image_pool(input.images().len()),
                ),
            ),
        ) by {
            let entry = (
                input.models[i].id,
                cost_of(
                    input.policy.evict_costs,
                    input.models[i].id,
                    input.role(input.models[i]),
                    input.image_pool(input.images().len()),
                ),
            );
            if i < bound - 1 {
                let k = choose|k: int| 0 <= k < before.len() && before[k] == entry;
                assert(costs[k] == entry);
            } else {
                assert(costs[before.len() as int] == entry);
            }
        }
        assert forall|k: int| 0 <= k < costs.len() implies !input.excluded().contains(
            (#[trigger] costs[k]).0,
        ) && model_ids(input.models).contains(costs[k].0) by {
            if k < before.len() {
                assert(costs[k] == before[k]);
            } else {
                assert(model_ids(input.models)[bound - 1] == costs[k].0);
            }
        }
    }
}

/// Every model that can load is declared with the cost of its role, unless the policy sets
/// its own.
pub proof fn law_every_model_that_can_load_has_a_cost(input: InputView, i: int)
    requires
        0 <= i < input.models.len(),
        !input.plan().excluded.contains(input.models[i].id),
    ensures
        input.plan().evict_costs.contains(
            (
                input.models[i].id,
                cost_of(
                    input.policy.evict_costs,
                    input.models[i].id,
                    input.role(input.models[i]),
                    input.image_pool(input.images().len()),
                ),
            ),
        ),
{
    lemma_costs(input, input.models.len());
}

/// Only models that can load have a cost: none that is excluded, and none that is not in the
/// roster.
pub proof fn law_only_models_that_can_load_have_costs(input: InputView, k: int)
    requires
        0 <= k < input.plan().evict_costs.len(),
    ensures
        !input.plan().excluded.contains(input.plan().evict_costs[k].0),
        model_ids(input.models).contains(input.plan().evict_costs[k].0),
{
    lemma_costs(input, input.models.len());
}

// ---- any variant may load -------------------------------------------------------------------

proof fn lemma_distinct_kept(models: Seq<FootprintView>, pass: spec_fn(FootprintView) -> bool)
    requires
        distinct_ids(models),
    ensures
        distinct_ids(models.filter(pass)),
    decreases models.len(),
{
    reveal(Seq::filter);
    if models.len() > 0 {
        let fewer = models.drop_last();
        let before = fewer.filter(pass);
        let kept = models.filter(pass);
        assert(distinct_ids(fewer)) by {
            assert forall|i: int, j: int|
                0 <= i < fewer.len() && 0 <= j < fewer.len() && i != j implies (
            #[trigger] fewer[i]).id != (#[trigger] fewer[j]).id by {
                assert(models[i].id != models[j].id);
            }
        }
        lemma_distinct_kept(fewer, pass);
        lemma_filter(fewer, pass);
        assert forall|i: int| 0 <= i < before.len() implies (#[trigger] before[i]).id
            != models.last().id by {
            assert(fewer.contains(before[i]));
            let j = choose|j: int| 0 <= j < fewer.len() && fewer[j] == before[i];
            assert(models[j].id != models[models.len() - 1].id);
        }
        assert forall|i: int, j: int|
            0 <= i < kept.len() && 0 <= j < kept.len() && i != j implies (#[trigger] kept[i]).id
            != (#[trigger] kept[j]).id by {
            if i < before.len() && j < before.len() {
                assert(kept[i] == before[i] && kept[j] == before[j]);
                assert(before[i].id != before[j].id);
            } else if i < before.len() {
                assert(kept[i] == before[i]);
            } else {
                assert(kept[j] == before[j]);
            }
        }
    }
}

/// One of the models that a unit stands for.
pub open spec fn is_alternative(input: InputView, unit: UnitView, model: FootprintView) -> bool {
    input.in_role(CostRole::Llm).contains(model) && unit.ids.contains(model.id)
}

proof fn lemma_alternative_fits_its_unit(input: InputView, heavy: bool, k: int, model: FootprintView)
    requires
        distinct_ids(input.models),
        0 <= k < input.positions(heavy, input.units().len()).len(),
        is_alternative(
            input,
            input.units()[input.positions(heavy, input.units().len())[k]],
            model,
        ),
    ensures
        model.d_total <= input.units()[input.positions(heavy, input.units().len())[k]].size,
{
    let peers = input.in_role(CostRole::Llm);
    lemma_positions(input, heavy, input.units().len());
    lemma_distinct_kept(input.models, |m: FootprintView| input.role(m) == CostRole::Llm);
    let i = choose|i: int| 0 <= i < peers.len() && peers[i] == model;
    law_units_hold_whichever_member_is_loaded(
        peers,
        input.policy,
        input.positions(heavy, input.units().len())[k],
        i,
    );
}

proof fn lemma_loaded_total(units: Seq<UnitView>, loaded: Seq<FootprintView>)
    requires
        units.len() == loaded.len(),
        forall|k: int| 0 <= k < units.len() ==> #[trigger] loaded[k].d_total <= units[k].size,
    ensures
        models_total(loaded) <= units_total(units),
    decreases units.len(),
{
    if units.len() > 0 {
        let fewer = loaded.drop_last();
        assert forall|k: int| 0 <= k < fewer.len() implies #[trigger] fewer[k].d_total
            <= units.drop_last()[k].size by {
            assert(loaded[k].d_total <= units[k].size);
        }
        lemma_loaded_total(units.drop_last(), fewer);
        assert(loaded[units.len() - 1].d_total <= units[units.len() - 1].size);
    }
}

/// Whichever variants llama-swap loads of a declared pack, one of each unit, with every
/// ride-along resident too, the pool holds them.
pub proof fn law_any_variants_of_a_pack_fit(input: InputView, i: int, loaded: Seq<FootprintView>)
    requires
        distinct_ids(input.models),
        input.light().len() <= usize::MAX,
        0 <= i < input.packs().len(),
        loaded.len() == input.packs()[i].len(),
        forall|k: int|
            0 <= k < loaded.len() ==> is_alternative(
                input,
                input.pack_units(input.packs()[i])[k],
                #[trigger] loaded[k],
            ),
    ensures
        input.baseline + models_total(loaded) + input.aux_cost() <= input.ceiling(),
{
    let pack = input.packs()[i];
    let units = input.pack_units(pack);
    crate::laws::law_declared_packs_fit(input, i);
    assert forall|k: int| 0 <= k < loaded.len() implies #[trigger] loaded[k].d_total
        <= units[k].size by {
        assert(is_alternative(input, units[k], loaded[k]));
        assert(pack[k] < input.light().len());
        assert(input.light()[pack[k] as int] == input.units()[input.positions(
            false,
            input.units().len(),
        )[pack[k] as int]]);
        lemma_alternative_fits_its_unit(input, false, pack[k] as int, loaded[k]);
    }
    lemma_loaded_total(units, loaded);
    law_packs_fit(input, i);
}

/// Whichever variant of a light unit llama-swap loads beside the images declared with it, the
/// pool holds them and the ride-alongs.
pub proof fn law_any_variant_fits_beside_images(input: InputView, k: int, loaded: FootprintView)
    requires
        distinct_ids(input.models),
        0 <= k < input.light().len(),
        input.beside(input.light()[k]).len() > 0,
        is_alternative(input, input.light()[k], loaded),
    ensures
        input.baseline + loaded.d_total + input.aux_cost() + models_total(
            input.beside(input.light()[k]),
        ) <= input.ceiling(),
{
    lemma_alternative_fits_its_unit(input, false, k, loaded);
    law_mixed_sets_fit(input, input.light()[k]);
}

/// Whichever variant of a heavy unit llama-swap loads, the pool holds it with what is
/// declared beside it.
pub proof fn law_any_variant_of_a_heavy_fits(input: InputView, k: int, loaded: FootprintView)
    requires
        distinct_ids(input.models),
        0 <= k < input.heavies().len(),
        !input.cannot_run(input.heavies()[k]),
        is_alternative(input, input.heavies()[k], loaded),
    ensures
        ({
            let unit = input.heavies()[k];
            let images = input.images_fitting(input.room_beside_heavy(unit));
            input.baseline + loaded.d_total + input.reserved(unit) + models_total(images)
                <= input.ceiling()
        }),
{
    lemma_alternative_fits_its_unit(input, true, k, loaded);
    law_heavy_sets_fit(input, input.heavies()[k]);
}

// ---- references ------------------------------------------------------------------------------

pub(crate) proof fn lemma_named_over_cap(sets: Seq<SetView>, name: Seq<char>)
    requires
        names_over_cap(sets).contains(name),
    ensures
        exists|j: int|
            0 <= j < sets.len() && (#[trigger] sets[j]).name == name && sets[j].fanout > FANOUT_CAP,
    decreases sets.len(),
{
    let fewer = sets.drop_last();
    let names = names_over_cap(sets);
    let before = names_over_cap(fewer);
    let k = choose|k: int| 0 <= k < names.len() && names[k] == name;
    if k < before.len() {
        assert(before[k] == name);
        lemma_named_over_cap(fewer, name);
        let j = choose|j: int|
            0 <= j < fewer.len() && (#[trigger] fewer[j]).name == name && fewer[j].fanout
                > FANOUT_CAP;
        assert(sets[j].name == name);
    } else {
        assert(sets[sets.len() - 1].name == name);
    }
}

pub(crate) proof fn lemma_over_host(sets: Seq<SetView>, ceiling: int)
    ensures
        forall|k: int|
            0 <= k < over_host(sets, ceiling).len() ==> exists|j: int|
                0 <= j < sets.len() && (#[trigger] sets[j]).name == (#[trigger] over_host(
                    sets,
                    ceiling,
                )[k]).0 && sets[j].host_footprint is Some && sets[j].host_footprint->0 > ceiling,
        forall|j: int|
            0 <= j < sets.len() && (#[trigger] sets[j]).host_footprint is Some
                && sets[j].host_footprint->0 > ceiling ==> over_host(sets, ceiling).contains(
                (sets[j].name, sets[j].host_footprint->0),
            ),
    decreases sets.len(),
{
    if sets.len() > 0 {
        let fewer = sets.drop_last();
        let before = over_host(fewer, ceiling);
        let over = over_host(sets, ceiling);
        lemma_over_host(fewer, ceiling);
        assert forall|k: int| 0 <= k < over.len() implies exists|j: int|
            0 <= j < sets.len() && (#[trigger] sets[j]).name == (#[trigger] over[k]).0
                && sets[j].host_footprint is Some && sets[j].host_footprint->0 > ceiling by {
            if k < before.len() {
                assert(over[k] == before[k]);
                let j = choose|j: int|
                    0 <= j < fewer.len() && (#[trigger] fewer[j]).name == before[k].0
                        && fewer[j].host_footprint is Some && fewer[j].host_footprint->0 > ceiling;
                assert(sets[j] == fewer[j]);
            } else {
                assert(sets[sets.len() - 1].name == over[k].0);
            }
        }
        assert forall|j: int|
            0 <= j < sets.len() && (#[trigger] sets[j]).host_footprint is Some
                && sets[j].host_footprint->0 > ceiling implies over.contains(
            (sets[j].name, sets[j].host_footprint->0),
        ) by {
            let entry = (sets[j].name, sets[j].host_footprint->0);
            if j < fewer.len() {
                assert(fewer[j] == sets[j]);
                let k = choose|k: int| 0 <= k < before.len() && before[k] == entry;
                assert(over[k] == entry);
            } else {
                assert(over[before.len() as int] == entry);
            }
        }
    }
}

/// No other set that the roster calls for has this one's name.
pub open spec fn has_its_name_alone(input: InputView, a: int) -> bool {
    forall|j: int|
        0 <= j < input.all_sets().len() && j != a ==> (#[trigger] input.all_sets()[j]).name
            != input.all_sets()[a].name
}

/// No guard leaves out a set that costs no more than one that is declared.
pub proof fn law_guards_keep_what_costs_no_more(input: InputView, a: int, b: int)
    requires
        0 <= a < input.all_sets().len(),
        0 <= b < input.all_sets().len(),
        has_its_name_alone(input, a),
        input.all_sets()[a].fanout > FANOUT_CAP ==> input.all_sets()[b].fanout > FANOUT_CAP,
        match (input.all_sets()[a].host_footprint, input.all_sets()[b].host_footprint) {
            (Some(x), Some(y)) => x <= y,
            (None, _) => true,
            (Some(_), None) => false,
        },
        input.sets().contains(input.all_sets()[b]),
    ensures
        input.sets().contains(input.all_sets()[a]),
{
    let all = input.all_sets();
    let kept = input.kept_sets();
    let capped = names_over_cap(all);
    let pass = |s: SetView| !capped.contains(s.name);
    lemma_filter(all, pass);
    let over = Seq::new(input.host_over().len(), |k: int| input.host_over()[k].0);
    let stays = |s: SetView| !over.contains(s.name);
    lemma_filter(kept, stays);
    assert(kept.contains(all[b])) by {
        let k = choose|k: int| 0 <= k < input.sets().len() && input.sets()[k] == all[b];
        law_guards_only_leave_out(input, k);
    }
    let at = choose|k: int| 0 <= k < kept.len() && kept[k] == all[b];
    assert(pass(kept[at]));
    if capped.contains(all[a].name) {
        lemma_named_over_cap(all, all[a].name);
        lemma_over_cap_named(all, b);
    }
    assert(pass(all[a]));
    assert(kept.contains(all[a]));
    let here = choose|k: int| 0 <= k < kept.len() && kept[k] == all[a];
    if input.host_over().len() > 0 && input.policy.on_host_overflow == OnHostOverflow::Exclude {
        let ceiling = input.host_ceiling()->0;
        lemma_over_host(kept, ceiling);
        if over.contains(all[a].name) {
            let k = choose|k: int| 0 <= k < over.len() && over[k] == all[a].name;
            assert(input.host_over()[k].0 == all[a].name);
            assert(over_host(kept, ceiling)[k].0 == all[a].name);
            let j = choose|j: int|
                0 <= j < kept.len() && (#[trigger] kept[j]).name == over_host(kept, ceiling)[k].0
                    && kept[j].host_footprint is Some && kept[j].host_footprint->0 > ceiling;
            assert(all.contains(kept[j]));
            let o = choose|o: int| 0 <= o < all.len() && all[o] == kept[j];
            assert(o == a);
            assert(kept[at].host_footprint is Some && kept[at].host_footprint->0 > ceiling);
            let entry = (kept[at].name, kept[at].host_footprint->0);
            assert(input.host_over().contains(entry));
            let m = choose|m: int|
                0 <= m < input.host_over().len() && input.host_over()[m] == entry;
            assert(over[m] == all[b].name);
            let s = choose|s: int| 0 <= s < input.sets().len() && input.sets()[s] == all[b];
            assert(stays(input.sets()[s]));
        }
        assert(stays(kept[here]));
    }
}

/// No model's host cost is below zero.
pub open spec fn sound_hosts(models: Seq<FootprintView>) -> bool {
    forall|i: int| 0 <= i < models.len() ==> known_host((#[trigger] models[i]).host_gb) >= 0
}

proof fn lemma_models_host_positive(models: Seq<FootprintView>)
    requires
        sound_hosts(models),
    ensures
        models_host(models) >= 0,
    decreases models.len(),
{
    if models.len() > 0 {
        let fewer = models.drop_last();
        assert(sound_hosts(fewer)) by {
            assert forall|i: int| 0 <= i < fewer.len() implies known_host(
                (#[trigger] fewer[i]).host_gb,
            ) >= 0 by {
                assert(known_host(models[i].host_gb) >= 0);
            }
        }
        lemma_models_host_positive(fewer);
        assert(known_host(models[models.len() - 1].host_gb) >= 0);
    }
}

proof fn lemma_light_host(input: InputView, k: int)
    requires
        0 <= k < input.light().len(),
    ensures
        known_host(input.light()[k].host_size) >= 0,
{
    let place = input.positions(false, input.units().len())[k];
    lemma_positions(input, false, input.units().len());
    if input.units()[place].host_size is Some {
        lemma_units_host(input.in_role(CostRole::Llm), input.policy, place);
    }
}

proof fn lemma_heavy_host(input: InputView, k: int)
    requires
        0 <= k < input.heavies().len(),
    ensures
        known_host(input.heavies()[k].host_size) >= 0,
{
    let place = input.positions(true, input.units().len())[k];
    lemma_positions(input, true, input.units().len());
    if input.units()[place].host_size is Some {
        lemma_units_host(input.in_role(CostRole::Llm), input.policy, place);
    }
}

proof fn lemma_greedy_host(models: Seq<FootprintView>, room: Room)
    requires
        sound_hosts(models),
    ensures
        models_host(greedy(models, room)) >= 0,
    decreases models.len(),
{
    if models.len() > 0 {
        let fewer = models.drop_last();
        assert(sound_hosts(fewer)) by {
            assert forall|i: int| 0 <= i < fewer.len() implies known_host(
                (#[trigger] fewer[i]).host_gb,
            ) >= 0 by {
                assert(known_host(models[i].host_gb) >= 0);
            }
        }
        lemma_greedy_host(fewer, room);
        let before = greedy(fewer, room);
        assert(before.push(models.last()).drop_last() =~= before);
        assert(known_host(models[models.len() - 1].host_gb) >= 0);
    }
}

proof fn lemma_images_fitting_host(input: InputView, room: Room)
    requires
        sound_hosts(input.models),
    ensures
        models_host(input.images_fitting(room)) >= 0,
        sound_hosts(input.images()),
{
    let images = input.images();
    let sorted = sort_by(images, smaller_first());
    lemma_filter(input.models, |m: FootprintView| input.role(m) == CostRole::Image);
    assert forall|i: int| 0 <= i < images.len() implies known_host((#[trigger] images[i]).host_gb)
        >= 0 by {
        assert(input.models.contains(images[i]));
    }
    lemma_sort_keeps(images, smaller_first());
    assert forall|i: int| 0 <= i < sorted.len() implies known_host((#[trigger] sorted[i]).host_gb)
        >= 0 by {
        assert(sorted.contains(sorted[i]));
        assert(images.contains(sorted[i]));
    }
    lemma_greedy_host(sorted, room);
}

proof fn lemma_run_host(input: InputView, bound: nat, r: int)
    requires
        sound_hosts(input.images()),
        bound <= input.images().len(),
        0 <= r < input.image_runs(bound).len(),
    ensures
        models_host(input.image_runs(bound)[r]) >= 0,
    decreases bound,
{
    let before = input.image_runs((bound - 1) as nat);
    let image = input.images()[bound - 1];
    let run = input.image_runs(bound)[r];
    assert(known_host(image.host_gb) >= 0);
    if r < before.len() {
        lemma_run_host(input, (bound - 1) as nat, r);
        assert(before[r].push(image).drop_last() =~= before[r]);
    } else {
        assert(seq![image].drop_last() =~= Seq::<FootprintView>::empty());
        assert(models_host(seq![image].drop_last()) == 0);
    }
}

proof fn lemma_pack_host(units: Seq<UnitView>, k: int)
    requires
        0 <= k < units.len(),
        forall|i: int| 0 <= i < units.len() ==> known_host((#[trigger] units[i]).host_size) >= 0,
    ensures
        known_host(units[k].host_size) <= units_host(units),
        0 <= units_host(units),
        0 <= units_host(units.drop_last()),
    decreases units.len(),
{
    let fewer = units.drop_last();
    assert forall|i: int| 0 <= i < fewer.len() implies known_host((#[trigger] fewer[i]).host_size)
        >= 0 by {
        assert(known_host(units[i].host_size) >= 0);
    }
    assert(known_host(units[units.len() - 1].host_size) >= 0);
    if fewer.len() > 0 {
        lemma_pack_host(fewer, if k < fewer.len() { k } else { 0 });
    }
}

proof fn lemma_pack_fanout(units: Seq<UnitView>, k: int)
    requires
        0 <= k < units.len(),
    ensures
        units_fanout(units) >= 1,
        unit_fanout(units[k]) > FANOUT_CAP ==> units_fanout(units) > FANOUT_CAP,
    decreases units.len(),
{
    let fewer = units.drop_last();
    let before = units_fanout(fewer);
    let last = unit_fanout(units.last());
    if fewer.len() > 0 {
        lemma_pack_fanout(fewer, if k < fewer.len() { k } else { 0 });
    }
    assert(before >= 1 && last >= 1);
    assert(before * last >= before && before * last >= last) by (nonlinear_arith)
        requires
            before >= 1,
            last >= 1,
    ;
}

/// No two sets that the roster calls for have the same name.
pub open spec fn distinct_names(input: InputView) -> bool {
    forall|i: int, j: int|
        0 <= i < input.all_sets().len() && 0 <= j < input.all_sets().len() && i != j ==> (
        #[trigger] input.all_sets()[i]).name != (#[trigger] input.all_sets()[j]).name
}

proof fn lemma_helper_called_for(input: InputView, bound: nat, k: int)
    requires
        0 <= k < bound <= input.light().len(),
        input.light()[k].ids.len() > 1,
    ensures
        input.helper_sets(bound).contains(input.helper_set(input.light()[k])),
    decreases bound,
{
    let before = input.helper_sets((bound - 1) as nat);
    let helper = input.helper_set(input.light()[k]);
    if k < bound - 1 {
        lemma_helper_called_for(input, (bound - 1) as nat, k);
        let j = choose|j: int| 0 <= j < before.len() && before[j] == helper;
        assert(input.helper_sets(bound)[j] == helper);
    } else {
        assert(input.helper_sets(bound)[before.len() as int] == helper);
    }
}

pub(crate) proof fn lemma_called_for(input: InputView, set: SetView)
    ensures
        input.aux_sets().contains(set) || input.helper_sets(input.light().len()).contains(set)
            || input.image_sets().contains(set) || input.pack_sets().contains(set)
            || input.mixed_sets(input.light().len()).contains(set) || input.heavy_sets(
            input.heavies().len(),
        ).contains(set) ==> input.all_sets().contains(set),
{
    let a = input.aux_sets();
    let b = input.helper_sets(input.light().len());
    let c = input.image_sets();
    let d = input.pack_sets();
    let e = input.mixed_sets(input.light().len());
    let f = input.heavy_sets(input.heavies().len());
    let all = input.all_sets();
    if a.contains(set) {
        let j = choose|j: int| 0 <= j < a.len() && a[j] == set;
        assert(all[j] == set);
    } else if b.contains(set) {
        let j = choose|j: int| 0 <= j < b.len() && b[j] == set;
        assert(all[a.len() + j] == set);
    } else if c.contains(set) {
        let j = choose|j: int| 0 <= j < c.len() && c[j] == set;
        assert(all[a.len() + b.len() + j] == set);
    } else if d.contains(set) {
        let j = choose|j: int| 0 <= j < d.len() && d[j] == set;
        assert(all[a.len() + b.len() + c.len() + j] == set);
    } else if e.contains(set) {
        let j = choose|j: int| 0 <= j < e.len() && e[j] == set;
        assert(all[a.len() + b.len() + c.len() + d.len() + j] == set);
    } else if f.contains(set) {
        let j = choose|j: int| 0 <= j < f.len() && f[j] == set;
        assert(all[a.len() + b.len() + c.len() + d.len() + e.len() + j] == set);
    }
}

/// A set that refers to a helper set is not declared without it: of a declared pack, the
/// helper of each unit with variants is declared.
pub proof fn law_packs_keep_their_helpers(input: InputView, i: int, k: usize)
    requires
        input.light().len() <= usize::MAX,
        distinct_names(input),
        0 <= i < input.packs().len(),
        input.packs()[i].contains(k),
        input.light()[k as int].ids.len() > 1,
        input.sets().contains(input.pack_set(i)),
    ensures
        input.sets().contains(input.helper_set(input.light()[k as int])),
{
    let pack = input.packs()[i];
    let units = input.pack_units(pack);
    let helper = input.helper_set(input.light()[k as int]);
    crate::laws::law_declared_packs_fit(input, i);
    let at = choose|at: int| 0 <= at < pack.len() && pack[at] == k;
    assert(k < input.light().len());
    assert(units[at] == input.light()[k as int]);
    assert forall|u: int| 0 <= u < units.len() implies known_host((#[trigger] units[u]).host_size)
        >= 0 by {
        assert(pack[u] < input.light().len());
        lemma_light_host(input, pack[u] as int);
    }
    lemma_pack_host(units, at);
    lemma_pack_fanout(units, at);
    lemma_helper_called_for(input, input.light().len(), k as int);
    lemma_called_for(input, helper);
    assert(input.pack_sets()[i] == input.pack_set(i));
    lemma_called_for(input, input.pack_set(i));
    let all = input.all_sets();
    let a = choose|a: int| 0 <= a < all.len() && all[a] == helper;
    let b = choose|b: int| 0 <= b < all.len() && all[b] == input.pack_set(i);
    assert(has_its_name_alone(input, a)) by {
        assert forall|j: int| 0 <= j < all.len() && j != a implies (#[trigger] all[j]).name
            != all[a].name by {}
    }
    law_guards_keep_what_costs_no_more(input, a, b);
}

pub(crate) proof fn lemma_mixed_called_for(input: InputView, bound: nat, k: int)
    requires
        0 <= k < bound <= input.light().len(),
        input.beside(input.light()[k]).len() > 0,
    ensures
        input.mixed_sets(bound).contains(input.mixed_set(input.light()[k])),
    decreases bound,
{
    let before = input.mixed_sets((bound - 1) as nat);
    let mixed = input.mixed_set(input.light()[k]);
    if k < bound - 1 {
        lemma_mixed_called_for(input, (bound - 1) as nat, k);
        let j = choose|j: int| 0 <= j < before.len() && before[j] == mixed;
        assert(input.mixed_sets(bound)[j] == mixed);
    } else {
        assert(input.mixed_sets(bound)[before.len() as int] == mixed);
    }
}

/// The same of the set of a unit with variants and the images beside it.
pub proof fn law_mixed_sets_keep_their_helpers(input: InputView, k: int)
    requires
        distinct_names(input),
        sound_hosts(input.models),
        0 <= k < input.light().len(),
        input.light()[k].ids.len() > 1,
        input.beside(input.light()[k]).len() > 0,
        input.sets().contains(input.mixed_set(input.light()[k])),
    ensures
        input.sets().contains(input.helper_set(input.light()[k])),
{
    let unit = input.light()[k];
    let helper = input.helper_set(unit);
    let mixed = input.mixed_set(unit);
    lemma_images_fitting_host(input, input.room_beside(unit));
    lemma_helper_called_for(input, input.light().len(), k);
    lemma_called_for(input, helper);
    lemma_mixed_called_for(input, input.light().len(), k);
    lemma_called_for(input, mixed);
    let all = input.all_sets();
    let a = choose|a: int| 0 <= a < all.len() && all[a] == helper;
    let b = choose|b: int| 0 <= b < all.len() && all[b] == mixed;
    assert(has_its_name_alone(input, a)) by {
        assert forall|j: int| 0 <= j < all.len() && j != a implies (#[trigger] all[j]).name
            != all[a].name by {}
    }
    law_guards_keep_what_costs_no_more(input, a, b);
}

/// A set that refers to the ride-along pool: the image pool, a pack, a unit with images, or a
/// heavy unit that the ride-alongs fit beside.
pub open spec fn refers_to_aux(input: InputView, set: SetView) -> bool {
    ||| input.image_sets().contains(set)
    ||| exists|i: int| 0 <= i < input.packs().len() && set == #[trigger] input.pack_set(i)
    ||| exists|k: int|
        0 <= k < input.light().len() && input.beside(input.light()[k]).len() > 0 && set
            == input.mixed_set(#[trigger] input.light()[k])
    ||| exists|k: int|
        0 <= k < input.heavies().len() && !input.cannot_run(input.heavies()[k]) && input.keeps_aux(
            input.heavies()[k],
        ) && set == input.heavy_set(#[trigger] input.heavies()[k])
}

/// No dangling reference: where the ride-alongs are referred to, their pool is declared.
pub proof fn law_aux_is_declared_where_it_is_referred_to(input: InputView, set: SetView)
    requires
        input.light().len() <= usize::MAX,
        distinct_names(input),
        sound_hosts(input.models),
        input.aux().len() > 0,
        refers_to_aux(input, set),
        input.sets().contains(set),
    ensures
        input.sets().contains(input.aux_sets()[0]),
{
    let all = input.all_sets();
    assert(all[0] == input.aux_sets()[0]);
    lemma_images_fitting_host(input, Room { free: 0, models: None, caches: None });
    assert(input.host is Some ==> set.host_footprint is Some && set.host_footprint->0
        >= all[0].host_footprint->0) by {
        if input.image_sets().contains(set) {
            let r = choose|r: int| 0 <= r < input.image_sets().len() && input.image_sets()[r] == set;
            lemma_run_host(input, input.images().len(), r);
        } else if exists|i: int| 0 <= i < input.packs().len() && set == #[trigger] input.pack_set(i) {
            let i = choose|i: int|
                0 <= i < input.packs().len() && set == #[trigger] input.pack_set(i);
            let pack = input.packs()[i];
            let units = input.pack_units(pack);
            crate::laws::law_declared_packs_fit(input, i);
            assert forall|u: int| 0 <= u < units.len() implies known_host(
                (#[trigger] units[u]).host_size,
            ) >= 0 by {
                assert(pack[u] < input.light().len());
                lemma_light_host(input, pack[u] as int);
            }
            if units.len() > 0 {
                lemma_pack_host(units, 0);
            }
        } else if exists|k: int|
            0 <= k < input.light().len() && input.beside(input.light()[k]).len() > 0 && set
                == input.mixed_set(#[trigger] input.light()[k]) {
            let k = choose|k: int|
                0 <= k < input.light().len() && input.beside(input.light()[k]).len() > 0 && set
                    == input.mixed_set(#[trigger] input.light()[k]);
            let unit = input.light()[k];
            lemma_light_host(input, k);
            lemma_images_fitting_host(input, input.room_beside(unit));
        } else {
            let k = choose|k: int|
                0 <= k < input.heavies().len() && !input.cannot_run(input.heavies()[k])
                    && input.keeps_aux(input.heavies()[k]) && set == input.heavy_set(
                    #[trigger] input.heavies()[k],
                );
            let unit = input.heavies()[k];
            lemma_heavy_host(input, k);
            lemma_images_fitting_host(input, input.room_beside_heavy(unit));
        }
    }
    let s = choose|s: int| 0 <= s < input.sets().len() && input.sets()[s] == set;
    law_guards_only_leave_out(input, s);
    let b = choose|b: int| 0 <= b < all.len() && all[b] == set;
    assert(has_its_name_alone(input, 0)) by {
        assert forall|j: int| 0 <= j < all.len() && j != 0 implies (#[trigger] all[j]).name
            != all[0].name by {}
    }
    law_guards_keep_what_costs_no_more(input, 0, b);
}

/// Without ride-alongs no set refers to them, and none is declared of that kind.
pub proof fn law_without_ride_alongs_none_is_referred_to(input: InputView)
    requires
        input.aux().len() == 0,
    ensures
        input.aux_reference().len() == 0,
        input.aux_sets().len() == 0,
        forall|unit: UnitView| !#[trigger] input.keeps_aux(unit),
{
}

// ---- evidence and policy --------------------------------------------------------------------

/// A plan made from a roster and its files keeps the promise: every set it declares fits
/// under its ceiling, and within the cap.
pub proof fn law_every_resolved_set_fits(
    records: Seq<RecordView>,
    files: Seq<Option<StoreView>>,
    policy: PolicyView,
    meta: BoxView,
    budget: i64,
    i: int,
)
    requires
        ({
            let found = scan(records, files, policy, records.len());
            let input = resolved_input(found, policy, meta, budget);
            let plan = with_alternatives(
                with_evidence(input.plan(), found, policy, meta),
                input,
                alternatives(records, files, policy, records.len()),
            );
            input.refusal() is None && 0 <= i < plan.sets.len()
        }),
    ensures
        ({
            let found = scan(records, files, policy, records.len());
            let input = resolved_input(found, policy, meta, budget);
            let plan = with_alternatives(
                with_evidence(input.plan(), found, policy, meta),
                input,
                alternatives(records, files, policy, records.len()),
            );
            plan.sets[i].footprint <= plan.ceiling && plan.sets[i].fanout <= FANOUT_CAP
        }),
{
    let found = scan(records, files, policy, records.len());
    let input = resolved_input(found, policy, meta, budget);
    law_every_declared_set_fits(input, i);
    law_every_declared_set_is_within_the_cap(input, i);
}

/// Unless the policy only warns of it, no declared set costs more host memory than there is.
pub proof fn law_no_declared_set_overflows_the_host(input: InputView, i: int)
    requires
        input.policy.on_host_overflow != OnHostOverflow::Warn,
        input.refusal() is None,
        input.host_ceiling() is Some,
        0 <= i < input.plan().sets.len(),
        input.plan().sets[i].host_footprint is Some,
    ensures
        input.plan().sets[i].host_footprint->0 <= input.host_ceiling()->0,
{
    let kept = input.kept_sets();
    let ceiling = input.host_ceiling()->0;
    let set = input.sets()[i];
    let over = Seq::new(input.host_over().len(), |k: int| input.host_over()[k].0);
    law_guards_only_leave_out(input, i);
    lemma_over_host(kept, ceiling);
    let at = choose|at: int| 0 <= at < kept.len() && kept[at] == set;
    lemma_filter(kept, |s: SetView| !over.contains(s.name));
    if set.host_footprint->0 > ceiling {
        assert(kept[at].host_footprint is Some && kept[at].host_footprint->0 > ceiling);
        let entry = (kept[at].name, kept[at].host_footprint->0);
        assert(input.host_over().contains(entry));
        let m = choose|m: int| 0 <= m < input.host_over().len() && input.host_over()[m] == entry;
        assert(over[m] == set.name);
        assert(!over.contains(input.sets()[i].name));
    }
}

/// Where the policy excludes what was never confirmed, every footprint that is planned with
/// was confirmed, or is a proxy's, which never loads.
pub proof fn law_excluding_the_unconfirmed_leaves_none(
    records: Seq<RecordView>,
    files: Seq<Option<StoreView>>,
    policy: PolicyView,
    bound: nat,
    k: int,
)
    requires
        records.len() == files.len(),
        bound <= records.len(),
        policy.on_unconfirmed == OnUnconfirmed::Exclude,
        0 <= k < scan(records, files, policy, bound).footprints.len(),
    ensures
        exists|i: int|
            0 <= i < bound && (#[trigger] records[i]).id == scan(
                records,
                files,
                policy,
                bound,
            ).footprints[k].id && footprint_in(records[i], files[i]) is Some
                && !lacks_confirmation(records[i], footprint_in(records[i], files[i])->0),
    decreases bound,
{
    if bound > 0 {
        let before = scan(records, files, policy, (bound - 1) as nat);
        let found = scan(records, files, policy, bound);
        if k < before.footprints.len() {
            assert(found.footprints[k] == before.footprints[k]);
            law_excluding_the_unconfirmed_leaves_none(
                records,
                files,
                policy,
                (bound - 1) as nat,
                k,
            );
        } else {
            assert(records[bound - 1].id == found.footprints[k].id);
        }
    }
}

/// A list of ride-alongs or images in the policy is complete: it takes in models of any type,
/// and leaves out those it does not name.
pub proof fn law_a_listed_role_is_complete(input: InputView, model: FootprintView)
    ensures
        input.policy.aux.len() > 0 ==> (input.role(model) == CostRole::Aux
            <==> input.policy.aux.contains(model.id)),
        input.policy.images.len() > 0 ==> (input.role(model) == CostRole::Image
            <==> input.policy.images.contains(model.id) && !input.is_aux(model)),
{
}

} // verus!
