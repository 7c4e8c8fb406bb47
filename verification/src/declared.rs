//! What the sets of a plan load and count, by kind: who rides along, what a set holds and costs,
//! whom its expression names, and which sets the guards leave out.

use vstd::prelude::*;
use vstd::string::*;

use crate::choices::{in_order, law_as_many_images_as_fit, picked, sound_sizes};
use crate::coverage::{
    has_its_name_alone, law_every_model_that_can_load_has_a_cost, lemma_called_for,
    lemma_heavy_is_declared_or_excluded, lemma_mixed_called_for, lemma_named_over_cap,
    lemma_over_host,
};
use crate::laws::{
    law_every_declared_set_is_within_the_cap, law_guards_only_leave_out, lemma_light_fits,
    lemma_positions,
};
use crate::model::ModelType;
use crate::number::{digits, gb1};
use crate::plan::{
    cache_holders, cap_warnings, count_prefixed, first_over_cap, first_unsafe, greedy,
    host_advice_text, host_need_text, known_host, listed, models_host, models_total, names_over_cap,
    no_aux_text, over_cap_text, over_host, smaller_first, sort_by, too_large_text, truncated_text,
    unit_fanout, units_fanout, units_host, units_total, unknown_costs_text, InputView, Room,
    SetView, FANOUT_CAP,
};
use crate::policy::{CostRole, OnHostOverflow, OnOverflow};
use crate::text::{ends, joined, law_a_text_holds_its_parts, lemma_filter, occurs_in, starts};
use crate::units::{model_ids, FootprintView, UnitView};

verus! {

// ---- roles --------------------------------------------------------------------------------

/// Where the policy lists no ride-alongs and no images, a model's type is its role: the small
/// helpers ride along, pictures are the image pool, and every other model is one to converse
/// with.
pub proof fn law_roles_follow_the_types(input: InputView, model: FootprintView)
    requires
        input.policy.aux.len() == 0,
        input.policy.images.len() == 0,
    ensures
        model.model_type == ModelType::Embed ==> input.role(model) == CostRole::Aux,
        model.model_type == ModelType::Rerank ==> input.role(model) == CostRole::Aux,
        model.model_type == ModelType::Stt ==> input.role(model) == CostRole::Aux,
        model.model_type == ModelType::TtsProxy ==> input.role(model) == CostRole::Aux,
        model.model_type == ModelType::Image ==> input.role(model) == CostRole::Image,
        model.model_type == ModelType::Llm ==> input.role(model) == CostRole::Llm,
{
}

/// Every model of a roster has one role, and is among the models of that role and of no other.
pub proof fn law_every_model_has_one_role(input: InputView, i: int, role: CostRole)
    requires
        0 <= i < input.models.len(),
    ensures
        input.in_role(role).contains(input.models[i]) <==> input.role(input.models[i]) == role,
{
    let model = input.models[i];
    let peers = input.in_role(role);
    lemma_filter(input.models, |m: FootprintView| input.role(m) == role);
    if peers.contains(model) {
        let k = choose|k: int| 0 <= k < peers.len() && peers[k] == model;
        assert(input.role(peers[k]) == role);
    }
}

// ---- what a set counts ----------------------------------------------------------------------

/// A pack counts what the empty pool holds, each of its units and every ride-along; on the host
/// likewise, where the host is checked.
pub proof fn law_a_pack_counts_all_it_loads(input: InputView, i: int)
    requires
        0 <= i < input.packs().len(),
    ensures
        ({
            let members = input.pack_units(input.packs()[i]);
            &&& input.pack_set(i).footprint == input.baseline + units_total(members) + models_total(
                input.aux(),
            )
            &&& input.pack_set(i).host_footprint == match input.host {
                Some(host) => Some(
                    host.baseline + units_host(members) + models_host(input.aux()),
                ),
                None => None,
            }
        }),
{
}

/// A unit with images counts the unit, the images and every ride-along.
pub proof fn law_a_mixed_set_counts_all_it_loads(input: InputView, unit: UnitView)
    ensures
        input.mixed_set(unit).footprint == input.baseline + unit.size + models_total(
            input.beside(unit),
        ) + models_total(input.aux()),
        input.mixed_set(unit).host_footprint == match input.host {
            Some(host) => Some(
                host.baseline + known_host(unit.host_size) + models_host(input.beside(unit))
                    + models_host(input.aux()),
            ),
            None => None,
        },
{
}

/// The ride-along pool counts every ride-along, and without caps the image pool every image and
/// every ride-along.
pub proof fn law_the_pools_count_all_they_load(input: InputView)
    requires
        input.is_uncapped(),
    ensures
        input.aux().len() > 0 ==> input.aux_sets().len() == 1 && input.aux_sets()[0].footprint
            == input.baseline + models_total(input.aux()) && input.aux_sets()[0].host_footprint
            == match input.host {
            Some(host) => Some(host.baseline + models_host(input.aux())),
            None => None,
        },
        input.images().len() > 0 ==> input.image_sets().len() == 1
            && input.image_sets()[0].footprint == input.baseline + models_total(input.images())
            + models_total(input.aux()) && input.image_sets()[0].host_footprint == match input.host {
            Some(host) => Some(
                host.baseline + models_host(input.images()) + models_host(input.aux()),
            ),
            None => None,
        },
        input.images().len() > 0 ==> input.image_sets()[0].expr == joined(
            model_ids(input.images()),
            " & "@,
        ) + (if input.aux().len() > 0 {
            " & +aux"@
        } else {
            Seq::empty()
        }),
        input.aux().len() > 0 ==> input.aux_sets()[0].expr == joined(
            model_ids(input.aux()),
            " & "@,
        ),
{
    lemma_one_run(input, input.images().len());
    assert(input.images().take(input.images().len() as int) =~= input.images());
}

proof fn lemma_one_run(input: InputView, bound: nat)
    requires
        input.is_uncapped(),
        bound <= input.images().len(),
    ensures
        input.image_runs(bound) == if bound == 0 {
            Seq::<Seq<FootprintView>>::empty()
        } else {
            seq![input.images().take(bound as int)]
        },
    decreases bound,
{
    if bound > 0 {
        lemma_one_run(input, (bound - 1) as nat);
        let images = input.images();
        if bound > 1 {
            let before = seq![images.take(bound - 1)];
            assert(before.drop_last() =~= Seq::<Seq<FootprintView>>::empty());
            assert(images.take(bound as int) =~= images.take(bound - 1).push(images[bound - 1]));
            assert(before.drop_last().push(images.take(bound as int)) =~= seq![
                images.take(bound as int),
            ]);
        } else {
            assert(images.take(1) =~= seq![images[0]]);
            assert(input.image_runs(1) =~= seq![images.take(1)]);
        }
    }
}

/// The set of a heavy unit counts the unit, the images declared with it, and the ride-alongs
/// exactly where they fit beside it.
pub proof fn law_a_heavy_set_counts_all_it_loads(input: InputView, unit: UnitView)
    ensures
        ({
            let images = input.images_fitting(input.room_beside_heavy(unit));
            let along = input.aux().len() > 0 && input.baseline + unit.size + models_total(
                input.aux(),
            ) <= input.budget - input.policy.margin;
            let set = input.heavy_set(unit);
            &&& along ==> set.footprint == input.baseline + unit.size + models_total(images)
                + models_total(input.aux())
            &&& !along ==> set.footprint == input.baseline + unit.size + models_total(images)
            &&& input.host is Some && along ==> set.host_footprint == Some(
                input.host->0.baseline + known_host(unit.host_size) + models_host(images)
                    + models_host(input.aux()),
            )
            &&& input.host is Some && !along ==> set.host_footprint == Some(
                input.host->0.baseline + known_host(unit.host_size) + models_host(images),
            )
            &&& along ==> ends(set.expr, " & +aux"@)
        }),
{
    let set = input.heavy_set(unit);
    if input.keeps_aux(unit) {
        let at = set.expr.len() - " & +aux"@.len();
        assert(set.expr.subrange(at, set.expr.len() as int) =~= " & +aux"@);
    }
}

// ---- whom a set names -----------------------------------------------------------------------

/// How an expression refers to a unit: by its only id, or by the helper set of its variants.
pub open spec fn named_as(unit: UnitView) -> Seq<char> {
    if unit.ids.len() == 1 {
        unit.ids[0]
    } else {
        "+g_"@ + unit.key
    }
}

/// A pack's expression names each of its units and nothing else but the ride-along pool, which
/// it names exactly if there are ride-alongs.
pub proof fn law_a_pack_names_its_units(input: InputView, i: int)
    requires
        input.light().len() <= usize::MAX,
        0 <= i < input.packs().len(),
    ensures
        ({
            let members = input.pack_units(input.packs()[i]);
            input.pack_set(i).expr == joined(
                Seq::new(members.len(), |k: int| named_as(members[k])),
                " & "@,
            ) + (if input.aux().len() > 0 {
                " & +aux"@
            } else {
                Seq::empty()
            })
        }),
{
    let pack = input.packs()[i];
    let members = input.pack_units(pack);
    crate::laws::law_declared_packs_fit(input, i);
    assert forall|k: int| 0 <= k < members.len() implies named_as(#[trigger] members[k])
        == crate::plan::unit_reference(members[k]) by {
        assert(pack[k] < input.light().len());
        lemma_light_fits(input, pack[k] as int);
    }
    assert(Seq::new(members.len(), |k: int| named_as(members[k])) =~= Seq::new(
        members.len(),
        |k: int| crate::plan::unit_reference(members[k]),
    ));
}

/// The helper set of a unit is the alternative of its variants: each of them, and one at a time.
pub proof fn law_a_helper_names_its_variants(input: InputView, unit: UnitView)
    requires
        unit.ids.len() > 1,
    ensures
        input.helper_set(unit).name == "g_"@ + unit.key,
        input.helper_set(unit).expr == "("@ + joined(unit.ids, " | "@) + ")"@,
        input.helper_set(unit).fanout == unit.ids.len(),
{
}

/// A unit with images is named with each of those images, and with the ride-along pool exactly
/// if there is one.
pub proof fn law_a_mixed_set_names_all_it_loads(input: InputView, unit: UnitView)
    requires
        unit.ids.len() > 0,
    ensures
        input.mixed_set(unit).expr == named_as(unit) + " & "@ + joined(
            model_ids(input.beside(unit)),
            " & "@,
        ) + (if input.aux().len() > 0 {
            " & +aux"@
        } else {
            Seq::empty()
        }),
{
}

/// A heavy unit is named by its only id or by the alternative of its variants, with each image
/// that is declared with it.
pub proof fn law_a_heavy_set_names_all_it_loads(input: InputView, unit: UnitView)
    ensures
        ({
            let images = input.images_fitting(input.room_beside_heavy(unit));
            let own = if unit.ids.len() == 1 {
                unit.ids[0]
            } else {
                "("@ + joined(unit.ids, " | "@) + ")"@
            };
            let along = input.aux().len() > 0 && input.baseline + unit.size + models_total(
                input.aux(),
            ) <= input.budget - input.policy.margin;
            input.heavy_set(unit).expr == own + (if images.len() > 0 {
                " & "@ + joined(model_ids(images), " & "@)
            } else {
                Seq::empty()
            }) + (if along {
                " & +aux"@
            } else {
                Seq::empty()
            })
        }),
{
}

/// A pack stands for as many combinations as there are choices of one variant of each unit:
/// for one where no unit has variants.
pub proof fn law_a_pack_without_variants_is_one_combination(units: Seq<UnitView>)
    requires
        forall|k: int| 0 <= k < units.len() ==> (#[trigger] units[k]).ids.len() == 1,
    ensures
        units_fanout(units) == 1,
    decreases units.len(),
{
    if units.len() > 0 {
        let fewer = units.drop_last();
        assert forall|k: int| 0 <= k < fewer.len() implies (#[trigger] fewer[k]).ids.len() == 1 by {
            assert(units[k].ids.len() == 1);
        }
        law_a_pack_without_variants_is_one_combination(fewer);
        let last = units[units.len() - 1];
        assert(last.ids.len() == 1);
        assert(units_fanout(fewer) * unit_fanout(last) == 1) by (nonlinear_arith)
            requires
                units_fanout(fewer) == 1,
                unit_fanout(last) == 1,
        ;
    }
}

/// A unit with variants multiplies the combinations of the units before it by their number.
pub proof fn law_variants_multiply_the_combinations(units: Seq<UnitView>, unit: UnitView)
    requires
        unit.ids.len() > 0,
        units_fanout(units) * unit.ids.len() <= 4_294_967_295,
    ensures
        units_fanout(units.push(unit)) == units_fanout(units) * unit.ids.len(),
{
    assert(units.push(unit).drop_last() =~= units);
}

// ---- images ---------------------------------------------------------------------------------

/// Beside a light unit as many images are declared as any choice of them that fits under the
/// budget less the margin, with what the empty pool holds, the unit and the ride-alongs.
pub proof fn law_a_unit_comes_with_all_the_images_that_fit(
    input: InputView,
    k: int,
    places: Seq<int>,
)
    requires
        input.is_uncapped(),
        sound_sizes(input.images()),
        0 <= k < input.light().len(),
        in_order(places, input.images().len() as int),
        places.len() > 0,
        input.baseline + input.light()[k].size + models_total(input.aux()) + models_total(
            picked(sort_by(input.images(), smaller_first()), places),
        ) <= input.budget - input.policy.margin,
    ensures
        places.len() <= input.beside(input.light()[k]).len(),
        input.all_sets().contains(input.mixed_set(input.light()[k])),
{
    let unit = input.light()[k];
    law_as_many_images_as_fit(input, input.room_beside(unit), places);
    lemma_mixed_called_for(input, input.light().len(), k);
    lemma_called_for(input, input.mixed_set(unit));
}

/// The same beside a heavy unit, with the ride-alongs where they fit.
pub proof fn law_a_heavy_unit_comes_with_all_the_images_that_fit(
    input: InputView,
    unit: UnitView,
    places: Seq<int>,
)
    requires
        input.is_uncapped(),
        sound_sizes(input.images()),
        in_order(places, input.images().len() as int),
        ({
            let along = input.aux().len() > 0 && input.baseline + unit.size + models_total(
                input.aux(),
            ) <= input.budget - input.policy.margin;
            input.baseline + unit.size + (if along {
                models_total(input.aux())
            } else {
                0
            }) + models_total(picked(sort_by(input.images(), smaller_first()), places))
                <= input.budget - input.policy.margin
        }),
    ensures
        places.len() <= input.images_fitting(input.room_beside_heavy(unit)).len(),
{
    law_as_many_images_as_fit(input, input.room_beside_heavy(unit), places);
}

/// Only images of the roster are declared beside a unit.
pub proof fn law_only_images_are_declared_beside(input: InputView, room: Room, k: int)
    requires
        0 <= k < input.images_fitting(room).len(),
    ensures
        input.images().contains(input.images_fitting(room)[k]),
{
    let sorted = sort_by(input.images(), smaller_first());
    lemma_greedy_takes(sorted, room, k);
    crate::roster::lemma_sort_keeps(input.images(), smaller_first());
    assert(sorted.contains(greedy(sorted, room)[k]));
    let j = choose|j: int| 0 <= j < sorted.len() && sorted[j] == greedy(sorted, room)[k];
    assert(input.images().contains(sorted[j]));
}

proof fn lemma_greedy_takes(models: Seq<FootprintView>, room: Room, k: int)
    requires
        0 <= k < greedy(models, room).len(),
    ensures
        models.contains(greedy(models, room)[k]),
    decreases models.len(),
{
    let fewer = models.drop_last();
    let before = greedy(fewer, room);
    if k < before.len() {
        lemma_greedy_takes(fewer, room, k);
        let j = choose|j: int| 0 <= j < fewer.len() && fewer[j] == before[k];
        assert(models[j] == before[k]);
    } else {
        assert(models[models.len() - 1] == greedy(models, room)[k]);
    }
}

// ---- what cannot run ------------------------------------------------------------------------

/// A unit that is larger than the budget less the margin, even alone in the pool, is left out by
/// name; and a unit that is not has a place: it is light, or has a set of its own.
pub proof fn law_only_what_cannot_run_alone_is_left_out(input: InputView, u: int)
    requires
        0 <= u < input.units().len(),
        models_total(input.aux()) >= 0,
    ensures
        input.baseline + input.units()[u].size > input.budget - input.policy.margin ==> forall|
            id: Seq<char>,
        | #[trigger]
            input.units()[u].ids.contains(id) ==> input.plan().excluded.contains(id),
        input.baseline + input.units()[u].size <= input.budget - input.policy.margin
            ==> input.light().contains(input.units()[u]) || input.all_sets().contains(
            input.heavy_set(input.units()[u]),
        ),
{
    let count = input.units().len();
    lemma_positions(input, true, count);
    lemma_positions(input, false, count);
    let heavy = input.heavy(u);
    let places = input.positions(heavy, count);
    assert(places.contains(u));
    let k = choose|k: int| 0 <= k < places.len() && places[k] == u;
    if heavy {
        assert(input.heavies()[k] == input.units()[u]);
        lemma_heavy_is_declared_or_excluded(input, input.heavies().len(), k);
        if !input.cannot_run(input.units()[u]) {
            lemma_called_for(input, input.heavy_set(input.units()[u]));
        }
    } else {
        assert(input.light()[k] == input.units()[u]);
        lemma_light_fits(input, k);
        assert(input.light().contains(input.units()[u]));
    }
}

/// Nothing else is left out: whoever the builder excludes is of a unit that does not fit even
/// alone.
pub proof fn law_nothing_that_can_run_is_left_out(input: InputView, bound: nat, id: Seq<char>)
    requires
        bound <= input.heavies().len(),
        input.heavy_excluded(bound).contains(id),
    ensures
        exists|k: int|
            0 <= k < bound && (#[trigger] input.heavies()[k]).ids.contains(id) && input.baseline
                + input.heavies()[k].size > input.budget - input.policy.margin,
    decreases bound,
{
    let gone = input.heavy_excluded(bound);
    let j = choose|j: int| 0 <= j < gone.len() && gone[j] == id;
    if bound > 0 {
        let before = input.heavy_excluded((bound - 1) as nat);
        let unit = input.heavies()[bound - 1];
        if j < before.len() {
            assert(before[j] == id);
            law_nothing_that_can_run_is_left_out(input, (bound - 1) as nat, id);
            let k = choose|k: int|
                0 <= k < bound - 1 && (#[trigger] input.heavies()[k]).ids.contains(id)
                    && input.baseline + input.heavies()[k].size > input.budget
                    - input.policy.margin;
            assert(input.heavies()[k].ids.contains(id));
        } else {
            assert(unit.ids[j - before.len()] == id);
            assert(input.heavies()[bound - 1].ids.contains(id));
        }
    }
}

// ---- the guards -----------------------------------------------------------------------------

/// No declared set expands to more than a thousand combinations.
pub proof fn law_no_set_expands_past_a_thousand(input: InputView, i: int)
    requires
        0 <= i < input.plan().sets.len(),
    ensures
        input.plan().sets[i].fanout <= 1000,
{
    law_every_declared_set_is_within_the_cap(input, i);
}

/// A guard leaves nothing out without cause: a set with a name of its own that expands to at
/// most a thousand combinations, and whose host cost is within the ceiling or which the policy
/// does not exclude for it, is declared.
pub proof fn law_guards_leave_nothing_out_without_cause(input: InputView, a: int)
    requires
        0 <= a < input.all_sets().len(),
        has_its_name_alone(input, a),
        input.all_sets()[a].fanout <= 1000,
        input.policy.on_host_overflow != OnHostOverflow::Exclude || input.host is None
            || input.all_sets()[a].host_footprint is None || input.all_sets()[a].host_footprint->0
            <= input.host->0.total - input.policy.host_margin,
    ensures
        input.plan().sets.contains(input.all_sets()[a]),
{
    let all = input.all_sets();
    let set = all[a];
    let kept = input.kept_sets();
    let capped = names_over_cap(all);
    let pass = |s: SetView| !capped.contains(s.name);
    lemma_filter(all, pass);
    if capped.contains(set.name) {
        lemma_named_over_cap(all, set.name);
        let j = choose|j: int|
            0 <= j < all.len() && (#[trigger] all[j]).name == set.name && all[j].fanout
                > FANOUT_CAP;
        assert(j == a);
    }
    assert(pass(all[a]));
    assert(kept.contains(set));
    if input.host_over().len() > 0 && input.policy.on_host_overflow == OnHostOverflow::Exclude {
        let ceiling = input.host_ceiling()->0;
        let over = Seq::new(input.host_over().len(), |k: int| input.host_over()[k].0);
        let stays = |s: SetView| !over.contains(s.name);
        lemma_filter(kept, stays);
        lemma_over_host(kept, ceiling);
        if over.contains(set.name) {
            let k = choose|k: int| 0 <= k < over.len() && over[k] == set.name;
            assert(over_host(kept, ceiling)[k].0 == set.name);
            let j = choose|j: int|
                0 <= j < kept.len() && (#[trigger] kept[j]).name == over_host(kept, ceiling)[k].0
                    && kept[j].host_footprint is Some && kept[j].host_footprint->0 > ceiling;
            assert(all.contains(kept[j]));
            let o = choose|o: int| 0 <= o < all.len() && all[o] == kept[j];
            assert(o == a);
        }
        let here = choose|k: int| 0 <= k < kept.len() && kept[k] == set;
        assert(stays(kept[here]));
    }
}

/// A declared set whose host cost is over the ceiling is named with what it needs, and there is
/// a warning.
pub proof fn law_sets_over_the_host_ceiling_are_named(input: InputView, i: int)
    requires
        0 <= i < input.plan().sets.len(),
        input.host is Some,
        input.plan().sets[i].host_footprint is Some,
        input.plan().sets[i].host_footprint->0 > input.host->0.total - input.policy.host_margin,
    ensures
        input.plan().host_over.contains(
            (input.plan().sets[i].name, input.plan().sets[i].host_footprint->0),
        ),
        input.plan().warnings.len() > 0,
{
    let kept = input.kept_sets();
    let ceiling = input.host_ceiling()->0;
    law_guards_only_leave_out(input, i);
    let at = choose|at: int| 0 <= at < kept.len() && kept[at] == input.sets()[i];
    lemma_over_host(kept, ceiling);
    assert(kept[at].host_footprint is Some && kept[at].host_footprint->0 > ceiling);
    assert(input.host_over().len() > 0);
    assert(input.host_warnings().len() == 1);
}

/// Nobody is named without cause: whatever is named as over the host ceiling is the name of a
/// set that is.
pub proof fn law_only_sets_over_the_host_ceiling_are_named(input: InputView, k: int)
    requires
        0 <= k < input.plan().host_over.len(),
    ensures
        input.host is Some,
        exists|j: int|
            0 <= j < input.kept_sets().len() && (#[trigger] input.kept_sets()[j]).name
                == input.plan().host_over[k].0 && input.kept_sets()[j].host_footprint is Some
                && input.kept_sets()[j].host_footprint->0 > input.host->0.total
                - input.policy.host_margin,
{
    let kept = input.kept_sets();
    let ceiling = input.host_ceiling()->0;
    lemma_over_host(kept, ceiling);
    assert(over_host(kept, ceiling)[k].0 == input.plan().host_over[k].0);
}

// ---- eviction costs -------------------------------------------------------------------------

/// The plan's eviction costs, by role: a model's own entry, else what the policy sets for its
/// role, else 1 for an image and 5 for a ride-along.
pub proof fn law_the_plan_ranks_models_by_the_policy(input: InputView, i: int)
    requires
        0 <= i < input.models.len(),
        !input.plan().excluded.contains(input.models[i].id),
        forall|j: int|
            0 <= j < input.policy.evict_costs.models.len() ==> (
            #[trigger] input.policy.evict_costs.models[j]).0 != input.models[i].id,
    ensures
        ({
            let costs = input.policy.evict_costs;
            let id = input.models[i].id;
            let plan = input.plan().evict_costs;
            let role = input.role(input.models[i]);
            &&& role == CostRole::Llm && costs.llm is Some ==> plan.contains(
                (id, costs.llm->0 as int),
            )
            &&& role == CostRole::Image && costs.image is Some ==> plan.contains(
                (id, costs.image->0 as int),
            )
            &&& role == CostRole::Aux && costs.aux is Some ==> plan.contains(
                (id, costs.aux->0 as int),
            )
            &&& role == CostRole::Image && costs.image is None ==> plan.contains((id, 1int))
            &&& role == CostRole::Aux && costs.aux is None ==> plan.contains((id, 5int))
        }),
{
    law_every_model_that_can_load_has_a_cost(input, i);
    crate::policy::law_the_first_entry_is_found(
        input.policy.evict_costs.models,
        input.models[i].id,
    );
}

/// Where the policy sets nothing, keeping one conversational model costs the solver one more
/// than evicting the whole image pool, and no less than ten.
pub proof fn law_a_conversation_outranks_every_picture(input: InputView, i: int)
    requires
        0 <= i < input.models.len(),
        !input.plan().excluded.contains(input.models[i].id),
        input.role(input.models[i]) == CostRole::Llm,
        input.policy.evict_costs.models.len() == 0,
        input.policy.evict_costs.llm is None,
        input.policy.evict_costs.image is None,
        input.images().len() < 999_999,
    ensures
        input.plan().evict_costs.contains(
            (
                input.models[i].id,
                if input.images().len() + 1 < 10 {
                    10
                } else {
                    input.images().len() as int + 1
                },
            ),
        ),
{
    law_every_model_that_can_load_has_a_cost(input, i);
    lemma_plain_pool(input, input.images().len());
}

proof fn lemma_plain_pool(input: InputView, bound: nat)
    requires
        input.policy.evict_costs.models.len() == 0,
        input.policy.evict_costs.image is None,
    ensures
        input.image_pool(bound) == bound,
    decreases bound,
{
    if bound > 0 {
        lemma_plain_pool(input, (bound - 1) as nat);
    }
}

// ---- what the caps count --------------------------------------------------------------------

/// Every model that a set loads counts once: a unit as the one variant of it that is loaded, each
/// image, and each ride-along where they are loaded too.
pub proof fn law_a_set_counts_whom_it_loads(input: InputView, unit: UnitView, i: int)
    ensures
        0 <= i < input.packs().len() ==> input.pack_set(i).models == input.packs()[i].len()
            + input.aux().len(),
        input.mixed_set(unit).models == 1 + input.beside(unit).len() + input.aux().len(),
        ({
            let images = input.images_fitting(input.room_beside_heavy(unit));
            let along = input.aux().len() > 0 && input.baseline + unit.size + models_total(
                input.aux(),
            ) <= input.budget - input.policy.margin;
            input.heavy_set(unit).models == if along {
                1 + images.len() + input.aux().len()
            } else {
                1 + images.len()
            }
        }),
        input.aux().len() > 0 ==> input.aux_sets()[0].models == input.aux().len(),
{
}

/// The models among these that hold a prompt cache.
pub open spec fn with_caches(models: Seq<FootprintView>) -> Seq<FootprintView> {
    models.filter(|m: FootprintView| m.holds_cache)
}

/// Every prompt cache that a set may fill counts once: one for a unit of which some variant holds
/// one, one for each image and each ride-along that does.
pub proof fn law_a_set_counts_its_caches(input: InputView, unit: UnitView)
    ensures
        ({
            let own = if exists|m: int|
                0 <= m < input.models.len() && (#[trigger] input.models[m]).holds_cache
                    && unit.ids.contains(input.models[m].id) {
                1nat
            } else {
                0nat
            };
            let images = input.images_fitting(input.room_beside_heavy(unit));
            let along = input.aux().len() > 0 && input.baseline + unit.size + models_total(
                input.aux(),
            ) <= input.budget - input.policy.margin;
            &&& input.mixed_set(unit).caches == own + with_caches(input.beside(unit)).len()
                + with_caches(input.aux()).len()
            &&& along ==> input.heavy_set(unit).caches == own + with_caches(images).len()
                + with_caches(input.aux()).len()
            &&& !along ==> input.heavy_set(unit).caches == own + with_caches(images).len()
            &&& input.helper_set(unit).caches == own
        }),
        input.aux().len() > 0 ==> input.aux_sets()[0].caches == with_caches(input.aux()).len(),
{
    let images = input.images_fitting(input.room_beside_heavy(unit));
    lemma_with_caches(input.beside(unit));
    lemma_with_caches(input.aux());
    lemma_with_caches(images);
    lemma_with_caches(Seq::empty());
    reveal(Seq::filter);
}

/// A pack's caches are those of its units, one by one, and of the ride-alongs.
pub proof fn law_a_pack_counts_its_caches(
    input: InputView,
    units: Seq<UnitView>,
    unit: UnitView,
    i: int,
)
    ensures
        input.units_caches(units.push(unit)) == input.units_caches(units) + (if exists|m: int|
            0 <= m < input.models.len() && (#[trigger] input.models[m]).holds_cache
                && unit.ids.contains(input.models[m].id) {
            1nat
        } else {
            0nat
        }),
        input.units_caches(Seq::empty()) == 0,
        0 <= i < input.packs().len() ==> input.pack_set(i).caches == input.units_caches(
            input.pack_units(input.packs()[i]),
        ) + with_caches(input.aux()).len(),
{
    lemma_with_caches(input.aux());
    assert(units.push(unit).drop_last() =~= units);
}

proof fn lemma_with_caches(models: Seq<FootprintView>)
    ensures
        cache_holders(models) == with_caches(models).len(),
    decreases models.len(),
{
    reveal(Seq::filter);
    if models.len() > 0 {
        lemma_with_caches(models.drop_last());
    }
}

/// No declared set loads more models than the policy's cap, nor fills more prompt caches.
pub proof fn law_no_set_is_larger_than_its_caps(input: InputView, i: int)
    requires
        input.light().len() <= usize::MAX,
        input.refusal() is None,
        0 <= i < input.plan().sets.len(),
    ensures
        input.policy.max_models_per_set is Some ==> input.plan().sets[i].models
            <= input.policy.max_models_per_set->0,
        input.policy.max_cache_holders_per_set is Some ==> input.plan().sets[i].caches
            <= input.policy.max_cache_holders_per_set->0,
{
    crate::laws::law_every_declared_set_keeps_the_caps(input, i);
}

// ---- what is refused ------------------------------------------------------------------------

/// A cap that the ride-alongs use up is refused, and so is a roster with a set over the ceiling.
pub proof fn law_what_cannot_be_planned_is_refused(input: InputView, i: int)
    ensures
        input.policy.max_models_per_set is Some && input.policy.max_models_per_set->0
            <= input.aux().len() ==> input.refusal() is Some,
        input.policy.max_cache_holders_per_set is Some && input.policy.max_cache_holders_per_set->0
            <= with_caches(input.aux()).len() ==> input.refusal() is Some,
        0 <= i < input.all_sets().len() && input.all_sets()[i].footprint > input.budget
            - input.policy.margin ==> input.refusal() is Some,
        !input.found().complete && input.policy.on_overflow == OnOverflow::Error
            ==> input.refusal() is Some,
        0 <= i < input.all_sets().len() && input.all_sets()[i].fanout > 1000
            && input.policy.on_overflow == OnOverflow::Error ==> input.refusal() is Some,
        input.host_over().len() > 0 && input.policy.on_host_overflow == OnHostOverflow::Error
            ==> input.refusal() is Some,
{
    lemma_with_caches(input.aux());
    if 0 <= i < input.all_sets().len() {
        lemma_first_unsafe(input.all_sets(), input.ceiling(), i);
        lemma_first_over_cap(input.all_sets(), i);
    }
}

proof fn lemma_first_unsafe(sets: Seq<SetView>, ceiling: int, i: int)
    requires
        0 <= i < sets.len(),
    ensures
        sets[i].footprint > ceiling ==> first_unsafe(sets, ceiling) is Some,
    decreases sets.len(),
{
    if i > 0 {
        lemma_first_unsafe(sets.skip(1), ceiling, i - 1);
    }
}

proof fn lemma_first_over_cap(sets: Seq<SetView>, i: int)
    requires
        0 <= i < sets.len(),
    ensures
        sets[i].fanout > 1000 ==> first_over_cap(sets) is Some,
    decreases sets.len(),
{
    if i > 0 {
        lemma_first_over_cap(sets.skip(1), i - 1);
    }
}

proof fn lemma_all_safe(sets: Seq<SetView>, ceiling: int)
    ensures
        (forall|i: int| 0 <= i < sets.len() ==> (#[trigger] sets[i]).footprint <= ceiling)
            ==> first_unsafe(sets, ceiling) is None,
        (forall|i: int| 0 <= i < sets.len() ==> (#[trigger] sets[i]).fanout <= 1000)
            ==> first_over_cap(sets) is None,
    decreases sets.len(),
{
    if sets.len() > 0 {
        let rest = sets.skip(1);
        lemma_all_safe(rest, ceiling);
        if forall|i: int| 0 <= i < sets.len() ==> (#[trigger] sets[i]).footprint <= ceiling {
            assert forall|i: int| 0 <= i < rest.len() implies (#[trigger] rest[i]).footprint
                <= ceiling by {
                assert(sets[i + 1].footprint <= ceiling);
            }
            assert(sets[0].footprint <= ceiling);
        }
        if forall|i: int| 0 <= i < sets.len() ==> (#[trigger] sets[i]).fanout <= 1000 {
            assert forall|i: int| 0 <= i < rest.len() implies (#[trigger] rest[i]).fanout
                <= 1000 by {
                assert(sets[i + 1].fanout <= 1000);
            }
            assert(sets[0].fanout <= 1000);
        }
    }
}

/// Nothing else is refused: with room beside the ride-alongs, every set under the ceiling, and a
/// policy that asks for no error, there is a plan.
pub proof fn law_nothing_else_is_refused(input: InputView)
    requires
        input.policy.max_models_per_set is Some ==> input.policy.max_models_per_set->0
            > input.aux().len(),
        input.policy.max_cache_holders_per_set is Some ==> input.policy.max_cache_holders_per_set->0
            > with_caches(input.aux()).len(),
        forall|i: int|
            0 <= i < input.all_sets().len() ==> (#[trigger] input.all_sets()[i]).footprint
                <= input.budget - input.policy.margin,
        input.policy.on_overflow == OnOverflow::Group,
        input.policy.on_host_overflow != OnHostOverflow::Error,
    ensures
        input.refusal() is None,
{
    lemma_with_caches(input.aux());
    lemma_all_safe(input.all_sets(), input.ceiling());
}

// ---- what a plan warns of -------------------------------------------------------------------

proof fn lemma_heavy_warning(input: InputView, bound: nat, i: int)
    requires
        0 <= i < bound <= input.heavies().len(),
    ensures
        ({
            let unit = input.heavies()[i];
            &&& input.baseline + unit.size > input.budget - input.policy.margin
                ==> input.heavy_warnings(bound).contains(too_large_text(unit, input.ceiling()))
            &&& input.baseline + unit.size <= input.budget - input.policy.margin
                && input.aux().len() > 0 && input.baseline + unit.size + models_total(input.aux())
                > input.budget - input.policy.margin ==> input.heavy_warnings(bound).contains(
                no_aux_text(unit, input.aux_cost()),
            )
        }),
    decreases bound,
{
    let fewer = (bound - 1) as nat;
    let unit = input.heavies()[i];
    let before = input.heavy_warnings(fewer);
    let after = input.heavy_warnings(bound);
    let large = too_large_text(unit, input.ceiling());
    let alone = no_aux_text(unit, input.aux_cost());
    if i < fewer {
        lemma_heavy_warning(input, fewer, i);
        if before.contains(large) {
            let k = choose|k: int| 0 <= k < before.len() && before[k] == large;
            assert(after[k] == large);
        }
        if before.contains(alone) {
            let k = choose|k: int| 0 <= k < before.len() && before[k] == alone;
            assert(after[k] == alone);
        }
    } else {
        if input.baseline + unit.size > input.ceiling() {
            assert(after[before.len() as int] == large);
        } else if input.aux().len() > 0 && !input.keeps_aux(unit) {
            assert(after[before.len() as int] == alone);
        }
    }
}

/// A plan warns of every unit that cannot run, and of every one that runs without the
/// ride-alongs.
pub proof fn law_a_plan_warns_of_large_units(input: InputView, i: int)
    requires
        0 <= i < input.heavies().len(),
    ensures
        ({
            let unit = input.heavies()[i];
            &&& input.baseline + unit.size > input.budget - input.policy.margin
                ==> input.plan().warnings.contains(too_large_text(unit, input.ceiling()))
            &&& input.baseline + unit.size <= input.budget - input.policy.margin
                && input.aux().len() > 0 && input.baseline + unit.size + models_total(input.aux())
                > input.budget - input.policy.margin ==> input.plan().warnings.contains(
                no_aux_text(unit, input.aux_cost()),
            )
        }),
{
    lemma_heavy_warning(input, input.heavies().len(), i);
    let heavy = input.heavy_warnings(input.heavies().len());
    let all = input.plan().warnings;
    let unit = input.heavies()[i];
    let large = too_large_text(unit, input.ceiling());
    let alone = no_aux_text(unit, input.aux_cost());
    let first = if input.found().complete {
        0int
    } else {
        1int
    };
    if heavy.contains(large) {
        let k = choose|k: int| 0 <= k < heavy.len() && heavy[k] == large;
        assert(all[first + k] == large);
    }
    if heavy.contains(alone) {
        let k = choose|k: int| 0 <= k < heavy.len() && heavy[k] == alone;
        assert(all[first + k] == alone);
    }
}

/// A plan says where the search stopped early, and where sets cost the host too much.
pub proof fn law_a_plan_says_what_it_leaves_out(input: InputView)
    ensures
        !input.found().complete ==> input.plan().warnings.contains(
            truncated_text(input.light().len(), input.packs().len()),
        ),
        input.found().complete && input.heavies().len() == 0
            && input.policy.evict_costs.models.len() == 0 && cap_warnings(input.all_sets()).len()
            == 0 && input.host_over().len() == 0 ==> input.plan().warnings.len() == 0,
        input.host_over().len() > 0 ==> input.plan().warnings.len() > 0,
        input.host_over().len() > 0 && input.policy.on_host_overflow == OnHostOverflow::Warn
            ==> input.plan().warnings.last() == input.host_advice(),
        input.host_over().len() > 0 && input.policy.on_host_overflow == OnHostOverflow::Exclude
            ==> input.plan().warnings.last() == input.host_advice() + " (excluded)"@,
{
    if !input.found().complete {
        assert(input.plan().warnings[0] == truncated_text(
            input.light().len(),
            input.packs().len(),
        ));
    }
}

/// A cost is reported as unknown exactly if no model of the roster has its id.
pub proof fn law_costs_of_nobody_are_named(input: InputView, bound: nat, id: Seq<char>)
    requires
        bound <= input.policy.evict_costs.models.len(),
    ensures
        input.unknown_costs(bound).contains(id) <==> (exists|k: int|
            0 <= k < bound && (#[trigger] input.policy.evict_costs.models[k]).0 == id) && !(exists|
            m: int,
        | 0 <= m < input.models.len() && (#[trigger] input.models[m]).id == id),
    decreases bound,
{
    if bound > 0 {
        let fewer = (bound - 1) as nat;
        law_costs_of_nobody_are_named(input, fewer, id);
        let costs = input.policy.evict_costs.models;
        let before = input.unknown_costs(fewer);
        let after = input.unknown_costs(bound);
        let ids = model_ids(input.models);
        if ids.contains(id) {
            let m = choose|m: int| 0 <= m < ids.len() && ids[m] == id;
            assert(input.models[m].id == id);
        }
        if exists|m: int| 0 <= m < input.models.len() && (#[trigger] input.models[m]).id == id {
            let m = choose|m: int| 0 <= m < input.models.len() && (#[trigger] input.models[m]).id
                == id;
            assert(ids[m] == id);
        }
        if before.contains(id) {
            let k = choose|k: int| 0 <= k < before.len() && before[k] == id;
            assert(after[k] == id);
        }
        if after.contains(id) && !before.contains(id) {
            let k = choose|k: int| 0 <= k < after.len() && after[k] == id;
            if k < before.len() {
                assert(before[k] == id);
            }
            assert(costs[bound - 1].0 == id);
        }
        if costs[bound - 1].0 == id && !ids.contains(id) {
            assert(after[before.len() as int] == id);
        }
        if exists|k: int| 0 <= k < bound && (#[trigger] costs[k]).0 == id {
            let k = choose|k: int| 0 <= k < bound && (#[trigger] costs[k]).0 == id;
            assert(k == bound - 1 || k < fewer);
        }
    }
}

/// Where there are such costs, the plan names them.
pub proof fn law_a_plan_names_costs_of_nobody(input: InputView)
    requires
        input.unknown_ids().len() > 0,
    ensures
        input.plan().warnings.contains(unknown_costs_text(input.unknown_ids())),
{
    let heavy = input.heavy_warnings(input.heavies().len());
    let first = if input.found().complete {
        0int
    } else {
        1int
    };
    assert(input.plan().warnings[first + heavy.len()] == unknown_costs_text(input.unknown_ids()));
}

/// A plan counts its packs and its heavy sets by their names.
pub proof fn law_sets_are_counted_by_name(
    sets: Seq<SetView>,
    set: SetView,
    prefix: Seq<char>,
    input: InputView,
)
    ensures
        count_prefixed(sets.push(set), prefix) == count_prefixed(sets, prefix) + (if starts(
            set.name,
            prefix,
        ) {
            1nat
        } else {
            0nat
        }),
        count_prefixed(Seq::empty(), prefix) == 0,
        input.plan().n_packs == count_prefixed(input.plan().sets, "pack"@),
        input.plan().n_heavies == count_prefixed(input.plan().sets, "heavy_"@),
{
    assert(sets.push(set).drop_last() =~= sets);
}

/// Where the policy lists no ride-alongs, the small helper types ride along, whatever it lists as
/// images; where it lists no images, every other picture model is one.
pub proof fn law_an_unlisted_role_follows_the_type(input: InputView, model: FootprintView)
    ensures
        input.policy.aux.len() == 0 ==> (input.role(model) == CostRole::Aux <==> {
            ||| model.model_type == ModelType::Embed
            ||| model.model_type == ModelType::Rerank
            ||| model.model_type == ModelType::Stt
            ||| model.model_type == ModelType::TtsProxy
        }),
        input.policy.images.len() == 0 ==> (input.role(model) == CostRole::Image
            <==> model.model_type == ModelType::Image && input.role(model) != CostRole::Aux),
        input.role(model) == CostRole::Llm <==> input.role(model) != CostRole::Aux && input.role(
            model,
        ) != CostRole::Image,
{
}

/// A warning spells out up to eight names, and counts the rest.
pub proof fn law_up_to_eight_names_are_spelled_out(names: Seq<Seq<char>>)
    ensures
        0 < names.len() <= 8 ==> listed(names) == joined(names, ", "@),
        names.len() > 8 ==> listed(names) == joined(names.take(8), ", "@) + ", and "@ + digits(
            (names.len() - 8) as nat,
        ) + " more"@,
{
}

/// A run of images counts each of them and every ride-along, whatever the caps.
pub proof fn law_a_run_of_images_counts_all_it_loads(
    input: InputView,
    run: Seq<FootprintView>,
    position: int,
)
    ensures
        ({
            let set = input.image_set(run, position);
            &&& set.footprint == input.baseline + models_total(run) + models_total(input.aux())
            &&& set.models == run.len() + input.aux().len()
            &&& set.caches == with_caches(run).len() + with_caches(input.aux()).len()
            &&& set.expr == joined(model_ids(run), " & "@) + (if input.aux().len() > 0 {
                " & +aux"@
            } else {
                Seq::empty()
            })
            &&& input.host is Some ==> set.host_footprint == Some(
                input.host->0.baseline + models_host(run) + models_host(input.aux()),
            )
            &&& input.host is None ==> set.host_footprint is None
        }),
{
    lemma_with_caches(run);
    lemma_with_caches(input.aux());
}

proof fn lemma_runs_hold(input: InputView, bound: nat, i: int)
    requires
        0 <= i < bound <= input.images().len(),
    ensures
        exists|r: int|
            0 <= r < input.image_runs(bound).len() && (#[trigger] input.image_runs(
                bound,
            )[r]).contains(input.images()[i]),
    decreases bound,
{
    let fewer = (bound - 1) as nat;
    let before = input.image_runs(fewer);
    let after = input.image_runs(bound);
    let image = input.images()[bound - 1];
    if i < fewer {
        lemma_runs_hold(input, fewer, i);
        let r = choose|r: int|
            0 <= r < before.len() && (#[trigger] before[r]).contains(input.images()[i]);
        if after.len() > before.len() || r < before.len() - 1 {
            assert(after[r] == before[r]);
        } else {
            let k = choose|k: int| 0 <= k < before[r].len() && before[r][k] == input.images()[i];
            assert(after[r] == before.last().push(image));
            assert(after[r][k] == input.images()[i]);
        }
        assert(after[r].contains(input.images()[i]));
    } else {
        let r = after.len() - 1;
        let last = after[r];
        assert(last[last.len() - 1] == image);
        assert(after[r].contains(input.images()[i]));
    }
}

/// Every image is in one of the image sets, whatever the caps.
pub proof fn law_every_image_is_in_an_image_set(input: InputView, i: int)
    requires
        0 <= i < input.images().len(),
    ensures
        exists|r: int|
            0 <= r < input.image_sets().len() && (#[trigger] input.image_runs(
                input.images().len(),
            )[r]).contains(input.images()[i]) && input.image_sets()[r].expr == joined(
                model_ids(input.image_runs(input.images().len())[r]),
                " & "@,
            ) + (if input.aux().len() > 0 {
                " & +aux"@
            } else {
                Seq::empty()
            }),
{
    lemma_runs_hold(input, input.images().len(), i);
    let runs = input.image_runs(input.images().len());
    let r = choose|r: int| 0 <= r < runs.len() && (#[trigger] runs[r]).contains(input.images()[i]);
    assert(input.image_sets()[r] == input.image_set(runs[r], r));
    assert(runs[r].contains(input.images()[i]));
}

/// What a plan warns of it names: the unit with its size and the ceiling, the set with the number
/// of its combinations, and the sets over the host ceiling with what they need.
pub proof fn law_warnings_name_what_they_are_about(
    unit: UnitView,
    set: SetView,
    amount: int,
    over: Seq<(Seq<char>, int)>,
    sets: nat,
)
    ensures
        starts(too_large_text(unit, amount), "`"@ + unit.key + "` ("@ + gb1(unit.size)),
        occurs_in(too_large_text(unit, amount), gb1(amount)),
        starts(no_aux_text(unit, amount), "heavy `"@ + unit.key + "`"@),
        occurs_in(no_aux_text(unit, amount), gb1(amount)),
        starts(
            over_cap_text(set),
            "set `"@ + set.name + "` expands to "@ + digits(set.fanout),
        ),
        starts(
            host_advice_text(over, sets, amount),
            digits(over.len()) + " of the "@ + digits(sets),
        ),
        occurs_in(host_advice_text(over, sets, amount), gb1(amount)),
        occurs_in(
            host_advice_text(over, sets, amount),
            listed(Seq::new(over.len(), |i: int| over[i].0 + " needs "@ + gb1(over[i].1) + " GB"@)),
        ),
{
    let large = too_large_text(unit, amount);
    let start = "`"@ + unit.key + "` ("@ + gb1(unit.size);
    assert(large.subrange(0, start.len() as int) =~= start);
    law_a_text_holds_its_parts(
        start + " GB) exceeds the ceiling "@,
        gb1(amount),
        " GB — excluded (can't run)"@,
    );
    let alone = no_aux_text(unit, amount);
    reveal_strlit("` is too large to co-reside with aux (");
    reveal_strlit("`");
    let named = "heavy `"@ + unit.key + "`"@;
    assert(alone.subrange(0, named.len() as int) =~= named);
    law_a_text_holds_its_parts(
        "heavy `"@ + unit.key + "` is too large to co-reside with aux ("@,
        gb1(amount),
        " GB) — it runs alone"@,
    );
    let capped = over_cap_text(set);
    let counted = "set `"@ + set.name + "` expands to "@ + digits(set.fanout);
    assert(capped.subrange(0, counted.len() as int) =~= counted);
    let advice = host_advice_text(over, sets, amount);
    let few = digits(over.len()) + " of the "@ + digits(sets);
    assert(advice.subrange(0, few.len() as int) =~= few);
    let needs = Seq::new(over.len(), |i: int| host_need_text(over[i]));
    assert(needs =~= Seq::new(
        over.len(),
        |i: int| over[i].0 + " needs "@ + gb1(over[i].1) + " GB"@,
    ));
    let head = few + " declared sets cost more HOST RAM than the "@;
    let rest = advice.skip((head.len() + gb1(amount).len()) as int);
    assert(advice =~= head + gb1(amount) + rest);
    law_a_text_holds_its_parts(head, gb1(amount), rest);
    let more = head + gb1(amount) + " GB ceiling: "@;
    let tail = advice.skip((more.len() + listed(needs).len()) as int);
    assert(advice =~= more + listed(needs) + tail);
    law_a_text_holds_its_parts(more, listed(needs), tail);
}

} // verus!
