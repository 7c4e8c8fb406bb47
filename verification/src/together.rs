//! What fits is declared: whichever units of a roster fit in the pool together, with the
//! ride-alongs, are declared together, and a roster of a common size is always searched through.

use vstd::prelude::*;

use crate::laws::{
    is_within_caps, law_every_fitting_combination_is_declared, law_found_packs_fit, lemma_positions,
};
use crate::naming::lemma_positions_ascend;
use crate::narrowing::{
    counts_of, held_to, is_part, lemma_packs_are_short, lemma_parts_ascend, lemma_parts_within,
    narrowed, parts_within, with_packs,
};
use crate::packing::{
    ascending, covers, extend, fits, full_walk, nothing_addable, set_total, visit, Walk,
    ENUM_NODE_BUDGET, MAX_PACKS,
};
use crate::plan::{
    cache_holders, found_in, least_except, models_total, one_holds, sum, Found, InputView,
};
use crate::policy::CostRole;
use crate::units::{law_units_are_sound, sound_unit, UnitView};

verus! {

// ---- sharing the pool -----------------------------------------------------------------------

/// Positions of units, each once and in order.
pub open spec fn are_units(input: InputView, chosen: Seq<int>) -> bool {
    &&& forall|i: int, j: int| 0 <= i < j < chosen.len() ==> chosen[i] < chosen[j]
    &&& forall|i: int|
        0 <= i < chosen.len() ==> 0 <= #[trigger] chosen[i] < input.units().len()
}

/// What units at some positions hold together.
pub open spec fn held_by(units: Seq<UnitView>, chosen: Seq<int>) -> int
    decreases chosen.len(),
{
    if chosen.len() == 0 {
        0
    } else {
        held_by(units, chosen.drop_last()) + units[chosen.last()].size
    }
}

/// How many of the units at some positions may hold a prompt cache.
pub open spec fn caches_held_by(input: InputView, chosen: Seq<int>) -> nat
    decreases chosen.len(),
{
    if chosen.len() == 0 {
        0
    } else {
        caches_held_by(input, chosen.drop_last()) + if one_holds(
            input.models,
            input.units()[chosen.last()].ids,
        ) {
            1nat
        } else {
            0
        }
    }
}

/// The caps of the policy allow so many models, and so many prompt caches, at once.
pub open spec fn caps_allow(input: InputView, models: int, caches: int) -> bool {
    &&& input.policy.max_models_per_set is Some ==> models + input.aux().len()
        <= input.policy.max_models_per_set->0
    &&& input.policy.max_cache_holders_per_set is Some ==> caches + cache_holders(input.aux())
        <= input.policy.max_cache_holders_per_set->0
}

/// A pack that is declared holds each of these units.
pub open spec fn declared_together(input: InputView, chosen: Seq<int>) -> bool {
    exists|p: int|
        0 <= p < input.packs().len() && #[trigger] holds_each(
            input.pack_units(input.packs()[p]),
            input.units(),
            chosen,
        )
}

pub open spec fn holds_each(members: Seq<UnitView>, units: Seq<UnitView>, chosen: Seq<int>) -> bool {
    forall|i: int| 0 <= i < chosen.len() ==> members.contains(units[#[trigger] chosen[i]])
}

proof fn lemma_least_is_least(units: Seq<UnitView>, skipped: int, bound: nat, j: int)
    requires
        0 <= j < bound <= units.len(),
        j != skipped,
    ensures
        least_except(units, skipped, bound) is Some,
        least_except(units, skipped, bound)->0 <= units[j].size,
    decreases bound,
{
    if j < bound - 1 {
        lemma_least_is_least(units, skipped, (bound - 1) as nat, j);
    }
}

proof fn lemma_a_pair_is_no_more(units: Seq<UnitView>, chosen: Seq<int>, a: int, b: int)
    requires
        0 <= a < chosen.len(),
        0 <= b < chosen.len(),
        a != b,
        forall|i: int| 0 <= i < chosen.len() ==> 0 <= #[trigger] chosen[i] < units.len(),
        forall|i: int| 0 <= i < units.len() ==> sound_unit(#[trigger] units[i]),
    ensures
        units[chosen[a]].size + units[chosen[b]].size <= held_by(units, chosen),
    decreases chosen.len(),
{
    let fewer = chosen.drop_last();
    let last = chosen.len() - 1;
    assert forall|i: int| 0 <= i < fewer.len() implies 0 <= #[trigger] fewer[i] < units.len() by {
        assert(fewer[i] == chosen[i]);
    }
    assert(sound_unit(units[chosen[last]]));
    if a < last && b < last {
        lemma_a_pair_is_no_more(units, fewer, a, b);
    } else {
        let other = if a == last {
            b
        } else {
            a
        };
        lemma_one_is_no_more(units, fewer, other);
    }
}

proof fn lemma_one_is_no_more(units: Seq<UnitView>, chosen: Seq<int>, a: int)
    requires
        0 <= a < chosen.len(),
        forall|i: int| 0 <= i < chosen.len() ==> 0 <= #[trigger] chosen[i] < units.len(),
        forall|i: int| 0 <= i < units.len() ==> sound_unit(#[trigger] units[i]),
    ensures
        0 <= units[chosen[a]].size <= held_by(units, chosen),
    decreases chosen.len(),
{
    let fewer = chosen.drop_last();
    let last = chosen.len() - 1;
    assert forall|i: int| 0 <= i < fewer.len() implies 0 <= #[trigger] fewer[i] < units.len() by {
        assert(fewer[i] == chosen[i]);
    }
    assert(sound_unit(units[chosen[last]]));
    assert(sound_unit(units[chosen[a]]));
    if a < last {
        lemma_one_is_no_more(units, fewer, a);
    } else if fewer.len() > 0 {
        lemma_one_is_no_more(units, fewer, 0);
    }
}

/// The light positions of some units.
spec fn light_places(input: InputView, chosen: Seq<int>) -> Set<usize> {
    Set::new(
        |k: usize|
            k < input.light().len() && chosen.contains(
                input.positions(false, input.units().len())[k as int],
            ),
    )
}

/// A total over light positions is the total over the units there.
proof fn lemma_light_total(input: InputView, weights: Seq<int>, chosen: Seq<int>, bound: nat)
    requires
        weights.len() == input.light().len() <= usize::MAX,
        are_units(input, chosen),
        forall|i: int| 0 <= i < chosen.len() ==> !input.heavy(#[trigger] chosen[i]),
        bound <= weights.len(),
    ensures
        set_total(weights, light_places(input, chosen), bound) == weighed(
            input,
            weights,
            chosen,
            bound,
            chosen.len(),
        ),
    decreases bound,
{
    let places = input.positions(false, input.units().len());
    lemma_positions_ascend(input, false, input.units().len());
    if bound > 0 {
        lemma_light_total(input, weights, chosen, (bound - 1) as nat);
        lemma_weighed_step(input, weights, chosen, bound, chosen.len());
        assert(chosen.take(chosen.len() as int) =~= chosen);
        let k = (bound - 1) as usize;
        assert(light_places(input, chosen).contains(k) == chosen.contains(places[k as int]));
    } else {
        lemma_weighed_nothing(input, weights, chosen, chosen.len());
    }
}

/// What the first `count` of some units weigh, of those that are below `bound` among the
/// light.
spec fn weighed(
    input: InputView,
    weights: Seq<int>,
    chosen: Seq<int>,
    bound: nat,
    count: nat,
) -> int
    decreases count,
{
    if count == 0 {
        0
    } else {
        let k = light_place(input, chosen[count - 1]);
        weighed(input, weights, chosen, bound, (count - 1) as nat) + if k < bound {
            weights[k]
        } else {
            0
        }
    }
}

/// Where a light unit is among the light.
spec fn light_place(input: InputView, unit: int) -> int {
    choose|k: int|
        0 <= k < input.light().len() && input.positions(false, input.units().len())[k] == unit
}

proof fn lemma_light_place(input: InputView, unit: int)
    requires
        0 <= unit < input.units().len(),
        !input.heavy(unit),
    ensures
        0 <= light_place(input, unit) < input.light().len(),
        input.positions(false, input.units().len())[light_place(input, unit)] == unit,
        input.light()[light_place(input, unit)] == input.units()[unit],
{
    lemma_positions(input, false, input.units().len());
    let places = input.positions(false, input.units().len());
    assert(places.contains(unit));
    let k = choose|k: int| 0 <= k < places.len() && places[k] == unit;
    assert(0 <= k < input.light().len() && places[k] == unit);
}

proof fn lemma_weighed_nothing(input: InputView, weights: Seq<int>, chosen: Seq<int>, count: nat)
    requires
        are_units(input, chosen),
        forall|i: int| 0 <= i < chosen.len() ==> !input.heavy(#[trigger] chosen[i]),
        count <= chosen.len(),
    ensures
        weighed(input, weights, chosen, 0, count) == 0,
    decreases count,
{
    if count > 0 {
        lemma_weighed_nothing(input, weights, chosen, (count - 1) as nat);
        lemma_light_place(input, chosen[count - 1]);
    }
}

proof fn lemma_weighed_step(
    input: InputView,
    weights: Seq<int>,
    chosen: Seq<int>,
    bound: nat,
    count: nat,
)
    requires
        0 < bound <= input.light().len() == weights.len(),
        are_units(input, chosen),
        forall|i: int| 0 <= i < chosen.len() ==> !input.heavy(#[trigger] chosen[i]),
        count <= chosen.len(),
    ensures
        weighed(input, weights, chosen, bound, count) == weighed(
            input,
            weights,
            chosen,
            (bound - 1) as nat,
            count,
        ) + if chosen.take(count as int).contains(
            input.positions(false, input.units().len())[bound - 1],
        ) {
            weights[bound - 1]
        } else {
            0
        },
    decreases count,
{
    let places = input.positions(false, input.units().len());
    let unit = places[bound - 1];
    lemma_positions_ascend(input, false, input.units().len());
    let listed = chosen.take(count as int);
    if count > 0 {
        let fewer = chosen.take(count - 1);
        lemma_weighed_step(input, weights, chosen, bound, (count - 1) as nat);
        lemma_light_place(input, chosen[count - 1]);
        let k = light_place(input, chosen[count - 1]);
        assert(listed =~= fewer.push(chosen[count - 1]));
        if k == bound - 1 {
            assert(listed[count - 1] == unit);
            if fewer.contains(unit) {
                let i = choose|i: int| 0 <= i < fewer.len() && fewer[i] == unit;
                assert(chosen[i] < chosen[count - 1]);
            }
        } else {
            if chosen[count - 1] == unit {
                if k < bound - 1 {
                    assert(places[k] < places[bound - 1]);
                } else {
                    assert(places[bound - 1] < places[k]);
                }
            }
            if listed.contains(unit) {
                let i = choose|i: int| 0 <= i < listed.len() && listed[i] == unit;
                assert(i < count - 1);
                assert(fewer[i] == unit);
            }
            if fewer.contains(unit) {
                let i = choose|i: int| 0 <= i < fewer.len() && fewer[i] == unit;
                assert(listed[i] == unit);
            }
        }
    }
}

proof fn lemma_weighed_all(
    input: InputView,
    weights: Seq<int>,
    chosen: Seq<int>,
    count: nat,
)
    requires
        input.light().len() == weights.len(),
        are_units(input, chosen),
        forall|i: int| 0 <= i < chosen.len() ==> !input.heavy(#[trigger] chosen[i]),
        count <= chosen.len(),
    ensures
        weights == input.light_sizes() ==> weighed(
            input,
            weights,
            chosen,
            input.light().len(),
            count,
        ) == held_by(input.units(), chosen.take(count as int)),
        weights == input.light_ones() ==> weighed(
            input,
            weights,
            chosen,
            input.light().len(),
            count,
        ) == count,
        weights == input.light_caches() ==> weighed(
            input,
            weights,
            chosen,
            input.light().len(),
            count,
        ) == caches_held_by(input, chosen.take(count as int)),
    decreases count,
{
    if count > 0 {
        lemma_weighed_all(input, weights, chosen, (count - 1) as nat);
        lemma_light_place(input, chosen[count - 1]);
        assert(chosen.take(count as int).drop_last() =~= chosen.take(count - 1));
    }
}

/// Maximum flexibility, over the whole roster: any two or more units that fit under the budget
/// less the margin, together with what the empty pool holds and every ride-along, are declared
/// together, wherever the caps allow as many and the search was not cut short.
pub proof fn law_units_that_fit_are_declared_together(input: InputView, chosen: Seq<int>)
    requires
        input.units().len() <= usize::MAX,
        are_units(input, chosen),
        chosen.len() >= 2,
        input.baseline + held_by(input.units(), chosen) + models_total(input.aux())
            <= input.budget - input.policy.margin,
        caps_allow(input, chosen.len() as int, caches_held_by(input, chosen) as int),
        input.found().complete,
    ensures
        declared_together(input, chosen),
{
    let units = input.units();
    let count = units.len();
    law_units_are_sound(input.in_role(CostRole::Llm), input.policy);
    assert forall|i: int| 0 <= i < chosen.len() implies !input.heavy(#[trigger] chosen[i]) by {
        let j = if i == 0 {
            1int
        } else {
            0
        };
        assert(chosen[0] < chosen[1]);
        if i > 0 {
            assert(chosen[0] < chosen[i]);
        }
        lemma_least_is_least(units, chosen[i], count, chosen[j]);
        lemma_a_pair_is_no_more(units, chosen, i, j);
    }
    lemma_light_units_that_fit_are_declared_together(input, chosen);
}

/// A unit that fits beside the ride-alongs with nothing else of its kind in the roster is
/// declared in a pack.
pub proof fn law_a_lone_unit_is_declared(input: InputView)
    requires
        input.units().len() == 1,
        input.baseline + input.units()[0].size + models_total(input.aux()) <= input.budget
            - input.policy.margin,
        caps_allow(
            input,
            1,
            if one_holds(input.models, input.units()[0].ids) {
                1
            } else {
                0
            },
        ),
        input.found().complete,
    ensures
        declared_together(input, seq![0]),
{
    let chosen = seq![0int];
    assert(least_except(input.units(), 0, 0) is None);
    assert(least_except(input.units(), 0, 1) is None);
    assert(!input.heavy(0));
    assert(chosen.drop_last() =~= Seq::<int>::empty());
    assert(held_by(input.units(), chosen.drop_last()) == 0);
    assert(held_by(input.units(), chosen) == input.units()[0].size);
    assert(caches_held_by(input, chosen.drop_last()) == 0);
    lemma_light_units_that_fit_are_declared_together(input, chosen);
}

proof fn lemma_light_units_that_fit_are_declared_together(input: InputView, chosen: Seq<int>)
    requires
        input.units().len() <= usize::MAX,
        are_units(input, chosen),
        chosen.len() >= 1,
        forall|i: int| 0 <= i < chosen.len() ==> !input.heavy(#[trigger] chosen[i]),
        input.baseline + held_by(input.units(), chosen) + models_total(input.aux())
            <= input.budget - input.policy.margin,
        caps_allow(input, chosen.len() as int, caches_held_by(input, chosen) as int),
        input.found().complete,
    ensures
        declared_together(input, chosen),
{
    let units = input.units();
    let count = units.len();
    lemma_positions(input, false, count);
    lemma_positions_ascend(input, false, count);
    lemma_ascending_ints_are_few(input.positions(false, count), count as int);
    let places = light_places(input, chosen);
    let all = chosen.take(chosen.len() as int);
    assert(all =~= chosen);
    let n = input.light().len();
    lemma_light_total(input, input.light_sizes(), chosen, n);
    lemma_weighed_all(input, input.light_sizes(), chosen, chosen.len());
    lemma_light_total(input, input.light_ones(), chosen, n);
    lemma_weighed_all(input, input.light_ones(), chosen, chosen.len());
    lemma_light_total(input, input.light_caches(), chosen, n);
    lemma_weighed_all(input, input.light_caches(), chosen, chosen.len());
    assert(fits(input.light_sizes(), input.members_limit(), places));
    lemma_light_place(input, chosen[0]);
    assert(places.contains(light_place(input, chosen[0]) as usize));
    assert(is_within_caps(input, places));
    law_every_fitting_combination_is_declared(input, places);
    let p = choose|p: int| 0 <= p < input.packs().len() && covers(#[trigger] input.packs()[p], places);
    let pack = input.packs()[p];
    let members = input.pack_units(pack);
    assert forall|i: int| 0 <= i < chosen.len() implies members.contains(
        units[#[trigger] chosen[i]],
    ) by {
        lemma_light_place(input, chosen[i]);
        let k = light_place(input, chosen[i]) as usize;
        assert(places.contains(k));
        assert(pack.contains(k));
        let at = choose|at: int| 0 <= at < pack.len() && pack[at] == k;
        assert(members[at] == units[chosen[i]]);
    }
    assert(holds_each(input.pack_units(input.packs()[p]), units, chosen));
}

proof fn lemma_ascending_ints_are_few(places: Seq<int>, bound: int)
    requires
        bound >= 0,
        forall|i: int| 0 <= i < places.len() ==> 0 <= #[trigger] places[i] < bound,
        forall|i: int, j: int| 0 <= i < j < places.len() ==> places[i] < places[j],
    ensures
        places.len() <= bound,
    decreases places.len(),
{
    if places.len() > 0 {
        let fewer = places.drop_last();
        let last = places.len() - 1;
        assert forall|i: int| 0 <= i < fewer.len() implies 0 <= #[trigger] fewer[i] < places[last] by {
            assert(fewer[i] == places[i]);
        }
        lemma_ascending_ints_are_few(fewer, places[last]);
    }
}

/// The same of two units: wherever both fit, some declared pack holds both.
pub proof fn law_two_units_that_fit_share_a_pack(input: InputView, i: int, j: int)
    requires
        input.units().len() <= usize::MAX,
        0 <= i < j < input.units().len(),
        input.baseline + input.units()[i].size + input.units()[j].size + models_total(input.aux())
            <= input.budget - input.policy.margin,
        input.policy.max_models_per_set is None || input.policy.max_models_per_set->0
            >= input.aux().len() + 2,
        input.policy.max_cache_holders_per_set is None
            || input.policy.max_cache_holders_per_set->0 >= cache_holders(input.aux()) + 2,
        input.found().complete,
    ensures
        exists|p: int|
            0 <= p < input.packs().len() && (#[trigger] input.pack_units(
                input.packs()[p],
            )).contains(input.units()[i]) && input.pack_units(input.packs()[p]).contains(
                input.units()[j],
            ),
{
    let chosen = seq![i, j];
    let one = chosen.drop_last();
    assert(one =~= seq![i]);
    assert(one.drop_last() =~= Seq::<int>::empty());
    assert(held_by(input.units(), one.drop_last()) == 0);
    assert(held_by(input.units(), one) == input.units()[i].size);
    assert(caches_held_by(input, one.drop_last()) == 0);
    assert(caches_held_by(input, one) <= 1);
    law_units_that_fit_are_declared_together(input, chosen);
    let p = choose|p: int|
        0 <= p < input.packs().len() && #[trigger] holds_each(
            input.pack_units(input.packs()[p]),
            input.units(),
            chosen,
        );
    assert(input.pack_units(input.packs()[p]).contains(input.units()[chosen[0]]));
    assert(input.pack_units(input.packs()[p]).contains(input.units()[chosen[1]]));
}

// ---- how far the search goes ----------------------------------------------------------------

/// Two to a power.
pub open spec fn two_to(n: nat) -> nat
    decreases n,
{
    if n == 0 {
        1
    } else {
        2 * two_to((n - 1) as nat)
    }
}

proof fn lemma_visit_goes_on(
    sizes: Seq<int>,
    limit: int,
    start: nat,
    chosen: Seq<usize>,
    walk: Walk,
)
    requires
        start <= sizes.len(),
        walk.complete,
        walk.nodes >= two_to((sizes.len() - start) as nat),
        walk.packs.len() + two_to((sizes.len() - start) as nat) <= MAX_PACKS,
    ensures
        ({
            let after = visit(sizes, limit, start, chosen, walk);
            &&& after.complete
            &&& after.nodes + two_to((sizes.len() - start) as nat) >= walk.nodes
            &&& after.packs.len() <= walk.packs.len() + two_to((sizes.len() - start) as nat)
        }),
    decreases sizes.len() - start, 1nat,
{
    lemma_two_to(( sizes.len() - start) as nat);
    let found = nothing_addable(sizes, limit, chosen) && chosen.len() > 0;
    let entered = Walk {
        nodes: (walk.nodes - 1) as nat,
        packs: if found {
            walk.packs.push(chosen)
        } else {
            walk.packs
        },
        complete: true,
    };
    lemma_extend_goes_on(sizes, limit, start, chosen, entered);
}

proof fn lemma_two_to(n: nat)
    ensures
        two_to(n) >= 1,
    decreases n,
{
    if n > 0 {
        lemma_two_to((n - 1) as nat);
    }
}

proof fn lemma_extend_goes_on(
    sizes: Seq<int>,
    limit: int,
    index: nat,
    chosen: Seq<usize>,
    walk: Walk,
)
    requires
        index <= sizes.len(),
        walk.complete,
        walk.nodes + 1 >= two_to((sizes.len() - index) as nat),
        walk.packs.len() + two_to((sizes.len() - index) as nat) <= MAX_PACKS + 1,
    ensures
        ({
            let after = extend(sizes, limit, index, chosen, walk);
            &&& after.complete
            &&& after.nodes + two_to((sizes.len() - index) as nat) >= walk.nodes + 1
            &&& after.packs.len() + 1 <= walk.packs.len() + two_to((sizes.len() - index) as nat)
        }),
    decreases sizes.len() - index, 0nat,
{
    lemma_two_to((sizes.len() - index) as nat);
    if index < sizes.len() {
        lemma_two_to((sizes.len() - index - 1) as nat);
        let next = chosen.push(index as usize);
        if crate::packing::pack_total(sizes, chosen) + sizes[index as int] <= limit {
            lemma_visit_goes_on(sizes, limit, index + 1, next, walk);
            let below = visit(sizes, limit, index + 1, next, walk);
            lemma_extend_goes_on(sizes, limit, index + 1, chosen, below);
        } else {
            lemma_extend_goes_on(sizes, limit, index + 1, chosen, walk);
        }
    }
}

/// A roster of up to ten light units is searched through, whatever their sizes, where the policy
/// sets no caps; and so is any roster whose light units all fit at once.
pub proof fn law_common_rosters_are_searched_through(input: InputView)
    requires
        input.policy.max_models_per_set is None,
        input.policy.max_cache_holders_per_set is None,
        input.light().len() <= 10 || sum(input.light_sizes()) <= input.ceiling() - input.baseline
            - input.aux_cost(),
    ensures
        input.found().complete,
{
    let sizes = input.light_sizes();
    if sum(sizes) > input.members_limit() {
        reveal_with_fuel(two_to, 11);
        lemma_two_to_grows(sizes.len(), 10);
        lemma_visit_goes_on(
            sizes,
            input.members_limit(),
            0,
            Seq::empty(),
            Walk { nodes: ENUM_NODE_BUDGET as nat, packs: Seq::empty(), complete: true },
        );
    }
}

proof fn lemma_two_to_grows(a: nat, b: nat)
    requires
        a <= b,
    ensures
        two_to(a) <= two_to(b),
    decreases b,
{
    if a < b {
        lemma_two_to_grows(a, (b - 1) as nat);
        lemma_two_to((b - 1) as nat);
    }
}

proof fn lemma_visit_stops(
    sizes: Seq<int>,
    limit: int,
    start: nat,
    chosen: Seq<usize>,
    walk: Walk,
)
    requires
        start <= sizes.len(),
        walk.complete,
        walk.nodes >= two_to((sizes.len() - start) as nat),
    ensures
        ({
            let after = visit(sizes, limit, start, chosen, walk);
            &&& after.nodes + two_to((sizes.len() - start) as nat) >= walk.nodes
            &&& !after.complete ==> after.packs.len() >= MAX_PACKS
        }),
    decreases sizes.len() - start, 1nat,
{
    lemma_two_to((sizes.len() - start) as nat);
    let found = nothing_addable(sizes, limit, chosen) && chosen.len() > 0;
    let entered = Walk {
        nodes: (walk.nodes - 1) as nat,
        packs: if found {
            walk.packs.push(chosen)
        } else {
            walk.packs
        },
        complete: true,
    };
    lemma_extend_stops(sizes, limit, start, chosen, entered);
}

proof fn lemma_extend_stops(
    sizes: Seq<int>,
    limit: int,
    index: nat,
    chosen: Seq<usize>,
    walk: Walk,
)
    requires
        index <= sizes.len(),
        walk.complete,
        walk.nodes + 1 >= two_to((sizes.len() - index) as nat),
    ensures
        ({
            let after = extend(sizes, limit, index, chosen, walk);
            &&& after.nodes + two_to((sizes.len() - index) as nat) >= walk.nodes + 1
            &&& !after.complete ==> after.packs.len() >= MAX_PACKS
        }),
    decreases sizes.len() - index, 0nat,
{
    lemma_two_to((sizes.len() - index) as nat);
    if index < sizes.len() {
        lemma_two_to((sizes.len() - index - 1) as nat);
        let next = chosen.push(index as usize);
        if crate::packing::pack_total(sizes, chosen) + sizes[index as int] <= limit {
            lemma_visit_stops(sizes, limit, index + 1, next, walk);
            let below = visit(sizes, limit, index + 1, next, walk);
            if below.complete {
                lemma_extend_stops(sizes, limit, index + 1, chosen, below);
            }
        } else {
            lemma_extend_stops(sizes, limit, index + 1, chosen, walk);
        }
    }
}

/// With up to twenty-two units the search stops early only with 1024 packs in hand, and it never
/// has more.
pub proof fn law_the_search_stops_only_with_its_packs_in_hand(sizes: Seq<int>, limit: int)
    requires
        sizes.len() <= 22,
    ensures
        full_walk(sizes, limit).packs.len() <= 1024,
        !full_walk(sizes, limit).complete ==> full_walk(sizes, limit).packs.len() == 1024,
{
    reveal_with_fuel(two_to, 23);
    lemma_two_to_grows(sizes.len(), 22);
    lemma_visit_stops(
        sizes,
        limit,
        0,
        Seq::empty(),
        Walk { nodes: ENUM_NODE_BUDGET as nat, packs: Seq::empty(), complete: true },
    );
    crate::packing::law_found_packs_are_maximal(sizes, limit);
}

// ---- the same under the policy's caps -------------------------------------------------------

/// A pack as a number with a binary digit for each unit.
spec fn code(pack: Seq<usize>) -> nat
    decreases pack.len(),
{
    if pack.len() == 0 {
        0
    } else {
        code(pack.drop_last()) + two_to(pack.last() as nat)
    }
}

proof fn lemma_code(pack: Seq<usize>, bound: nat)
    requires
        ascending(pack, bound as int),
    ensures
        code(pack) < two_to(bound),
        pack.len() > 0 ==> code(pack) >= two_to(pack.last() as nat),
        pack.len() > 0 ==> code(pack) < two_to(pack.last() as nat + 1),
        pack.len() > 0 ==> code(pack) > 0,
    decreases pack.len(),
{
    lemma_two_to(bound);
    if pack.len() > 0 {
        let last = pack.last() as nat;
        let fewer = pack.drop_last();
        assert(pack[pack.len() - 1] < bound);
        assert forall|i: int| 0 <= i < fewer.len() implies #[trigger] fewer[i] < last by {
            assert(pack[i] < pack[pack.len() - 1]);
        }
        lemma_code(fewer, last);
        lemma_two_to(last);
        lemma_two_to_grows(last + 1, bound);
    }
}

proof fn lemma_code_tells(a: Seq<usize>, b: Seq<usize>, bound: nat)
    requires
        ascending(a, bound as int),
        ascending(b, bound as int),
        code(a) == code(b),
    ensures
        a == b,
    decreases a.len(),
{
    lemma_code(a, bound);
    lemma_code(b, bound);
    if a.len() == 0 || b.len() == 0 {
        assert(a =~= b);
    } else {
        let x = a.last() as nat;
        let y = b.last() as nat;
        if x < y {
            lemma_two_to_grows(x + 1, y);
        } else if y < x {
            lemma_two_to_grows(y + 1, x);
        }
        let c = a.drop_last();
        let d = b.drop_last();
        assert(ascending(c, bound as int)) by {
            assert forall|i: int| 0 <= i < c.len() implies #[trigger] c[i] < bound by {
                assert(a[i] < bound);
            }
        }
        assert(ascending(d, bound as int)) by {
            assert forall|i: int| 0 <= i < d.len() implies #[trigger] d[i] < bound by {
                assert(b[i] < bound);
            }
        }
        lemma_code_tells(c, d, bound);
        assert(a =~= c.push(a.last()));
        assert(b =~= d.push(b.last()));
    }
}

/// Different packs of a few units are few.
proof fn lemma_packs_are_few(packs: Seq<Seq<usize>>, bound: nat)
    requires
        packs.no_duplicates(),
        forall|i: int|
            0 <= i < packs.len() ==> ascending(#[trigger] packs[i], bound as int)
                && packs[i].len() > 0,
    ensures
        packs.len() < two_to(bound),
{
    let codes = Seq::new(packs.len(), |i: int| code(packs[i]) as int);
    assert forall|i: int, j: int| 0 <= i < j < codes.len() implies codes[i] != codes[j] by {
        if codes[i] == codes[j] {
            assert(ascending(packs[i], bound as int) && ascending(packs[j], bound as int));
            lemma_code_tells(packs[i], packs[j], bound);
        }
    }
    assert(codes.no_duplicates());
    codes.unique_seq_to_set();
    lemma_two_to(bound);
    vstd::set_lib::lemma_int_range(1, two_to(bound) as int);
    assert forall|c: int| #[trigger] codes.to_set().contains(c) implies vstd::set_lib::set_int_range(
        1,
        two_to(bound) as int,
    ).contains(c) by {
        let i = choose|i: int| 0 <= i < codes.len() && codes[i] == c;
        assert(ascending(packs[i], bound as int));
        lemma_code(packs[i], bound);
    }
    vstd::set_lib::lemma_len_subset(
        codes.to_set(),
        vstd::set_lib::set_int_range(1, two_to(bound) as int),
    );
}

/// Packs of a few units.
spec fn are_packs(packs: Seq<Seq<usize>>, bound: nat) -> bool {
    forall|i: int|
        0 <= i < packs.len() ==> ascending(#[trigger] packs[i], bound as int) && packs[i].len() > 0
}

/// Different packs of a few units.
spec fn is_tidy(found: Found, bound: nat) -> bool {
    found.packs.no_duplicates() && are_packs(found.packs, bound)
}

proof fn lemma_with_packs_goes_on(found: Found, packs: Seq<Seq<usize>>, count: nat, bound: nat)
    requires
        is_tidy(found, bound),
        bound <= 10,
        found.complete,
        count <= packs.len(),
        are_packs(packs, bound),
    ensures
        is_tidy(with_packs(found, packs, count), bound),
        with_packs(found, packs, count).complete,
    decreases count,
{
    if count > 0 {
        let fewer = (count - 1) as nat;
        lemma_with_packs_goes_on(found, packs, fewer, bound);
        let before = with_packs(found, packs, fewer);
        let pack = packs[count - 1];
        if !before.packs.contains(pack) {
            let more = before.packs.push(pack);
            assert(more.no_duplicates());
            lemma_packs_are_few(more, bound);
            reveal_with_fuel(two_to, 11);
            lemma_two_to_grows(bound, 10);
        }
    }
}

proof fn lemma_few_are_searched_through(sizes: Seq<int>, limit: int)
    requires
        sizes.len() <= 10,
    ensures
        found_in(sizes, limit).complete,
{
    if sum(sizes) > limit {
        reveal_with_fuel(two_to, 11);
        lemma_two_to_grows(sizes.len(), 10);
        lemma_visit_goes_on(
            sizes,
            limit,
            0,
            Seq::empty(),
            Walk { nodes: ENUM_NODE_BUDGET as nat, packs: Seq::empty(), complete: true },
        );
    }
}

proof fn lemma_narrowed_goes_on(
    found: Found,
    weights: Seq<int>,
    limit: int,
    count: nat,
    bound: nat,
)
    requires
        are_packs(found.packs, bound),
        bound <= 10,
        found.complete,
        count <= found.packs.len(),
    ensures
        is_tidy(narrowed(found, weights, limit, count), bound),
        narrowed(found, weights, limit, count).complete,
    decreases count,
{
    if count > 0 {
        let fewer = (count - 1) as nat;
        lemma_narrowed_goes_on(found, weights, limit, fewer, bound);
        let before = narrowed(found, weights, limit, fewer);
        let pack = found.packs[count - 1];
        assert(ascending(pack, bound as int));
        lemma_packs_are_short(pack, bound as int);
        let parts = parts_within(weights, limit, pack);
        lemma_few_are_searched_through(counts_of(weights, pack), limit);
        assert forall|i: int| 0 <= i < parts.packs.len() implies ascending(
            #[trigger] parts.packs[i],
            bound as int,
        ) && parts.packs[i].len() > 0 by {
            lemma_parts_within(weights, limit, pack, bound as int, i);
            let one = seq![pack];
            assert(is_part(one[0], parts.packs[i]));
            lemma_parts_ascend(one, weights, limit, parts.packs[i], bound as int);
        }
        lemma_with_packs_goes_on(
            Found { complete: before.complete && parts.complete, ..before },
            parts.packs,
            parts.packs.len(),
            bound,
        );
    }
}

/// A roster of up to ten light units is searched through under the policy's caps too.
pub proof fn law_common_rosters_are_searched_through_under_caps(input: InputView)
    requires
        input.light().len() <= 10,
    ensures
        input.found().complete,
{
    let sizes = input.light_sizes();
    let limit = input.members_limit();
    let bound = sizes.len();
    lemma_few_are_searched_through(sizes, limit);
    let fitting = input.fitting();
    law_found_packs_fit(sizes, limit);
    assert forall|i: int| 0 <= i < fitting.packs.len() implies ascending(
        #[trigger] fitting.packs[i],
        bound as int,
    ) && fitting.packs[i].len() > 0 by {
        assert(crate::packing::maximal_pack(sizes, limit, fitting.packs[i]));
    }
    match input.model_room() {
        Some(most) => {
            lemma_narrowed_goes_on(
                fitting,
                input.light_ones(),
                most,
                fitting.packs.len(),
                bound,
            );
        },
        None => {},
    }
    let held = held_to(fitting, input.light_ones(), input.model_room());
    match input.cache_room() {
        Some(most) => {
            lemma_narrowed_goes_on(held, input.light_caches(), most, held.packs.len(), bound);
        },
        None => {},
    }
}

} // verus!
