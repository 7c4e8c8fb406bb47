//! What every plan promises, whatever the roster: it never declares a combination that
//! does not fit, and it leaves out nothing that does unless it says so.

use vstd::prelude::*;
use vstd::string::*;

use crate::narrowing::{
    all_fit, held_to, law_held_completes, law_held_packs_cover, law_held_packs_fit,
};
use crate::packing::{
    all_maximal, ascending, covers, fits, full_walk, law_complete_walk_declares_every_fit,
    law_found_packs_are_maximal, maximal_pack, pack_total, set_total,
};
use crate::plan::{
    cache_holders, cap_view, first_unsafe, found_in, fuller_first, greedy, least_except,
    models_total, names_over_cap, sort_by, sum, units_total, within_cap, InputView, Room, SetView,
    FANOUT_CAP,
};
use crate::policy::CostRole;
use crate::roster::lemma_sort_keeps;
use crate::text::{lemma_filter, starts};
use crate::units::{law_units_are_sound, sound_unit, FootprintView, UnitView};

verus! {

// ---- guards -----------------------------------------------------------------------------

proof fn lemma_none_unsafe(sets: Seq<SetView>, ceiling: int, i: int)
    requires
        first_unsafe(sets, ceiling) is None,
        0 <= i < sets.len(),
    ensures
        sets[i].footprint <= ceiling,
    decreases sets.len(),
{
    if i > 0 {
        lemma_none_unsafe(sets.skip(1), ceiling, i - 1);
    }
}

proof fn lemma_unsafe_is_one(sets: Seq<SetView>, ceiling: int) -> (i: int)
    requires
        first_unsafe(sets, ceiling) is Some,
    ensures
        0 <= i < sets.len(),
        sets[i] == first_unsafe(sets, ceiling)->0,
        sets[i].footprint > ceiling,
    decreases sets.len(),
{
    if sets[0].footprint > ceiling {
        0
    } else {
        lemma_unsafe_is_one(sets.skip(1), ceiling) + 1
    }
}

pub(crate) proof fn lemma_over_cap_named(sets: Seq<SetView>, i: int)
    requires
        0 <= i < sets.len(),
        sets[i].fanout > FANOUT_CAP,
    ensures
        names_over_cap(sets).contains(sets[i].name),
    decreases sets.len(),
{
    let before = names_over_cap(sets.drop_last());
    if i < sets.len() - 1 {
        lemma_over_cap_named(sets.drop_last(), i);
        let k = choose|k: int| 0 <= k < before.len() && before[k] == sets[i].name;
        assert(names_over_cap(sets)[k] == sets[i].name);
    } else {
        assert(names_over_cap(sets)[before.len() as int] == sets[i].name);
    }
}

/// A set that is declared is one that the roster calls for: leaving sets out is all that
/// the guards do.
pub proof fn law_guards_only_leave_out(input: InputView, i: int)
    requires
        0 <= i < input.sets().len(),
    ensures
        input.kept_sets().contains(input.sets()[i]),
        input.all_sets().contains(input.sets()[i]),
{
    let set = input.sets()[i];
    let over = Seq::new(input.host_over().len(), |k: int| input.host_over()[k].0);
    lemma_filter(input.kept_sets(), |s: SetView| !over.contains(s.name));
    assert(input.kept_sets().contains(set));
    let capped = names_over_cap(input.all_sets());
    lemma_filter(input.all_sets(), |s: SetView| !capped.contains(s.name));
    let j = choose|j: int| 0 <= j < input.kept_sets().len() && input.kept_sets()[j] == set;
    assert(input.all_sets().contains(input.kept_sets()[j]));
}

/// Never out of memory: every declared set fits under the ceiling.
pub proof fn law_every_declared_set_fits(input: InputView, i: int)
    requires
        input.refusal() is None,
        0 <= i < input.plan().sets.len(),
    ensures
        input.plan().sets[i].footprint <= input.plan().ceiling,
{
    law_guards_only_leave_out(input, i);
    let set = input.sets()[i];
    let j = choose|j: int| 0 <= j < input.all_sets().len() && input.all_sets()[j] == set;
    lemma_none_unsafe(input.all_sets(), input.ceiling(), j);
}

/// Never an invalid block: no declared set expands past llama-swap's combination cap.
pub proof fn law_every_declared_set_is_within_the_cap(input: InputView, i: int)
    requires
        0 <= i < input.plan().sets.len(),
    ensures
        input.plan().sets[i].fanout <= FANOUT_CAP,
{
    law_guards_only_leave_out(input, i);
    let set = input.sets()[i];
    let capped = names_over_cap(input.all_sets());
    lemma_filter(input.all_sets(), |s: SetView| !capped.contains(s.name));
    let k = choose|k: int| 0 <= k < input.kept_sets().len() && input.kept_sets()[k] == set;
    assert(!capped.contains(input.kept_sets()[k].name));
    let j = choose|j: int| 0 <= j < input.all_sets().len() && input.all_sets()[j] == set;
    if set.fanout > FANOUT_CAP {
        lemma_over_cap_named(input.all_sets(), j);
    }
}

// ---- what the knapsack emits --------------------------------------------------------------

pub(crate) proof fn lemma_positions(input: InputView, heavy: bool, bound: nat)
    ensures
        forall|k: int|
            0 <= k < input.positions(heavy, bound).len() ==> {
                &&& 0 <= #[trigger] input.positions(heavy, bound)[k] < bound
                &&& input.heavy(input.positions(heavy, bound)[k]) == heavy
            },
        forall|i: int|
            0 <= i < bound && input.heavy(i) == heavy ==> #[trigger] input.positions(
                heavy,
                bound,
            ).contains(i),
    decreases bound,
{
    if bound > 0 {
        let before = input.positions(heavy, (bound - 1) as nat);
        let all = input.positions(heavy, bound);
        lemma_positions(input, heavy, (bound - 1) as nat);
        assert forall|i: int| 0 <= i < bound && input.heavy(i) == heavy implies #[trigger] all.contains(
            i,
        ) by {
            if i < bound - 1 {
                assert(before.contains(i));
                let k = choose|k: int| 0 <= k < before.len() && before[k] == i;
                assert(all[k] == i);
            } else {
                assert(all[before.len() as int] == i);
            }
        }
    }
}

proof fn lemma_least_positive(units: Seq<UnitView>, skipped: int, bound: nat)
    requires
        bound <= units.len(),
        forall|i: int| 0 <= i < units.len() ==> sound_unit(#[trigger] units[i]),
    ensures
        least_except(units, skipped, bound) is Some ==> least_except(units, skipped, bound)->0 >= 0,
    decreases bound,
{
    if bound > 0 {
        lemma_least_positive(units, skipped, (bound - 1) as nat);
        assert(sound_unit(units[bound - 1]));
    }
}

/// A light unit fits beside the ride-alongs.
pub(crate) proof fn lemma_light_fits(input: InputView, k: int)
    requires
        0 <= k < input.light().len(),
    ensures
        input.baseline + input.light()[k].size + input.aux_cost() <= input.ceiling(),
        sound_unit(input.light()[k]),
{
    let units = input.units();
    let places = input.positions(false, units.len());
    lemma_positions(input, false, units.len());
    law_units_are_sound(input.in_role(CostRole::Llm), input.policy);
    let index = places[k];
    assert(input.heavy(index) == false);
    lemma_least_positive(units, index, units.len());
    assert(sound_unit(units[index]));
}

proof fn lemma_light_sizes(input: InputView)
    ensures
        input.light_sizes().len() == input.light().len(),
        forall|k: int| 0 <= k < input.light_sizes().len() ==> input.light_sizes()[k] >= 0,
        forall|k: int|
            0 <= k < input.light_sizes().len() ==> #[trigger] input.light_sizes()[k]
                <= input.members_limit(),
{
    assert forall|k: int| 0 <= k < input.light_sizes().len() implies #[trigger] input.light_sizes()[k]
        >= 0 && input.light_sizes()[k] <= input.members_limit() by {
        lemma_light_fits(input, k);
    }
}

proof fn lemma_whole_total(sizes: Seq<int>, bound: nat)
    requires
        bound <= sizes.len() <= usize::MAX,
    ensures
        pack_total(sizes, Seq::new(bound, |i: int| i as usize)) == sum(sizes.take(bound as int)),
    decreases bound,
{
    let pack = Seq::new(bound, |i: int| i as usize);
    if bound > 0 {
        lemma_whole_total(sizes, (bound - 1) as nat);
        assert(pack.drop_last() =~= Seq::new((bound - 1) as nat, |i: int| i as usize));
        assert(sizes.take(bound as int).drop_last() =~= sizes.take(bound - 1));
    }
}

/// Every pack found in a limit is a maximal pack: it fits, and no other unit can join it.
pub proof fn law_found_packs_fit(sizes: Seq<int>, limit: int)
    requires
        sizes.len() <= usize::MAX,
    ensures
        all_maximal(sizes, limit, found_in(sizes, limit).packs),
{
    if sum(sizes) <= limit {
        if sizes.len() > 0 {
            let pack = Seq::new(sizes.len(), |i: int| i as usize);
            lemma_whole_total(sizes, sizes.len());
            assert(sizes.take(sizes.len() as int) =~= sizes);
            assert(ascending(pack, sizes.len() as int));
            assert forall|u: usize| u < sizes.len() && !pack.contains(u) implies pack_total(
                sizes,
                pack,
            ) + #[trigger] sizes[u as int] > limit by {
                assert(pack[u as int] == u);
            }
            assert(maximal_pack(sizes, limit, pack));
        }
    } else {
        law_found_packs_are_maximal(sizes, limit);
    }
}

/// A complete search misses nothing: every combination of units that fits is part of a
/// pack.
pub proof fn law_found_packs_declare_every_fit(sizes: Seq<int>, limit: int, units: Set<usize>)
    requires
        sizes.len() <= usize::MAX,
        forall|i: int| 0 <= i < sizes.len() ==> sizes[i] >= 0,
        found_in(sizes, limit).complete,
        fits(sizes, limit, units),
        exists|u: usize| units.contains(u),
    ensures
        exists|i: int|
            0 <= i < found_in(sizes, limit).packs.len() && covers(
                #[trigger] found_in(sizes, limit).packs[i],
                units,
            ),
{
    if sum(sizes) <= limit {
        let pack = Seq::new(sizes.len(), |i: int| i as usize);
        let some = choose|u: usize| units.contains(u);
        assert(some < sizes.len());
        assert forall|u: usize| #[trigger] units.contains(u) implies pack.contains(u) by {
            assert(pack[u as int] == u);
        }
        assert(found_in(sizes, limit).packs[0] == pack);
        assert(covers(found_in(sizes, limit).packs[0], units));
    } else {
        law_complete_walk_declares_every_fit(sizes, limit, units);
        let packs = full_walk(sizes, limit).packs;
        let i = choose|i: int| 0 <= i < packs.len() && covers(#[trigger] packs[i], units);
        assert(covers(found_in(sizes, limit).packs[i], units));
    }
}

proof fn lemma_ones_total(count: nat, pack: Seq<usize>)
    requires
        ascending(pack, count as int),
    ensures
        pack_total(Seq::new(count, |i: int| 1int), pack) == pack.len(),
    decreases pack.len(),
{
    if pack.len() > 0 {
        let fewer = pack.drop_last();
        assert(ascending(fewer, count as int)) by {
            assert forall|i: int| 0 <= i < fewer.len() implies #[trigger] fewer[i] < count by {
                assert(fewer[i] == pack[i]);
            }
        }
        lemma_ones_total(count, fewer);
        assert(pack[pack.len() - 1] < count);
    }
}

proof fn lemma_members_caches(input: InputView, pack: Seq<usize>)
    requires
        ascending(pack, input.light().len() as int),
    ensures
        input.units_caches(input.pack_units(pack)) == pack_total(input.light_caches(), pack),
    decreases pack.len(),
{
    if pack.len() > 0 {
        let fewer = pack.drop_last();
        assert(ascending(fewer, input.light().len() as int)) by {
            assert forall|i: int| 0 <= i < fewer.len() implies #[trigger] fewer[i]
                < input.light().len() by {
                assert(fewer[i] == pack[i]);
            }
        }
        lemma_members_caches(input, fewer);
        assert(input.pack_units(pack).drop_last() =~= input.pack_units(fewer));
        assert(pack[pack.len() - 1] < input.light().len());
    }
}

/// The packs that fit, before they are held to the caps.
proof fn lemma_fitting(input: InputView)
    requires
        input.light().len() <= usize::MAX,
    ensures
        all_fit(input.fitting().packs, input.light_sizes(), input.members_limit()),
{
    let sizes = input.light_sizes();
    let packs = input.fitting().packs;
    law_found_packs_fit(sizes, input.members_limit());
    assert forall|k: int| 0 <= k < packs.len() implies ascending(
        #[trigger] packs[k],
        sizes.len() as int,
    ) && packs[k].len() > 0 && pack_total(sizes, packs[k]) <= input.members_limit() by {
        assert(maximal_pack(sizes, input.members_limit(), packs[k]));
    }
}

proof fn lemma_found(input: InputView)
    requires
        input.light().len() <= usize::MAX,
    ensures
        ({
            let few = held_to(input.fitting(), input.light_ones(), input.model_room());
            let packs = input.found().packs;
            &&& all_fit(few.packs, input.light_sizes(), input.members_limit())
            &&& all_fit(packs, input.light_sizes(), input.members_limit())
            &&& input.model_room() is Some ==> all_fit(
                packs,
                input.light_ones(),
                input.model_room()->0,
            )
            &&& input.cache_room() is Some ==> all_fit(
                packs,
                input.light_caches(),
                input.cache_room()->0,
            )
        }),
{
    let sizes = input.light_sizes();
    let limit = input.members_limit();
    let ones = input.light_ones();
    let caches = input.light_caches();
    let few = held_to(input.fitting(), ones, input.model_room());
    lemma_light_sizes(input);
    lemma_fitting(input);
    law_held_packs_fit(input.fitting(), ones, input.model_room(), sizes, limit);
    law_held_packs_fit(few, caches, input.cache_room(), sizes, limit);
    if input.model_room() is Some {
        law_held_packs_fit(few, caches, input.cache_room(), ones, input.model_room()->0);
    }
}

/// Every pack that is declared fits beside the ride-alongs, and keeps within the caps.
pub proof fn law_declared_packs_fit(input: InputView, i: int)
    requires
        input.light().len() <= usize::MAX,
        0 <= i < input.packs().len(),
    ensures
        ascending(input.packs()[i], input.light().len() as int),
        input.packs()[i].len() > 0,
        pack_total(input.light_sizes(), input.packs()[i]) <= input.members_limit(),
        within_cap(input.model_room(), input.packs()[i].len() as int),
        within_cap(
            input.cache_room(),
            input.units_caches(input.pack_units(input.packs()[i])) as int,
        ),
{
    let sizes = input.light_sizes();
    let found = input.found().packs;
    lemma_found(input);
    lemma_sort_keeps(found, fuller_first(sizes));
    assert(found.contains(input.packs()[i]));
    let j = choose|j: int| 0 <= j < found.len() && found[j] == input.packs()[i];
    assert(ascending(found[j], sizes.len() as int));
    lemma_ones_total(input.light().len(), found[j]);
    assert(input.light_ones() =~= Seq::new(input.light().len(), |i: int| 1int));
    lemma_members_caches(input, found[j]);
    if input.model_room() is Some {
        assert(pack_total(input.light_ones(), found[j]) <= input.model_room()->0);
    }
    if input.cache_room() is Some {
        assert(pack_total(input.light_caches(), found[j]) <= input.cache_room()->0);
    }
}

/// Every pack that is declared is maximal among the light units, where the policy sets no
/// caps.
pub proof fn law_declared_packs_are_maximal(input: InputView, i: int)
    requires
        input.is_uncapped(),
        input.light().len() <= usize::MAX,
        0 <= i < input.packs().len(),
    ensures
        maximal_pack(input.light_sizes(), input.members_limit(), input.packs()[i]),
{
    let sizes = input.light_sizes();
    law_found_packs_fit(sizes, input.members_limit());
    lemma_sort_keeps(input.found().packs, fuller_first(sizes));
    assert(input.found().packs.contains(input.packs()[i]));
    let j = choose|j: int|
        0 <= j < input.found().packs.len() && input.found().packs[j] == input.packs()[i];
    assert(maximal_pack(sizes, input.members_limit(), input.found().packs[j]));
}

/// A combination of light units keeps within the caps.
pub open spec fn is_within_caps(input: InputView, units: Set<usize>) -> bool {
    &&& within_cap(
        input.model_room(),
        set_total(input.light_ones(), units, input.light().len()),
    )
    &&& within_cap(
        input.cache_room(),
        set_total(input.light_caches(), units, input.light().len()),
    )
}

/// Maximum flexibility: unless the search was cut short, every combination of light units
/// that fits beside the ride-alongs, and keeps within the caps where there are any, is part of
/// a declared pack.
pub proof fn law_every_fitting_combination_is_declared(input: InputView, units: Set<usize>)
    requires
        input.light().len() <= usize::MAX,
        input.found().complete,
        fits(input.light_sizes(), input.members_limit(), units),
        is_within_caps(input, units),
        exists|u: usize| units.contains(u),
    ensures
        exists|i: int| 0 <= i < input.packs().len() && covers(#[trigger] input.packs()[i], units),
{
    let sizes = input.light_sizes();
    let ones = input.light_ones();
    let caches = input.light_caches();
    let fitting = input.fitting();
    let few = held_to(fitting, ones, input.model_room());
    let found = input.found();
    lemma_light_sizes(input);
    lemma_fitting(input);
    lemma_found(input);
    law_held_completes(few, caches, input.cache_room());
    law_held_completes(fitting, ones, input.model_room());
    law_found_packs_declare_every_fit(sizes, input.members_limit(), units);
    let j = choose|j: int|
        0 <= j < fitting.packs.len() && covers(#[trigger] fitting.packs[j], units);
    assert forall|i: int| 0 <= i < fitting.packs.len() implies ascending(
        #[trigger] fitting.packs[i],
        ones.len() as int,
    ) by {
        assert(ascending(fitting.packs[i], sizes.len() as int));
    }
    let m = law_held_packs_cover(fitting, ones, input.model_room(), units, j);
    assert forall|i: int| 0 <= i < few.packs.len() implies ascending(
        #[trigger] few.packs[i],
        caches.len() as int,
    ) by {
        assert(ascending(few.packs[i], sizes.len() as int));
    }
    let k = law_held_packs_cover(few, caches, input.cache_room(), units, m);
    lemma_sort_keeps(found.packs, fuller_first(sizes));
    assert(found.packs.contains(found.packs[k]));
    assert(input.packs().contains(found.packs[k]));
    let i = choose|i: int| 0 <= i < input.packs().len() && input.packs()[i] == found.packs[k];
    assert(covers(input.packs()[i], units));
}

proof fn lemma_single_total(sizes: Seq<int>, unit: usize, bound: nat)
    requires
        bound <= sizes.len() <= usize::MAX,
        unit < sizes.len(),
    ensures
        set_total(sizes, set![unit], bound) == if unit < bound {
            sizes[unit as int]
        } else {
            0
        },
    decreases bound,
{
    if bound > 0 {
        lemma_single_total(sizes, unit, (bound - 1) as nat);
    }
}

/// No light unit is forgotten: unless the search was cut short, or a cap leaves no room for any,
/// each is in some declared pack.
pub proof fn law_every_light_unit_is_declared(input: InputView, k: usize)
    requires
        input.light().len() <= usize::MAX,
        input.no_room() is None,
        input.found().complete,
        k < input.light().len(),
    ensures
        exists|i: int| 0 <= i < input.packs().len() && (#[trigger] input.packs()[i]).contains(k),
{
    let sizes = input.light_sizes();
    lemma_light_sizes(input);
    let units = set![k];
    lemma_single_total(sizes, k, sizes.len());
    assert(sizes[k as int] <= input.members_limit());
    assert(units.contains(k));
    assert(fits(sizes, input.members_limit(), units));
    lemma_single_total(input.light_ones(), k, sizes.len());
    lemma_single_total(input.light_caches(), k, sizes.len());
    assert(is_within_caps(input, units));
    law_every_fitting_combination_is_declared(input, units);
    let i = choose|i: int| 0 <= i < input.packs().len() && covers(#[trigger] input.packs()[i], units);
    assert(input.packs()[i].contains(k));
}

proof fn lemma_members_total(input: InputView, pack: Seq<usize>)
    requires
        ascending(pack, input.light().len() as int),
    ensures
        units_total(input.pack_units(pack)) == pack_total(input.light_sizes(), pack),
    decreases pack.len(),
{
    if pack.len() > 0 {
        let fewer = pack.drop_last();
        assert(ascending(fewer, input.light().len() as int)) by {
            assert forall|i: int| 0 <= i < fewer.len() implies #[trigger] fewer[i]
                < input.light().len() by {
                assert(fewer[i] == pack[i]);
            }
        }
        lemma_members_total(input, fewer);
        assert(input.pack_units(pack).drop_last() =~= input.pack_units(fewer));
        assert(pack[pack.len() - 1] < input.light().len());
    }
}

proof fn lemma_greedy_fits(models: Seq<FootprintView>, room: Room)
    ensures
        greedy(models, room).len() > 0 ==> {
            &&& models_total(greedy(models, room)) <= room.free
            &&& within_cap(room.models, greedy(models, room).len() as int)
            &&& within_cap(room.caches, cache_holders(greedy(models, room)) as int)
        },
    decreases models.len(),
{
    if models.len() > 0 {
        let before = greedy(models.drop_last(), room);
        lemma_greedy_fits(models.drop_last(), room);
        assert(before.push(models.last()).drop_last() =~= before);
    }
}

/// The packs the knapsack makes fit.
pub proof fn law_packs_fit(input: InputView, i: int)
    requires
        input.light().len() <= usize::MAX,
        0 <= i < input.packs().len(),
    ensures
        input.pack_set(i).footprint <= input.ceiling(),
{
    law_declared_packs_fit(input, i);
    lemma_members_total(input, input.packs()[i]);
}

/// A light unit with the images beside it fits.
pub proof fn law_mixed_sets_fit(input: InputView, unit: UnitView)
    requires
        input.beside(unit).len() > 0,
    ensures
        input.mixed_set(unit).footprint <= input.ceiling(),
{
    lemma_greedy_fits(
        sort_by(input.images(), crate::plan::smaller_first()),
        input.room_beside(unit),
    );
}

/// A heavy unit that is declared fits, with whatever is declared beside it.
pub proof fn law_heavy_sets_fit(input: InputView, unit: UnitView)
    requires
        !input.cannot_run(unit),
    ensures
        input.heavy_set(unit).footprint <= input.ceiling(),
{
    lemma_greedy_fits(
        sort_by(input.images(), crate::plan::smaller_first()),
        input.room_beside_heavy(unit),
    );
}

pub(crate) proof fn lemma_helper_sets(input: InputView, bound: nat, i: int)
    requires
        bound <= input.light().len(),
        0 <= i < input.helper_sets(bound).len(),
    ensures
        exists|k: int|
            0 <= k < bound && input.helper_sets(bound)[i] == input.helper_set(
                #[trigger] input.light()[k],
            ),
    decreases bound,
{
    let before = input.helper_sets((bound - 1) as nat);
    if i < before.len() {
        lemma_helper_sets(input, (bound - 1) as nat, i);
        let k = choose|k: int|
            0 <= k < bound - 1 && before[i] == input.helper_set(#[trigger] input.light()[k]);
        assert(input.helper_sets(bound)[i] == input.helper_set(input.light()[k]));
    } else {
        assert(input.helper_sets(bound)[i] == input.helper_set(input.light()[bound - 1]));
    }
}

pub(crate) proof fn lemma_mixed_sets(input: InputView, bound: nat, i: int)
    requires
        bound <= input.light().len(),
        0 <= i < input.mixed_sets(bound).len(),
    ensures
        exists|k: int|
            0 <= k < bound && input.beside(#[trigger] input.light()[k]).len() > 0
                && input.mixed_sets(bound)[i] == input.mixed_set(input.light()[k]),
    decreases bound,
{
    let before = input.mixed_sets((bound - 1) as nat);
    if i < before.len() {
        lemma_mixed_sets(input, (bound - 1) as nat, i);
        let k = choose|k: int|
            0 <= k < bound - 1 && input.beside(#[trigger] input.light()[k]).len() > 0 && before[i]
                == input.mixed_set(input.light()[k]);
        assert(input.mixed_sets(bound)[i] == input.mixed_set(input.light()[k]));
    } else {
        assert(input.mixed_sets(bound)[i] == input.mixed_set(input.light()[bound - 1]));
    }
}

pub(crate) proof fn lemma_heavy_sets(input: InputView, bound: nat, i: int)
    requires
        bound <= input.heavies().len(),
        0 <= i < input.heavy_sets(bound).len(),
    ensures
        exists|k: int|
            0 <= k < bound && !input.cannot_run(#[trigger] input.heavies()[k])
                && input.heavy_sets(bound)[i] == input.heavy_set(input.heavies()[k]),
    decreases bound,
{
    let before = input.heavy_sets((bound - 1) as nat);
    if i < before.len() {
        lemma_heavy_sets(input, (bound - 1) as nat, i);
        let k = choose|k: int|
            0 <= k < bound - 1 && !input.cannot_run(#[trigger] input.heavies()[k]) && before[i]
                == input.heavy_set(input.heavies()[k]);
        assert(input.heavy_sets(bound)[i] == input.heavy_set(input.heavies()[k]));
    } else {
        assert(input.heavy_sets(bound)[i] == input.heavy_set(input.heavies()[bound - 1]));
    }
}

/// Only the ride-along pool or the image pool can fail to fit, when the roster's own
/// fixed parts are too large; nothing that the planner combines ever does.
pub proof fn law_only_fixed_pools_can_fail_to_fit(input: InputView)
    requires
        input.light().len() <= usize::MAX,
        first_unsafe(input.all_sets(), input.ceiling()) is Some,
    ensures
        ({
            let set = first_unsafe(input.all_sets(), input.ceiling())->0;
            set.name == "aux"@ || starts(set.name, "images"@)
        }),
{
    let i = lemma_unsafe_is_one(input.all_sets(), input.ceiling());
    let a = input.aux_sets();
    let b = input.helper_sets(input.light().len());
    let c = input.image_sets();
    let d = input.pack_sets();
    let e = input.mixed_sets(input.light().len());
    let f = input.heavy_sets(input.heavies().len());
    let all = input.all_sets();
    assert(all == a + b + c + d + e + f);
    if i < a.len() {
        assert(all[i] == a[i]);
    } else if i < a.len() + b.len() {
        let j = i - a.len();
        assert(all[i] == b[j]);
        lemma_helper_sets(input, input.light().len(), j);
        let k = choose|k: int|
            0 <= k < input.light().len() && b[j] == input.helper_set(#[trigger] input.light()[k]);
        lemma_light_fits(input, k);
    } else if i < a.len() + b.len() + c.len() {
        assert(all[i] == c[i - a.len() - b.len()]);
        let name = all[i].name;
        assert(name.subrange(0, "images"@.len() as int) =~= "images"@);
    } else if i < a.len() + b.len() + c.len() + d.len() {
        let j = i - a.len() - b.len() - c.len();
        assert(all[i] == d[j]);
        law_packs_fit(input, j);
    } else if i < a.len() + b.len() + c.len() + d.len() + e.len() {
        let j = i - a.len() - b.len() - c.len() - d.len();
        assert(all[i] == e[j]);
        lemma_mixed_sets(input, input.light().len(), j);
        let k = choose|k: int|
            0 <= k < input.light().len() && input.beside(#[trigger] input.light()[k]).len() > 0
                && e[j] == input.mixed_set(input.light()[k]);
        law_mixed_sets_fit(input, input.light()[k]);
    } else {
        let j = i - a.len() - b.len() - c.len() - d.len() - e.len();
        assert(all[i] == f[j]);
        lemma_heavy_sets(input, input.heavies().len(), j);
        let k = choose|k: int|
            0 <= k < input.heavies().len() && !input.cannot_run(#[trigger] input.heavies()[k])
                && f[j] == input.heavy_set(input.heavies()[k]);
        law_heavy_sets_fit(input, input.heavies()[k]);
    }
}

// ---- caps -----------------------------------------------------------------------------------

/// A set keeps within the caps of the policy.
pub open spec fn keeps_caps(input: InputView, set: SetView) -> bool {
    &&& within_cap(cap_view(input.policy.max_models_per_set), set.models as int)
    &&& within_cap(cap_view(input.policy.max_cache_holders_per_set), set.caches as int)
}

proof fn lemma_runs_keep_caps(input: InputView, bound: nat, r: int)
    requires
        input.no_room() is None,
        bound <= input.images().len(),
        0 <= r < input.image_runs(bound).len(),
    ensures
        within_cap(input.model_room(), input.image_runs(bound)[r].len() as int),
        within_cap(input.cache_room(), cache_holders(input.image_runs(bound)[r]) as int),
    decreases bound,
{
    let before = input.image_runs((bound - 1) as nat);
    let run = input.image_runs(bound)[r];
    let alone = seq![input.images()[bound - 1]];
    assert(alone.drop_last() =~= Seq::<FootprintView>::empty());
    assert(cache_holders(alone.drop_last()) == 0);
    if r < before.len() && run == before[r] {
        lemma_runs_keep_caps(input, (bound - 1) as nat, r);
    }
}

/// Never more at once than the policy allows: no declared set loads more models than
/// `max_models_per_set`, nor more that hold a prompt cache than `max_cache_holders_per_set`.
pub proof fn law_every_declared_set_keeps_the_caps(input: InputView, i: int)
    requires
        input.light().len() <= usize::MAX,
        input.refusal() is None,
        0 <= i < input.plan().sets.len(),
    ensures
        keeps_caps(input, input.plan().sets[i]),
{
    law_guards_only_leave_out(input, i);
    let all = input.all_sets();
    let set = input.plan().sets[i];
    let at = choose|at: int| 0 <= at < all.len() && all[at] == set;
    lemma_called_for_keeps_caps(input, at);
}

proof fn lemma_called_for_keeps_caps(input: InputView, i: int)
    requires
        input.light().len() <= usize::MAX,
        input.no_room() is None,
        0 <= i < input.all_sets().len(),
    ensures
        keeps_caps(input, input.all_sets()[i]),
{
    let a = input.aux_sets();
    let b = input.helper_sets(input.light().len());
    let c = input.image_sets();
    let d = input.pack_sets();
    let e = input.mixed_sets(input.light().len());
    let f = input.heavy_sets(input.heavies().len());
    let all = input.all_sets();
    assert(all == a + b + c + d + e + f);
    if i < a.len() {
        assert(all[i] == a[i]);
    } else if i < a.len() + b.len() {
        let j = i - a.len();
        assert(all[i] == b[j]);
        lemma_helper_sets(input, input.light().len(), j);
    } else if i < a.len() + b.len() + c.len() {
        let j = i - a.len() - b.len();
        assert(all[i] == c[j]);
        lemma_runs_keep_caps(input, input.images().len(), j);
    } else if i < a.len() + b.len() + c.len() + d.len() {
        let j = i - a.len() - b.len() - c.len();
        assert(all[i] == d[j]);
        law_declared_packs_fit(input, j);
    } else if i < a.len() + b.len() + c.len() + d.len() + e.len() {
        let j = i - a.len() - b.len() - c.len() - d.len();
        assert(all[i] == e[j]);
        lemma_mixed_sets(input, input.light().len(), j);
        let k = choose|k: int|
            0 <= k < input.light().len() && input.beside(#[trigger] input.light()[k]).len() > 0
                && e[j] == input.mixed_set(input.light()[k]);
        lemma_greedy_fits(
            sort_by(input.images(), crate::plan::smaller_first()),
            input.room_beside(input.light()[k]),
        );
    } else {
        let j = i - a.len() - b.len() - c.len() - d.len() - e.len();
        assert(all[i] == f[j]);
        lemma_heavy_sets(input, input.heavies().len(), j);
        let k = choose|k: int|
            0 <= k < input.heavies().len() && !input.cannot_run(#[trigger] input.heavies()[k])
                && f[j] == input.heavy_set(input.heavies()[k]);
        let unit = input.heavies()[k];
        lemma_greedy_fits(
            sort_by(input.images(), crate::plan::smaller_first()),
            input.room_beside_heavy(unit),
        );
        assert(cache_holders(Seq::<FootprintView>::empty()) == 0);
    }
}

} // verus!
