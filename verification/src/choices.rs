//! What a plan's choices promise: which images go beside a unit, and that eviction costs
//! have no part in what fits.

use vstd::prelude::*;
use vstd::string::*;

use crate::packing::pack_total;
use crate::plan::{
    fuller_first, greedy, insert_by, models_total, smaller_first, sort_by, InputView, Room,
};
use crate::policy::{CostRole, PolicyView};
use crate::units::{units_of, FootprintView, UnitView};

verus! {

// ---- images ---------------------------------------------------------------------------------

/// No model comes before a smaller one.
pub open spec fn by_size(models: Seq<FootprintView>) -> bool {
    forall|i: int, j: int|
        0 <= i < j < models.len() ==> (#[trigger] models[i]).d_total <= (
        #[trigger] models[j]).d_total
}

proof fn lemma_insert_by_size(sorted: Seq<FootprintView>, item: FootprintView)
    requires
        by_size(sorted),
    ensures
        by_size(insert_by(sorted, item, smaller_first())),
        forall|k: int|
            0 <= k < insert_by(sorted, item, smaller_first()).len() ==> {
                let put = #[trigger] insert_by(sorted, item, smaller_first())[k];
                put == item || (sorted.len() > 0 && put.d_total <= sorted.last().d_total)
            },
    decreases sorted.len(),
{
    let before = smaller_first();
    let all = insert_by(sorted, item, before);
    if sorted.len() > 0 && before(item, sorted.last()) {
        let fewer = sorted.drop_last();
        let put = insert_by(fewer, item, before);
        assert(by_size(fewer)) by {
            assert forall|i: int, j: int| 0 <= i < j < fewer.len() implies (
            #[trigger] fewer[i]).d_total <= (#[trigger] fewer[j]).d_total by {
                assert(sorted[i].d_total <= sorted[j].d_total);
            }
        }
        lemma_insert_by_size(fewer, item);
        assert forall|k: int| 0 <= k < put.len() implies (#[trigger] put[k]).d_total
            <= sorted.last().d_total by {
            if put[k] != item {
                assert(sorted[fewer.len() - 1].d_total <= sorted[sorted.len() - 1].d_total);
            }
        }
        assert forall|i: int, j: int| 0 <= i < j < all.len() implies (#[trigger] all[i]).d_total
            <= (#[trigger] all[j]).d_total by {
            if j < put.len() {
                assert(put[i].d_total <= put[j].d_total);
            } else {
                assert(put[i].d_total <= sorted.last().d_total);
            }
        }
    } else {
        assert forall|i: int, j: int| 0 <= i < j < all.len() implies (#[trigger] all[i]).d_total
            <= (#[trigger] all[j]).d_total by {
            if j < sorted.len() {
                assert(sorted[i].d_total <= sorted[j].d_total);
            } else if i < sorted.len() - 1 {
                assert(sorted[i].d_total <= sorted[sorted.len() - 1].d_total);
            }
        }
        assert forall|k: int| 0 <= k < all.len() implies {
            let put = #[trigger] all[k];
            put == item || (sorted.len() > 0 && put.d_total <= sorted.last().d_total)
        } by {
            if k < sorted.len() - 1 {
                assert(sorted[k].d_total <= sorted[sorted.len() - 1].d_total);
            }
        }
    }
}

proof fn lemma_sorted_by_size(models: Seq<FootprintView>)
    ensures
        by_size(sort_by(models, smaller_first())),
    decreases models.len(),
{
    if models.len() > 0 {
        lemma_sorted_by_size(models.drop_last());
        lemma_insert_by_size(
            sort_by(models.drop_last(), smaller_first()),
            models.last(),
        );
    }
}

/// Some of a list's models, by position.
pub open spec fn picked(models: Seq<FootprintView>, places: Seq<int>) -> Seq<FootprintView> {
    Seq::new(places.len(), |i: int| models[places[i]])
}

/// Positions in a list, each once and in order.
pub open spec fn in_order(places: Seq<int>, length: int) -> bool {
    &&& forall|i: int| 0 <= i < places.len() ==> 0 <= #[trigger] places[i] < length
    &&& forall|i: int, j: int| 0 <= i < j < places.len() ==> #[trigger] places[i] < #[trigger] places[j]
}

proof fn lemma_place_is_no_earlier(places: Seq<int>, length: int, i: int)
    requires
        in_order(places, length),
        0 <= i < places.len(),
    ensures
        i <= places[i],
    decreases i,
{
    if i > 0 {
        lemma_place_is_no_earlier(places, length, i - 1);
        assert(places[i - 1] < places[i]);
    }
}

proof fn lemma_the_smallest_are_least(models: Seq<FootprintView>, places: Seq<int>)
    requires
        by_size(models),
        in_order(places, models.len() as int),
    ensures
        places.len() <= models.len(),
        models_total(models.take(places.len() as int)) <= models_total(picked(models, places)),
    decreases places.len(),
{
    if places.len() > 0 {
        let k = places.len() - 1;
        let fewer = places.drop_last();
        assert(in_order(fewer, models.len() as int)) by {
            assert forall|i: int| 0 <= i < fewer.len() implies 0 <= #[trigger] fewer[i]
                < models.len() by {
                assert(places[i] == fewer[i]);
            }
            assert forall|i: int, j: int| 0 <= i < j < fewer.len() implies #[trigger] fewer[i]
                < #[trigger] fewer[j] by {
                assert(places[i] < places[j]);
            }
        }
        lemma_the_smallest_are_least(models, fewer);
        lemma_place_is_no_earlier(places, models.len() as int, k);
        assert(k < models.len());
        assert(models[k].d_total <= models[places[k]].d_total);
        assert(picked(models, places).drop_last() =~= picked(models, fewer));
        assert(models.take(k + 1).drop_last() =~= models.take(k));
    }
}

/// Sizes that are not below zero.
pub open spec fn sound_sizes(models: Seq<FootprintView>) -> bool {
    forall|i: int| 0 <= i < models.len() ==> (#[trigger] models[i]).d_total >= 0
}

/// Taking sorted models in order takes a prefix: it stops at the first that does not fit.
proof fn lemma_greedy_is_a_prefix(models: Seq<FootprintView>, room: Room)
    requires
        room.models is None,
        room.caches is None,
        by_size(models),
        sound_sizes(models),
    ensures
        greedy(models, room).len() <= models.len(),
        greedy(models, room) == models.take(greedy(models, room).len() as int),
        greedy(models, room).len() < models.len() ==> models_total(
            models.take((greedy(models, room).len() + 1) as int),
        ) > room.free,
    decreases models.len(),
{
    if models.len() > 0 {
        let fewer = models.drop_last();
        let before = greedy(fewer, room);
        let n = before.len() as int;
        assert(by_size(fewer)) by {
            assert forall|i: int, j: int| 0 <= i < j < fewer.len() implies (
            #[trigger] fewer[i]).d_total <= (#[trigger] fewer[j]).d_total by {
                assert(models[i].d_total <= models[j].d_total);
            }
        }
        assert(sound_sizes(fewer)) by {
            assert forall|i: int| 0 <= i < fewer.len() implies (#[trigger] fewer[i]).d_total
                >= 0 by {
                assert(models[i].d_total >= 0);
            }
        }
        lemma_greedy_is_a_prefix(fewer, room);
        assert(fewer.take(n) =~= models.take(n));
        if n < fewer.len() {
            assert(fewer.take(n + 1) =~= models.take(n + 1));
            assert(models.take(n + 1).drop_last() =~= models.take(n));
            assert(models[n].d_total <= models[models.len() - 1].d_total);
        } else {
            assert(models.take(n) =~= fewer);
            assert(models.take(n + 1) =~= models);
            assert(before.push(models.last()) =~= models);
        }
    }
}

/// The images declared beside a unit are as many as fit, where the policy sets no caps: no
/// choice of images that fits in the same room holds more.
pub proof fn law_as_many_images_as_fit(input: InputView, room: Room, places: Seq<int>)
    requires
        room.models is None,
        room.caches is None,
        sound_sizes(input.images()),
        in_order(places, input.images().len() as int),
        models_total(picked(sort_by(input.images(), smaller_first()), places)) <= room.free,
    ensures
        places.len() <= input.images_fitting(room).len(),
{
    let images = input.images();
    let sorted = sort_by(images, smaller_first());
    lemma_sorted_by_size(images);
    crate::roster::lemma_sort_keeps(images, smaller_first());
    assert(sound_sizes(sorted)) by {
        assert forall|i: int| 0 <= i < sorted.len() implies (#[trigger] sorted[i]).d_total >= 0 by {
            assert(images.contains(sorted[i]));
        }
    }
    lemma_greedy_is_a_prefix(sorted, room);
    lemma_the_smallest_are_least(sorted, places);
    let taken = greedy(sorted, room).len() as int;
    if places.len() > taken {
        lemma_prefixes_grow(sorted, taken + 1, places.len() as int);
    }
}

proof fn lemma_prefixes_grow(models: Seq<FootprintView>, from: int, to: int)
    requires
        sound_sizes(models),
        0 <= from <= to <= models.len(),
    ensures
        models_total(models.take(from)) <= models_total(models.take(to)),
    decreases to - from,
{
    if from < to {
        lemma_prefixes_grow(models, from, to - 1);
        assert(models.take(to).drop_last() =~= models.take(to - 1));
        assert(models[to - 1].d_total >= 0);
    }
}

// ---- eviction costs -------------------------------------------------------------------------

/// Two inputs that are the same but for the eviction costs.
pub open spec fn differ_in_costs(a: InputView, b: InputView) -> bool {
    &&& a.models == b.models
    &&& a.baseline == b.baseline
    &&& a.budget == b.budget
    &&& a.host == b.host
    &&& b.policy == (PolicyView { evict_costs: b.policy.evict_costs, ..a.policy })
}

proof fn lemma_same_roles(a: InputView, b: InputView)
    requires
        differ_in_costs(a, b),
    ensures
        a.aux() == b.aux(),
        a.images() == b.images(),
        a.units() == b.units(),
{
    assert forall|role: CostRole| #[trigger] a.in_role(role) == b.in_role(role) by {
        let in_a = |m: FootprintView| a.role(m) == role;
        let in_b = |m: FootprintView| b.role(m) == role;
        assert forall|m: FootprintView| #[trigger] a.role(m) == b.role(m) by {}
        assert(in_a =~= in_b);
    }
    assert(a.in_role(CostRole::Aux) == b.in_role(CostRole::Aux));
    assert(a.in_role(CostRole::Image) == b.in_role(CostRole::Image));
    assert(a.in_role(CostRole::Llm) == b.in_role(CostRole::Llm));
    let models = a.in_role(CostRole::Llm);
    assert(units_of(models, a.policy) == units_of(models, b.policy));
}

proof fn lemma_same_positions(a: InputView, b: InputView, heavy: bool, bound: nat)
    requires
        differ_in_costs(a, b),
        a.aux() == b.aux(),
        a.units() == b.units(),
    ensures
        a.positions(heavy, bound) == b.positions(heavy, bound),
    decreases bound,
{
    if bound > 0 {
        lemma_same_positions(a, b, heavy, (bound - 1) as nat);
        assert(a.heavy(bound - 1) == b.heavy(bound - 1));
    }
}

/// Both have the same roster.
spec fn same_roster(a: InputView, b: InputView) -> bool {
    &&& differ_in_costs(a, b)
    &&& a.aux() == b.aux()
    &&& a.images() == b.images()
    &&& a.light() == b.light()
    &&& a.heavies() == b.heavies()
}

proof fn lemma_same_roster(a: InputView, b: InputView)
    requires
        differ_in_costs(a, b),
    ensures
        same_roster(a, b),
{
    lemma_same_roles(a, b);
    lemma_same_positions(a, b, true, a.units().len());
    lemma_same_positions(a, b, false, a.units().len());
    assert(a.light() =~= b.light());
    assert(a.heavies() =~= b.heavies());
}

proof fn lemma_same_lists(a: InputView, b: InputView, bound: nat)
    requires
        same_roster(a, b),
    ensures
        a.helper_sets(bound) == b.helper_sets(bound),
        a.mixed_sets(bound) == b.mixed_sets(bound),
        a.heavy_sets(bound) == b.heavy_sets(bound),
        a.heavy_excluded(bound) == b.heavy_excluded(bound),
    decreases bound,
{
    if bound > 0 {
        lemma_same_lists(a, b, (bound - 1) as nat);
        let light = a.light()[bound - 1];
        let heavy = a.heavies()[bound - 1];
        assert(a.helper_set(light) == b.helper_set(light));
        assert(a.beside(light) == b.beside(light));
        assert(a.mixed_set(light) == b.mixed_set(light));
        assert(a.keeps_aux(heavy) == b.keeps_aux(heavy));
        assert(a.heavy_set(heavy) == b.heavy_set(heavy));
        assert(a.cannot_run(heavy) == b.cannot_run(heavy));
    }
}

proof fn lemma_same_caches(a: InputView, b: InputView, units: Seq<UnitView>)
    requires
        same_roster(a, b),
    ensures
        a.units_caches(units) == b.units_caches(units),
    decreases units.len(),
{
    if units.len() > 0 {
        lemma_same_caches(a, b, units.drop_last());
    }
}

proof fn lemma_same_runs(a: InputView, b: InputView, bound: nat)
    requires
        same_roster(a, b),
    ensures
        a.image_runs(bound) == b.image_runs(bound),
    decreases bound,
{
    if bound > 0 {
        lemma_same_runs(a, b, (bound - 1) as nat);
    }
}

proof fn lemma_same_packs(a: InputView, b: InputView)
    requires
        same_roster(a, b),
    ensures
        a.found() == b.found(),
        a.pack_sets() == b.pack_sets(),
{
    assert(a.light_sizes() =~= b.light_sizes());
    assert(a.members_limit() == b.members_limit());
    assert(a.light_ones() =~= b.light_ones());
    assert(a.light_caches() =~= b.light_caches());
    assert(a.packs() == b.packs());
    assert forall|i: int| 0 <= i < a.packs().len() implies #[trigger] a.pack_set(i) == b.pack_set(
        i,
    ) by {
        assert(a.pack_units(a.packs()[i]) =~= b.pack_units(b.packs()[i]));
        lemma_same_caches(a, b, a.pack_units(a.packs()[i]));
    }
    assert(a.pack_sets() =~= b.pack_sets());
}

/// Costs are a tie-break among sets that already fit: whatever they are, the same sets are
/// declared, the same models are excluded, and the same rosters are refused.
pub proof fn law_costs_have_no_part_in_what_fits(a: InputView, b: InputView)
    requires
        differ_in_costs(a, b),
    ensures
        a.plan().sets == b.plan().sets,
        a.plan().excluded == b.plan().excluded,
        a.refusal() == b.refusal(),
{
    lemma_same_roster(a, b);
    lemma_same_lists(a, b, a.light().len());
    lemma_same_lists(a, b, a.heavies().len());
    lemma_same_packs(a, b);
    assert(a.aux_sets() == b.aux_sets());
    lemma_same_runs(a, b, a.images().len());
    assert(a.image_sets() =~= b.image_sets());
    assert(a.all_sets() == b.all_sets());
    assert(a.kept_sets() == b.kept_sets());
    assert(a.host_ceiling() == b.host_ceiling());
    assert(a.host_over() == b.host_over());
    assert(a.sets() == b.sets());
}

// ---- order ------------------------------------------------------------------------------------

/// What comes before what, without contradiction: nothing before itself, and not coming before
/// carries over.
pub open spec fn is_order<A>(before: spec_fn(A, A) -> bool) -> bool {
    &&& forall|a: A, b: A| #[trigger] before(a, b) ==> !before(b, a)
    &&& forall|a: A, b: A, c: A|
        !(#[trigger] before(a, b)) && !(#[trigger] before(b, c)) ==> !before(a, c)
}

/// Nothing in a list comes before what stands ahead of it.
pub open spec fn is_sorted<A>(list: Seq<A>, before: spec_fn(A, A) -> bool) -> bool {
    forall|i: int, j: int| 0 <= i < j < list.len() ==> !before(#[trigger] list[j], #[trigger] list[i])
}

proof fn lemma_insert_in_order<A>(sorted: Seq<A>, item: A, before: spec_fn(A, A) -> bool)
    requires
        is_order(before),
        is_sorted(sorted, before),
    ensures
        is_sorted(insert_by(sorted, item, before), before),
        insert_by(sorted, item, before).len() == sorted.len() + 1,
        forall|i: int|
            0 <= i < insert_by(sorted, item, before).len() ==> (#[trigger] insert_by(
                sorted,
                item,
                before,
            )[i] == item || sorted.contains(insert_by(sorted, item, before)[i])),
    decreases sorted.len(),
{
    let after = insert_by(sorted, item, before);
    if sorted.len() > 0 && before(item, sorted.last()) {
        let fewer = sorted.drop_last();
        let inner = insert_by(fewer, item, before);
        lemma_insert_in_order(fewer, item, before);
        assert forall|i: int| 0 <= i < after.len() implies (#[trigger] after[i] == item
            || sorted.contains(after[i])) by {
            if i < inner.len() {
                assert(after[i] == inner[i]);
                if inner[i] != item {
                    let k = choose|k: int| 0 <= k < fewer.len() && fewer[k] == inner[i];
                    assert(sorted[k] == inner[i]);
                }
            } else {
                assert(sorted[sorted.len() - 1] == after[i]);
            }
        }
        assert forall|i: int, j: int| 0 <= i < j < after.len() implies !before(
            #[trigger] after[j],
            #[trigger] after[i],
        ) by {
            if j < inner.len() {
                assert(after[j] == inner[j] && after[i] == inner[i]);
            } else {
                assert(after[i] == inner[i]);
                if inner[i] != item {
                    let k = choose|k: int| 0 <= k < fewer.len() && fewer[k] == inner[i];
                    assert(!before(sorted[sorted.len() - 1], sorted[k]));
                }
            }
        }
    } else {
        assert forall|i: int| 0 <= i < after.len() implies (#[trigger] after[i] == item
            || sorted.contains(after[i])) by {
            if i < sorted.len() {
                assert(sorted[i] == after[i]);
            }
        }
        assert forall|i: int, j: int| 0 <= i < j < after.len() implies !before(
            #[trigger] after[j],
            #[trigger] after[i],
        ) by {
            if j < sorted.len() {
                assert(!before(sorted[j], sorted[i]));
            } else if i < sorted.len() - 1 {
                assert(!before(sorted[sorted.len() - 1], sorted[i]));
            }
        }
    }
}

/// Sorting puts a list in order.
pub proof fn law_sorting_puts_in_order<A>(list: Seq<A>, before: spec_fn(A, A) -> bool)
    requires
        is_order(before),
    ensures
        is_sorted(sort_by(list, before), before),
        sort_by(list, before).len() == list.len(),
    decreases list.len(),
{
    if list.len() > 0 {
        law_sorting_puts_in_order(list.drop_last(), before);
        lemma_insert_in_order(sort_by(list.drop_last(), before), list.last(), before);
    }
}

/// Packs are declared fullest first: none holds more units than one declared ahead of it, and of
/// two with as many units the smaller one is ahead.
pub proof fn law_packs_are_declared_fullest_first(input: InputView, i: int, j: int)
    requires
        0 <= i < j < input.packs().len(),
    ensures
        input.packs()[j].len() <= input.packs()[i].len(),
        input.packs()[j].len() == input.packs()[i].len() ==> pack_total(
            input.light_sizes(),
            input.packs()[i],
        ) <= pack_total(input.light_sizes(), input.packs()[j]),
{
    let before = fuller_first(input.light_sizes());
    assert(is_order(before));
    law_sorting_puts_in_order(input.found().packs, before);
    assert(!before(input.packs()[j], input.packs()[i]));
}

/// Images are tried smallest first.
pub proof fn law_images_are_tried_smallest_first(images: Seq<FootprintView>, i: int, j: int)
    requires
        0 <= i < j < sort_by(images, smaller_first()).len(),
    ensures
        sort_by(images, smaller_first())[i].d_total <= sort_by(images, smaller_first())[j].d_total,
{
    assert(is_order(smaller_first()));
    law_sorting_puts_in_order(images, smaller_first());
    let sorted = sort_by(images, smaller_first());
    assert(!smaller_first()(sorted[j], sorted[i]));
}

} // verus!
