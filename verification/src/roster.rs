//! A roster sorted out for building: roles, units, heavy and light, packs.

use vstd::prelude::*;
use vstd::string::*;

use crate::model::ModelType;
use crate::narrowing::{
    counts_of, held_to, law_narrowed_packs_are_parts, narrowed, part, part_of_one, parts_within,
    with_pack, with_packs,
};
use crate::packing::{
    ascending, enumerate_maximal_packs, ints, law_found_packs_are_maximal, maximal_pack, pack_total,
    ENUM_NODE_BUDGET, MAX_PACKS,
};
use crate::plan::{
    cache_holders, cap_view, few_enough, found_in, fuller_first, greedy, insert_by, known_host,
    least_except, less_room, models_host, models_total, places, smaller_first, sort_by, sum,
    units_host, units_total, within_cap, BuildInput, Found, HostBudget, InputView, Room,
};
use crate::policy::CostRole;
use crate::text::{has_name, lemma_views_push, views};
use crate::units::{
    collapse_units, law_units_are_no_more_than_models, law_units_are_sound, sound_unit,
    FootprintView, ModelFootprint, Unit,
};

verus! {

// ---- sums -------------------------------------------------------------------------------

/// `x` is a sum of at most `n` amounts.
pub open spec fn sum_of_at_most(x: int, n: int) -> bool {
    -n * 0x8000_0000_0000_0000 <= x <= n * 0x8000_0000_0000_0000
}

/// What some models hold together.
pub(crate) fn total_of(models: &Vec<&ModelFootprint>) -> (r: i128)
    ensures
        r == models_total(views(models@)),
        sum_of_at_most(r as int, models@.len() as int),
{
    let ghost all = views(models@);
    let mut r: i128 = 0;
    let mut at: usize = 0;
    while at < models.len()
        invariant
            at <= models@.len(),
            all == views(models@),
            r == models_total(all.take(at as int)),
            sum_of_at_most(r as int, at as int),
        decreases models@.len() - at,
    {
        proof {
            assert(all.take(at + 1).drop_last() =~= all.take(at as int));
        }
        r = r + models[at].d_total as i128;
        at = at + 1;
    }
    proof {
        assert(all.take(at as int) =~= all);
    }
    r
}

/// What some models cost the host together.
pub(crate) fn host_total_of(models: &Vec<&ModelFootprint>) -> (r: i128)
    ensures
        r == models_host(views(models@)),
        sum_of_at_most(r as int, models@.len() as int),
{
    let ghost all = views(models@);
    let mut r: i128 = 0;
    let mut at: usize = 0;
    while at < models.len()
        invariant
            at <= models@.len(),
            all == views(models@),
            r == models_host(all.take(at as int)),
            sum_of_at_most(r as int, at as int),
        decreases models@.len() - at,
    {
        proof {
            assert(all.take(at + 1).drop_last() =~= all.take(at as int));
        }
        r = r + known(models[at].host_gb) as i128;
        at = at + 1;
    }
    proof {
        assert(all.take(at as int) =~= all);
    }
    r
}

/// A host cost, taken as nothing where it is unknown.
pub(crate) fn known(host: Option<i64>) -> (r: i64)
    ensures
        r == known_host(crate::units::amount_view(host)),
{
    match host {
        Some(cost) => cost,
        None => 0,
    }
}

/// What some units hold together, and what they cost the host together.
pub(crate) fn unit_totals_of(units: &Vec<&Unit>) -> (r: (i128, i128))
    ensures
        r.0 == units_total(views(units@)),
        r.1 == units_host(views(units@)),
        sum_of_at_most(r.0 as int, units@.len() as int),
        sum_of_at_most(r.1 as int, units@.len() as int),
{
    let ghost all = views(units@);
    let mut size: i128 = 0;
    let mut host: i128 = 0;
    let mut at: usize = 0;
    while at < units.len()
        invariant
            at <= units@.len(),
            all == views(units@),
            size == units_total(all.take(at as int)),
            host == units_host(all.take(at as int)),
            sum_of_at_most(size as int, at as int),
            sum_of_at_most(host as int, at as int),
        decreases units@.len() - at,
    {
        proof {
            assert(all.take(at + 1).drop_last() =~= all.take(at as int));
        }
        size = size + units[at].size as i128;
        host = host + known(units[at].host_size) as i128;
        at = at + 1;
    }
    proof {
        assert(all.take(at as int) =~= all);
    }
    (size, host)
}

fn sum_of(sizes: &Vec<i64>) -> (r: i128)
    ensures
        r == sum(ints(sizes@)),
{
    let ghost all = ints(sizes@);
    let mut r: i128 = 0;
    let mut at: usize = 0;
    while at < sizes.len()
        invariant
            at <= sizes@.len(),
            all == ints(sizes@),
            r == sum(all.take(at as int)),
            sum_of_at_most(r as int, at as int),
        decreases sizes@.len() - at,
    {
        proof {
            assert(all.take(at + 1).drop_last() =~= all.take(at as int));
        }
        r = r + sizes[at] as i128;
        at = at + 1;
    }
    proof {
        assert(all.take(at as int) =~= all);
    }
    r
}

fn pack_total_of(sizes: &Vec<i64>, pack: &Vec<usize>) -> (r: i128)
    requires
        ascending(pack@, sizes@.len() as int),
    ensures
        r == pack_total(ints(sizes@), pack@),
{
    let mut r: i128 = 0;
    let mut at: usize = 0;
    while at < pack.len()
        invariant
            at <= pack@.len(),
            ascending(pack@, sizes@.len() as int),
            r == pack_total(ints(sizes@), pack@.take(at as int)),
            sum_of_at_most(r as int, at as int),
        decreases pack@.len() - at,
    {
        proof {
            assert(pack@.take(at + 1).drop_last() =~= pack@.take(at as int));
            assert(pack@[at as int] < sizes@.len());
        }
        r = r + sizes[pack[at]] as i128;
        at = at + 1;
    }
    proof {
        assert(pack@.take(at as int) =~= pack@);
    }
    r
}

// ---- orders -----------------------------------------------------------------------------

pub proof fn lemma_insert_by<A>(sorted: Seq<A>, item: A, before: spec_fn(A, A) -> bool, k: int)
    requires
        0 <= k <= sorted.len(),
        forall|j: int| k <= j < sorted.len() ==> before(item, #[trigger] sorted[j]),
        k > 0 ==> !before(item, sorted[k - 1]),
    ensures
        insert_by(sorted, item, before) == sorted.insert(k, item),
    decreases sorted.len(),
{
    if k < sorted.len() {
        lemma_insert_by(sorted.drop_last(), item, before, k);
        assert(sorted.drop_last().insert(k, item).push(sorted.last()) =~= sorted.insert(k, item));
    } else {
        assert(sorted.push(item) =~= sorted.insert(k, item));
    }
}

pub proof fn lemma_views_insert<T: View>(list: Seq<T>, k: int, item: T)
    requires
        0 <= k <= list.len(),
    ensures
        views(list.insert(k, item)) == views(list).insert(k, item@),
{
    assert(views(list.insert(k, item)) =~= views(list).insert(k, item@));
}

/// Sorting keeps exactly the elements there were.
pub proof fn lemma_sort_keeps<A>(list: Seq<A>, before: spec_fn(A, A) -> bool)
    ensures
        sort_by(list, before).len() == list.len(),
        forall|i: int|
            0 <= i < list.len() ==> list.contains(#[trigger] sort_by(list, before)[i]),
        forall|i: int|
            0 <= i < list.len() ==> sort_by(list, before).contains(#[trigger] list[i]),
    decreases list.len(),
{
    if list.len() > 0 {
        let fewer = list.drop_last();
        let sorted = sort_by(fewer, before);
        let all = sort_by(list, before);
        lemma_sort_keeps(fewer, before);
        lemma_insert_keeps(sorted, list.last(), before);
        assert forall|i: int| 0 <= i < list.len() implies list.contains(#[trigger] all[i]) by {
            if all[i] == list.last() {
                assert(list[list.len() - 1] == all[i]);
            } else {
                assert(sorted.contains(all[i]));
                let j = choose|j: int| 0 <= j < sorted.len() && sorted[j] == all[i];
                assert(fewer.contains(sorted[j]));
                let k = choose|k: int| 0 <= k < fewer.len() && fewer[k] == sorted[j];
                assert(list[k] == all[i]);
            }
        }
        assert forall|i: int| 0 <= i < list.len() implies all.contains(#[trigger] list[i]) by {
            if i < fewer.len() {
                assert(sorted.contains(fewer[i]));
                let j = choose|j: int| 0 <= j < sorted.len() && sorted[j] == fewer[i];
                assert(all.contains(sorted[j]));
            }
        }
    }
}

proof fn lemma_insert_keeps<A>(sorted: Seq<A>, item: A, before: spec_fn(A, A) -> bool)
    ensures
        insert_by(sorted, item, before).len() == sorted.len() + 1,
        insert_by(sorted, item, before).contains(item),
        forall|i: int|
            0 <= i < sorted.len() ==> insert_by(sorted, item, before).contains(
                #[trigger] sorted[i],
            ),
        forall|i: int|
            0 <= i < sorted.len() + 1 ==> (#[trigger] insert_by(sorted, item, before)[i] == item
                || sorted.contains(insert_by(sorted, item, before)[i])),
    decreases sorted.len(),
{
    let all = insert_by(sorted, item, before);
    if sorted.len() > 0 && before(item, sorted.last()) {
        let fewer = sorted.drop_last();
        let rest = insert_by(fewer, item, before);
        lemma_insert_keeps(fewer, item, before);
        let k = choose|k: int| 0 <= k < rest.len() && rest[k] == item;
        assert(all[k] == item);
        assert forall|i: int| 0 <= i < sorted.len() implies all.contains(#[trigger] sorted[i]) by {
            if i < fewer.len() {
                assert(rest.contains(fewer[i]));
                let j = choose|j: int| 0 <= j < rest.len() && rest[j] == fewer[i];
                assert(all[j] == sorted[i]);
            } else {
                assert(all[rest.len() as int] == sorted[i]);
            }
        }
        assert forall|i: int| 0 <= i < sorted.len() + 1 implies (#[trigger] all[i] == item
            || sorted.contains(all[i])) by {
            if i < rest.len() {
                assert(all[i] == rest[i]);
                if rest[i] != item {
                    let j = choose|j: int| 0 <= j < fewer.len() && fewer[j] == rest[i];
                    assert(sorted[j] == all[i]);
                }
            } else {
                assert(sorted[sorted.len() - 1] == all[i]);
            }
        }
    } else {
        assert(all[sorted.len() as int] == item);
        assert forall|i: int| 0 <= i < sorted.len() implies all.contains(#[trigger] sorted[i]) by {
            assert(all[i] == sorted[i]);
        }
        assert forall|i: int| 0 <= i < sorted.len() + 1 implies (#[trigger] all[i] == item
            || sorted.contains(all[i])) by {
            if i < sorted.len() {
                assert(sorted[i] == all[i]);
            }
        }
    }
}

fn sorted_by_size<'a>(models: &Vec<&'a ModelFootprint>) -> (r: Vec<&'a ModelFootprint>)
    ensures
        views(r@) == sort_by(views(models@), smaller_first()),
        r@.len() == models@.len(),
{
    let ghost all = views(models@);
    let mut r: Vec<&ModelFootprint> = Vec::new();
    let mut at: usize = 0;
    proof {
        assert(views(r@) =~= sort_by(all.take(0), smaller_first()));
    }
    while at < models.len()
        invariant
            at <= models@.len(),
            all == views(models@),
            views(r@) == sort_by(all.take(at as int), smaller_first()),
            r@.len() == at,
        decreases models@.len() - at,
    {
        let model = models[at];
        let mut k: usize = r.len();
        while k > 0 && model.d_total < r[k - 1].d_total
            invariant
                k <= r@.len(),
                forall|j: int|
                    k <= j < r@.len() ==> model@.d_total < (#[trigger] views(r@)[j]).d_total,
            decreases k,
        {
            k = k - 1;
            proof {
                assert(views(r@)[k as int] == r@[k as int]@);
            }
        }
        proof {
            assert(all.take(at + 1).drop_last() =~= all.take(at as int));
            if k > 0 {
                assert(views(r@)[k - 1] == r@[k - 1]@);
            }
            lemma_insert_by(views(r@), model@, smaller_first(), k as int);
            lemma_views_insert(r@, k as int, model);
        }
        r.insert(k, model);
        at = at + 1;
    }
    proof {
        assert(all.take(at as int) =~= all);
    }
    r
}

/// Every pack of a list is in ascending order and in range.
spec fn all_ascending(packs: Seq<Seq<usize>>, bound: int) -> bool {
    forall|i: int| 0 <= i < packs.len() ==> #[trigger] ascending(packs[i], bound)
}

fn comes_before(sizes: &Vec<i64>, a: &Vec<usize>, b: &Vec<usize>) -> (r: bool)
    requires
        ascending(a@, sizes@.len() as int),
        ascending(b@, sizes@.len() as int),
    ensures
        r == fuller_first(ints(sizes@))(a@, b@),
{
    a.len() > b.len() || (a.len() == b.len() && pack_total_of(sizes, a) < pack_total_of(sizes, b))
}

fn sorted_packs(sizes: &Vec<i64>, packs: Vec<Vec<usize>>) -> (r: Vec<Vec<usize>>)
    requires
        all_ascending(views(packs@), sizes@.len() as int),
    ensures
        views(r@) == sort_by(views(packs@), fuller_first(ints(sizes@))),
        r@.len() == packs@.len(),
        all_ascending(views(r@), sizes@.len() as int),
{
    let ghost all = views(packs@);
    let ghost before = fuller_first(ints(sizes@));
    let ghost count = packs@.len();
    let mut rest = packs;
    let mut r: Vec<Vec<usize>> = Vec::new();
    proof {
        assert(views(r@) =~= sort_by(all.take(0), before));
        assert(all.skip(0) =~= all);
    }
    while rest.len() > 0
        invariant
            count == all.len(),
            r@.len() + rest@.len() == count,
            views(rest@) == all.skip(r@.len() as int),
            all_ascending(all, sizes@.len() as int),
            all_ascending(views(r@), sizes@.len() as int),
            before == fuller_first(ints(sizes@)),
            views(r@) == sort_by(all.take(r@.len() as int), before),
        decreases rest@.len(),
    {
        let ghost done = r@.len() as int;
        let ghost sorted = views(r@);
        proof {
            assert(views(rest@)[0] == all[done]);
            assert(views(rest@)[0] == rest@[0]@);
        }
        let ghost left = rest@;
        let pack = rest.remove(0);
        proof {
            assert(ascending(all[done], sizes@.len() as int));
            assert forall|i: int| 0 <= i < rest@.len() implies #[trigger] views(rest@)[i]
                == all.skip(done + 1)[i] by {
                assert(rest@[i] == left[i + 1]);
                assert(views(left)[i + 1] == all.skip(done)[i + 1]);
            }
            assert(views(rest@) =~= all.skip(done + 1));
            assert forall|i: int| 0 <= i < r@.len() implies ascending(
                (#[trigger] r@[i])@,
                sizes@.len() as int,
            ) by {
                assert(ascending(sorted[i], sizes@.len() as int));
            }
        }
        let mut k: usize = r.len();
        while k > 0 && comes_before(sizes, &pack, &r[k - 1])
            invariant
                k <= r@.len(),
                sorted == views(r@),
                forall|i: int|
                    0 <= i < r@.len() ==> ascending((#[trigger] r@[i])@, sizes@.len() as int),
                ascending(pack@, sizes@.len() as int),
                before == fuller_first(ints(sizes@)),
                forall|j: int| k <= j < sorted.len() ==> before(pack@, #[trigger] sorted[j]),
            decreases k,
        {
            k = k - 1;
            proof {
                assert(sorted[k as int] == r@[k as int]@);
            }
        }
        proof {
            assert(all.take(done + 1).drop_last() =~= all.take(done));
            lemma_insert_by(sorted, pack@, before, k as int);
            lemma_views_insert(r@, k as int, pack);
        }
        r.insert(k, pack);
        proof {
            assert forall|i: int| 0 <= i < views(r@).len() implies #[trigger] ascending(
                views(r@)[i],
                sizes@.len() as int,
            ) by {
                let s = sorted.insert(k as int, pack@);
                assert(views(r@)[i] == s[i]);
                if i < k {
                    assert(s[i] == sorted[i]);
                    assert(ascending(sorted[i], sizes@.len() as int));
                } else if i > k {
                    assert(s[i] == sorted[i - 1]);
                    assert(ascending(sorted[i - 1], sizes@.len() as int));
                }
            }
        }
    }
    proof {
        assert(all.take(count as int) =~= all);
    }
    r
}

// ---- roles ------------------------------------------------------------------------------

/// The role of a model: a policy's list where it has one, else by type.
pub(crate) fn role_of(input: &BuildInput, model: &ModelFootprint) -> (role: CostRole)
    ensures
        role == input@.role(model@),
{
    let roles = &input.policy.roles;
    let aux = if roles.aux.len() == 0 {
        match model.model_type {
            ModelType::Embed | ModelType::Rerank | ModelType::Stt | ModelType::TtsProxy => true,
            ModelType::Llm | ModelType::Image => false,
        }
    } else {
        has_name(&roles.aux, model.id.as_str())
    };
    if aux {
        return CostRole::Aux;
    }
    let image = if roles.images.len() == 0 {
        model.model_type == ModelType::Image
    } else {
        has_name(&roles.images, model.id.as_str())
    };
    if image {
        CostRole::Image
    } else {
        CostRole::Llm
    }
}

/// The models of a role, in order.
fn models_in_role<'a>(input: &BuildInput<'a>, role: CostRole) -> (r: Vec<&'a ModelFootprint>)
    ensures
        views(r@) == input@.in_role(role),
        r@.len() <= input.models@.len(),
{
    let models: &'a Vec<ModelFootprint> = input.models;
    let ghost all = input@.models;
    let ghost whole = input@;
    let ghost pred = |m: FootprintView| whole.role(m) == role;
    let mut r: Vec<&'a ModelFootprint> = Vec::new();
    let mut at: usize = 0;
    proof {
        reveal(Seq::filter);
        assert(views(r@) =~= all.take(0).filter(pred));
    }
    while at < models.len()
        invariant
            at <= models@.len(),
            models@ == input.models@,
            all == input@.models,
            whole == input@,
            pred == (|m: FootprintView| whole.role(m) == role),
            views(r@) == all.take(at as int).filter(pred),
            r@.len() <= at,
        decreases models@.len() - at,
    {
        let model: &'a ModelFootprint = &models[at];
        proof {
            reveal(Seq::filter);
            assert(all.take(at + 1).drop_last() =~= all.take(at as int));
            assert(all[at as int] == model@);
            lemma_views_push(r@, model);
        }
        if role_of(input, model) == role {
            r.push(model);
        }
        at = at + 1;
    }
    proof {
        assert(all.take(at as int) =~= all);
    }
    r
}

// ---- heavy and light ----------------------------------------------------------------------

/// The smallest size among the units, but for the one at `skipped`.
fn least_of_others(units: &Vec<Unit>, skipped: usize) -> (r: Option<i64>)
    ensures
        crate::units::amount_view(r) == least_except(
            views(units@),
            skipped as int,
            units@.len() as nat,
        ),
{
    let ghost all = views(units@);
    let mut r: Option<i64> = None;
    let mut at: usize = 0;
    while at < units.len()
        invariant
            at <= units@.len(),
            all == views(units@),
            crate::units::amount_view(r) == least_except(all, skipped as int, at as nat),
        decreases units@.len() - at,
    {
        proof {
            assert(all[at as int] == units@[at as int]@);
        }
        if at != skipped {
            let size = units[at].size;
            r = match r {
                Some(least) => Some(if size < least { size } else { least }),
                None => Some(size),
            };
        }
        at = at + 1;
    }
    r
}

/// How many of some models hold a prompt cache.
pub(crate) fn holders_of(models: &Vec<&ModelFootprint>) -> (r: usize)
    ensures
        r == cache_holders(views(models@)),
        r <= models@.len(),
{
    let ghost all = views(models@);
    let mut r: usize = 0;
    let mut at: usize = 0;
    while at < models.len()
        invariant
            at <= models@.len(),
            all == views(models@),
            r == cache_holders(all.take(at as int)),
            r <= at,
        decreases models@.len() - at,
    {
        proof {
            assert(all.take(at + 1).drop_last() =~= all.take(at as int));
            assert(all.take(at + 1).last() == models@[at as int]@);
        }
        if models[at].holds_cache {
            r = r + 1;
        }
        at = at + 1;
    }
    proof {
        assert(all.take(at as int) =~= all);
    }
    r
}

/// Room beside what a set holds already.
pub struct Space {
    pub free: i128,
    pub models: Option<i64>,
    pub caches: Option<i64>,
}

/// What a cap leaves, as a number.
pub open spec fn left_view(left: Option<i64>) -> Option<int> {
    match left {
        Some(n) => Some(n as int),
        None => None,
    }
}

impl View for Space {
    type V = Room;

    open spec fn view(&self) -> Room {
        Room {
            free: self.free as int,
            models: left_view(self.models),
            caches: left_view(self.caches),
        }
    }
}

/// A cap with so much less room.
pub(crate) fn left_of(cap: Option<u32>, taken: u64) -> (r: Option<i64>)
    requires
        taken <= 0x1000_0000_0000_0000,
    ensures
        left_view(r) == less_room(cap_view(cap), taken as int),
{
    match cap {
        Some(most) => Some(most as i64 - taken as i64),
        None => None,
    }
}

pub(crate) fn is_within(cap: Option<i64>, count: usize) -> (r: bool)
    ensures
        r == within_cap(left_view(cap), count as int),
{
    match cap {
        Some(most) => most >= 0 && count as u64 <= most as u64,
        None => true,
    }
}

/// A roster sorted out for building.
pub struct Roster<'a> {
    pub models: &'a Vec<ModelFootprint>,
    pub max_models: Option<u32>,
    pub max_caches: Option<u32>,
    /// How many of the ride-alongs hold a prompt cache.
    pub aux_caches: usize,
    pub aux: Vec<&'a ModelFootprint>,
    pub images: Vec<&'a ModelFootprint>,
    /// The images, smallest first.
    pub by_size: Vec<&'a ModelFootprint>,
    pub units: Vec<Unit>,
    /// Where the light units are among the units.
    pub light: Vec<usize>,
    /// Where the heavy units are.
    pub heavies: Vec<usize>,
    pub aux_cost: i128,
    pub aux_host: i128,
    pub ceiling: i128,
    pub baseline: i64,
    pub host: Option<HostBudget>,
}

impl<'a> Roster<'a> {
    /// The roster of these inputs.
    pub open spec fn is_of(self, input: InputView) -> bool {
        &&& few_enough(input.models.len() as int)
        &&& views(self.models@) == input.models
        &&& self.max_models == input.policy.max_models_per_set
        &&& self.max_caches == input.policy.max_cache_holders_per_set
        &&& self.aux_caches == cache_holders(input.aux())
        &&& self.aux_caches <= self.aux@.len()
        &&& views(self.aux@) == input.aux()
        &&& self.aux@.len() <= input.models.len()
        &&& views(self.images@) == input.images()
        &&& self.images@.len() <= input.models.len()
        &&& views(self.by_size@) == sort_by(input.images(), smaller_first())
        &&& self.by_size@.len() <= input.models.len()
        &&& views(self.units@) == input.units()
        &&& self.units@.len() <= input.models.len()
        &&& forall|i: int| 0 <= i < self.units@.len() ==> sound_unit((#[trigger] self.units@[i])@)
        &&& places(self.light@) == input.positions(false, input.units().len())
        &&& forall|i: int|
            0 <= i < self.light@.len() ==> #[trigger] self.light@[i] < self.units@.len()
        &&& self.light@.len() <= self.units@.len()
        &&& places(self.heavies@) == input.positions(true, input.units().len())
        &&& forall|i: int|
            0 <= i < self.heavies@.len() ==> #[trigger] self.heavies@[i] < self.units@.len()
        &&& self.aux_cost == input.aux_cost()
        &&& sum_of_at_most(self.aux_cost as int, input.models.len() as int)
        &&& self.aux_host == input.aux_host()
        &&& sum_of_at_most(self.aux_host as int, input.models.len() as int)
        &&& self.ceiling == input.ceiling()
        &&& sum_of_at_most(self.ceiling as int, 2)
        &&& self.baseline == input.baseline
        &&& self.host == input.host
    }

    /// The light unit at `index` among the light ones.
    pub(crate) fn light_unit(&self, index: usize, Ghost(input): Ghost<InputView>) -> (unit: &Unit)
        requires
            self.is_of(input),
            index < self.light@.len(),
        ensures
            unit@ == input.light()[index as int],
            sound_unit(unit@),
    {
        proof {
            assert(places(self.light@)[index as int] == self.light@[index as int]);
            assert(views(self.units@)[self.light@[index as int] as int]
                == self.units@[self.light@[index as int] as int]@);
        }
        &self.units[self.light[index]]
    }

    /// The heavy unit at `index` among the heavy ones.
    pub(crate) fn heavy_unit(&self, index: usize, Ghost(input): Ghost<InputView>) -> (unit: &Unit)
        requires
            self.is_of(input),
            index < self.heavies@.len(),
        ensures
            unit@ == input.heavies()[index as int],
            sound_unit(unit@),
    {
        proof {
            assert(places(self.heavies@)[index as int] == self.heavies@[index as int]);
            assert(views(self.units@)[self.heavies@[index as int] as int]
                == self.units@[self.heavies@[index as int] as int]@);
        }
        &self.units[self.heavies[index]]
    }

    /// How many models a set may hold beside the ride-alongs.
    pub(crate) fn model_room(&self, Ghost(input): Ghost<InputView>) -> (r: Option<i64>)
        requires
            self.is_of(input),
        ensures
            left_view(r) == input.model_room(),
    {
        left_of(self.max_models, self.aux.len() as u64)
    }

    /// How many prompt caches a set may hold beside those of the ride-alongs.
    pub(crate) fn cache_room(&self, Ghost(input): Ghost<InputView>) -> (r: Option<i64>)
        requires
            self.is_of(input),
        ensures
            left_view(r) == input.cache_room(),
    {
        left_of(self.max_caches, self.aux_caches as u64)
    }

    /// How many prompt caches a unit may hold.
    pub(crate) fn unit_caches(&self, unit: &Unit, Ghost(input): Ghost<InputView>) -> (r: usize)
        requires
            self.is_of(input),
        ensures
            r == input.unit_caches(unit@),
            r <= 1,
    {
        let mut at: usize = 0;
        while at < self.models.len()
            invariant
                self.is_of(input),
                at <= self.models@.len(),
                forall|m: int|
                    0 <= m < at ==> !((#[trigger] input.models[m]).holds_cache && unit@.ids.contains(
                        input.models[m].id,
                    )),
            decreases self.models@.len() - at,
        {
            let model = &self.models[at];
            proof {
                assert(views(self.models@)[at as int] == model@);
            }
            if model.holds_cache && has_name(&unit.ids, model.id.as_str()) {
                proof {
                    assert(input.models[at as int].holds_cache && unit@.ids.contains(
                        input.models[at as int].id,
                    ));
                }
                return 1;
            }
            at = at + 1;
        }
        0
    }

    /// The images that there is room for, smallest first.
    pub(crate) fn images_fitting(&self, space: &Space, Ghost(input): Ghost<InputView>) -> (r: Vec<
        &'a ModelFootprint,
    >)
        requires
            self.is_of(input),
        ensures
            views(r@) == input.images_fitting(space@),
            r@.len() <= input.models.len(),
    {
        let ghost all = views(self.by_size@);
        let mut r: Vec<&'a ModelFootprint> = Vec::new();
        let mut total: i128 = 0;
        let mut caches: usize = 0;
        let mut at: usize = 0;
        proof {
            assert(views(r@) =~= greedy(all.take(0), space@));
        }
        while at < self.by_size.len()
            invariant
                at <= self.by_size@.len(),
                self.by_size@.len() <= input.models.len(),
                few_enough(input.models.len() as int),
                all == views(self.by_size@),
                views(r@) == greedy(all.take(at as int), space@),
                r@.len() <= at,
                total == models_total(views(r@)),
                caches == cache_holders(views(r@)),
                caches <= at,
                sum_of_at_most(total as int, at as int),
            decreases self.by_size@.len() - at,
        {
            let model: &'a ModelFootprint = self.by_size[at];
            proof {
                assert(all.take(at + 1).drop_last() =~= all.take(at as int));
                assert(all[at as int] == model@);
                lemma_views_push(r@, model);
                assert(views(r@).push(model@).drop_last() =~= views(r@));
            }
            let more: usize = if model.holds_cache {
                caches + 1
            } else {
                caches
            };
            if total + model.d_total as i128 <= space.free && is_within(
                space.models,
                r.len() + 1,
            ) && is_within(space.caches, more) {
                r.push(model);
                total = total + model.d_total as i128;
                caches = more;
            }
            at = at + 1;
        }
        proof {
            assert(all.take(at as int) =~= all);
        }
        r
    }

    /// What the host holds with models that cost it `members` resident.
    pub(crate) fn host_footprint(&self, members: i128, Ghost(input): Ghost<InputView>) -> (r: Option<i128>)
        requires
            self.is_of(input),
            sum_of_at_most(members as int, 0x1000_0000_0000_0000),
        ensures
            crate::plan::sum_view(r) == input.host_footprint(members as int),
    {
        match self.host {
            Some(host) => Some(host.baseline as i128 + members),
            None => None,
        }
    }
}

/// Sort a roster out: roles, units, heavy and light.
pub(crate) fn sort_out<'a>(input: &BuildInput<'a>) -> (roster: Roster<'a>)
    requires
        few_enough(input.models@.len() as int),
    ensures
        roster.is_of(input@),
{
    let aux = models_in_role(input, CostRole::Aux);
    let images = models_in_role(input, CostRole::Image);
    let llms = models_in_role(input, CostRole::Llm);
    let by_size = sorted_by_size(&images);
    let aux_cost: i128 = total_of(&aux);
    let aux_host: i128 = host_total_of(&aux);
    let aux_caches: usize = holders_of(&aux);
    let units = collapse_units(&llms, input.policy);
    let ceiling: i128 = input.budget as i128 - input.policy.margin as i128;
    let baseline: i64 = input.baseline;
    let mut light: Vec<usize> = Vec::new();
    let mut heavies: Vec<usize> = Vec::new();
    let mut index: usize = 0;
    let ghost whole = input@;
    proof {
        law_units_are_no_more_than_models(whole.in_role(CostRole::Llm), whole.policy);
        law_units_are_sound(whole.in_role(CostRole::Llm), whole.policy);
        assert forall|i: int| 0 <= i < units@.len() implies sound_unit(
            (#[trigger] units@[i])@,
        ) by {
            assert(views(units@)[i] == units@[i]@);
        }
        assert(places(light@) =~= whole.positions(false, 0));
        assert(places(heavies@) =~= whole.positions(true, 0));
    }
    while index < units.len()
        invariant
            whole == input@,
            few_enough(whole.models.len() as int),
            index <= units@.len(),
            views(units@) == whole.units(),
            aux_cost == whole.aux_cost(),
            sum_of_at_most(aux_cost as int, whole.models.len() as int),
            ceiling == whole.ceiling(),
            baseline == whole.baseline,
            places(light@) == whole.positions(false, index as nat),
            places(heavies@) == whole.positions(true, index as nat),
            light@.len() <= index,
            forall|i: int| 0 <= i < light@.len() ==> #[trigger] light@[i] < units@.len(),
            forall|i: int| 0 <= i < heavies@.len() ==> #[trigger] heavies@[i] < units@.len(),
        decreases units@.len() - index,
    {
        let other: i64 = match least_of_others(&units, index) {
            Some(least) => least,
            None => 0,
        };
        let needed: i128 = baseline as i128 + units[index].size as i128 + other as i128 + aux_cost;
        proof {
            assert(whole.units()[index as int] == units@[index as int]@);
            assert(places(light@.push(index)) =~= places(light@).push(index as int));
            assert(places(heavies@.push(index)) =~= places(heavies@).push(index as int));
        }
        if needed > ceiling {
            heavies.push(index);
        } else {
            light.push(index);
        }
        index = index + 1;
    }
    Roster {
        models: input.models,
        max_models: input.policy.max_models_per_set,
        max_caches: input.policy.max_cache_holders_per_set,
        aux_caches,
        aux,
        images,
        by_size,
        units,
        light,
        heavies,
        aux_cost,
        aux_host,
        ceiling,
        baseline,
        host: input.host,
    }
}

// ---- packs --------------------------------------------------------------------------------

proof fn lemma_all_units_ascend(count: nat)
    requires
        count <= usize::MAX,
    ensures
        ascending(Seq::new(count, |i: int| i as usize), count as int),
{
}

/// The maximal packs of units of these sizes within a limit, and whether the enumeration
/// completed.
fn packs_within(sizes: &Vec<i64>, limit: i128) -> (r: (Vec<Vec<usize>>, bool))
    requires
        forall|i: int| 0 <= i < sizes@.len() ==> sizes@[i] >= 0,
        limit < 0x2000_0000_0000_0000_0000_0000_0000_0000,
    ensures
        views(r.0@) == found_in(ints(sizes@), limit as int).packs,
        r.1 == found_in(ints(sizes@), limit as int).complete,
        forall|i: int|
            0 <= i < r.0@.len() ==> ascending((#[trigger] r.0@[i])@, sizes@.len() as int),
{
    let mut packs: Vec<Vec<usize>> = Vec::new();
    let mut complete = true;
    let count: usize = sizes.len();
    let ghost all = ints(sizes@);
    proof {
        assert(all.len() == count);
    }
    if sum_of(sizes) <= limit {
        if sizes.len() > 0 {
            let mut whole: Vec<usize> = Vec::new();
            let mut at: usize = 0;
            while at < sizes.len()
                invariant
                    at <= sizes@.len(),
                    whole@ == Seq::new(at as nat, |i: int| i as usize),
                decreases sizes@.len() - at,
            {
                whole.push(at);
                at = at + 1;
                proof {
                    assert(whole@ =~= Seq::new(at as nat, |i: int| i as usize));
                }
            }
            proof {
                lemma_all_units_ascend(sizes@.len() as nat);
                lemma_views_push(packs@, whole);
            }
            packs.push(whole);
        }
        proof {
            assert(views(packs@) =~= found_in(all, limit as int).packs);
        }
    } else {
        let mut nodes: usize = ENUM_NODE_BUDGET;
        let mut chosen: Vec<usize> = Vec::new();
        proof {
            assert(views(packs@) =~= Seq::<Seq<usize>>::empty());
            assert(chosen@ =~= Seq::<usize>::empty());
        }
        complete = enumerate_maximal_packs(0, &mut chosen, 0, sizes, limit, &mut nodes, &mut packs);
        proof {
            law_found_packs_are_maximal(all, limit as int);
            assert(views(packs@) == found_in(all, limit as int).packs);
        }
    }
    proof {
        assert forall|i: int| 0 <= i < views(packs@).len() implies #[trigger] ascending(
            views(packs@)[i],
            sizes@.len() as int,
        ) by {
            if sum(all) <= limit {
                lemma_all_units_ascend(sizes@.len() as nat);
            } else {
                assert(maximal_pack(all, limit as int, views(packs@)[i]));
            }
        }
    }
    proof {
        assert forall|i: int| 0 <= i < packs@.len() implies ascending(
            (#[trigger] packs@[i])@,
            sizes@.len() as int,
        ) by {
            assert(ascending(views(packs@)[i], sizes@.len() as int));
        }
    }
    (packs, complete)
}

fn same_pack(a: &Vec<usize>, b: &Vec<usize>) -> (r: bool)
    ensures
        r == (a@ == b@),
{
    if a.len() != b.len() {
        return false;
    }
    let mut at: usize = 0;
    while at < a.len()
        invariant
            at <= a@.len(),
            a@.len() == b@.len(),
            forall|i: int| 0 <= i < at ==> a@[i] == b@[i],
        decreases a@.len() - at,
    {
        if a[at] != b[at] {
            return false;
        }
        at = at + 1;
    }
    proof {
        assert(a@ =~= b@);
    }
    true
}

/// Packs, and whether they are all there are.
struct Packs {
    packs: Vec<Vec<usize>>,
    complete: bool,
}

impl View for Packs {
    type V = Found;

    closed spec fn view(&self) -> Found {
        Found { packs: views(self.packs@), complete: self.complete }
    }
}

impl Packs {
    /// Add a pack, unless it is there or there are too many.
    fn add(&mut self, pack: Vec<usize>)
        ensures
            final(self)@ == with_pack(old(self)@, pack@),
    {
        let mut at: usize = 0;
        while at < self.packs.len()
            invariant
                at <= self.packs@.len(),
                *self == *old(self),
                forall|i: int| 0 <= i < at ==> (#[trigger] self.packs@[i])@ != pack@,
            decreases self.packs@.len() - at,
        {
            if same_pack(&self.packs[at], &pack) {
                proof {
                    assert(views(self.packs@)[at as int] == pack@);
                }
                return ;
            }
            at = at + 1;
        }
        proof {
            if self@.packs.contains(pack@) {
                let i = choose|i: int| 0 <= i < self@.packs.len() && self@.packs[i] == pack@;
                assert(self.packs@[i]@ == pack@);
            }
        }
        if self.packs.len() >= MAX_PACKS {
            self.complete = false;
        } else {
            proof {
                lemma_views_push(self.packs@, pack);
            }
            self.packs.push(pack);
        }
    }
}

/// The units of a pack at these positions.
fn part_of(pack: &Vec<usize>, chosen: &Vec<usize>) -> (r: Vec<usize>)
    requires
        ascending(chosen@, pack@.len() as int),
    ensures
        r@ == part(pack@, chosen@),
{
    let mut r: Vec<usize> = Vec::new();
    let mut at: usize = 0;
    proof {
        assert(r@ =~= part(pack@, chosen@).take(0));
    }
    while at < chosen.len()
        invariant
            at <= chosen@.len(),
            ascending(chosen@, pack@.len() as int),
            r@ == part(pack@, chosen@).take(at as int),
        decreases chosen@.len() - at,
    {
        proof {
            assert(chosen@[at as int] < pack@.len());
            assert(part(pack@, chosen@).take(at + 1) =~= part(pack@, chosen@).take(at as int).push(
                pack@[chosen@[at as int] as int],
            ));
        }
        r.push(pack[chosen[at]]);
        at = at + 1;
    }
    proof {
        assert(part(pack@, chosen@).take(at as int) =~= part(pack@, chosen@));
    }
    r
}

/// What each unit of a pack counts.
fn counts_in(weights: &Vec<i64>, pack: &Vec<usize>) -> (r: Vec<i64>)
    requires
        ascending(pack@, weights@.len() as int),
        forall|i: int| 0 <= i < weights@.len() ==> weights@[i] >= 0,
    ensures
        ints(r@) == counts_of(ints(weights@), pack@),
        forall|i: int| 0 <= i < r@.len() ==> r@[i] >= 0,
        r@.len() == pack@.len(),
{
    let mut r: Vec<i64> = Vec::new();
    let mut at: usize = 0;
    while at < pack.len()
        invariant
            at <= pack@.len(),
            ascending(pack@, weights@.len() as int),
            forall|i: int| 0 <= i < weights@.len() ==> weights@[i] >= 0,
            r@.len() == at,
            forall|i: int| 0 <= i < at ==> #[trigger] r@[i] == weights@[pack@[i] as int],
            forall|i: int| 0 <= i < at ==> r@[i] >= 0,
        decreases pack@.len() - at,
    {
        proof {
            assert(pack@[at as int] < weights@.len());
        }
        r.push(weights[pack[at]]);
        at = at + 1;
    }
    proof {
        assert forall|i: int| 0 <= i < pack@.len() implies ints(r@)[i] == counts_of(
            ints(weights@),
            pack@,
        )[i] by {
            assert(pack@[i] < weights@.len());
        }
        assert(ints(r@) =~= counts_of(ints(weights@), pack@));
    }
    r
}

/// Add the parts of a pack that count no more than the limit.
fn add_parts(found: &mut Packs, weights: &Vec<i64>, limit: i64, pack: &Vec<usize>)
    requires
        ascending(pack@, weights@.len() as int),
        forall|i: int| 0 <= i < weights@.len() ==> weights@[i] >= 0,
    ensures
        ({
            let parts = parts_within(ints(weights@), limit as int, pack@);
            final(found)@ == with_packs(
                Found { complete: old(found)@.complete && parts.complete, ..old(found)@ },
                parts.packs,
                parts.packs.len(),
            )
        }),
{
    let counts = counts_in(weights, pack);
    let (chosen, complete) = packs_within(&counts, limit as i128);
    let ghost parts = parts_within(ints(weights@), limit as int, pack@);
    let ghost before = found@;
    found.complete = found.complete && complete;
    let ghost start = found@;
    let mut at: usize = 0;
    proof {
        assert(views(chosen@).len() == chosen@.len());
    }
    while at < chosen.len()
        invariant
            at <= chosen@.len(),
            forall|i: int|
                0 <= i < chosen@.len() ==> ascending((#[trigger] chosen@[i])@, pack@.len() as int),
            parts.packs.len() == chosen@.len(),
            forall|i: int|
                0 <= i < chosen@.len() ==> #[trigger] parts.packs[i] == part(pack@, chosen@[i]@),
            found@ == with_packs(start, parts.packs, at as nat),
        decreases chosen@.len() - at,
    {
        proof {
            assert(ascending(chosen@[at as int]@, pack@.len() as int));
        }
        found.add(part_of(pack, &chosen[at]));
        at = at + 1;
    }
}

/// The packs that keep within a cap.
fn narrow(found: Packs, weights: &Vec<i64>, cap: Option<i64>) -> (r: Packs)
    requires
        forall|i: int|
            0 <= i < found@.packs.len() ==> ascending(
                #[trigger] found@.packs[i],
                weights@.len() as int,
            ),
        forall|i: int| 0 <= i < weights@.len() ==> weights@[i] >= 0,
    ensures
        r@ == held_to(found@, ints(weights@), left_view(cap)),
        forall|i: int|
            0 <= i < r@.packs.len() ==> ascending(#[trigger] r@.packs[i], weights@.len() as int),
{
    let limit: i64 = match cap {
        Some(limit) => limit,
        None => {
            return found;
        },
    };
    let ghost before = found@;
    let mut r = Packs { packs: Vec::new(), complete: found.complete };
    let mut at: usize = 0;
    let count: usize = weights.len();
    proof {
        assert(ints(weights@).len() == count);
        assert(views(r.packs@) =~= Seq::<Seq<usize>>::empty());
        assert(r@ =~= narrowed(before, ints(weights@), limit as int, 0));
    }
    while at < found.packs.len()
        invariant
            at <= found.packs@.len(),
            before == found@,
            forall|i: int|
                0 <= i < before.packs.len() ==> ascending(
                    #[trigger] before.packs[i],
                    weights@.len() as int,
                ),
            forall|i: int| 0 <= i < weights@.len() ==> weights@[i] >= 0,
            r@ == narrowed(before, ints(weights@), limit as int, at as nat),
            count == weights@.len(),
        decreases found.packs@.len() - at,
    {
        proof {
            assert(before.packs[at as int] == found.packs@[at as int]@);
        }
        add_parts(&mut r, weights, limit, &found.packs[at]);
        at = at + 1;
    }
    proof {
        assert(before.packs.len() == found.packs@.len());
        lemma_narrowed_ascends(before, ints(weights@), limit as int);
    }
    r
}

proof fn lemma_narrowed_ascends(found: Found, weights: Seq<int>, limit: int)
    requires
        weights.len() <= usize::MAX,
        forall|i: int|
            0 <= i < found.packs.len() ==> ascending(
                #[trigger] found.packs[i],
                weights.len() as int,
            ),
    ensures
        forall|i: int|
            0 <= i < narrowed(found, weights, limit, found.packs.len()).packs.len() ==> ascending(
                #[trigger] narrowed(found, weights, limit, found.packs.len()).packs[i],
                weights.len() as int,
            ),
{
    let after = narrowed(found, weights, limit, found.packs.len());
    assert forall|i: int| 0 <= i < found.packs.len() implies ascending(
        #[trigger] found.packs[i],
        weights.len() as int,
    ) && found.packs[i].len() <= usize::MAX by {
        crate::narrowing::lemma_packs_are_short(found.packs[i], weights.len() as int);
    }
    law_narrowed_packs_are_parts(
        found,
        weights,
        limit,
        found.packs.len(),
        weights.len() as int,
    );
    assert forall|i: int| 0 <= i < after.packs.len() implies ascending(
        #[trigger] after.packs[i],
        weights.len() as int,
    ) by {
        assert(part_of_one(found.packs, weights, limit, after.packs[i]));
        crate::narrowing::lemma_parts_ascend(
            found.packs,
            weights,
            limit,
            after.packs[i],
            weights.len() as int,
        );
    }
}

impl<'a> Roster<'a> {
    /// The packs to declare, in order, and whether they are all there are.
    pub(crate) fn packs(&self, Ghost(input): Ghost<InputView>) -> (r: (Vec<Vec<usize>>, bool))
        requires
            self.is_of(input),
        ensures
            views(r.0@) == input.packs(),
            r.1 == input.found().complete,
            forall|i: int|
                0 <= i < r.0@.len() ==> ascending((#[trigger] r.0@[i])@, self.light@.len() as int),
    {
        let mut sizes: Vec<i64> = Vec::new();
        let mut ones: Vec<i64> = Vec::new();
        let mut caches: Vec<i64> = Vec::new();
        let mut at: usize = 0;
        while at < self.light.len()
            invariant
                self.is_of(input),
                at <= self.light@.len(),
                sizes@.len() == at,
                ones@.len() == at,
                caches@.len() == at,
                forall|i: int| 0 <= i < at ==> #[trigger] sizes@[i] == input.light_sizes()[i],
                forall|i: int| 0 <= i < at ==> sizes@[i] >= 0,
                forall|i: int| 0 <= i < at ==> #[trigger] ones@[i] == 1,
                forall|i: int| 0 <= i < at ==> #[trigger] caches@[i] == input.light_caches()[i],
                forall|i: int| 0 <= i < at ==> caches@[i] >= 0,
            decreases self.light@.len() - at,
        {
            proof {
                assert(places(self.light@).len() == input.light().len());
            }
            let unit = self.light_unit(at, Ghost(input));
            let held: usize = self.unit_caches(unit, Ghost(input));
            sizes.push(unit.size);
            ones.push(1);
            caches.push(held as i64);
            at = at + 1;
        }
        proof {
            assert(places(self.light@).len() == input.light().len());
            assert(ints(sizes@) =~= input.light_sizes());
            assert(ints(ones@) =~= input.light_ones());
            assert(ints(caches@) =~= input.light_caches());
        }
        let limit: i128 = self.ceiling - self.baseline as i128 - self.aux_cost;
        let (packs, complete) = packs_within(&sizes, limit);
        let fitting = Packs { packs, complete };
        proof {
            assert(fitting@ =~= input.fitting());
            assert forall|i: int| 0 <= i < fitting@.packs.len() implies ascending(
                #[trigger] fitting@.packs[i],
                self.light@.len() as int,
            ) by {
                assert(ascending(packs@[i]@, sizes@.len() as int));
            }
        }
        let few = narrow(fitting, &ones, self.model_room(Ghost(input)));
        let found = narrow(few, &caches, self.cache_room(Ghost(input)));
        proof {
            assert(found@ == input.found());
            assert forall|i: int| 0 <= i < views(found.packs@).len() implies #[trigger] ascending(
                views(found.packs@)[i],
                sizes@.len() as int,
            ) by {
                assert(found@.packs[i] == views(found.packs@)[i]);
            }
        }
        let complete = found.complete;
        let sorted = sorted_packs(&sizes, found.packs);
        proof {
            assert forall|i: int| 0 <= i < sorted@.len() implies ascending(
                (#[trigger] sorted@[i])@,
                self.light@.len() as int,
            ) by {
                assert(ascending(views(sorted@)[i], sizes@.len() as int));
            }
        }
        (sorted, complete)
    }
}

} // verus!
