//! What a co-residency plan is: the sets that a roster, its policy and the box's memory
//! call for, stated as functions of those inputs. The builder computes them (`build`).
//!
//! Policy is maximum flexibility, never out of memory: emit every maximal combination of
//! models that fits under the ceiling, and never one that does not. Declaring less is
//! always safe; declaring more is not.

use vstd::prelude::*;
use vstd::string::*;

use crate::model::ModelType;
use crate::number::{digits, gb1, gb2};
use crate::narrowing::held_to;
use crate::packing::{full_walk, pack_total};
use crate::policy::{cost_of, CostRole, OnHostOverflow, OnOverflow, Policy, PolicyView};
use crate::text::{joined, starts, views};
use crate::units::{model_ids, units_of, FootprintView, ModelFootprint, UnitView};

verus! {

// ---- inputs ---------------------------------------------------------------------------

/// The host-memory side of the fit: what the box has, and what it holds with nothing
/// loaded.
#[derive(Debug, Clone, Copy)]
pub struct HostBudget {
    /// Host memory held with no model loaded.
    pub baseline: i64,
    /// Host memory to plan against.
    pub total: i64,
}

/// Inputs to a build. `budget` is already resolved; `baseline` is what the empty pool
/// holds. Amounts are in units (see `number`).
pub struct BuildInput<'a> {
    pub models: &'a Vec<ModelFootprint>,
    pub policy: &'a Policy,
    pub baseline: i64,
    pub budget: i64,
    /// `None` skips the host check, which is what a box that cannot report host memory
    /// gets.
    pub host: Option<HostBudget>,
}

/// What the inputs to a build say.
#[verifier::ext_equal]
pub struct InputView {
    pub models: Seq<FootprintView>,
    pub policy: PolicyView,
    pub baseline: int,
    pub budget: int,
    pub host: Option<HostBudget>,
}

impl<'a> View for BuildInput<'a> {
    type V = InputView;

    open spec fn view(&self) -> InputView {
        InputView {
            models: views(self.models@),
            policy: self.policy@,
            baseline: self.baseline as int,
            budget: self.budget as int,
            host: self.host,
        }
    }
}

/// A number of models that an address space can hold.
pub open spec fn few_enough(models: int) -> bool {
    models <= 0x0100_0000_0000_0000
}

// ---- outputs --------------------------------------------------------------------------

/// One emitted `sets:` entry, with the bookkeeping that shows it is safe.
#[derive(Debug)]
pub struct EmittedSet {
    pub name: String,
    pub expr: String,
    pub comment: String,
    /// What the pool holds with every member resident: at most the ceiling.
    pub footprint: i128,
    /// The same in host memory. `None` when the host is not being checked.
    pub host_footprint: Option<i128>,
    /// How many combinations the expression expands to: at most a thousand.
    pub fanout: usize,
    /// How many models are loaded with every member resident.
    pub models: u64,
    /// How many of them may hold a prompt cache.
    pub caches: u64,
}

/// What an emitted set says.
#[verifier::ext_equal]
pub struct SetView {
    pub name: Seq<char>,
    pub expr: Seq<char>,
    pub comment: Seq<char>,
    pub footprint: int,
    pub host_footprint: Option<int>,
    pub fanout: nat,
    pub models: nat,
    pub caches: nat,
}

/// What an optional sum of amounts stands for.
pub open spec fn sum_view(sum: Option<i128>) -> Option<int> {
    match sum {
        Some(s) => Some(s as int),
        None => None,
    }
}

impl View for EmittedSet {
    type V = SetView;

    open spec fn view(&self) -> SetView {
        SetView {
            name: self.name@,
            expr: self.expr@,
            comment: self.comment@,
            footprint: self.footprint as int,
            host_footprint: sum_view(self.host_footprint),
            fanout: self.fanout as nat,
            models: self.models as nat,
            caches: self.caches as nat,
        }
    }
}

/// The full generated plan, ready to render (see `matrix`).
#[derive(Debug)]
pub struct MatrixPlan {
    pub vars: Vec<(String, String)>,
    pub evict_costs: Vec<(String, u32)>,
    pub sets: Vec<EmittedSet>,
    pub warnings: Vec<String>,
    pub excluded: Vec<String>,
    /// Models whose footprint was recorded without confirming the allocation finished.
    pub unconfirmed: Vec<String>,
    pub baseline: i64,
    pub budget: i64,
    pub margin: i64,
    pub ceiling: i128,
    pub aux_cost: i128,
    pub n_packs: usize,
    pub n_heavies: usize,
    /// The host ceiling each set was checked against. `None` means the check did not run,
    /// and `host_skipped` may say why.
    pub host_ceiling: Option<i128>,
    pub host_skipped: Option<String>,
    /// The largest prompt-cache cap that, set on every model that states none, keeps every
    /// set under the host ceiling.
    pub host_cram_gb: Option<i128>,
    /// Sets whose host cost exceeds the host ceiling, with what they need.
    pub host_over: Vec<(String, i128)>,
}

/// What a plan says.
#[verifier::ext_equal]
pub struct PlanView {
    pub vars: Seq<(Seq<char>, Seq<char>)>,
    pub evict_costs: Seq<(Seq<char>, int)>,
    pub sets: Seq<SetView>,
    pub warnings: Seq<Seq<char>>,
    pub excluded: Seq<Seq<char>>,
    pub unconfirmed: Seq<Seq<char>>,
    pub baseline: int,
    pub budget: int,
    pub margin: int,
    pub ceiling: int,
    pub aux_cost: int,
    pub n_packs: nat,
    pub n_heavies: nat,
    pub host_ceiling: Option<int>,
    pub host_skipped: Option<Seq<char>>,
    pub host_cram_gb: Option<int>,
    pub host_over: Seq<(Seq<char>, int)>,
}

pub open spec fn named_texts(list: Seq<(String, String)>) -> Seq<(Seq<char>, Seq<char>)> {
    Seq::new(list.len(), |i: int| (list[i].0@, list[i].1@))
}

pub open spec fn named_costs(list: Seq<(String, u32)>) -> Seq<(Seq<char>, int)> {
    Seq::new(list.len(), |i: int| (list[i].0@, list[i].1 as int))
}

pub open spec fn named_sums(list: Seq<(String, i128)>) -> Seq<(Seq<char>, int)> {
    Seq::new(list.len(), |i: int| (list[i].0@, list[i].1 as int))
}

impl View for MatrixPlan {
    type V = PlanView;

    open spec fn view(&self) -> PlanView {
        PlanView {
            vars: named_texts(self.vars@),
            evict_costs: named_costs(self.evict_costs@),
            sets: views(self.sets@),
            warnings: views(self.warnings@),
            excluded: views(self.excluded@),
            unconfirmed: views(self.unconfirmed@),
            baseline: self.baseline as int,
            budget: self.budget as int,
            margin: self.margin as int,
            ceiling: self.ceiling as int,
            aux_cost: self.aux_cost as int,
            n_packs: self.n_packs as nat,
            n_heavies: self.n_heavies as nat,
            host_ceiling: sum_view(self.host_ceiling),
            host_skipped: crate::model::text_view(self.host_skipped),
            host_cram_gb: sum_view(self.host_cram_gb),
            host_over: named_sums(self.host_over@),
        }
    }
}

/// Why there is no plan.
#[derive(Debug)]
pub enum BuildError {
    /// The packs of this many light units are too many to enumerate, and the policy
    /// refuses a truncated matrix.
    TooManyCombinations { units: usize },
    /// A set that every plan of this roster has does not fit under the ceiling.
    UnsafeSet { name: String, footprint: i128, ceiling: i128 },
    /// A set expands to too many combinations, and the policy refuses to omit it.
    OverCap { name: String, fanout: usize },
    /// Sets cost more host memory than there is, and the policy refuses to emit them.
    HostOverflow { advice: String },
    /// A cap of the policy leaves no room beside the ride-alongs, which are this many.
    NoRoom { cap: String, most: u32, reserved: usize },
    /// Neither a flag, the policy nor the store says how much memory there is.
    NoBudget,
    /// This model's footprint was never confirmed, and the policy refuses to use it.
    Unconfirmed { id: String },
}

/// What a build error says.
#[verifier::ext_equal]
pub enum BuildErrorView {
    TooManyCombinations { units: nat },
    UnsafeSet { name: Seq<char>, footprint: int, ceiling: int },
    OverCap { name: Seq<char>, fanout: nat },
    HostOverflow { advice: Seq<char> },
    NoRoom { cap: Seq<char>, most: nat, reserved: nat },
    NoBudget,
    Unconfirmed { id: Seq<char> },
}

impl View for BuildError {
    type V = BuildErrorView;

    open spec fn view(&self) -> BuildErrorView {
        match *self {
            BuildError::TooManyCombinations { units } => BuildErrorView::TooManyCombinations {
                units: units as nat,
            },
            BuildError::UnsafeSet { name, footprint, ceiling } => BuildErrorView::UnsafeSet {
                name: name@,
                footprint: footprint as int,
                ceiling: ceiling as int,
            },
            BuildError::OverCap { name, fanout } => BuildErrorView::OverCap {
                name: name@,
                fanout: fanout as nat,
            },
            BuildError::HostOverflow { advice } => BuildErrorView::HostOverflow { advice: advice@ },
            BuildError::NoRoom { cap, most, reserved } => BuildErrorView::NoRoom {
                cap: cap@,
                most: most as nat,
                reserved: reserved as nat,
            },
            BuildError::NoBudget => BuildErrorView::NoBudget,
            BuildError::Unconfirmed { id } => BuildErrorView::Unconfirmed { id: id@ },
        }
    }
}

// ---- sums and orders --------------------------------------------------------------------

/// What some models hold together.
pub open spec fn models_total(models: Seq<FootprintView>) -> int
    decreases models.len(),
{
    if models.len() == 0 {
        0
    } else {
        models_total(models.drop_last()) + models.last().d_total
    }
}

/// A host cost, taken as nothing where it is unknown.
pub open spec fn known_host(host: Option<int>) -> int {
    match host {
        Some(cost) => cost,
        None => 0,
    }
}

/// What some models cost the host together.
pub open spec fn models_host(models: Seq<FootprintView>) -> int
    decreases models.len(),
{
    if models.len() == 0 {
        0
    } else {
        models_host(models.drop_last()) + known_host(models.last().host_gb)
    }
}

/// How many of some models hold a prompt cache.
pub open spec fn cache_holders(models: Seq<FootprintView>) -> nat
    decreases models.len(),
{
    if models.len() == 0 {
        0
    } else {
        cache_holders(models.drop_last()) + if models.last().holds_cache {
            1nat
        } else {
            0
        }
    }
}

/// One of the models with these ids holds a prompt cache.
pub open spec fn one_holds(models: Seq<FootprintView>, ids: Seq<Seq<char>>) -> bool {
    exists|m: int|
        0 <= m < models.len() && (#[trigger] models[m]).holds_cache && ids.contains(models[m].id)
}

/// A count is within a cap, where there is one.
pub open spec fn within_cap(cap: Option<int>, count: int) -> bool {
    match cap {
        Some(most) => count <= most,
        None => true,
    }
}

/// A cap with so much less room, where there is one.
pub open spec fn less_room(cap: Option<int>, taken: int) -> Option<int> {
    match cap {
        Some(most) => Some(most - taken),
        None => None,
    }
}

/// What a cap of the policy stands for.
pub open spec fn cap_view(cap: Option<u32>) -> Option<int> {
    match cap {
        Some(most) => Some(most as int),
        None => None,
    }
}

pub open spec fn units_total(units: Seq<UnitView>) -> int
    decreases units.len(),
{
    if units.len() == 0 {
        0
    } else {
        units_total(units.drop_last()) + units.last().size
    }
}

pub open spec fn units_host(units: Seq<UnitView>) -> int
    decreases units.len(),
{
    if units.len() == 0 {
        0
    } else {
        units_host(units.drop_last()) + known_host(units.last().host_size)
    }
}

pub open spec fn sum(values: Seq<int>) -> int
    decreases values.len(),
{
    if values.len() == 0 {
        0
    } else {
        sum(values.drop_last()) + values.last()
    }
}

/// Positions as numbers.
pub open spec fn places(positions: Seq<usize>) -> Seq<int> {
    Seq::new(positions.len(), |i: int| positions[i] as int)
}

/// A combination count, held at the largest number there is.
pub open spec fn capped(count: nat) -> nat {
    if count > usize::MAX {
        usize::MAX as nat
    } else {
        count
    }
}

/// How many combinations some units stand for: one per choice of a member of each.
pub open spec fn units_fanout(units: Seq<UnitView>) -> nat
    decreases units.len(),
{
    if units.len() == 0 {
        1
    } else {
        capped(units_fanout(units.drop_last()) * unit_fanout(units.last()))
    }
}

/// `sorted` with `item` put in behind everything that it does not come before.
pub open spec fn insert_by<A>(
    sorted: Seq<A>,
    item: A,
    before: spec_fn(A, A) -> bool,
) -> Seq<A>
    decreases sorted.len(),
{
    if sorted.len() > 0 && before(item, sorted.last()) {
        insert_by(sorted.drop_last(), item, before).push(sorted.last())
    } else {
        sorted.push(item)
    }
}

/// A list in order, equals left as they were.
pub open spec fn sort_by<A>(list: Seq<A>, before: spec_fn(A, A) -> bool) -> Seq<A>
    decreases list.len(),
{
    if list.len() == 0 {
        Seq::empty()
    } else {
        insert_by(sort_by(list.drop_last(), before), list.last(), before)
    }
}

/// Smaller models come first.
pub open spec fn smaller_first() -> spec_fn(FootprintView, FootprintView) -> bool {
    |a: FootprintView, b: FootprintView| a.d_total < b.d_total
}

/// Larger packs come first, and among equals those that hold less.
pub open spec fn fuller_first(sizes: Seq<int>) -> spec_fn(Seq<usize>, Seq<usize>) -> bool {
    |a: Seq<usize>, b: Seq<usize>|
        a.len() > b.len() || (a.len() == b.len() && pack_total(sizes, a) < pack_total(sizes, b))
}

/// Room beside what a set holds already: memory, and how many more models and prompt caches the
/// caps allow.
#[verifier::ext_equal]
pub struct Room {
    pub free: int,
    pub models: Option<int>,
    pub caches: Option<int>,
}

/// Taking models in order, each one that there is still room for.
pub open spec fn greedy(models: Seq<FootprintView>, room: Room) -> Seq<FootprintView>
    decreases models.len(),
{
    if models.len() == 0 {
        Seq::empty()
    } else {
        let before = greedy(models.drop_last(), room);
        let more = before.push(models.last());
        if models_total(before) + models.last().d_total <= room.free && within_cap(
            room.models,
            more.len() as int,
        ) && within_cap(room.caches, cache_holders(more) as int) {
            more
        } else {
            before
        }
    }
}

// ---- expressions and lists of names -----------------------------------------------------

/// A unit in a set's expression: its id, or the alternative of its ids.
pub open spec fn unit_expr(unit: UnitView) -> Seq<char> {
    if unit.ids.len() == 1 {
        unit.ids[0]
    } else {
        "("@ + joined(unit.ids, " | "@) + ")"@
    }
}

/// How many alternatives a unit stands for.
pub open spec fn unit_fanout(unit: UnitView) -> nat {
    if unit.ids.len() == 0 {
        1
    } else {
        unit.ids.len()
    }
}

/// A light unit in a set's expression: its helper set if it has variants, else its id.
pub open spec fn unit_reference(unit: UnitView) -> Seq<char> {
    if unit.ids.len() > 1 {
        "+g_"@ + unit.key
    } else {
        unit.ids[0]
    }
}

/// How many names a warning spells out before it counts instead.
pub const NAMES_SHOWN: usize = 8;

/// Names for a warning: all of a few, or the first few and how many more.
pub open spec fn listed(names: Seq<Seq<char>>) -> Seq<char> {
    if names.len() == 0 {
        "none"@
    } else if names.len() <= NAMES_SHOWN {
        joined(names, ", "@)
    } else {
        joined(names.take(NAMES_SHOWN as int), ", "@) + ", and "@ + digits(
            (names.len() - NAMES_SHOWN) as nat,
        ) + " more"@
    }
}

// ---- the plan ---------------------------------------------------------------------------

/// The smallest size among the units below `bound`, but for the one at `skipped`.
pub open spec fn least_except(units: Seq<UnitView>, skipped: int, bound: nat) -> Option<int>
    decreases bound,
{
    if bound == 0 {
        None
    } else {
        let before = least_except(units, skipped, (bound - 1) as nat);
        let size = units[bound - 1].size;
        if bound - 1 == skipped {
            before
        } else {
            match before {
                Some(least) => Some(if size < least { size } else { least }),
                None => Some(size),
            }
        }
    }
}

/// Both results of the enumeration.
pub struct Found {
    pub packs: Seq<Seq<usize>>,
    pub complete: bool,
}

/// The maximal packs of units of these sizes within a limit: all of them at once where
/// they fit together, else what the enumeration finds.
pub open spec fn found_in(sizes: Seq<int>, limit: int) -> Found {
    if sum(sizes) <= limit {
        Found {
            packs: if sizes.len() > 0 {
                seq![Seq::new(sizes.len(), |i: int| i as usize)]
            } else {
                Seq::empty()
            },
            complete: true,
        }
    } else {
        let walk = full_walk(sizes, limit);
        Found { packs: walk.packs, complete: walk.complete }
    }
}

impl InputView {
    /// What a set may hold at most.
    pub open spec fn ceiling(self) -> int {
        self.budget - self.policy.margin
    }

    pub open spec fn host_ceiling(self) -> Option<int> {
        match self.host {
            Some(host) => Some(host.total - self.policy.host_margin),
            None => None,
        }
    }

    /// What the host holds with models that cost it `members` resident.
    pub open spec fn host_footprint(self, members: int) -> Option<int> {
        match self.host {
            Some(host) => Some(host.baseline + members),
            None => None,
        }
    }

    /// A ride-along, reserved in every set: those the policy lists, or the small helper
    /// types where it lists none.
    pub open spec fn is_aux(self, model: FootprintView) -> bool {
        if self.policy.aux.len() == 0 {
            model.model_type == ModelType::Embed || model.model_type == ModelType::Rerank
                || model.model_type == ModelType::Stt || model.model_type == ModelType::TtsProxy
        } else {
            self.policy.aux.contains(model.id)
        }
    }

    /// A member of the image pool: those the policy lists, or the image type where it
    /// lists none.
    pub open spec fn is_image(self, model: FootprintView) -> bool {
        if self.policy.images.len() == 0 {
            model.model_type == ModelType::Image
        } else {
            self.policy.images.contains(model.id)
        }
    }

    pub open spec fn role(self, model: FootprintView) -> CostRole {
        if self.is_aux(model) {
            CostRole::Aux
        } else if self.is_image(model) {
            CostRole::Image
        } else {
            CostRole::Llm
        }
    }

    /// The models of a role, in order.
    pub open spec fn in_role(self, role: CostRole) -> Seq<FootprintView> {
        self.models.filter(|m: FootprintView| self.role(m) == role)
    }

    pub open spec fn aux(self) -> Seq<FootprintView> {
        self.in_role(CostRole::Aux)
    }

    pub open spec fn images(self) -> Seq<FootprintView> {
        self.in_role(CostRole::Image)
    }

    pub open spec fn aux_cost(self) -> int {
        models_total(self.aux())
    }

    pub open spec fn aux_host(self) -> int {
        models_host(self.aux())
    }

    /// How an expression refers to the ride-alongs, where there are any.
    pub open spec fn aux_reference(self) -> Seq<char> {
        if self.aux().len() > 0 {
            " & +aux"@
        } else {
            Seq::empty()
        }
    }

    /// The knapsack's units.
    pub open spec fn units(self) -> Seq<UnitView> {
        units_of(self.in_role(CostRole::Llm), self.policy)
    }

    /// A unit too large to share the pool with the smallest other one and the ride-alongs.
    pub open spec fn heavy(self, index: int) -> bool {
        let other = match least_except(self.units(), index, self.units().len()) {
            Some(least) => least,
            None => 0,
        };
        self.baseline + self.units()[index].size + other + self.aux_cost() > self.ceiling()
    }

    /// The positions below `bound` of the heavy units, or of the light ones, in order.
    pub open spec fn positions(self, heavy: bool, bound: nat) -> Seq<int>
        decreases bound,
    {
        if bound == 0 {
            Seq::empty()
        } else if self.heavy(bound - 1) == heavy {
            self.positions(heavy, (bound - 1) as nat).push(bound - 1)
        } else {
            self.positions(heavy, (bound - 1) as nat)
        }
    }

    /// The light units: those that can share the pool.
    pub open spec fn light(self) -> Seq<UnitView> {
        let places = self.positions(false, self.units().len());
        Seq::new(places.len(), |i: int| self.units()[places[i]])
    }

    pub open spec fn heavies(self) -> Seq<UnitView> {
        let places = self.positions(true, self.units().len());
        Seq::new(places.len(), |i: int| self.units()[places[i]])
    }

    pub open spec fn light_sizes(self) -> Seq<int> {
        Seq::new(self.light().len(), |i: int| self.light()[i].size)
    }

    /// What is left for units once the pool's own occupancy and the ride-alongs are in.
    pub open spec fn members_limit(self) -> int {
        self.ceiling() - self.baseline - self.aux_cost()
    }

    /// The maximal packs of light units, as the enumeration finds them: all units at once
    /// where they fit together.
    pub open spec fn fitting(self) -> Found {
        found_in(self.light_sizes(), self.members_limit())
    }

    /// How many models a set may hold beside the ride-alongs.
    pub open spec fn model_room(self) -> Option<int> {
        less_room(cap_view(self.policy.max_models_per_set), self.aux().len() as int)
    }

    /// How many prompt caches a set may hold beside those of the ride-alongs.
    pub open spec fn cache_room(self) -> Option<int> {
        less_room(
            cap_view(self.policy.max_cache_holders_per_set),
            cache_holders(self.aux()) as int,
        )
    }

    /// Whether a unit may hold a prompt cache: one of its variants does.
    pub open spec fn unit_caches(self, unit: UnitView) -> nat {
        if one_holds(self.models, unit.ids) {
            1
        } else {
            0
        }
    }

    /// One for each light unit.
    pub open spec fn light_ones(self) -> Seq<int> {
        Seq::new(self.light().len(), |i: int| 1)
    }

    /// The prompt caches that each light unit may hold.
    pub open spec fn light_caches(self) -> Seq<int> {
        Seq::new(self.light().len(), |i: int| self.unit_caches(self.light()[i]) as int)
    }

    /// The packs that keep within the caps: those that fit, or the parts of them that do.
    pub open spec fn found(self) -> Found {
        held_to(
            held_to(self.fitting(), self.light_ones(), self.model_room()),
            self.light_caches(),
            self.cache_room(),
        )
    }

    /// The policy sets no caps.
    pub open spec fn is_uncapped(self) -> bool {
        self.policy.max_models_per_set is None && self.policy.max_cache_holders_per_set is None
    }

    /// The packs in the order in which they are declared.
    pub open spec fn packs(self) -> Seq<Seq<usize>> {
        sort_by(self.found().packs, fuller_first(self.light_sizes()))
    }

    /// The images that there is room for, smallest first.
    pub open spec fn images_fitting(self, room: Room) -> Seq<FootprintView> {
        greedy(sort_by(self.images(), smaller_first()), room)
    }

    // ---- the sets, by kind ----

    /// The ride-along pool.
    pub open spec fn aux_sets(self) -> Seq<SetView> {
        if self.aux().len() > 0 {
            seq![
                SetView {
                    name: "aux"@,
                    expr: joined(model_ids(self.aux()), " & "@),
                    comment: "ride-along ("@ + gb1(self.aux_cost()) + " GB)"@,
                    footprint: self.baseline + self.aux_cost(),
                    host_footprint: self.host_footprint(self.aux_host()),
                    fanout: 1,
                    models: self.aux().len(),
                    caches: cache_holders(self.aux()),
                },
            ]
        } else {
            Seq::empty()
        }
    }

    /// The set that stands for a light unit with variants.
    pub open spec fn helper_set(self, unit: UnitView) -> SetView {
        SetView {
            name: "g_"@ + unit.key,
            expr: unit_expr(unit),
            comment: gb1(unit.size) + " GB (max variant)"@,
            footprint: self.baseline + unit.size + self.aux_cost(),
            host_footprint: self.host_footprint(known_host(unit.host_size) + self.aux_host()),
            fanout: unit_fanout(unit),
            models: 1,
            caches: self.unit_caches(unit),
        }
    }

    pub open spec fn helper_sets(self, bound: nat) -> Seq<SetView>
        decreases bound,
    {
        if bound == 0 {
            Seq::empty()
        } else {
            let before = self.helper_sets((bound - 1) as nat);
            let unit = self.light()[bound - 1];
            if unit.ids.len() > 1 {
                before.push(self.helper_set(unit))
            } else {
                before
            }
        }
    }

    /// The images below `bound` in order, in as few runs as the caps allow: one without caps.
    pub open spec fn image_runs(self, bound: nat) -> Seq<Seq<FootprintView>>
        decreases bound,
    {
        if bound == 0 {
            Seq::empty()
        } else {
            let before = self.image_runs((bound - 1) as nat);
            let image = self.images()[bound - 1];
            if before.len() > 0 && within_cap(
                self.model_room(),
                before.last().push(image).len() as int,
            ) && within_cap(self.cache_room(), cache_holders(before.last().push(image)) as int) {
                before.drop_last().push(before.last().push(image))
            } else {
                before.push(seq![image])
            }
        }
    }

    /// The set of a run of images.
    pub open spec fn image_set(self, run: Seq<FootprintView>, position: int) -> SetView {
        SetView {
            name: if position == 0 {
                "images"@
            } else {
                "images"@ + digits((position + 1) as nat)
            },
            expr: joined(model_ids(run), " & "@) + self.aux_reference(),
            comment: "any image subset + aux"@,
            footprint: self.baseline + self.aux_cost() + models_total(run),
            host_footprint: self.host_footprint(self.aux_host() + models_host(run)),
            fanout: 1,
            models: run.len() + self.aux().len(),
            caches: cache_holders(run) + cache_holders(self.aux()),
        }
    }

    /// The image pool: a set of all images, or one for each run of them.
    pub open spec fn image_sets(self) -> Seq<SetView> {
        let runs = self.image_runs(self.images().len());
        Seq::new(runs.len(), |i: int| self.image_set(runs[i], i))
    }

    /// The units of a pack.
    pub open spec fn pack_units(self, pack: Seq<usize>) -> Seq<UnitView> {
        Seq::new(pack.len(), |i: int| self.light()[pack[i] as int])
    }

    /// How many of some units may hold a prompt cache.
    pub open spec fn units_caches(self, units: Seq<UnitView>) -> nat
        decreases units.len(),
    {
        if units.len() == 0 {
            0
        } else {
            self.units_caches(units.drop_last()) + self.unit_caches(units.last())
        }
    }

    /// The set that declares the pack at `position`.
    pub open spec fn pack_set(self, position: int) -> SetView {
        let members = self.pack_units(self.packs()[position]);
        let footprint = self.baseline + units_total(members) + self.aux_cost();
        SetView {
            name: "pack"@ + digits((position + 1) as nat),
            expr: joined(
                Seq::new(members.len(), |i: int| unit_reference(members[i])),
                " & "@,
            ) + self.aux_reference(),
            comment: gb1(footprint) + " GB: "@ + joined(
                Seq::new(members.len(), |i: int| members[i].key),
                "+"@,
            ),
            footprint,
            host_footprint: self.host_footprint(units_host(members) + self.aux_host()),
            fanout: units_fanout(members),
            models: members.len() + self.aux().len(),
            caches: self.units_caches(members) + cache_holders(self.aux()),
        }
    }

    pub open spec fn pack_sets(self) -> Seq<SetView> {
        Seq::new(self.packs().len(), |i: int| self.pack_set(i))
    }

    /// The room beside a light unit and the ride-alongs.
    pub open spec fn room_beside(self, unit: UnitView) -> Room {
        Room {
            free: self.ceiling() - self.baseline - unit.size - self.aux_cost(),
            models: less_room(self.model_room(), 1),
            caches: less_room(self.cache_room(), self.unit_caches(unit) as int),
        }
    }

    /// The images that there is room for beside a light unit and the ride-alongs.
    pub open spec fn beside(self, unit: UnitView) -> Seq<FootprintView> {
        self.images_fitting(self.room_beside(unit))
    }

    /// The set of one light unit and the images that fit beside it.
    pub open spec fn mixed_set(self, unit: UnitView) -> SetView {
        let images = self.beside(unit);
        SetView {
            name: "llmimg_"@ + unit.key,
            expr: unit_reference(unit) + " & "@ + joined(model_ids(images), " & "@)
                + self.aux_reference(),
            comment: unit.key + " + "@ + digits(images.len()) + " imgs"@,
            footprint: self.baseline + unit.size + self.aux_cost() + models_total(images),
            host_footprint: self.host_footprint(
                known_host(unit.host_size) + self.aux_host() + models_host(images),
            ),
            fanout: unit_fanout(unit),
            models: 1 + images.len() + self.aux().len(),
            caches: self.unit_caches(unit) + cache_holders(images) + cache_holders(self.aux()),
        }
    }

    pub open spec fn mixed_sets(self, bound: nat) -> Seq<SetView>
        decreases bound,
    {
        if bound == 0 {
            Seq::empty()
        } else {
            let before = self.mixed_sets((bound - 1) as nat);
            let unit = self.light()[bound - 1];
            if self.beside(unit).len() > 0 {
                before.push(self.mixed_set(unit))
            } else {
                before
            }
        }
    }

    /// A heavy unit that does not fit even alone.
    pub open spec fn cannot_run(self, unit: UnitView) -> bool {
        self.baseline + unit.size > self.ceiling()
    }

    /// A heavy unit that the ride-alongs fit beside.
    pub open spec fn keeps_aux(self, unit: UnitView) -> bool {
        self.aux().len() > 0 && self.baseline + unit.size + self.aux_cost() <= self.ceiling()
    }

    /// What the ride-alongs take beside a heavy unit.
    pub open spec fn reserved(self, unit: UnitView) -> int {
        if self.keeps_aux(unit) {
            self.aux_cost()
        } else {
            0
        }
    }

    /// The ride-alongs that are loaded beside a heavy unit.
    pub open spec fn aux_beside(self, unit: UnitView) -> Seq<FootprintView> {
        if self.keeps_aux(unit) {
            self.aux()
        } else {
            Seq::empty()
        }
    }

    /// The room beside a heavy unit, and the ride-alongs if they fit.
    pub open spec fn room_beside_heavy(self, unit: UnitView) -> Room {
        let aux = self.aux_beside(unit);
        Room {
            free: self.ceiling() - self.baseline - unit.size - self.reserved(unit),
            models: less_room(cap_view(self.policy.max_models_per_set), 1 + aux.len() as int),
            caches: less_room(
                cap_view(self.policy.max_cache_holders_per_set),
                (self.unit_caches(unit) + cache_holders(aux)) as int,
            ),
        }
    }

    /// The set of a heavy unit: with the images that fit, and the ride-alongs if they do.
    pub open spec fn heavy_set(self, unit: UnitView) -> SetView {
        let images = self.images_fitting(self.room_beside_heavy(unit));
        let image_part = if images.len() > 0 {
            " & "@ + joined(model_ids(images), " & "@)
        } else {
            Seq::empty()
        };
        let aux_part = if self.keeps_aux(unit) {
            " & +aux"@
        } else {
            Seq::empty()
        };
        let note = if self.aux().len() > 0 && !self.keeps_aux(unit) {
            ", no aux"@
        } else {
            Seq::empty()
        };
        SetView {
            name: "heavy_"@ + unit.key,
            expr: unit_expr(unit) + image_part + aux_part,
            comment: gb1(unit.size) + " GB + "@ + digits(images.len()) + " imgs"@ + note,
            footprint: self.baseline + unit.size + self.reserved(unit) + models_total(images),
            host_footprint: self.host_footprint(
                known_host(unit.host_size) + (if self.keeps_aux(unit) {
                    self.aux_host()
                } else {
                    0
                }) + models_host(images),
            ),
            fanout: unit_fanout(unit),
            models: 1 + images.len() + self.aux_beside(unit).len(),
            caches: self.unit_caches(unit) + cache_holders(images) + cache_holders(
                self.aux_beside(unit),
            ),
        }
    }

    pub open spec fn heavy_sets(self, bound: nat) -> Seq<SetView>
        decreases bound,
    {
        if bound == 0 {
            Seq::empty()
        } else {
            let before = self.heavy_sets((bound - 1) as nat);
            let unit = self.heavies()[bound - 1];
            if self.cannot_run(unit) {
                before
            } else {
                before.push(self.heavy_set(unit))
            }
        }
    }

    /// What there is to say of the heavy units below `bound`.
    pub open spec fn heavy_warnings(self, bound: nat) -> Seq<Seq<char>>
        decreases bound,
    {
        if bound == 0 {
            Seq::empty()
        } else {
            let before = self.heavy_warnings((bound - 1) as nat);
            let unit = self.heavies()[bound - 1];
            if self.cannot_run(unit) {
                before.push(too_large_text(unit, self.ceiling()))
            } else if self.aux().len() > 0 && !self.keeps_aux(unit) {
                before.push(no_aux_text(unit, self.aux_cost()))
            } else {
                before
            }
        }
    }

    /// The ids of the heavy units below `bound` that cannot run at all.
    pub open spec fn heavy_excluded(self, bound: nat) -> Seq<Seq<char>>
        decreases bound,
    {
        if bound == 0 {
            Seq::empty()
        } else {
            let before = self.heavy_excluded((bound - 1) as nat);
            let unit = self.heavies()[bound - 1];
            if self.cannot_run(unit) {
                before + unit.ids
            } else {
                before
            }
        }
    }

    pub open spec fn excluded(self) -> Seq<Seq<char>> {
        self.heavy_excluded(self.heavies().len())
    }

    /// Every set that the roster calls for, before any is left out.
    pub open spec fn all_sets(self) -> Seq<SetView> {
        self.aux_sets() + self.helper_sets(self.light().len()) + self.image_sets()
            + self.pack_sets() + self.mixed_sets(self.light().len()) + self.heavy_sets(
            self.heavies().len(),
        )
    }

    // ---- eviction costs ----

    /// What the image pool costs to evict.
    pub open spec fn image_pool(self, bound: nat) -> int
        decreases bound,
    {
        if bound == 0 {
            0
        } else {
            self.image_pool((bound - 1) as nat) + cost_of(
                self.policy.evict_costs,
                self.images()[bound - 1].id,
                CostRole::Image,
                0,
            )
        }
    }

    /// The cost of every model below `bound` that can load.
    pub open spec fn evict_costs(self, bound: nat) -> Seq<(Seq<char>, int)>
        decreases bound,
    {
        if bound == 0 {
            Seq::empty()
        } else {
            let before = self.evict_costs((bound - 1) as nat);
            let model = self.models[bound - 1];
            if self.excluded().contains(model.id) {
                before
            } else {
                before.push(
                    (
                        model.id,
                        cost_of(
                            self.policy.evict_costs,
                            model.id,
                            self.role(model),
                            self.image_pool(self.images().len()),
                        ),
                    ),
                )
            }
        }
    }

    /// The ids below `bound` in the table of costs that no model has.
    pub open spec fn unknown_costs(self, bound: nat) -> Seq<Seq<char>>
        decreases bound,
    {
        if bound == 0 {
            Seq::empty()
        } else {
            let before = self.unknown_costs((bound - 1) as nat);
            let id = self.policy.evict_costs.models[bound - 1].0;
            if model_ids(self.models).contains(id) {
                before
            } else {
                before.push(id)
            }
        }
    }

    pub open spec fn unknown_ids(self) -> Seq<Seq<char>> {
        self.unknown_costs(self.policy.evict_costs.models.len())
    }

    // ---- the warnings so far, and the guards ----

    /// What there is to say before any set is looked at for its size.
    pub open spec fn roster_warnings(self) -> Seq<Seq<char>> {
        let truncated = if self.found().complete {
            Seq::empty()
        } else {
            seq![truncated_text(self.light().len(), self.packs().len())]
        };
        let unknown = if self.unknown_ids().len() > 0 {
            seq![unknown_costs_text(self.unknown_ids())]
        } else {
            Seq::empty()
        };
        truncated + self.heavy_warnings(self.heavies().len()) + unknown
    }

    /// The sets that stay once those over the cap are left out.
    pub open spec fn kept_sets(self) -> Seq<SetView> {
        without_names(self.all_sets(), names_over_cap(self.all_sets()))
    }

    /// The sets that cost more host memory than there is, with what they need.
    pub open spec fn host_over(self) -> Seq<(Seq<char>, int)> {
        match self.host_ceiling() {
            Some(ceiling) => over_host(self.kept_sets(), ceiling),
            None => Seq::empty(),
        }
    }

    /// What there is to say of the sets that cost too much host memory.
    pub open spec fn host_advice(self) -> Seq<char> {
        host_advice_text(self.host_over(), self.kept_sets().len(), self.host_ceiling()->0)
    }

    /// The sets that are declared.
    pub open spec fn sets(self) -> Seq<SetView> {
        if self.host_over().len() > 0 && self.policy.on_host_overflow == OnHostOverflow::Exclude {
            without_names(
                self.kept_sets(),
                Seq::new(self.host_over().len(), |i: int| self.host_over()[i].0),
            )
        } else {
            self.kept_sets()
        }
    }

    pub open spec fn host_warnings(self) -> Seq<Seq<char>> {
        if self.host_over().len() == 0 {
            Seq::empty()
        } else if self.policy.on_host_overflow == OnHostOverflow::Exclude {
            seq![self.host_advice() + " (excluded)"@]
        } else {
            seq![self.host_advice()]
        }
    }

    /// The cap that leaves no room for a model beside the ride-alongs.
    pub open spec fn no_room(self) -> Option<BuildErrorView> {
        match (self.model_room(), self.cache_room()) {
            (Some(room), _) if room < 1 => Some(
                BuildErrorView::NoRoom {
                    cap: "max_models_per_set"@,
                    most: self.policy.max_models_per_set->0 as nat,
                    reserved: self.aux().len(),
                },
            ),
            (_, Some(room)) if room < 1 => Some(
                BuildErrorView::NoRoom {
                    cap: "max_cache_holders_per_set"@,
                    most: self.policy.max_cache_holders_per_set->0 as nat,
                    reserved: cache_holders(self.aux()),
                },
            ),
            _ => None,
        }
    }

    /// Why the inputs allow no plan, where they do not.
    pub open spec fn refusal(self) -> Option<BuildErrorView> {
        if self.no_room() is Some {
            self.no_room()
        } else if !self.found().complete && self.policy.on_overflow == OnOverflow::Error {
            Some(BuildErrorView::TooManyCombinations { units: self.light().len() })
        } else if first_unsafe(self.all_sets(), self.ceiling()) is Some {
            let set = first_unsafe(self.all_sets(), self.ceiling())->0;
            Some(
                BuildErrorView::UnsafeSet {
                    name: set.name,
                    footprint: set.footprint,
                    ceiling: self.ceiling(),
                },
            )
        } else if first_over_cap(self.all_sets()) is Some && self.policy.on_overflow
            == OnOverflow::Error {
            let set = first_over_cap(self.all_sets())->0;
            Some(BuildErrorView::OverCap { name: set.name, fanout: set.fanout })
        } else if self.host_over().len() > 0 && self.policy.on_host_overflow
            == OnHostOverflow::Error {
            Some(BuildErrorView::HostOverflow { advice: self.host_advice() })
        } else {
            None
        }
    }

    /// The plan that the inputs call for, where they allow one.
    pub open spec fn plan(self) -> PlanView {
        PlanView {
            vars: Seq::empty(),
            evict_costs: self.evict_costs(self.models.len()),
            sets: self.sets(),
            warnings: self.roster_warnings() + cap_warnings(self.all_sets())
                + self.host_warnings(),
            excluded: self.excluded(),
            unconfirmed: Seq::empty(),
            baseline: self.baseline,
            budget: self.budget,
            margin: self.policy.margin,
            ceiling: self.ceiling(),
            aux_cost: self.aux_cost(),
            n_packs: count_prefixed(self.sets(), "pack"@),
            n_heavies: count_prefixed(self.sets(), "heavy_"@),
            host_ceiling: self.host_ceiling(),
            host_skipped: None,
            host_cram_gb: None,
            host_over: self.host_over(),
        }
    }
}

/// The most combinations a set may expand to.
pub const FANOUT_CAP: usize = 1000;

/// The first set that does not fit under the ceiling.
pub open spec fn first_unsafe(sets: Seq<SetView>, ceiling: int) -> Option<SetView>
    decreases sets.len(),
{
    if sets.len() == 0 {
        None
    } else if sets[0].footprint > ceiling {
        Some(sets[0])
    } else {
        first_unsafe(sets.skip(1), ceiling)
    }
}

/// The first set that expands to too many combinations.
pub open spec fn first_over_cap(sets: Seq<SetView>) -> Option<SetView>
    decreases sets.len(),
{
    if sets.len() == 0 {
        None
    } else if sets[0].fanout > FANOUT_CAP {
        Some(sets[0])
    } else {
        first_over_cap(sets.skip(1))
    }
}

/// The names of the sets that expand to too many combinations.
pub open spec fn names_over_cap(sets: Seq<SetView>) -> Seq<Seq<char>>
    decreases sets.len(),
{
    if sets.len() == 0 {
        Seq::empty()
    } else if sets.last().fanout > FANOUT_CAP {
        names_over_cap(sets.drop_last()).push(sets.last().name)
    } else {
        names_over_cap(sets.drop_last())
    }
}

pub open spec fn cap_warnings(sets: Seq<SetView>) -> Seq<Seq<char>>
    decreases sets.len(),
{
    if sets.len() == 0 {
        Seq::empty()
    } else if sets.last().fanout > FANOUT_CAP {
        cap_warnings(sets.drop_last()).push(over_cap_text(sets.last()))
    } else {
        cap_warnings(sets.drop_last())
    }
}

/// The sets with none of these names, in order.
pub open spec fn without_names(sets: Seq<SetView>, names: Seq<Seq<char>>) -> Seq<SetView> {
    sets.filter(|s: SetView| !names.contains(s.name))
}

/// The sets over the host ceiling, with what they need.
pub open spec fn over_host(sets: Seq<SetView>, ceiling: int) -> Seq<(Seq<char>, int)>
    decreases sets.len(),
{
    if sets.len() == 0 {
        Seq::empty()
    } else {
        let before = over_host(sets.drop_last(), ceiling);
        match sets.last().host_footprint {
            Some(needed) => if needed > ceiling {
                before.push((sets.last().name, needed))
            } else {
                before
            },
            None => before,
        }
    }
}

/// How many sets have a name with this prefix.
pub open spec fn count_prefixed(sets: Seq<SetView>, prefix: Seq<char>) -> nat
    decreases sets.len(),
{
    if sets.len() == 0 {
        0
    } else {
        count_prefixed(sets.drop_last(), prefix) + if starts(sets.last().name, prefix) {
            1nat
        } else {
            0nat
        }
    }
}

// ---- texts ------------------------------------------------------------------------------

pub open spec fn truncated_text(units: nat, packs: nat) -> Seq<char> {
    "the light-unit roster ("@ + digits(units)
        + " units) produces too many co-residency combinations to enumerate exhaustively — emitted "@
        + digits(packs)
        + " maximal packs and stopped (a safe under-declaration; a smaller matrix never OOMs). Reduce it with `strategy = \"family\"` + `[groups]`, or set `on_overflow = \"error\"` to refuse."@
}

pub open spec fn too_large_text(unit: UnitView, ceiling: int) -> Seq<char> {
    "`"@ + unit.key + "` ("@ + gb1(unit.size) + " GB) exceeds the ceiling "@ + gb1(ceiling)
        + " GB — excluded (can't run)"@
}

pub open spec fn no_aux_text(unit: UnitView, aux_cost: int) -> Seq<char> {
    "heavy `"@ + unit.key + "` is too large to co-reside with aux ("@ + gb1(aux_cost)
        + " GB) — it runs alone"@
}

pub open spec fn unknown_costs_text(ids: Seq<Seq<char>>) -> Seq<char> {
    "`[evict_costs.models]` names "@ + digits(ids.len())
        + " model id(s) the matrix has no cost for: "@ + listed(ids)
        + ". Check the spelling, or whether the model is unmeasured or excluded"@
}

pub open spec fn over_cap_text(set: SetView) -> Seq<char> {
    "set `"@ + set.name + "` expands to "@ + digits(set.fanout)
        + " combinations (> the 1000 cap) — omitted (a safe under-declaration); split it via `[groups]` to cover those combinations"@
}

pub open spec fn host_need_text(over: (Seq<char>, int)) -> Seq<char> {
    over.0 + " needs "@ + gb1(over.1) + " GB"@
}

pub open spec fn host_advice_text(over: Seq<(Seq<char>, int)>, sets: nat, ceiling: int) -> Seq<
    char,
> {
    digits(over.len()) + " of the "@ + digits(sets)
        + " declared sets cost more HOST RAM than the "@ + gb1(ceiling) + " GB ceiling: "@
        + listed(Seq::new(over.len(), |i: int| host_need_text(over[i])))
        + ". The GPU fit is unaffected; the risk is the host OOM killer picking a llama-server, which presents as an unexplained upstream death. Bound it with `-cram <MiB>` on the llama-server entries (its default is 8192 MiB per process, taken whether or not the flag appears), raise `host_budget`, or set `on_host_overflow = \"exclude\"` to leave those sets out"@
}

/// The text of a build error.
pub open spec fn build_error_text(error: BuildErrorView) -> Seq<char> {
    match error {
        BuildErrorView::TooManyCombinations { units } => "the light-unit roster ("@ + digits(units)
            + " units) produces too many co-residency combinations to enumerate; reduce it with `strategy = \"family\"` + `[groups]` (or allow a truncated matrix with `on_overflow = \"group\"`)"@,
        BuildErrorView::UnsafeSet { name, footprint, ceiling } => "internal error: emitted set `"@
            + name + "` is "@ + gb2(footprint) + " GB > ceiling "@ + gb2(ceiling)
            + " GB — refusing to emit an unsafe matrix"@,
        BuildErrorView::OverCap { name, fanout } => "set `"@ + name + "` expands to "@ + digits(
            fanout,
        )
            + " combinations (> the 1000 cap); reduce it via `[groups]`, or set `on_overflow = \"group\"` to omit it"@,
        BuildErrorView::HostOverflow { advice } => advice,
        BuildErrorView::NoRoom { cap, most, reserved } => "`"@ + cap + " = "@ + digits(most)
            + "` leaves no room for a model beside the "@ + digits(reserved)
            + " ride-along(s) that every set reserves - raise it, or name fewer in `[roles]`"@,
        BuildErrorView::NoBudget =>
        "no budget set - pass --budget <GB>, set `budget` in llama-matrix.toml, or run `measure` to detect the pool"@,
        BuildErrorView::Unconfirmed { id } => "`"@ + id
            + "`'s footprint was recorded without confirming that the model finished allocating, so it may be under-measured and a matrix built from it may not fit; re-run `llama-matrix measure`, or set `on_unconfirmed` to \"warn\" or \"exclude\""@,
    }
}

} // verus!
