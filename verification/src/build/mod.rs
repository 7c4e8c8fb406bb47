//! Building the co-residency plan from measured footprints.
//!
//! Pipeline: sort the roster out (roles, units, heavy and light), knapsack the light units
//! into maximal fitting packs, emit the sets, and hold every one of them to the guards: a
//! set that does not fit fails the build, one that expands to too many combinations is
//! left out, and one that costs too much host memory is dealt with as the policy says.

use vstd::prelude::*;
use vstd::string::*;

use crate::number::{count_text, gb1_text, gb2_text, number_text};
use crate::packing::ascending;
use crate::plan::{
    build_error_text, cap_warnings, count_prefixed, few_enough, first_over_cap, first_unsafe,
    host_advice_text, host_need_text, listed, named_costs, named_sums, names_over_cap, over_host,
    places, unit_expr, unit_fanout, unit_reference, units_fanout, without_names, BuildError,
    BuildInput, EmittedSet, InputView, MatrixPlan, SetView, FANOUT_CAP, NAMES_SHOWN,
};
use crate::policy::{llm_tier, CostRole, OnHostOverflow, OnOverflow};
use crate::roster::{
    holders_of, host_total_of, is_within, known, left_of, left_view, role_of, sort_out, total_of,
    unit_totals_of, Roster, Space,
};
use crate::tables::cost_entry;
use crate::text::{has_name, join, joined, lemma_views_push, same, starts_with, views};
pub use crate::resolve::{resolve_plan, set_member_ids};
use crate::units::{append_names, model_ids, sound_unit, FootprintView, ModelFootprint, Unit};

verus! {

// ---- names and expressions ------------------------------------------------------------------

/// Names for a warning: all of a few, or the first few and how many more.
pub fn name_list(names: &Vec<String>) -> (text: String)
    ensures
        text@ == listed(views(names@)),
{
    if names.len() == 0 {
        return "none".to_owned();
    }
    if names.len() <= NAMES_SHOWN {
        return join(names, ", ");
    }
    let mut shown: Vec<String> = Vec::new();
    let mut at: usize = 0;
    proof {
        assert(views(shown@) =~= views(names@).take(0));
    }
    while at < NAMES_SHOWN
        invariant
            at <= NAMES_SHOWN < names@.len(),
            views(shown@) == views(names@).take(at as int),
        decreases NAMES_SHOWN - at,
    {
        let name = names[at].clone();
        proof {
            lemma_views_push(shown@, name);
            assert(views(names@).take(at + 1) =~= views(names@).take(at as int).push(name@));
        }
        shown.push(name);
        at = at + 1;
    }
    join(&shown, ", ").concat(", and ").concat(count_text(names.len() - NAMES_SHOWN).as_str()).concat(
        " more",
    )
}

/// The ids of some models, joined as co-residents.
fn co_residents(models: &Vec<&ModelFootprint>) -> (text: String)
    ensures
        text@ == joined(model_ids(views(models@)), " & "@),
{
    let mut ids: Vec<String> = Vec::new();
    let mut at: usize = 0;
    let ghost all = model_ids(views(models@));
    proof {
        assert(views(ids@) =~= all.take(0));
    }
    while at < models.len()
        invariant
            at <= models@.len(),
            all == model_ids(views(models@)),
            views(ids@) == all.take(at as int),
        decreases models@.len() - at,
    {
        let id = models[at].id.clone();
        proof {
            lemma_views_push(ids@, id);
            assert(all.take(at + 1) =~= all.take(at as int).push(id@));
        }
        ids.push(id);
        at = at + 1;
    }
    proof {
        assert(all.take(at as int) =~= all);
    }
    join(&ids, " & ")
}

/// A unit in a set's expression: its id, or the alternative of its ids.
fn expr_of(unit: &Unit) -> (text: String)
    ensures
        text@ == unit_expr(unit@),
{
    if unit.ids.len() == 1 {
        proof {
            assert(unit@.ids[0] == unit.ids@[0]@);
        }
        unit.ids[0].clone()
    } else {
        "(".to_owned().concat(join(&unit.ids, " | ").as_str()).concat(")")
    }
}

fn fanout_of(unit: &Unit) -> (count: usize)
    ensures
        count == unit_fanout(unit@),
        count >= 1,
{
    if unit.ids.len() == 0 {
        1
    } else {
        unit.ids.len()
    }
}

/// A light unit in a set's expression: its helper set if it has variants, else its id.
fn reference_of(unit: &Unit) -> (text: String)
    requires
        unit@.ids.len() > 0,
    ensures
        text@ == unit_reference(unit@),
{
    if unit.ids.len() > 1 {
        "+g_".to_owned().concat(unit.key.as_str())
    } else {
        proof {
            assert(unit@.ids[0] == unit.ids@[0]@);
        }
        unit.ids[0].clone()
    }
}

fn aux_reference_of(roster: &Roster, Ghost(input): Ghost<InputView>) -> (text: String)
    requires
        roster.is_of(input),
    ensures
        text@ == input.aux_reference(),
{
    if roster.aux.len() > 0 {
        " & +aux".to_owned()
    } else {
        String::new()
    }
}

// ---- the sets, by kind ----------------------------------------------------------------------

/// The ride-along pool and the whole image pool, each where there is one.
fn aux_set(roster: &Roster, Ghost(input): Ghost<InputView>) -> (sets: Vec<EmittedSet>)
    requires
        roster.is_of(input),
    ensures
        views(sets@) == input.aux_sets(),
{
    let mut sets: Vec<EmittedSet> = Vec::new();
    if roster.aux.len() > 0 {
        let set = EmittedSet {
            name: "aux".to_owned(),
            expr: co_residents(&roster.aux),
            comment: "ride-along (".to_owned().concat(gb1_text(roster.aux_cost).as_str()).concat(
                " GB)",
            ),
            footprint: roster.baseline as i128 + roster.aux_cost,
            host_footprint: roster.host_footprint(roster.aux_host, Ghost(input)),
            fanout: 1,
            models: roster.aux.len() as u64,
            caches: roster.aux_caches as u64,
        };
        sets.push(set);
    }
    proof {
        assert(views(sets@) =~= input.aux_sets());
    }
    sets
}

/// What some runs of images stand for.
pub open spec fn run_views(runs: Seq<Vec<&ModelFootprint>>) -> Seq<Seq<FootprintView>> {
    Seq::new(runs.len(), |i: int| views(runs[i]@))
}

/// The images, in as few runs as the caps allow.
fn image_runs<'a>(roster: &Roster<'a>, Ghost(input): Ghost<InputView>) -> (runs: Vec<
    Vec<&'a ModelFootprint>,
>)
    requires
        roster.is_of(input),
    ensures
        run_views(runs@) == input.image_runs(input.images().len()),
        forall|i: int| 0 <= i < runs@.len() ==> (#[trigger] runs@[i])@.len() <= input.models.len(),
        runs@.len() <= input.models.len(),
{
    let models = roster.model_room(Ghost(input));
    let caches = roster.cache_room(Ghost(input));
    let mut done: Vec<Vec<&'a ModelFootprint>> = Vec::new();
    let mut open: Vec<&'a ModelFootprint> = Vec::new();
    let mut at: usize = 0;
    proof {
        assert(views(roster.images@).len() == roster.images@.len());
        assert(run_views(done@) =~= input.image_runs(0));
    }
    while at < roster.images.len()
        invariant
            roster.is_of(input),
            left_view(models) == input.model_room(),
            left_view(caches) == input.cache_room(),
            at <= roster.images@.len(),
            at == 0 ==> open@.len() == 0 && done@.len() == 0,
            at > 0 ==> open@.len() > 0,
            open@.len() <= at,
            done@.len() <= at,
            at > 0 ==> done@.len() < at,
            forall|i: int| 0 <= i < done@.len() ==> (#[trigger] done@[i])@.len() <= at,
            input.image_runs(at as nat) == if at == 0 {
                Seq::empty()
            } else {
                run_views(done@).push(views(open@))
            },
        decreases roster.images@.len() - at,
    {
        let image: &'a ModelFootprint = roster.images[at];
        let ghost before = open@;
        proof {
            assert(views(roster.images@)[at as int] == image@);
            lemma_views_push(open@, image);
            assert(run_views(done@).push(views(before)).drop_last() =~= run_views(done@));
        }
        let mut longer = copied_run(&open);
        longer.push(image);
        let count: usize = holders_of(&longer);
        if at > 0 && is_within(models, longer.len()) && is_within(caches, count) {
            open = longer;
        } else {
            let mut fresh: Vec<&'a ModelFootprint> = Vec::new();
            fresh.push(image);
            proof {
                assert(views(fresh@) =~= seq![image@]);
            }
            if at > 0 {
                proof {
                    assert(run_views(done@.push(open)) =~= run_views(done@).push(views(before)));
                }
                done.push(open);
            }
            open = fresh;
        }
        at = at + 1;
        proof {
            assert(input.image_runs(at as nat) =~= run_views(done@).push(views(open@)));
        }
    }
    if open.len() > 0 {
        proof {
            assert(run_views(done@.push(open)) =~= run_views(done@).push(views(open@)));
        }
        done.push(open);
    }
    done
}

fn copied_run<'a>(run: &Vec<&'a ModelFootprint>) -> (r: Vec<&'a ModelFootprint>)
    ensures
        r@ == run@,
{
    let mut r: Vec<&'a ModelFootprint> = Vec::new();
    let mut at: usize = 0;
    while at < run.len()
        invariant
            at <= run@.len(),
            r@ == run@.take(at as int),
        decreases run@.len() - at,
    {
        r.push(run[at]);
        at = at + 1;
        proof {
            assert(run@.take(at as int) =~= run@.take(at - 1).push(run@[at - 1]));
        }
    }
    proof {
        assert(run@.take(at as int) =~= run@);
    }
    r
}

/// The image pool, in as many sets as it has runs.
fn image_sets(roster: &Roster, Ghost(input): Ghost<InputView>) -> (sets: Vec<EmittedSet>)
    requires
        roster.is_of(input),
    ensures
        views(sets@) == input.image_sets(),
{
    let runs = image_runs(roster, Ghost(input));
    let mut sets: Vec<EmittedSet> = Vec::new();
    let mut at: usize = 0;
    proof {
        assert(run_views(runs@).len() == runs@.len());
        assert(views(sets@) =~= input.image_sets().take(0));
    }
    while at < runs.len()
        invariant
            roster.is_of(input),
            run_views(runs@) == input.image_runs(input.images().len()),
            forall|i: int|
                0 <= i < runs@.len() ==> (#[trigger] runs@[i])@.len() <= input.models.len(),
            runs@.len() <= input.models.len(),
            at <= runs@.len(),
            views(sets@) == input.image_sets().take(at as int),
        decreases runs@.len() - at,
    {
        let run = &runs[at];
        proof {
            assert(run_views(runs@)[at as int] == views(runs@[at as int]@));
            assert(runs@[at as int]@.len() <= input.models.len());
        }
        let held: i128 = total_of(run);
        let host: i128 = host_total_of(run);
        let set = EmittedSet {
            name: if at == 0 {
                "images".to_owned()
            } else {
                "images".to_owned().concat(count_text(at + 1).as_str())
            },
            expr: co_residents(run).concat(aux_reference_of(roster, Ghost(input)).as_str()),
            comment: "any image subset + aux".to_owned(),
            footprint: roster.baseline as i128 + roster.aux_cost + held,
            host_footprint: roster.host_footprint(roster.aux_host + host, Ghost(input)),
            fanout: 1,
            models: run.len() as u64 + roster.aux.len() as u64,
            caches: holders_of(run) as u64 + roster.aux_caches as u64,
        };
        proof {
            assert(views(run@).len() == run@.len());
            assert(set@ =~= input.image_set(views(run@), at as int));
            lemma_views_push(sets@, set);
            assert(input.image_sets().take(at + 1) =~= input.image_sets().take(at as int).push(
                set@,
            ));
        }
        sets.push(set);
        at = at + 1;
    }
    proof {
        assert(input.image_sets().take(at as int) =~= input.image_sets());
    }
    sets
}

/// A helper set for each light unit with variants.
fn helper_sets(roster: &Roster, Ghost(input): Ghost<InputView>) -> (sets: Vec<EmittedSet>)
    requires
        roster.is_of(input),
    ensures
        views(sets@) == input.helper_sets(input.light().len()),
{
    let mut sets: Vec<EmittedSet> = Vec::new();
    let mut at: usize = 0;
    proof {
        assert(places(roster.light@).len() == input.light().len());
        assert(views(sets@) =~= input.helper_sets(0));
    }
    while at < roster.light.len()
        invariant
            roster.is_of(input),
            at <= roster.light@.len(),
            views(sets@) == input.helper_sets(at as nat),
        decreases roster.light@.len() - at,
    {
        let unit = roster.light_unit(at, Ghost(input));
        if unit.ids.len() > 1 {
            let set = EmittedSet {
                name: "g_".to_owned().concat(unit.key.as_str()),
                expr: expr_of(unit),
                comment: gb1_text(unit.size as i128).concat(" GB (max variant)"),
                footprint: roster.baseline as i128 + unit.size as i128 + roster.aux_cost,
                host_footprint: roster.host_footprint(
                    known(unit.host_size) as i128 + roster.aux_host,
                    Ghost(input),
                ),
                fanout: fanout_of(unit),
                models: 1,
                caches: roster.unit_caches(unit, Ghost(input)) as u64,
            };
            proof {
                lemma_views_push(sets@, set);
                assert(set@ =~= input.helper_set(unit@));
            }
            sets.push(set);
        }
        at = at + 1;
    }
    sets
}

proof fn lemma_ascending_short(pack: Seq<usize>, bound: int)
    requires
        ascending(pack, bound),
        bound >= 0,
    ensures
        pack.len() <= bound,
{
    if pack.len() > 0 {
        lemma_ascending_step(pack, bound, pack.len() - 1);
    }
}

proof fn lemma_ascending_step(pack: Seq<usize>, bound: int, i: int)
    requires
        ascending(pack, bound),
        0 <= i < pack.len(),
    ensures
        pack[i] >= i,
    decreases i,
{
    if i > 0 {
        lemma_ascending_step(pack, bound, i - 1);
        assert(pack[i - 1] < pack[i]);
    }
}

/// The units of a pack.
fn members_of<'r>(
    roster: &'r Roster,
    pack: &Vec<usize>,
    Ghost(input): Ghost<InputView>,
) -> (members: Vec<&'r Unit>)
    requires
        roster.is_of(input),
        ascending(pack@, roster.light@.len() as int),
    ensures
        views(members@) == input.pack_units(pack@),
        members@.len() == pack@.len(),
        forall|i: int| 0 <= i < members@.len() ==> sound_unit((#[trigger] members@[i])@),
{
    let mut members: Vec<&Unit> = Vec::new();
    let mut at: usize = 0;
    proof {
        assert(views(members@) =~= input.pack_units(pack@).take(0));
    }
    while at < pack.len()
        invariant
            roster.is_of(input),
            ascending(pack@, roster.light@.len() as int),
            at <= pack@.len(),
            members@.len() == at,
            views(members@) == input.pack_units(pack@).take(at as int),
            forall|i: int| 0 <= i < members@.len() ==> sound_unit((#[trigger] members@[i])@),
        decreases pack@.len() - at,
    {
        proof {
            assert(pack@[at as int] < roster.light@.len());
        }
        let unit = roster.light_unit(pack[at], Ghost(input));
        proof {
            lemma_views_push(members@, unit);
            assert(input.pack_units(pack@).take(at + 1) =~= input.pack_units(pack@).take(
                at as int,
            ).push(unit@));
        }
        members.push(unit);
        at = at + 1;
    }
    proof {
        assert(input.pack_units(pack@).take(at as int) =~= input.pack_units(pack@));
    }
    members
}

fn references_of(members: &Vec<&Unit>) -> (r: Vec<String>)
    requires
        forall|i: int| 0 <= i < members@.len() ==> sound_unit((#[trigger] members@[i])@),
    ensures
        views(r@) == Seq::new(
            views(members@).len(),
            |i: int| unit_reference(views(members@)[i]),
        ),
{
    let mut r: Vec<String> = Vec::new();
    let mut at: usize = 0;
    while at < members.len()
        invariant
            at <= members@.len(),
            r@.len() == at,
            forall|i: int| 0 <= i < members@.len() ==> sound_unit((#[trigger] members@[i])@),
            forall|i: int| 0 <= i < at ==> #[trigger] r@[i]@ == unit_reference(members@[i]@),
        decreases members@.len() - at,
    {
        proof {
            assert(sound_unit(members@[at as int]@));
        }
        r.push(reference_of(members[at]));
        at = at + 1;
    }
    proof {
        assert(views(r@) =~= Seq::new(
            views(members@).len(),
            |i: int| unit_reference(views(members@)[i]),
        ));
    }
    r
}

fn keys_of(members: &Vec<&Unit>) -> (r: Vec<String>)
    ensures
        views(r@) == Seq::new(views(members@).len(), |i: int| views(members@)[i].key),
{
    let mut r: Vec<String> = Vec::new();
    let mut at: usize = 0;
    while at < members.len()
        invariant
            at <= members@.len(),
            r@.len() == at,
            forall|i: int| 0 <= i < at ==> #[trigger] r@[i]@ == members@[i]@.key,
        decreases members@.len() - at,
    {
        r.push(members[at].key.clone());
        at = at + 1;
    }
    proof {
        assert(views(r@) =~= Seq::new(views(members@).len(), |i: int| views(members@)[i].key));
    }
    r
}

/// How many combinations some units stand for, held at the largest number there is.
fn combinations_of(members: &Vec<&Unit>) -> (count: usize)
    ensures
        count == units_fanout(views(members@)),
{
    let ghost all = views(members@);
    let mut count: usize = 1;
    let mut at: usize = 0;
    while at < members.len()
        invariant
            at <= members@.len(),
            all == views(members@),
            count == units_fanout(all.take(at as int)),
        decreases members@.len() - at,
    {
        let choices: usize = fanout_of(members[at]);
        proof {
            assert(all.take(at + 1).drop_last() =~= all.take(at as int));
            assert(all.take(at + 1).last() == members@[at as int]@);
        }
        count = match count.checked_mul(choices) {
            Some(product) => product,
            None => usize::MAX,
        };
        at = at + 1;
    }
    proof {
        assert(all.take(at as int) =~= all);
    }
    count
}

/// How many of some units may hold a prompt cache.
fn caches_of(roster: &Roster, members: &Vec<&Unit>, Ghost(input): Ghost<InputView>) -> (r: usize)
    requires
        roster.is_of(input),
    ensures
        r == input.units_caches(views(members@)),
        r <= members@.len(),
{
    let ghost all = views(members@);
    let mut r: usize = 0;
    let mut at: usize = 0;
    while at < members.len()
        invariant
            roster.is_of(input),
            at <= members@.len(),
            all == views(members@),
            r == input.units_caches(all.take(at as int)),
            r <= at,
        decreases members@.len() - at,
    {
        proof {
            assert(all.take(at + 1).drop_last() =~= all.take(at as int));
            assert(all.take(at + 1).last() == members@[at as int]@);
        }
        let held: usize = roster.unit_caches(members[at], Ghost(input));
        r = r + held;
        at = at + 1;
    }
    proof {
        assert(all.take(at as int) =~= all);
    }
    r
}

/// The sets that declare the packs.
fn pack_sets(
    roster: &Roster,
    packs: &Vec<Vec<usize>>,
    Ghost(input): Ghost<InputView>,
) -> (sets: Vec<EmittedSet>)
    requires
        roster.is_of(input),
        views(packs@) == input.packs(),
        forall|i: int|
            0 <= i < packs@.len() ==> ascending((#[trigger] packs@[i])@, roster.light@.len() as int),
    ensures
        views(sets@) == input.pack_sets(),
{
    let mut sets: Vec<EmittedSet> = Vec::new();
    let mut at: usize = 0;
    proof {
        assert(views(sets@) =~= input.pack_sets().take(0));
    }
    while at < packs.len()
        invariant
            roster.is_of(input),
            views(packs@) == input.packs(),
            forall|i: int|
                0 <= i < packs@.len() ==> ascending(
                    (#[trigger] packs@[i])@,
                    roster.light@.len() as int,
                ),
            at <= packs@.len(),
            views(sets@) == input.pack_sets().take(at as int),
        decreases packs@.len() - at,
    {
        let pack = &packs[at];
        proof {
            assert(ascending(packs@[at as int]@, roster.light@.len() as int));
            lemma_ascending_short(pack@, roster.light@.len() as int);
            assert(input.packs()[at as int] == pack@);
        }
        let members = members_of(roster, pack, Ghost(input));
        let (size, host) = unit_totals_of(&members);
        let footprint: i128 = roster.baseline as i128 + size + roster.aux_cost;
        let set = EmittedSet {
            name: "pack".to_owned().concat(count_text(at + 1).as_str()),
            expr: join(&references_of(&members), " & ").concat(
                aux_reference_of(roster, Ghost(input)).as_str(),
            ),
            comment: gb1_text(footprint).concat(" GB: ").concat(
                join(&keys_of(&members), "+").as_str(),
            ),
            footprint,
            host_footprint: roster.host_footprint(host + roster.aux_host, Ghost(input)),
            fanout: combinations_of(&members),
            models: members.len() as u64 + roster.aux.len() as u64,
            caches: caches_of(roster, &members, Ghost(input)) as u64 + roster.aux_caches as u64,
        };
        proof {
            assert(views(members@).len() == members@.len());
            assert(views(roster.aux@).len() == roster.aux@.len());
            lemma_views_push(sets@, set);
            assert(set@ =~= input.pack_set(at as int));
            assert(input.pack_sets().take(at + 1) =~= input.pack_sets().take(at as int).push(set@));
        }
        sets.push(set);
        at = at + 1;
    }
    proof {
        assert(input.pack_sets().take(at as int) =~= input.pack_sets());
    }
    sets
}

/// For each light unit, the set of it and the images that fit beside it.
fn mixed_sets(roster: &Roster, Ghost(input): Ghost<InputView>) -> (sets: Vec<EmittedSet>)
    requires
        roster.is_of(input),
    ensures
        views(sets@) == input.mixed_sets(input.light().len()),
{
    let mut sets: Vec<EmittedSet> = Vec::new();
    let mut at: usize = 0;
    proof {
        assert(places(roster.light@).len() == input.light().len());
        assert(views(sets@) =~= input.mixed_sets(0));
    }
    while at < roster.light.len()
        invariant
            roster.is_of(input),
            at <= roster.light@.len(),
            views(sets@) == input.mixed_sets(at as nat),
        decreases roster.light@.len() - at,
    {
        let unit = roster.light_unit(at, Ghost(input));
        let held_caches: u64 = roster.unit_caches(unit, Ghost(input)) as u64;
        let space = Space {
            free: roster.ceiling - roster.baseline as i128 - unit.size as i128 - roster.aux_cost,
            models: left_of(roster.max_models, roster.aux.len() as u64 + 1),
            caches: left_of(roster.max_caches, roster.aux_caches as u64 + held_caches),
        };
        proof {
            assert(views(roster.aux@).len() == roster.aux@.len());
            assert(space@ =~= input.room_beside(unit@));
        }
        let fitting = roster.images_fitting(&space, Ghost(input));
        if fitting.len() > 0 {
            let held: i128 = total_of(&fitting);
            let host: i128 = host_total_of(&fitting);
            let set = EmittedSet {
                name: "llmimg_".to_owned().concat(unit.key.as_str()),
                expr: reference_of(unit).concat(" & ").concat(
                    co_residents(&fitting).as_str(),
                ).concat(aux_reference_of(roster, Ghost(input)).as_str()),
                comment: unit.key.clone().concat(" + ").concat(
                    count_text(fitting.len()).as_str(),
                ).concat(" imgs"),
                footprint: roster.baseline as i128 + unit.size as i128 + roster.aux_cost + held,
                host_footprint: roster.host_footprint(
                    known(unit.host_size) as i128 + roster.aux_host + host,
                    Ghost(input),
                ),
                fanout: fanout_of(unit),
                models: 1 + fitting.len() as u64 + roster.aux.len() as u64,
                caches: held_caches + holders_of(&fitting) as u64 + roster.aux_caches as u64,
            };
            proof {
                lemma_views_push(sets@, set);
                assert(views(fitting@).len() == fitting@.len());
                assert(set@ =~= input.mixed_set(unit@));
            }
            sets.push(set);
        }
        at = at + 1;
    }
    sets
}

/// What the heavy units come to.
struct Heavies {
    sets: Vec<EmittedSet>,
    warnings: Vec<String>,
    excluded: Vec<String>,
}

/// The sets of the heavy units: each runs with the ride-alongs if they fit, else alone,
/// and one larger than the whole ceiling cannot run and is left out.
fn heavy_sets(roster: &Roster, Ghost(input): Ghost<InputView>) -> (r: Heavies)
    requires
        roster.is_of(input),
    ensures
        views(r.sets@) == input.heavy_sets(input.heavies().len()),
        views(r.warnings@) == input.heavy_warnings(input.heavies().len()),
        views(r.excluded@) == input.excluded(),
{
    let mut sets: Vec<EmittedSet> = Vec::new();
    let mut warnings: Vec<String> = Vec::new();
    let mut excluded: Vec<String> = Vec::new();
    let mut at: usize = 0;
    proof {
        assert(places(roster.heavies@).len() == input.heavies().len());
        assert(views(sets@) =~= input.heavy_sets(0));
        assert(views(warnings@) =~= input.heavy_warnings(0));
        assert(views(excluded@) =~= input.heavy_excluded(0));
    }
    while at < roster.heavies.len()
        invariant
            roster.is_of(input),
            at <= roster.heavies@.len(),
            views(sets@) == input.heavy_sets(at as nat),
            views(warnings@) == input.heavy_warnings(at as nat),
            views(excluded@) == input.heavy_excluded(at as nat),
        decreases roster.heavies@.len() - at,
    {
        let unit = roster.heavy_unit(at, Ghost(input));
        at = at + 1;
        let alone: i128 = roster.baseline as i128 + unit.size as i128;
        if alone > roster.ceiling {
            append_names(&mut excluded, &unit.ids);
            let warning = "`".to_owned().concat(unit.key.as_str()).concat("` (").concat(
                gb1_text(unit.size as i128).as_str(),
            ).concat(" GB) exceeds the ceiling ").concat(
                gb1_text(roster.ceiling).as_str(),
            ).concat(" GB — excluded (can't run)");
            proof {
                lemma_views_push(warnings@, warning);
            }
            warnings.push(warning);
            continue ;
        }
        let has_aux = roster.aux.len() > 0;
        let with_aux = has_aux && alone + roster.aux_cost <= roster.ceiling;
        let reserved: i128 = if with_aux {
            roster.aux_cost
        } else {
            0
        };
        let held_caches: u64 = roster.unit_caches(unit, Ghost(input)) as u64;
        let beside: u64 = if with_aux {
            roster.aux.len() as u64
        } else {
            0
        };
        let beside_caches: u64 = if with_aux {
            roster.aux_caches as u64
        } else {
            0
        };
        let space = Space {
            free: roster.ceiling - alone - reserved,
            models: left_of(roster.max_models, 1 + beside),
            caches: left_of(roster.max_caches, held_caches + beside_caches),
        };
        proof {
            assert(views(roster.aux@).len() == roster.aux@.len());
            assert(space@ =~= input.room_beside_heavy(unit@));
        }
        let fitting = roster.images_fitting(&space, Ghost(input));
        if has_aux && !with_aux {
            let warning = "heavy `".to_owned().concat(unit.key.as_str()).concat(
                "` is too large to co-reside with aux (",
            ).concat(gb1_text(roster.aux_cost).as_str()).concat(" GB) — it runs alone");
            proof {
                lemma_views_push(warnings@, warning);
            }
            warnings.push(warning);
        }
        let set = heavy_set(roster, unit, with_aux, &fitting, Ghost(input));
        proof {
            lemma_views_push(sets@, set);
        }
        sets.push(set);
    }
    Heavies { sets, warnings, excluded }
}

fn heavy_set(
    roster: &Roster,
    unit: &Unit,
    with_aux: bool,
    fitting: &Vec<&ModelFootprint>,
    Ghost(input): Ghost<InputView>,
) -> (set: EmittedSet)
    requires
        roster.is_of(input),
        with_aux == input.keeps_aux(unit@),
        views(fitting@) == input.images_fitting(input.room_beside_heavy(unit@)),
        fitting@.len() <= input.models.len(),
    ensures
        set@ == input.heavy_set(unit@),
{
    let reserved: i128 = if with_aux {
        roster.aux_cost
    } else {
        0
    };
    let aux_host: i128 = if with_aux {
        roster.aux_host
    } else {
        0
    };
    let image_part = if fitting.len() > 0 {
        " & ".to_owned().concat(co_residents(fitting).as_str())
    } else {
        String::new()
    };
    let aux_part = if with_aux {
        " & +aux"
    } else {
        ""
    };
    let note = if roster.aux.len() > 0 && !with_aux {
        ", no aux"
    } else {
        ""
    };
    proof {
        reveal_strlit("");
        assert(""@ =~= Seq::<char>::empty());
    }
    let held: i128 = total_of(fitting);
    let host: i128 = host_total_of(fitting);
    let beside: u64 = if with_aux {
        roster.aux.len() as u64
    } else {
        0
    };
    let beside_caches: u64 = if with_aux {
        roster.aux_caches as u64
    } else {
        0
    };
    let set = EmittedSet {
        name: "heavy_".to_owned().concat(unit.key.as_str()),
        expr: expr_of(unit).concat(image_part.as_str()).concat(aux_part),
        comment: gb1_text(unit.size as i128).concat(" GB + ").concat(
            count_text(fitting.len()).as_str(),
        ).concat(" imgs").concat(note),
        footprint: roster.baseline as i128 + unit.size as i128 + reserved + held,
        host_footprint: roster.host_footprint(
            known(unit.host_size) as i128 + aux_host + host,
            Ghost(input),
        ),
        fanout: fanout_of(unit),
        models: 1 + fitting.len() as u64 + beside,
        caches: roster.unit_caches(unit, Ghost(input)) as u64 + holders_of(fitting) as u64
            + beside_caches,
    };
    proof {
        assert(views(fitting@).len() == fitting@.len());
        assert(views(roster.aux@).len() == roster.aux@.len());
        assert(set@ =~= input.heavy_set(unit@));
    }
    set
}

// ---- eviction costs -------------------------------------------------------------------------

/// What the image pool costs to evict, held at the ceiling on costs, past which the derived
/// tier no longer grows.
fn image_pool_of(input: &BuildInput, images: &Vec<&ModelFootprint>) -> (pool: u64)
    requires
        views(images@) == input@.images(),
    ensures
        llm_tier(pool as int) == llm_tier(input@.image_pool(input@.images().len())),
{
    let mut pool: u64 = 0;
    let mut at: usize = 0;
    let ghost whole = input@;
    while at < images.len()
        invariant
            whole == input@,
            at <= images@.len(),
            views(images@) == whole.images(),
            pool <= 1_000_000,
            whole.image_pool(at as nat) >= 0,
            pool == if whole.image_pool(at as nat) < 1_000_000 {
                whole.image_pool(at as nat)
            } else {
                1_000_000
            },
        decreases images@.len() - at,
    {
        proof {
            assert(whole.images()[at as int] == images@[at as int]@);
        }
        let cost: u32 = input.policy.evict_costs.of(
            images[at].id.as_str(),
            CostRole::Image,
            0,
        );
        pool = pool + cost as u64;
        if pool > 1_000_000 {
            pool = 1_000_000;
        }
        at = at + 1;
    }
    pool
}

/// The cost of every model that can load.
fn costs_of(
    input: &BuildInput,
    images: &Vec<&ModelFootprint>,
    excluded: &Vec<String>,
) -> (costs: Vec<(String, u32)>)
    requires
        views(images@) == input@.images(),
        views(excluded@) == input@.excluded(),
    ensures
        named_costs(costs@) == input@.evict_costs(input@.models.len()),
{
    let pool: u64 = image_pool_of(input, images);
    let mut costs: Vec<(String, u32)> = Vec::new();
    let mut at: usize = 0;
    let ghost whole = input@;
    proof {
        assert(named_costs(costs@) =~= whole.evict_costs(0));
    }
    while at < input.models.len()
        invariant
            whole == input@,
            at <= input.models@.len(),
            views(excluded@) == whole.excluded(),
            llm_tier(pool as int) == llm_tier(whole.image_pool(whole.images().len())),
            named_costs(costs@) == whole.evict_costs(at as nat),
        decreases input.models@.len() - at,
    {
        let model = &input.models[at];
        proof {
            assert(whole.models[at as int] == model@);
        }
        if !has_name(excluded, model.id.as_str()) {
            let role = role_of(input, model);
            let cost: u32 = input.policy.evict_costs.of(model.id.as_str(), role, pool);
            let entry = (model.id.clone(), cost);
            proof {
                assert(named_costs(costs@.push(entry)) =~= named_costs(costs@).push(
                    (entry.0@, entry.1 as int),
                ));
            }
            costs.push(entry);
        }
        at = at + 1;
    }
    costs
}

fn has_model(models: &Vec<ModelFootprint>, id: &str) -> (r: bool)
    ensures
        r == model_ids(views(models@)).contains(id@),
{
    let ghost ids = model_ids(views(models@));
    let mut at: usize = 0;
    while at < models.len()
        invariant
            at <= models@.len(),
            ids == model_ids(views(models@)),
            forall|i: int| 0 <= i < at ==> ids[i] != id@,
        decreases models@.len() - at,
    {
        proof {
            assert(ids[at as int] == models@[at as int]@.id);
        }
        if same(models[at].id.as_str(), id) {
            return true;
        }
        at = at + 1;
    }
    false
}

/// The ids in the table of costs that no model has.
fn unknown_of(input: &BuildInput) -> (ids: Vec<String>)
    ensures
        views(ids@) == input@.unknown_ids(),
{
    let mut ids: Vec<String> = Vec::new();
    let mut at: usize = 0;
    let ghost whole = input@;
    let ghost table = whole.policy.evict_costs.models;
    proof {
        assert(views(ids@) =~= whole.unknown_costs(0));
    }
    loop
        invariant
            whole == input@,
            table == whole.policy.evict_costs.models,
            at <= table.len(),
            views(ids@) == whole.unknown_costs(at as nat),
        decreases table.len() - at,
    {
        match cost_entry(&input.policy.evict_costs.models, at) {
            Some((id, _)) => {
                if !has_model(input.models, id.as_str()) {
                    let owned = id.clone();
                    proof {
                        lemma_views_push(ids@, owned);
                    }
                    ids.push(owned);
                }
                at = at + 1;
            },
            None => {
                return ids;
            },
        }
    }
}

// ---- guards -----------------------------------------------------------------------------------

/// The position of the first set that does not fit under the ceiling.
fn find_unsafe(sets: &Vec<EmittedSet>, ceiling: i128) -> (r: Option<usize>)
    ensures
        match r {
            Some(i) => i < sets@.len() && first_unsafe(views(sets@), ceiling as int) == Some(
                sets@[i as int]@,
            ),
            None => first_unsafe(views(sets@), ceiling as int) is None,
        },
{
    let ghost all = views(sets@);
    let mut at: usize = 0;
    proof {
        assert(all.skip(0) =~= all);
    }
    while at < sets.len()
        invariant
            at <= sets@.len(),
            all == views(sets@),
            first_unsafe(all.skip(at as int), ceiling as int) == first_unsafe(all, ceiling as int),
        decreases sets@.len() - at,
    {
        proof {
            assert(all.skip(at as int)[0] == sets@[at as int]@);
            assert(all.skip(at as int).skip(1) =~= all.skip(at + 1));
        }
        if sets[at].footprint > ceiling {
            return Some(at);
        }
        at = at + 1;
    }
    None
}

/// The position of the first set that expands to too many combinations.
fn find_over_cap(sets: &Vec<EmittedSet>) -> (r: Option<usize>)
    ensures
        match r {
            Some(i) => i < sets@.len() && first_over_cap(views(sets@)) == Some(sets@[i as int]@),
            None => first_over_cap(views(sets@)) is None,
        },
{
    let ghost all = views(sets@);
    let mut at: usize = 0;
    proof {
        assert(all.skip(0) =~= all);
    }
    while at < sets.len()
        invariant
            at <= sets@.len(),
            all == views(sets@),
            first_over_cap(all.skip(at as int)) == first_over_cap(all),
        decreases sets@.len() - at,
    {
        proof {
            assert(all.skip(at as int)[0] == sets@[at as int]@);
            assert(all.skip(at as int).skip(1) =~= all.skip(at + 1));
        }
        if sets[at].fanout > FANOUT_CAP {
            return Some(at);
        }
        at = at + 1;
    }
    None
}

/// The names of the sets over the cap, and what there is to say of each.
fn over_cap(sets: &Vec<EmittedSet>) -> (r: (Vec<String>, Vec<String>))
    ensures
        views(r.0@) == names_over_cap(views(sets@)),
        views(r.1@) == cap_warnings(views(sets@)),
{
    let ghost all = views(sets@);
    let mut names: Vec<String> = Vec::new();
    let mut warnings: Vec<String> = Vec::new();
    let mut at: usize = 0;
    proof {
        assert(views(names@) =~= names_over_cap(all.take(0)));
        assert(views(warnings@) =~= cap_warnings(all.take(0)));
    }
    while at < sets.len()
        invariant
            at <= sets@.len(),
            all == views(sets@),
            views(names@) == names_over_cap(all.take(at as int)),
            views(warnings@) == cap_warnings(all.take(at as int)),
        decreases sets@.len() - at,
    {
        let set = &sets[at];
        proof {
            assert(all.take(at + 1).drop_last() =~= all.take(at as int));
            assert(all.take(at + 1).last() == set@);
        }
        if set.fanout > FANOUT_CAP {
            let warning = "set `".to_owned().concat(set.name.as_str()).concat(
                "` expands to ",
            ).concat(count_text(set.fanout).as_str()).concat(
                " combinations (> the 1000 cap) — omitted (a safe under-declaration); split it via `[groups]` to cover those combinations",
            );
            let name = set.name.clone();
            proof {
                lemma_views_push(warnings@, warning);
                lemma_views_push(names@, name);
            }
            warnings.push(warning);
            names.push(name);
        }
        at = at + 1;
    }
    proof {
        assert(all.take(at as int) =~= all);
    }
    (names, warnings)
}

/// The sets with none of these names, in order.
fn drop_named(sets: Vec<EmittedSet>, names: &Vec<String>) -> (kept: Vec<EmittedSet>)
    ensures
        views(kept@) == without_names(views(sets@), views(names@)),
{
    let ghost all = views(sets@);
    let ghost listed_names = views(names@);
    let ghost pred = |s: SetView| !listed_names.contains(s.name);
    let mut rest = sets;
    let mut kept: Vec<EmittedSet> = Vec::new();
    let ghost mut done: int = 0;
    proof {
        reveal(Seq::filter);
        assert(views(kept@) =~= all.take(0).filter(pred));
        assert(all.skip(0) =~= all);
    }
    while rest.len() > 0
        invariant
            0 <= done <= all.len(),
            rest@.len() == all.len() - done,
            views(rest@) == all.skip(done),
            listed_names == views(names@),
            pred == (|s: SetView| !listed_names.contains(s.name)),
            views(kept@) == all.take(done).filter(pred),
        decreases rest@.len(),
    {
        let ghost left = rest@;
        let set = rest.remove(0);
        proof {
            reveal(Seq::filter);
            assert(views(left)[0] == all[done]);
            assert(set@ == all[done]);
            assert(all.take(done + 1).drop_last() =~= all.take(done));
            assert forall|i: int| 0 <= i < rest@.len() implies #[trigger] views(rest@)[i]
                == all.skip(done + 1)[i] by {
                assert(rest@[i] == left[i + 1]);
                assert(views(left)[i + 1] == all.skip(done)[i + 1]);
            }
            assert(views(rest@) =~= all.skip(done + 1));
            lemma_views_push(kept@, set);
        }
        if !has_name(names, set.name.as_str()) {
            kept.push(set);
        }
        proof {
            done = done + 1;
        }
    }
    proof {
        assert(all.take(done) =~= all);
    }
    kept
}

/// The sets over the host ceiling, with what they need.
fn over_host_of(sets: &Vec<EmittedSet>, ceiling: i128) -> (r: Vec<(String, i128)>)
    ensures
        named_sums(r@) == over_host(views(sets@), ceiling as int),
{
    let ghost all = views(sets@);
    let mut r: Vec<(String, i128)> = Vec::new();
    let mut at: usize = 0;
    proof {
        assert(named_sums(r@) =~= over_host(all.take(0), ceiling as int));
    }
    while at < sets.len()
        invariant
            at <= sets@.len(),
            all == views(sets@),
            named_sums(r@) == over_host(all.take(at as int), ceiling as int),
        decreases sets@.len() - at,
    {
        let set = &sets[at];
        proof {
            assert(all.take(at + 1).drop_last() =~= all.take(at as int));
            assert(all.take(at + 1).last() == set@);
        }
        if let Some(needed) = set.host_footprint {
            if needed > ceiling {
                let entry = (set.name.clone(), needed);
                proof {
                    assert(named_sums(r@.push(entry)) =~= named_sums(r@).push(
                        (entry.0@, entry.1 as int),
                    ));
                }
                r.push(entry);
            }
        }
        at = at + 1;
    }
    proof {
        assert(all.take(at as int) =~= all);
    }
    r
}

fn host_advice(over: &Vec<(String, i128)>, sets: usize, ceiling: i128) -> (text: String)
    ensures
        text@ == host_advice_text(named_sums(over@), sets as nat, ceiling as int),
{
    let ghost all = named_sums(over@);
    let mut needs: Vec<String> = Vec::new();
    let mut at: usize = 0;
    while at < over.len()
        invariant
            at <= over@.len(),
            needs@.len() == at,
            all == named_sums(over@),
            forall|i: int| 0 <= i < at ==> #[trigger] needs@[i]@ == host_need_text(all[i]),
        decreases over@.len() - at,
    {
        let need = over[at].0.clone().concat(" needs ").concat(gb1_text(over[at].1).as_str()).concat(
            " GB",
        );
        needs.push(need);
        at = at + 1;
    }
    proof {
        assert(views(needs@) =~= Seq::new(all.len(), |i: int| host_need_text(all[i])));
    }
    count_text(over.len()).concat(" of the ").concat(count_text(sets).as_str()).concat(
        " declared sets cost more HOST RAM than the ",
    ).concat(gb1_text(ceiling).as_str()).concat(" GB ceiling: ").concat(
        name_list(&needs).as_str(),
    ).concat(
        ". The GPU fit is unaffected; the risk is the host OOM killer picking a llama-server, which presents as an unexplained upstream death. Bound it with `-cram <MiB>` on the llama-server entries (its default is 8192 MiB per process, taken whether or not the flag appears), raise `host_budget`, or set `on_host_overflow = \"exclude\"` to leave those sets out",
    )
}

fn count_named(sets: &Vec<EmittedSet>, prefix: &str) -> (count: usize)
    ensures
        count == count_prefixed(views(sets@), prefix@),
{
    let ghost all = views(sets@);
    let mut count: usize = 0;
    let mut at: usize = 0;
    while at < sets.len()
        invariant
            at <= sets@.len(),
            count <= at,
            all == views(sets@),
            count == count_prefixed(all.take(at as int), prefix@),
        decreases sets@.len() - at,
    {
        proof {
            assert(all.take(at + 1).drop_last() =~= all.take(at as int));
            assert(all.take(at + 1).last() == sets@[at as int]@);
        }
        if starts_with(sets[at].name.as_str(), prefix) {
            count = count + 1;
        }
        at = at + 1;
    }
    proof {
        assert(all.take(at as int) =~= all);
    }
    count
}

fn names_of(over: &Vec<(String, i128)>) -> (r: Vec<String>)
    ensures
        views(r@) == Seq::new(named_sums(over@).len(), |i: int| named_sums(over@)[i].0),
{
    let mut r: Vec<String> = Vec::new();
    let mut at: usize = 0;
    while at < over.len()
        invariant
            at <= over@.len(),
            r@.len() == at,
            forall|i: int| 0 <= i < at ==> #[trigger] r@[i]@ == over@[i].0@,
        decreases over@.len() - at,
    {
        r.push(over[at].0.clone());
        at = at + 1;
    }
    proof {
        assert(views(r@) =~= Seq::new(named_sums(over@).len(), |i: int| named_sums(over@)[i].0));
    }
    r
}

proof fn lemma_views_concat<T: View>(a: Seq<T>, b: Seq<T>)
    ensures
        views(a + b) == views(a) + views(b),
{
    assert(views(a + b) =~= views(a) + views(b));
}

fn add_sets(sets: &mut Vec<EmittedSet>, more: Vec<EmittedSet>)
    ensures
        views(final(sets)@) == views(old(sets)@) + views(more@),
{
    let mut more = more;
    proof {
        lemma_views_concat(sets@, more@);
    }
    sets.append(&mut more);
}

fn add_warnings(warnings: &mut Vec<String>, more: Vec<String>)
    ensures
        views(final(warnings)@) == views(old(warnings)@) + views(more@),
{
    let mut more = more;
    proof {
        lemma_views_concat(warnings@, more@);
    }
    warnings.append(&mut more);
}

fn add_warning(warnings: &mut Vec<String>, warning: String)
    ensures
        views(final(warnings)@) == views(old(warnings)@) + seq![warning@],
{
    proof {
        lemma_views_push(warnings@, warning);
        assert(views(warnings@).push(warning@) =~= views(warnings@) + seq![warning@]);
    }
    warnings.push(warning);
}

// ---- the build ----------------------------------------------------------------------------------

/// Every set that the roster calls for, what there is to say of it, and what cannot run.
struct Draft {
    sets: Vec<EmittedSet>,
    warnings: Vec<String>,
    excluded: Vec<String>,
}

fn draft(
    input: &BuildInput,
    roster: &Roster,
    packs: &Vec<Vec<usize>>,
    complete: bool,
) -> (r: Draft)
    requires
        roster.is_of(input@),
        views(packs@) == input@.packs(),
        complete == input@.found().complete,
        forall|i: int|
            0 <= i < packs@.len() ==> ascending((#[trigger] packs@[i])@, roster.light@.len() as int),
    ensures
        views(r.sets@) == input@.all_sets(),
        views(r.warnings@) == input@.roster_warnings(),
        views(r.excluded@) == input@.excluded(),
{
    let ghost whole = input@;
    let heavies = heavy_sets(roster, Ghost(whole));
    let mut sets = aux_set(roster, Ghost(whole));
    add_sets(&mut sets, helper_sets(roster, Ghost(whole)));
    add_sets(&mut sets, image_sets(roster, Ghost(whole)));
    add_sets(&mut sets, pack_sets(roster, packs, Ghost(whole)));
    add_sets(&mut sets, mixed_sets(roster, Ghost(whole)));
    add_sets(&mut sets, heavies.sets);
    let mut warnings: Vec<String> = Vec::new();
    proof {
        assert(places(roster.light@).len() == whole.light().len());
        assert(views(warnings@) =~= Seq::<Seq<char>>::empty());
    }
    if !complete {
        add_warning(
            &mut warnings,
            "the light-unit roster (".to_owned().concat(
                count_text(roster.light.len()).as_str(),
            ).concat(
                " units) produces too many co-residency combinations to enumerate exhaustively — emitted ",
            ).concat(count_text(packs.len()).as_str()).concat(
                " maximal packs and stopped (a safe under-declaration; a smaller matrix never OOMs). Reduce it with `strategy = \"family\"` + `[groups]`, or set `on_overflow = \"error\"` to refuse.",
            ),
        );
    }
    let ghost first = views(warnings@);
    add_warnings(&mut warnings, heavies.warnings);
    let ghost second = views(warnings@);
    let unknown = unknown_of(input);
    if unknown.len() > 0 {
        add_warning(
            &mut warnings,
            "`[evict_costs.models]` names ".to_owned().concat(
                count_text(unknown.len()).as_str(),
            ).concat(" model id(s) the matrix has no cost for: ").concat(
                name_list(&unknown).as_str(),
            ).concat(". Check the spelling, or whether the model is unmeasured or excluded"),
        );
    }
    proof {
        assert(views(warnings@) =~= whole.roster_warnings());
    }
    Draft { sets, warnings, excluded: heavies.excluded }
}

/// The cap that leaves no room for a model beside the ride-alongs.
fn no_room_of(roster: &Roster, Ghost(input): Ghost<InputView>) -> (r: Option<BuildError>)
    requires
        roster.is_of(input),
    ensures
        match r {
            Some(error) => input.no_room() == Some(error@),
            None => input.no_room() is None,
        },
{
    proof {
        assert(views(roster.aux@).len() == roster.aux@.len());
    }
    if let (Some(room), Some(most)) = (roster.model_room(Ghost(input)), roster.max_models) {
        if room < 1 {
            return Some(
                BuildError::NoRoom {
                    cap: "max_models_per_set".to_owned(),
                    most,
                    reserved: roster.aux.len(),
                },
            );
        }
    }
    if let (Some(room), Some(most)) = (roster.cache_room(Ghost(input)), roster.max_caches) {
        if room < 1 {
            return Some(
                BuildError::NoRoom {
                    cap: "max_cache_holders_per_set".to_owned(),
                    most,
                    reserved: roster.aux_caches,
                },
            );
        }
    }
    None
}

/// Build the plan.
///
/// Refuses where a set does not fit under the ceiling, and, where the policy says so, when
/// there are too many combinations or too little host memory.
pub fn build(input: &BuildInput) -> (r: Result<MatrixPlan, BuildError>)
    requires
        few_enough(input.models@.len() as int),
    ensures
        match r {
            Ok(plan) => input@.refusal() is None && plan@ == input@.plan(),
            Err(error) => input@.refusal() == Some(error@),
        },
{
    let ghost whole = input@;
    let roster = sort_out(input);
    if let Some(error) = no_room_of(&roster, Ghost(whole)) {
        return Err(error);
    }
    let (packs, complete) = roster.packs(Ghost(whole));
    proof {
        assert(places(roster.light@).len() == whole.light().len());
    }
    if !complete && input.policy.on_overflow == OnOverflow::Error {
        return Err(BuildError::TooManyCombinations { units: roster.light.len() });
    }
    let drafted = draft(input, &roster, &packs, complete);
    let ceiling: i128 = roster.ceiling;
    if let Some(i) = find_unsafe(&drafted.sets, ceiling) {
        let set = &drafted.sets[i];
        return Err(
            BuildError::UnsafeSet {
                name: set.name.clone(),
                footprint: set.footprint,
                ceiling,
            },
        );
    }
    if input.policy.on_overflow == OnOverflow::Error {
        if let Some(i) = find_over_cap(&drafted.sets) {
            let set = &drafted.sets[i];
            return Err(BuildError::OverCap { name: set.name.clone(), fanout: set.fanout });
        }
    }
    let evict_costs = costs_of(input, &roster.images, &drafted.excluded);
    let mut warnings = drafted.warnings;
    let (names, cap_notes) = over_cap(&drafted.sets);
    add_warnings(&mut warnings, cap_notes);
    let mut sets = drop_named(drafted.sets, &names);
    let ghost kept = views(sets@);
    let host_ceiling: Option<i128> = match input.host {
        Some(host) => Some(host.total as i128 - input.policy.host_margin as i128),
        None => None,
    };
    let mut host_over: Vec<(String, i128)> = Vec::new();
    proof {
        assert(named_sums(host_over@) =~= Seq::<(Seq<char>, int)>::empty());
    }
    if let Some(ceiling) = host_ceiling {
        host_over = over_host_of(&sets, ceiling);
        if host_over.len() > 0 {
            let advice = host_advice(&host_over, sets.len(), ceiling);
            proof {
                assert(kept.len() == sets@.len());
            }
            match input.policy.on_host_overflow {
                OnHostOverflow::Error => {
                    return Err(BuildError::HostOverflow { advice });
                },
                OnHostOverflow::Exclude => {
                    sets = drop_named(sets, &names_of(&host_over));
                    add_warning(&mut warnings, advice.concat(" (excluded)"));
                },
                OnHostOverflow::Warn => {
                    add_warning(&mut warnings, advice);
                },
            }
        }
    }
    let n_packs: usize = count_named(&sets, "pack");
    let n_heavies: usize = count_named(&sets, "heavy_");
    let plan = MatrixPlan {
        vars: Vec::new(),
        evict_costs,
        sets,
        warnings,
        excluded: drafted.excluded,
        unconfirmed: Vec::new(),
        baseline: input.baseline,
        budget: input.budget,
        margin: input.policy.margin,
        ceiling,
        aux_cost: roster.aux_cost,
        n_packs,
        n_heavies,
        host_ceiling,
        host_skipped: None,
        host_cram_gb: None,
        host_over,
    };
    proof {
        assert(plan@.vars =~= whole.plan().vars);
        assert(plan@.warnings =~= whole.plan().warnings);
        assert(plan@.unconfirmed =~= whole.plan().unconfirmed);
        assert(plan@ =~= whole.plan());
    }
    Ok(plan)
}

impl BuildError {
    pub fn message(&self) -> (text: String)
        ensures
            text@ == build_error_text(self@),
    {
        match self {
            BuildError::TooManyCombinations { units } => "the light-unit roster (".to_owned().concat(
                count_text(*units).as_str(),
            ).concat(
                " units) produces too many co-residency combinations to enumerate; reduce it with `strategy = \"family\"` + `[groups]` (or allow a truncated matrix with `on_overflow = \"group\"`)",
            ),
            BuildError::UnsafeSet {
                name,
                footprint,
                ceiling,
            } => "internal error: emitted set `".to_owned().concat(name.as_str()).concat(
                "` is ",
            ).concat(gb2_text(*footprint).as_str()).concat(" GB > ceiling ").concat(
                gb2_text(*ceiling).as_str(),
            ).concat(" GB — refusing to emit an unsafe matrix"),
            BuildError::OverCap { name, fanout } => "set `".to_owned().concat(
                name.as_str(),
            ).concat("` expands to ").concat(count_text(*fanout).as_str()).concat(
                " combinations (> the 1000 cap); reduce it via `[groups]`, or set `on_overflow = \"group\"` to omit it",
            ),
            BuildError::HostOverflow { advice } => advice.clone(),
            BuildError::NoRoom { cap, most, reserved } => "`".to_owned().concat(
                cap.as_str(),
            ).concat(" = ").concat(number_text(*most as u128).as_str()).concat(
                "` leaves no room for a model beside the ",
            ).concat(count_text(*reserved).as_str()).concat(
                " ride-along(s) that every set reserves - raise it, or name fewer in `[roles]`",
            ),
            BuildError::NoBudget =>
            "no budget set - pass --budget <GB>, set `budget` in llama-matrix.toml, or run `measure` to detect the pool".to_owned(),
            BuildError::Unconfirmed { id } => "`".to_owned().concat(id.as_str()).concat(
                "`'s footprint was recorded without confirming that the model finished allocating, so it may be under-measured and a matrix built from it may not fit; re-run `llama-matrix measure`, or set `on_unconfirmed` to \"warn\" or \"exclude\"",
            ),
        }
    }
}

} // verus!
