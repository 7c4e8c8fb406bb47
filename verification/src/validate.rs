//! Testing the central assumption: that footprints measured alone add up.
//!
//! One declared combination is loaded and what it holds is compared with what the plan
//! predicted. The tightest one is the binding claim, as everything smaller is implied by it.

use vstd::prelude::*;
use vstd::string::*;

use crate::cache::{AdditivityCheck, AdditivityView, BoxMeta, BoxView};
use crate::model::{ModelRecord, ModelType, RecordView};
use crate::plan::{EmittedSet, MatrixPlan, SetView};
use crate::resolve::{member_ids, set_member_ids};
use crate::sampling::{find_running, hundredths, round2, sort_names, sorted_names};
use crate::serving::{running_views, Running, RunningView};
use crate::tables::lookup;
use crate::text::{has_name, lemma_views_push, same, views};
use crate::units::copied_names;

verus! {

// ---- which combination ----------------------------------------------------------------------

/// The type of the model with this id; the last one counts.
pub open spec fn type_with_id(records: Seq<RecordView>, id: Seq<char>) -> Option<ModelType>
    decreases records.len(),
{
    if records.len() == 0 {
        None
    } else if records.last().id == id {
        Some(records.last().model_type)
    } else {
        type_with_id(records.drop_last(), id)
    }
}

/// A configured model that llama-swap starts.
pub open spec fn loadable(records: Seq<RecordView>, id: Seq<char>) -> bool {
    match type_with_id(records, id) {
        Some(model_type) => model_type != ModelType::TtsProxy,
        None => false,
    }
}

/// Those of `ids` that can be loaded, in order.
pub open spec fn loadable_among(records: Seq<RecordView>, ids: Seq<Seq<char>>) -> Seq<Seq<char>>
    decreases ids.len(),
{
    if ids.len() == 0 {
        Seq::empty()
    } else {
        let before = loadable_among(records, ids.drop_last());
        if loadable(records, ids.last()) {
            before.push(ids.last())
        } else {
            before
        }
    }
}

/// What loading a set takes.
pub open spec fn combination(sets: Seq<SetView>, records: Seq<RecordView>, index: int) -> Seq<
    Seq<char>,
> {
    loadable_among(records, member_ids(sets, sets[index].expr))
}

/// A set worth testing: the one that was asked for, if any, and of more than one model, as
/// one alone says nothing about adding up.
pub open spec fn worth_testing(
    sets: Seq<SetView>,
    records: Seq<RecordView>,
    only: Option<Seq<char>>,
    index: int,
) -> bool {
    (only is Some ==> sets[index].name == only->0) && combination(sets, records, index).len() > 1
}

/// The tightest set below `bound` that is worth testing; of equals the last.
pub open spec fn tightest(
    sets: Seq<SetView>,
    records: Seq<RecordView>,
    only: Option<Seq<char>>,
    bound: nat,
) -> Option<int>
    decreases bound,
{
    if bound == 0 {
        None
    } else {
        let before = tightest(sets, records, only, (bound - 1) as nat);
        if !worth_testing(sets, records, only, bound - 1) {
            before
        } else {
            match before {
                Some(best) => if sets[bound - 1].footprint >= sets[best].footprint {
                    Some(bound - 1)
                } else {
                    before
                },
                None => Some(bound - 1),
            }
        }
    }
}

/// Why nothing can be tested.
#[derive(Debug)]
pub enum ValidateError {
    /// The plan declares no set of this name.
    NoSuchSet { name: String },
}

impl ValidateError {
    pub fn message(&self) -> (text: String)
        ensures
            text@ == "this config declares no set named `"@ + self->NoSuchSet_name@
                + "`; `llama-matrix build` prints the names it emits"@,
    {
        match self {
            ValidateError::NoSuchSet { name } =>
            "this config declares no set named `".to_owned().concat(name.as_str()).concat(
                "`; `llama-matrix build` prints the names it emits",
            ),
        }
    }
}

/// Some set has this name.
pub open spec fn declares(sets: Seq<SetView>, name: Seq<char>) -> bool {
    exists|i: int| 0 <= i < sets.len() && (#[trigger] sets[i]).name == name
}

fn declares_set(sets: &Vec<EmittedSet>, name: &str) -> (r: bool)
    ensures
        r == declares(views(sets@), name@),
{
    let ghost all = views(sets@);
    let mut at: usize = 0;
    while at < sets.len()
        invariant
            at <= sets@.len(),
            all == views(sets@),
            forall|i: int| 0 <= i < at ==> (#[trigger] all[i]).name != name@,
        decreases sets@.len() - at,
    {
        proof {
            assert(all[at as int] == sets@[at as int]@);
        }
        if same(sets[at].name.as_str(), name) {
            return true;
        }
        at = at + 1;
    }
    false
}

fn is_loadable(records: &Vec<ModelRecord>, id: &str) -> (r: bool)
    ensures
        r == loadable(views(records@), id@),
{
    let ghost all = views(records@);
    let mut at: usize = records.len();
    proof {
        assert(all.take(at as int) =~= all);
    }
    while at > 0
        invariant
            at <= records@.len(),
            all == views(records@),
            type_with_id(all.take(at as int), id@) == type_with_id(all, id@),
        decreases at,
    {
        at = at - 1;
        proof {
            assert(all.take(at + 1).drop_last() =~= all.take(at as int));
            assert(all.take(at + 1).last() == records@[at as int]@);
        }
        if same(records[at].id.as_str(), id) {
            return records[at].model_type != ModelType::TtsProxy;
        }
    }
    false
}

fn combination_of(sets: &Vec<EmittedSet>, records: &Vec<ModelRecord>, index: usize) -> (r: Vec<
    String,
>)
    requires
        index < sets@.len(),
    ensures
        views(r@) == combination(views(sets@), views(records@), index as int),
{
    let ids = set_member_ids(sets, &sets[index]);
    let ghost all = views(ids@);
    let ghost known = views(records@);
    let mut r: Vec<String> = Vec::new();
    let mut at: usize = 0;
    proof {
        assert(views(r@) =~= loadable_among(known, all.take(0)));
    }
    while at < ids.len()
        invariant
            at <= ids@.len(),
            all == views(ids@),
            known == views(records@),
            views(r@) == loadable_among(known, all.take(at as int)),
        decreases ids@.len() - at,
    {
        proof {
            assert(all.take(at + 1).drop_last() =~= all.take(at as int));
            assert(all.take(at + 1).last() == ids@[at as int]@);
        }
        if is_loadable(records, ids[at].as_str()) {
            let id = ids[at].clone();
            proof {
                lemma_views_push(r@, id);
            }
            r.push(id);
        }
        at = at + 1;
    }
    proof {
        assert(all.take(at as int) =~= all);
        assert(views(sets@)[index as int] == sets@[index as int]@);
    }
    r
}

/// What a name that may be asked for stands for.
pub open spec fn asked(only: Option<&str>) -> Option<Seq<char>> {
    match only {
        Some(name) => Some(name@),
        None => None,
    }
}

/// Choose the set to test: the tightest one of more than one loadable model, or the one asked
/// for. Gives its position and the ids to load, in order, or nothing where there is no such
/// set.
pub fn choose_set(plan: &MatrixPlan, records: &Vec<ModelRecord>, only: Option<&str>) -> (r: Result<
    Option<(usize, Vec<String>)>,
    ValidateError,
>)
    ensures
        ({
            let sets = plan@.sets;
            let known = views(records@);
            match r {
                Err(ValidateError::NoSuchSet { name }) => only is Some && name@ == only->0@
                    && !declares(sets, only->0@),
                Ok(found) => {
                    &&& only is Some ==> declares(sets, only->0@)
                    &&& match found {
                        Some((index, combo)) => {
                            &&& tightest(sets, known, asked(only), sets.len()) == Some(
                                index as int,
                            )
                            &&& index < sets.len()
                            &&& views(combo@) == combination(sets, known, index as int)
                        },
                        None => tightest(sets, known, asked(only), sets.len()) is None,
                    }
                },
            }
        }),
{
    if let Some(name) = only {
        if !declares_set(&plan.sets, name) {
            return Err(ValidateError::NoSuchSet { name: name.to_owned() });
        }
    }
    let ghost sets = plan@.sets;
    let ghost known = views(records@);
    let mut best: Option<(usize, Vec<String>)> = None;
    let mut at: usize = 0;
    while at < plan.sets.len()
        invariant
            at <= plan.sets@.len(),
            sets == plan@.sets,
            known == views(records@),
            match best {
                Some((index, combo)) => {
                    &&& tightest(sets, known, asked(only), at as nat) == Some(index as int)
                    &&& index < at
                    &&& views(combo@) == combination(sets, known, index as int)
                },
                None => tightest(sets, known, asked(only), at as nat) is None,
            },
        decreases plan.sets@.len() - at,
    {
        let set = &plan.sets[at];
        proof {
            assert(sets[at as int] == set@);
        }
        let wanted = match only {
            Some(name) => same(set.name.as_str(), name),
            None => true,
        };
        let combo = combination_of(&plan.sets, records, at);
        if wanted && combo.len() > 1 {
            let tighter = match &best {
                Some((index, _)) => {
                    proof {
                        assert(sets[*index as int] == plan.sets@[*index as int]@);
                    }
                    set.footprint >= plan.sets[*index].footprint
                },
                None => true,
            };
            if tighter {
                best = Some((at, combo));
            }
        }
        at = at + 1;
    }
    Ok(best)
}

/// The chosen set is the tightest: no other set worth testing holds more.
pub proof fn law_the_tightest_set_is_chosen(
    sets: Seq<SetView>,
    records: Seq<RecordView>,
    only: Option<Seq<char>>,
    bound: nat,
    other: int,
)
    requires
        0 <= other < bound <= sets.len(),
        worth_testing(sets, records, only, other),
    ensures
        tightest(sets, records, only, bound) is Some,
        0 <= tightest(sets, records, only, bound)->0 < bound,
        worth_testing(sets, records, only, tightest(sets, records, only, bound)->0),
        sets[other].footprint <= sets[tightest(sets, records, only, bound)->0].footprint,
    decreases bound,
{
    if other < bound - 1 {
        law_the_tightest_set_is_chosen(sets, records, only, (bound - 1) as nat, other);
    } else {
        lemma_tightest_in_range(sets, records, only, (bound - 1) as nat);
    }
}

proof fn lemma_tightest_in_range(
    sets: Seq<SetView>,
    records: Seq<RecordView>,
    only: Option<Seq<char>>,
    bound: nat,
)
    ensures
        tightest(sets, records, only, bound) is Some ==> 0 <= tightest(
            sets,
            records,
            only,
            bound,
        )->0 < bound && worth_testing(
            sets,
            records,
            only,
            tightest(sets, records, only, bound)->0,
        ),
    decreases bound,
{
    if bound > 0 {
        lemma_tightest_in_range(sets, records, only, (bound - 1) as nat);
    }
}

// ---- what it found ----------------------------------------------------------------------------

/// What a co-residency check found.
#[derive(Debug)]
pub struct Validation {
    /// The set that was tested.
    pub set: String,
    /// The ids loaded, in order.
    pub combo: Vec<String>,
    /// What the plan says it holds.
    pub predicted: i64,
    /// What it held.
    pub measured: i64,
    /// How much more than predicted. Positive is the dangerous sign: every declared
    /// combination is then closer to the ceiling than the plan says.
    pub error: i64,
    pub ceiling: i128,
    pub margin: i64,
    /// Members that were not resident and finished when the reading was taken.
    pub absent: Vec<String>,
    /// Models resident that the combination does not name.
    pub intruders: Vec<String>,
}

impl Validation {
    /// Is this a reading of what it claims to be a reading of?
    pub fn is_clean(&self) -> (r: bool)
        ensures
            r == (self.absent@.len() == 0 && self.intruders@.len() == 0),
    {
        self.absent.len() == 0 && self.intruders.len() == 0
    }
}

/// The model is reported ready.
pub open spec fn is_ready(entries: Seq<(Seq<char>, RunningView)>, id: Seq<char>) -> bool {
    match lookup(entries, id) {
        Some(entry) => entry.state == "ready"@,
        None => false,
    }
}

/// Those of `ids` that are not reported ready.
pub open spec fn not_ready(entries: Seq<(Seq<char>, RunningView)>, ids: Seq<Seq<char>>) -> Seq<
    Seq<char>,
>
    decreases ids.len(),
{
    if ids.len() == 0 {
        Seq::empty()
    } else {
        let before = not_ready(entries, ids.drop_last());
        if is_ready(entries, ids.last()) {
            before
        } else {
            before.push(ids.last())
        }
    }
}

/// `list` with those of `more` that it does not hold yet added.
pub open spec fn with_new(list: Seq<Seq<char>>, more: Seq<Seq<char>>) -> Seq<Seq<char>>
    decreases more.len(),
{
    if more.len() == 0 {
        list
    } else {
        let before = with_new(list, more.drop_last());
        if before.contains(more.last()) {
            before
        } else {
            before.push(more.last())
        }
    }
}

/// The running models that are not in the combination, in the order of the report.
pub open spec fn outsiders(entries: Seq<(Seq<char>, RunningView)>, combo: Seq<Seq<char>>) -> Seq<
    Seq<char>,
>
    decreases entries.len(),
{
    if entries.len() == 0 {
        Seq::empty()
    } else {
        let before = outsiders(entries.drop_last(), combo);
        if combo.contains(entries.last().0) {
            before
        } else {
            before.push(entries.last().0)
        }
    }
}

fn not_ready_of(entries: &Vec<(String, Running)>, ids: &Vec<String>) -> (r: Vec<String>)
    ensures
        views(r@) == not_ready(running_views(entries@), views(ids@)),
{
    let ghost all = views(ids@);
    let ghost known = running_views(entries@);
    let mut r: Vec<String> = Vec::new();
    let mut at: usize = 0;
    proof {
        assert(views(r@) =~= not_ready(known, all.take(0)));
    }
    while at < ids.len()
        invariant
            at <= ids@.len(),
            all == views(ids@),
            known == running_views(entries@),
            views(r@) == not_ready(known, all.take(at as int)),
        decreases ids@.len() - at,
    {
        proof {
            assert(all.take(at + 1).drop_last() =~= all.take(at as int));
            assert(all.take(at + 1).last() == ids@[at as int]@);
        }
        let ready = match find_running(entries, ids[at].as_str()) {
            Some(entry) => same(entry.state.as_str(), "ready"),
            None => false,
        };
        if !ready {
            let id = ids[at].clone();
            proof {
                lemma_views_push(r@, id);
            }
            r.push(id);
        }
        at = at + 1;
    }
    proof {
        assert(all.take(at as int) =~= all);
    }
    r
}

fn add_new(list: &mut Vec<String>, more: &Vec<String>)
    ensures
        views(final(list)@) == with_new(views(old(list)@), views(more@)),
{
    let ghost all = views(more@);
    let ghost first = views(list@);
    let mut at: usize = 0;
    proof {
        assert(all.take(0) =~= Seq::<Seq<char>>::empty());
    }
    while at < more.len()
        invariant
            at <= more@.len(),
            all == views(more@),
            first == views(old(list)@),
            views(list@) == with_new(first, all.take(at as int)),
        decreases more@.len() - at,
    {
        proof {
            assert(all.take(at + 1).drop_last() =~= all.take(at as int));
            assert(all.take(at + 1).last() == more@[at as int]@);
        }
        if !has_name(list, more[at].as_str()) {
            let id = more[at].clone();
            proof {
                lemma_views_push(list@, id);
            }
            list.push(id);
        }
        at = at + 1;
    }
    proof {
        assert(all.take(at as int) =~= all);
    }
}

fn outsiders_of(entries: &Vec<(String, Running)>, combo: &Vec<String>) -> (r: Vec<String>)
    ensures
        views(r@) == outsiders(running_views(entries@), views(combo@)),
{
    let ghost all = running_views(entries@);
    let mut r: Vec<String> = Vec::new();
    let mut at: usize = 0;
    proof {
        assert(views(r@) =~= outsiders(all.take(0), views(combo@)));
    }
    while at < entries.len()
        invariant
            at <= entries@.len(),
            all == running_views(entries@),
            views(r@) == outsiders(all.take(at as int), views(combo@)),
        decreases entries@.len() - at,
    {
        proof {
            assert(all.take(at + 1).drop_last() =~= all.take(at as int));
            assert(all.take(at + 1).last() == all[at as int]);
        }
        if !has_name(combo, entries[at].0.as_str()) {
            let id = entries[at].0.clone();
            proof {
                lemma_views_push(r@, id);
            }
            r.push(id);
        }
        at = at + 1;
    }
    proof {
        assert(all.take(at as int) =~= all);
    }
    r
}

/// Judge a co-residency reading: `incomplete` are the members whose allocation was not
/// confirmed, `entries` what was running when `used` was read.
pub fn assess(
    plan: &MatrixPlan,
    index: usize,
    combo: Vec<String>,
    incomplete: &Vec<String>,
    entries: &Vec<(String, Running)>,
    used: i64,
) -> (r: Validation)
    requires
        index < plan.sets@.len(),
    ensures
        r.set@ == plan@.sets[index as int].name,
        views(r.combo@) == views(combo@),
        r.predicted == hundredths(plan@.sets[index as int].footprint),
        r.measured == hundredths(used as int),
        r.error == hundredths(r.measured - r.predicted),
        r.ceiling == plan@.ceiling,
        r.margin == plan@.margin,
        views(r.absent@) == with_new(
            not_ready(running_views(entries@), views(combo@)),
            views(incomplete@),
        ),
        views(r.intruders@) == sorted_names(outsiders(running_views(entries@), views(combo@))),
{
    let set = &plan.sets[index];
    proof {
        assert(plan@.sets[index as int] == set@);
    }
    let mut absent = not_ready_of(entries, &combo);
    add_new(&mut absent, incomplete);
    let intruders = sort_names(&outsiders_of(entries, &combo));
    let measured: i64 = round2(used as i128);
    let predicted: i64 = round2(set.footprint);
    Validation {
        set: set.name.clone(),
        combo,
        predicted,
        measured,
        error: round2(measured as i128 - predicted as i128),
        ceiling: plan.ceiling,
        margin: plan.margin,
        absent,
        intruders,
    }
}

/// The box-level values with a check recorded, if it is clean. A missing member would read as
/// headroom and an extra one as a false alarm, so neither is recorded.
pub fn record_check(meta: BoxMeta, validation: &Validation) -> (r: BoxMeta)
    ensures
        r@ == (if validation.absent@.len() == 0 && validation.intruders@.len() == 0 {
            BoxView {
                additivity_check: Some(
                    AdditivityView {
                        combo: views(validation.combo@),
                        predicted: validation.predicted,
                        measured: validation.measured,
                        error: validation.error,
                    },
                ),
                ..meta@
            }
        } else {
            meta@
        }),
{
    let mut r = meta;
    if validation.is_clean() {
        r.additivity_check = Some(
            AdditivityCheck {
                combo: copied_names(&validation.combo),
                predicted: validation.predicted,
                measured: validation.measured,
                error: validation.error,
            },
        );
    }
    r
}

// ---- what is tested and what counts -------------------------------------------------------

/// A set is tested for the models that it loads: those of its members that are configured and
/// are no proxies, and no others.
pub proof fn law_what_is_loaded_can_be_loaded(
    records: Seq<RecordView>,
    ids: Seq<Seq<char>>,
    id: Seq<char>,
)
    ensures
        loadable_among(records, ids).contains(id) <==> ids.contains(id) && loadable(records, id),
    decreases ids.len(),
{
    if ids.len() > 0 {
        let fewer = ids.drop_last();
        law_what_is_loaded_can_be_loaded(records, fewer, id);
        let before = loadable_among(records, fewer);
        let after = loadable_among(records, ids);
        if before.contains(id) {
            let k = choose|k: int| 0 <= k < before.len() && before[k] == id;
            assert(after[k] == id);
            let i = choose|i: int| 0 <= i < fewer.len() && fewer[i] == id;
            assert(ids[i] == id);
        }
        if ids.last() == id && loadable(records, id) {
            assert(after[before.len() as int] == id);
        }
        if after.contains(id) && !before.contains(id) {
            let k = choose|k: int| 0 <= k < after.len() && after[k] == id;
            if k < before.len() {
                assert(before[k] == id);
            }
            assert(ids[ids.len() - 1] == id);
        }
        if ids.contains(id) && ids.last() != id {
            let i = choose|i: int| 0 <= i < ids.len() && ids[i] == id;
            assert(fewer[i] == id);
        }
    }
}

/// A configured model can be loaded unless it is a proxy, and one that is not configured cannot.
pub proof fn law_proxies_cannot_be_loaded(records: Seq<RecordView>, i: int, id: Seq<char>)
    requires
        forall|a: int, b: int|
            0 <= a < b < records.len() ==> (#[trigger] records[a]).id != (#[trigger] records[b]).id,
    ensures
        0 <= i < records.len() ==> (loadable(records, records[i].id) <==> records[i].model_type
            != ModelType::TtsProxy),
        (forall|a: int| 0 <= a < records.len() ==> (#[trigger] records[a]).id != id) ==> !loadable(
            records,
            id,
        ),
    decreases records.len(),
{
    if records.len() > 0 {
        let fewer = records.drop_last();
        let last = records.len() - 1;
        assert forall|a: int, b: int| 0 <= a < b < fewer.len() implies (#[trigger] fewer[a]).id != (
        #[trigger] fewer[b]).id by {
            assert(records[a].id != records[b].id);
        }
        law_proxies_cannot_be_loaded(fewer, i, id);
        if 0 <= i < last {
            assert(fewer[i] == records[i]);
            assert(records[i].id != records[last].id);
        }
        if forall|a: int| 0 <= a < records.len() ==> (#[trigger] records[a]).id != id {
            assert(records[last].id != id);
            assert forall|a: int| 0 <= a < fewer.len() implies (#[trigger] fewer[a]).id != id by {
                assert(records[a].id != id);
            }
        }
    }
}

/// A set is worth testing exactly if it is the one asked for, where one is, and loads at least
/// two models.
pub proof fn law_one_model_alone_tests_nothing(
    sets: Seq<SetView>,
    records: Seq<RecordView>,
    only: Option<Seq<char>>,
    index: int,
)
    ensures
        worth_testing(sets, records, only, index) <==> (only is None || only->0
            == sets[index].name) && loadable_among(
            records,
            member_ids(sets, sets[index].expr),
        ).len() >= 2,
{
}

/// A member counts as absent exactly if it is not reported ready.
pub proof fn law_only_ready_members_are_present(
    entries: Seq<(Seq<char>, RunningView)>,
    ids: Seq<Seq<char>>,
    id: Seq<char>,
)
    ensures
        not_ready(entries, ids).contains(id) <==> ids.contains(id) && !(lookup(
            entries,
            id,
        ) is Some && lookup(entries, id)->0.state == "ready"@),
    decreases ids.len(),
{
    if ids.len() > 0 {
        let fewer = ids.drop_last();
        law_only_ready_members_are_present(entries, fewer, id);
        let before = not_ready(entries, fewer);
        let after = not_ready(entries, ids);
        if before.contains(id) {
            let k = choose|k: int| 0 <= k < before.len() && before[k] == id;
            assert(after[k] == id);
            let i = choose|i: int| 0 <= i < fewer.len() && fewer[i] == id;
            assert(ids[i] == id);
        }
        if ids.last() == id && !is_ready(entries, id) {
            assert(after[before.len() as int] == id);
        }
        if after.contains(id) && !before.contains(id) {
            let k = choose|k: int| 0 <= k < after.len() && after[k] == id;
            if k < before.len() {
                assert(before[k] == id);
            }
            assert(ids[ids.len() - 1] == id);
        }
        if ids.contains(id) && ids.last() != id {
            let i = choose|i: int| 0 <= i < ids.len() && ids[i] == id;
            assert(fewer[i] == id);
        }
    }
}

/// Whatever runs and is not of the combination is an intruder, and nothing else is.
pub proof fn law_whoever_else_runs_is_an_intruder(
    entries: Seq<(Seq<char>, RunningView)>,
    combo: Seq<Seq<char>>,
    id: Seq<char>,
)
    ensures
        outsiders(entries, combo).contains(id) <==> !combo.contains(id) && exists|i: int|
            0 <= i < entries.len() && (#[trigger] entries[i]).0 == id,
    decreases entries.len(),
{
    if entries.len() > 0 {
        let fewer = entries.drop_last();
        law_whoever_else_runs_is_an_intruder(fewer, combo, id);
        let before = outsiders(fewer, combo);
        let after = outsiders(entries, combo);
        if before.contains(id) {
            let k = choose|k: int| 0 <= k < before.len() && before[k] == id;
            assert(after[k] == id);
            let i = choose|i: int| 0 <= i < fewer.len() && (#[trigger] fewer[i]).0 == id;
            assert(entries[i].0 == id);
        }
        if entries.last().0 == id && !combo.contains(id) {
            assert(after[before.len() as int] == id);
            assert(entries[entries.len() - 1].0 == id);
        }
        if after.contains(id) && !before.contains(id) {
            let k = choose|k: int| 0 <= k < after.len() && after[k] == id;
            if k < before.len() {
                assert(before[k] == id);
            }
            assert(entries[entries.len() - 1].0 == id);
        }
        if !combo.contains(id) && (exists|i: int|
            0 <= i < entries.len() && (#[trigger] entries[i]).0 == id) && entries.last().0 != id {
            let i = choose|i: int| 0 <= i < entries.len() && (#[trigger] entries[i]).0 == id;
            assert(fewer[i].0 == id);
        }
    }
}

/// Adding names to a list loses none of either.
pub proof fn law_absent_members_add_up(
    list: Seq<Seq<char>>,
    more: Seq<Seq<char>>,
    name: Seq<char>,
)
    ensures
        with_new(list, more).contains(name) <==> list.contains(name) || more.contains(name),
    decreases more.len(),
{
    if more.len() > 0 {
        let fewer = more.drop_last();
        law_absent_members_add_up(list, fewer, name);
        let before = with_new(list, fewer);
        let after = with_new(list, more);
        if before.contains(name) {
            let k = choose|k: int| 0 <= k < before.len() && before[k] == name;
            assert(after[k] == name);
        }
        if fewer.contains(name) {
            let i = choose|i: int| 0 <= i < fewer.len() && fewer[i] == name;
            assert(more[i] == name);
        }
        if more.last() == name && !before.contains(name) {
            assert(after[before.len() as int] == name);
        }
        if after.contains(name) && !before.contains(name) {
            let k = choose|k: int| 0 <= k < after.len() && after[k] == name;
            if k < before.len() {
                assert(before[k] == name);
            }
            assert(more[more.len() - 1] == name);
        }
        if more.contains(name) && more.last() != name {
            let i = choose|i: int| 0 <= i < more.len() && more[i] == name;
            assert(fewer[i] == name);
        }
    }
}

/// Of sets that are as tight, the last is chosen.
pub proof fn law_the_last_of_the_tightest_is_chosen(
    sets: Seq<SetView>,
    records: Seq<RecordView>,
    only: Option<Seq<char>>,
    bound: nat,
    i: int,
)
    requires
        bound <= sets.len(),
        0 <= i < bound,
        worth_testing(sets, records, only, i),
        forall|j: int|
            0 <= j < i && worth_testing(sets, records, only, j) ==> (#[trigger] sets[j]).footprint
                <= sets[i].footprint,
        forall|j: int|
            i < j < bound && worth_testing(sets, records, only, j) ==> (
            #[trigger] sets[j]).footprint < sets[i].footprint,
    ensures
        tightest(sets, records, only, bound) == Some(i),
    decreases bound,
{
    let fewer = (bound - 1) as nat;
    if i == fewer {
        lemma_tightest_in_range(sets, records, only, fewer);
        let before = tightest(sets, records, only, fewer);
        if before is Some {
            assert(sets[before->0].footprint <= sets[i].footprint);
        }
    } else {
        law_the_last_of_the_tightest_is_chosen(sets, records, only, fewer, i);
        if worth_testing(sets, records, only, bound - 1) {
            assert(sets[bound - 1].footprint < sets[i].footprint);
        }
    }
}

} // verus!
