//! From a config, a store and a policy to a plan: which footprint each model is planned
//! with, which are left out, and what there is to say of the evidence they rest on.

use vstd::prelude::*;
use vstd::string::*;

use crate::alternatives::{alternatives, alternatives_of, is_crowded, with_alternatives};
use crate::build::{build, name_list};
use crate::cache::{
    reading_confirmed, selected, under_weights, BoxMeta, BoxView, Measurement, ModelStore,
    ReadingView, StoreView,
};
use crate::model::{cache_cap, declared_cache_ram_gb, text_view, ModelRecord, ModelType, RecordView};
use crate::cram::{afford, affordable, prescribed, Afford, Affordable};
use crate::number::{clamped, count_text, digits, gb2, gb2_text, number_text, percent, percent_text};
use crate::plan::{
    few_enough, listed, BuildError, BuildErrorView, BuildInput, EmittedSet, HostBudget, InputView,
    MatrixPlan, PlanView, SetView, NAMES_SHOWN,
};
use crate::policy::{OnHostOverflow, OnUnconfirmed, Policy, PolicyView};
use crate::text::{
    char_is_space, chars_of, fields, has_name, is_space, joined, lemma_views_push, pieces, runs,
    same, split_on, starts, strip_prefix, views, words,
};
use crate::units::{append_names, FootprintView, ModelFootprint};

verus! {

// ---- set expressions ----------------------------------------------------------------------

/// What separates the names in a set's expression.
pub open spec fn between_names(c: char) -> bool {
    is_space(c) || c == '&' || c == '|' || c == '(' || c == ')'
}

/// The ids and `+helper` references that an expression names.
pub open spec fn expr_names(expr: Seq<char>) -> Seq<Seq<char>> {
    fields(expr, |c: char| between_names(c))
}

/// The ids and `+helper` references that an expression names.
pub fn expr_tokens(expr: &str) -> (tokens: Vec<String>)
    ensures
        views(tokens@) == expr_names(expr@),
{
    let chars = chars_of(expr);
    let mut tokens: Vec<String> = Vec::new();
    let mut open = String::new();
    let mut length: usize = 0;
    let mut at: usize = 0;
    let ghost separator = |c: char| between_names(c);
    while at < chars.len()
        invariant
            at <= chars@.len(),
            chars@ == expr@,
            separator == (|c: char| between_names(c)),
            (views(tokens@), open@) == runs(expr@.take(at as int), separator),
            length == open@.len(),
            length <= at,
        decreases chars@.len() - at,
    {
        let c = chars[at];
        at = at + 1;
        proof {
            assert(expr@.take(at as int).drop_last() =~= expr@.take(at - 1));
        }
        if !(char_is_space(c) || c == '&' || c == '|' || c == '(' || c == ')') {
            open.push(c);
            length = length + 1;
        } else if length > 0 {
            proof {
                lemma_views_push(tokens@, open);
            }
            tokens.push(open);
            open = String::new();
            length = 0;
        }
    }
    proof {
        assert(expr@.take(at as int) =~= expr@);
        lemma_views_push(tokens@, open);
    }
    if length > 0 {
        tokens.push(open);
    }
    tokens
}

/// Two lists have a name in common.
pub open spec fn overlap(a: Seq<Seq<char>>, b: Seq<Seq<char>>) -> bool {
    exists|i: int| 0 <= i < a.len() && b.contains(#[trigger] a[i])
}

fn have_common(a: &Vec<String>, b: &Vec<String>) -> (r: bool)
    ensures
        r == overlap(views(a@), views(b@)),
{
    let ghost all = views(a@);
    let mut at: usize = 0;
    while at < a.len()
        invariant
            at <= a@.len(),
            all == views(a@),
            forall|i: int| 0 <= i < at ==> !views(b@).contains(#[trigger] all[i]),
        decreases a@.len() - at,
    {
        proof {
            assert(all[at as int] == a@[at as int]@);
        }
        if has_name(b, a[at].as_str()) {
            return true;
        }
        at = at + 1;
    }
    false
}

/// The references to those of `sets` whose expression names one of `ids`.
pub open spec fn helper_references(sets: Seq<SetView>, ids: Seq<Seq<char>>) -> Seq<Seq<char>>
    decreases sets.len(),
{
    if sets.len() == 0 {
        Seq::empty()
    } else {
        let before = helper_references(sets.drop_last(), ids);
        if overlap(expr_names(sets.last().expr), ids) {
            before.push("+"@ + sets.last().name)
        } else {
            before
        }
    }
}

/// The names of those of `sets` whose expression names one of `ids` or of `references`.
pub open spec fn names_of_dependents(
    sets: Seq<SetView>,
    ids: Seq<Seq<char>>,
    references: Seq<Seq<char>>,
) -> Seq<Seq<char>>
    decreases sets.len(),
{
    if sets.len() == 0 {
        Seq::empty()
    } else {
        let before = names_of_dependents(sets.drop_last(), ids, references);
        let tokens = expr_names(sets.last().expr);
        if overlap(tokens, ids) || overlap(tokens, references) {
            before.push(sets.last().name)
        } else {
            before
        }
    }
}

/// The sets that depend on any of `ids`, directly or through a helper set that names one.
pub open spec fn dependents(sets: Seq<SetView>, ids: Seq<Seq<char>>) -> Seq<Seq<char>> {
    names_of_dependents(sets, ids, helper_references(sets, ids))
}

/// Names of the emitted sets that depend on any of `ids`, directly or through a helper set:
/// a variant appears in a pack only as `+g_<key>`, and a ride-along only as `+aux`.
pub fn sets_naming(sets: &Vec<EmittedSet>, ids: &Vec<String>) -> (names: Vec<String>)
    ensures
        views(names@) == dependents(views(sets@), views(ids@)),
{
    let ghost all = views(sets@);
    let ghost wanted = views(ids@);
    let mut references: Vec<String> = Vec::new();
    let mut at: usize = 0;
    proof {
        assert(views(references@) =~= helper_references(all.take(0), wanted));
    }
    while at < sets.len()
        invariant
            at <= sets@.len(),
            all == views(sets@),
            wanted == views(ids@),
            views(references@) == helper_references(all.take(at as int), wanted),
        decreases sets@.len() - at,
    {
        proof {
            assert(all.take(at + 1).drop_last() =~= all.take(at as int));
            assert(all.take(at + 1).last() == sets@[at as int]@);
        }
        if have_common(&expr_tokens(sets[at].expr.as_str()), ids) {
            let reference = "+".to_owned().concat(sets[at].name.as_str());
            proof {
                lemma_views_push(references@, reference);
            }
            references.push(reference);
        }
        at = at + 1;
    }
    let mut names: Vec<String> = Vec::new();
    let mut next: usize = 0;
    let ghost through = helper_references(all, wanted);
    proof {
        assert(all.take(at as int) =~= all);
        assert(views(names@) =~= names_of_dependents(all.take(0), wanted, through));
    }
    while next < sets.len()
        invariant
            next <= sets@.len(),
            all == views(sets@),
            wanted == views(ids@),
            through == views(references@),
            views(names@) == names_of_dependents(all.take(next as int), wanted, through),
        decreases sets@.len() - next,
    {
        proof {
            assert(all.take(next + 1).drop_last() =~= all.take(next as int));
            assert(all.take(next + 1).last() == sets@[next as int]@);
        }
        let tokens = expr_tokens(sets[next].expr.as_str());
        if have_common(&tokens, ids) || have_common(&tokens, &references) {
            let name = sets[next].name.clone();
            proof {
                lemma_views_push(names@, name);
            }
            names.push(name);
        }
        next = next + 1;
    }
    proof {
        assert(all.take(next as int) =~= all);
    }
    names
}

// ---- what each model is planned with --------------------------------------------------------

/// What the scan of a roster against a store comes to.
#[verifier::ext_equal]
pub struct ScanView {
    pub footprints: Seq<FootprintView>,
    /// Models without a footprint for their command.
    pub unmeasured: Seq<Seq<char>>,
    /// Models whose footprint was never confirmed.
    pub unconfirmed: Seq<Seq<char>>,
    /// Those of them that the policy leaves out.
    pub dropped: Seq<Seq<char>>,
    /// What there is to say of footprints below their weights.
    pub suspect: Seq<Seq<char>>,
    /// Models measured while something else was resident.
    pub contended: Seq<Seq<char>>,
    /// Models without a host footprint.
    pub host_unmeasured: Seq<Seq<char>>,
}

pub open spec fn blank_scan() -> ScanView {
    ScanView {
        footprints: Seq::empty(),
        unmeasured: Seq::empty(),
        unconfirmed: Seq::empty(),
        dropped: Seq::empty(),
        suspect: Seq::empty(),
        contended: Seq::empty(),
        host_unmeasured: Seq::empty(),
    }
}

/// The prompt cache a model's process fills on its own: the cap its live command states, or
/// the one the policy assumes. Only llama.cpp servers have one.
pub open spec fn cache_cost(record: RecordView, policy: PolicyView) -> int {
    match record.model_type {
        ModelType::Llm | ModelType::Embed | ModelType::Rerank => match cache_cap(
            words(record.cmd),
        ) {
            Some(cap) => cap,
            None => policy.host_cache_gb,
        },
        _ => 0,
    }
}

/// The prompt cache a model is taken to fill on assumption: what the policy assumes, where its
/// command states no cap.
pub open spec fn assumed_cache(record: RecordView, policy: PolicyView) -> int {
    match record.model_type {
        ModelType::Llm | ModelType::Embed | ModelType::Rerank => match cache_cap(
            words(record.cmd),
        ) {
            Some(_) => 0,
            None => policy.host_cache_gb,
        },
        _ => 0,
    }
}

/// The host memory a model costs while resident: what its load was measured to add, and its
/// prompt cache. A proxy is a service that llama-swap does not start: it adds what was set
/// by hand, or nothing.
pub open spec fn host_cost(record: RecordView, reading: ReadingView, policy: PolicyView) -> Option<
    int,
> {
    match reading.d_host {
        Some(measured) => Some(clamped(measured + cache_cost(record, policy))),
        None => if record.model_type == ModelType::TtsProxy {
            Some(0)
        } else {
            None
        },
    }
}

/// The footprint's evidence is incomplete. A proxy never loads, so nothing could confirm it.
pub open spec fn lacks_confirmation(record: RecordView, reading: ReadingView) -> bool {
    record.model_type != ModelType::TtsProxy && !reading_confirmed(reading)
}

pub open spec fn suspect_text(id: Seq<char>, footprint: int, weights: int) -> Seq<char> {
    "`"@ + id + "` measured "@ + gb2(footprint) + " GB, only "@ + percent(footprint, weights)
        + "% of the "@ + gb2(weights)
        + " GB of weight files its command names - a fully offloaded model cannot hold much less than its weights, so this footprint may be under-measured (partial offload with -ngl/-ot/--cpu-moe is a legitimate reason to sit lower)"@
}

/// A scan with one more model that has a footprint.
pub open spec fn scan_found(
    before: ScanView,
    record: RecordView,
    reading: ReadingView,
    policy: PolicyView,
) -> ScanView {
    let id = record.id;
    let unsure = lacks_confirmation(record, reading);
    let unconfirmed = if unsure {
        before.unconfirmed.push(id)
    } else {
        before.unconfirmed
    };
    if unsure && policy.on_unconfirmed == OnUnconfirmed::Exclude {
        ScanView { unconfirmed, dropped: before.dropped.push(id), ..before }
    } else {
        let host = host_cost(record, reading, policy);
        ScanView {
            footprints: before.footprints.push(
                FootprintView {
                    id,
                    model_type: record.model_type,
                    primary_file: record.primary_file,
                    d_total: reading.d_total as int,
                    host_gb: host,
                    cache_gb: assumed_cache(record, policy),
                    holds_cache: cache_cost(record, policy) > 0,
                },
            ),
            unmeasured: before.unmeasured,
            unconfirmed,
            dropped: before.dropped,
            suspect: if under_weights(reading) {
                before.suspect.push(
                    suspect_text(id, reading.d_total as int, reading.weights_gb->0 as int),
                )
            } else {
                before.suspect
            },
            contended: if reading.contended == Some(true) {
                before.contended.push(id)
            } else {
                before.contended
            },
            host_unmeasured: if host is None {
                before.host_unmeasured.push(id)
            } else {
                before.host_unmeasured
            },
        }
    }
}

/// The footprint a model is planned with, where its file holds one for its command.
pub open spec fn footprint_in(record: RecordView, file: Option<StoreView>) -> Option<ReadingView> {
    match file {
        Some(store) => selected(store, record.param_hash),
        None => None,
    }
}

/// The scan of the first `bound` models.
pub open spec fn scan(
    records: Seq<RecordView>,
    files: Seq<Option<StoreView>>,
    policy: PolicyView,
    bound: nat,
) -> ScanView
    decreases bound,
{
    if bound == 0 {
        blank_scan()
    } else {
        let before = scan(records, files, policy, (bound - 1) as nat);
        let record = records[bound - 1];
        match footprint_in(record, files[bound - 1]) {
            Some(reading) => scan_found(before, record, reading, policy),
            None => ScanView { unmeasured: before.unmeasured.push(record.id), ..before },
        }
    }
}

/// The first of the models from `from` on whose footprint was never confirmed.
pub open spec fn first_unconfirmed(
    records: Seq<RecordView>,
    files: Seq<Option<StoreView>>,
    from: nat,
) -> Option<Seq<char>>
    decreases records.len() - from,
{
    if from >= records.len() {
        None
    } else {
        match footprint_in(records[from as int], files[from as int]) {
            Some(reading) => if lacks_confirmation(records[from as int], reading) {
                Some(records[from as int].id)
            } else {
                first_unconfirmed(records, files, from + 1)
            },
            None => first_unconfirmed(records, files, from + 1),
        }
    }
}

/// What is scanned, as values.
struct Scan {
    footprints: Vec<ModelFootprint>,
    unmeasured: Vec<String>,
    unconfirmed: Vec<String>,
    dropped: Vec<String>,
    suspect: Vec<String>,
    contended: Vec<String>,
    host_unmeasured: Vec<String>,
}

impl View for Scan {
    type V = ScanView;

    closed spec fn view(&self) -> ScanView {
        ScanView {
            footprints: views(self.footprints@),
            unmeasured: views(self.unmeasured@),
            unconfirmed: views(self.unconfirmed@),
            dropped: views(self.dropped@),
            suspect: views(self.suspect@),
            contended: views(self.contended@),
            host_unmeasured: views(self.host_unmeasured@),
        }
    }
}

/// What optional files stand for.
pub open spec fn stored_views(files: Seq<Option<ModelStore>>) -> Seq<Option<StoreView>> {
    Seq::new(
        files.len(),
        |i: int|
            match files[i] {
                Some(store) => Some(store@),
                None => None,
            },
    )
}

fn clamped_sum(a: i64, b: i64) -> (r: i64)
    ensures
        r == clamped(a + b),
{
    let exact: i128 = a as i128 + b as i128;
    if exact > i64::MAX as i128 {
        i64::MAX
    } else if exact < -(i64::MAX as i128) {
        -i64::MAX
    } else {
        exact as i64
    }
}

fn cache_of(record: &ModelRecord, policy: &Policy) -> (r: i64)
    ensures
        r == cache_cost(record@, policy@),
{
    match record.model_type {
        ModelType::Llm | ModelType::Embed | ModelType::Rerank => {
            match declared_cache_ram_gb(record.cmd.as_str()) {
                Some(cap) => cap,
                None => policy.host_cache_gb,
            }
        },
        ModelType::Stt | ModelType::Image | ModelType::TtsProxy => 0,
    }
}

fn host_cost_of(record: &ModelRecord, reading: &Measurement, policy: &Policy) -> (r: Option<i64>)
    ensures
        crate::units::amount_view(r) == host_cost(record@, reading@, policy@),
{
    match reading.d_host {
        Some(measured) => Some(clamped_sum(measured, cache_of(record, policy))),
        None => if record.model_type == ModelType::TtsProxy {
            Some(0)
        } else {
            None
        },
    }
}

fn assumed_cache_of(record: &ModelRecord, policy: &Policy) -> (r: i64)
    ensures
        r == assumed_cache(record@, policy@),
{
    match record.model_type {
        ModelType::Llm | ModelType::Embed | ModelType::Rerank => {
            match declared_cache_ram_gb(record.cmd.as_str()) {
                Some(_) => 0,
                None => policy.host_cache_gb,
            }
        },
        ModelType::Stt | ModelType::Image | ModelType::TtsProxy => 0,
    }
}

fn push_name(names: &mut Vec<String>, name: &String)
    ensures
        views(final(names)@) == views(old(names)@).push(name@),
{
    let owned = name.clone();
    proof {
        lemma_views_push(names@, owned);
    }
    names.push(owned);
}

impl Scan {
    /// Take one more model that has a footprint into account.
    fn add(&mut self, record: &ModelRecord, reading: &Measurement, policy: &Policy)
        ensures
            final(self)@ == scan_found(old(self)@, record@, reading@, policy@),
    {
        if record.model_type != ModelType::TtsProxy && !reading.is_confirmed() {
            push_name(&mut self.unconfirmed, &record.id);
            if policy.on_unconfirmed == OnUnconfirmed::Exclude {
                push_name(&mut self.dropped, &record.id);
                return ;
            }
        }
        if reading.below_weight_floor() {
            if let Some((footprint, weights)) = reading.weight_ratio() {
                let text = "`".to_owned().concat(record.id.as_str()).concat("` measured ").concat(
                    gb2_text(footprint as i128).as_str(),
                ).concat(" GB, only ").concat(percent_text(footprint, weights).as_str()).concat(
                    "% of the ",
                ).concat(gb2_text(weights as i128).as_str()).concat(
                    " GB of weight files its command names - a fully offloaded model cannot hold much less than its weights, so this footprint may be under-measured (partial offload with -ngl/-ot/--cpu-moe is a legitimate reason to sit lower)",
                );
                push_name(&mut self.suspect, &text);
            }
        }
        if let Some(true) = reading.contended {
            push_name(&mut self.contended, &record.id);
        }
        let host_gb = host_cost_of(record, reading, policy);
        if host_gb.is_none() {
            push_name(&mut self.host_unmeasured, &record.id);
        }
        let footprint = ModelFootprint {
            id: record.id.clone(),
            model_type: record.model_type,
            primary_file: crate::cache::copied_text(&record.primary_file),
            d_total: reading.d_total,
            host_gb,
            cache_gb: assumed_cache_of(record, policy),
            holds_cache: cache_of(record, policy) > 0,
        };
        proof {
            lemma_views_push(self.footprints@, footprint);
        }
        self.footprints.push(footprint);
    }
}

/// The footprints of a roster, or the first id whose footprint the policy refuses to use.
fn scan_roster(
    records: &Vec<ModelRecord>,
    files: &Vec<Option<ModelStore>>,
    policy: &Policy,
) -> (r: Result<Scan, BuildError>)
    requires
        files@.len() == records@.len(),
    ensures
        ({
            let unsure = first_unconfirmed(views(records@), stored_views(files@), 0);
            match r {
                Ok(found) => {
                    &&& found@ == scan(
                        views(records@),
                        stored_views(files@),
                        policy@,
                        records@.len() as nat,
                    )
                    &&& found@.footprints.len() <= records@.len()
                    &&& policy@.on_unconfirmed == OnUnconfirmed::Error ==> unsure is None
                },
                Err(error) => policy@.on_unconfirmed == OnUnconfirmed::Error && unsure is Some
                    && error@ == (BuildErrorView::Unconfirmed { id: unsure->0 }),
            }
        }),
{
    let ghost all = views(records@);
    let ghost stored = stored_views(files@);
    let mut found = Scan {
        footprints: Vec::new(),
        unmeasured: Vec::new(),
        unconfirmed: Vec::new(),
        dropped: Vec::new(),
        suspect: Vec::new(),
        contended: Vec::new(),
        host_unmeasured: Vec::new(),
    };
    let mut at: usize = 0;
    proof {
        assert(found@ =~= scan(all, stored, policy@, 0));
    }
    while at < records.len()
        invariant
            at <= records@.len(),
            files@.len() == records@.len(),
            all == views(records@),
            stored == stored_views(files@),
            found@ == scan(all, stored, policy@, at as nat),
            found@.footprints.len() <= at,
            policy@.on_unconfirmed == OnUnconfirmed::Error ==> first_unconfirmed(all, stored, 0)
                == first_unconfirmed(all, stored, at as nat),
        decreases records@.len() - at,
    {
        let record = &records[at];
        proof {
            assert(all[at as int] == record@);
        }
        let reading = match &files[at] {
            Some(store) => store.select(record.param_hash.as_str()),
            None => None,
        };
        proof {
            assert(crate::cache::reading_view(reading) == footprint_in(
                all[at as int],
                stored[at as int],
            ));
        }
        match reading {
            Some(reading) => {
                if policy.on_unconfirmed == OnUnconfirmed::Error && record.model_type
                    != ModelType::TtsProxy && !reading.is_confirmed() {
                    return Err(BuildError::Unconfirmed { id: record.id.clone() });
                }
                found.add(record, &reading, policy);
            },
            None => {
                push_name(&mut found.unmeasured, &record.id);
            },
        }
        at = at + 1;
        proof {
            assert(found@ =~= scan(all, stored, policy@, at as nat));
        }
    }
    Ok(found)
}

// ---- the plan -------------------------------------------------------------------------------

/// The memory to plan against: a flag's, else the policy's, else the detected total. Never a
/// guess.
pub open spec fn resolved_budget(flag: Option<i64>, policy: PolicyView, meta: BoxView) -> Option<
    i64,
> {
    if flag is Some {
        flag
    } else if policy.budget is Some {
        policy.budget
    } else {
        meta.detected_total
    }
}

pub open spec fn host_total(policy: PolicyView, meta: BoxView) -> Option<i64> {
    if policy.host_budget is Some {
        policy.host_budget
    } else {
        meta.host_total
    }
}

/// The host budget to check against, where every model's host cost and the box's are known.
/// A partial host sum would not be a smaller answer but a wrong one.
pub open spec fn host_side(found: ScanView, policy: PolicyView, meta: BoxView) -> Option<
    HostBudget,
> {
    if found.host_unmeasured.len() == 0 && meta.host_baseline is Some && host_total(
        policy,
        meta,
    ) is Some {
        Some(HostBudget { baseline: meta.host_baseline->0, total: host_total(policy, meta)->0 })
    } else {
        None
    }
}

/// Why the host check does not run, where it does not.
pub open spec fn host_reason(found: ScanView, policy: PolicyView, meta: BoxView) -> Option<
    Seq<char>,
> {
    if found.host_unmeasured.len() > 0 {
        Some(
            digits(found.host_unmeasured.len())
                + " model(s) have no recorded host-RAM footprint, so a pack's host cost cannot be totalled: "@
                + listed(found.host_unmeasured)
                + ". Re-run `llama-matrix measure --force` to record it"@,
        )
    } else if host_side(found, policy, meta) is None {
        Some(
            "this box records no host-RAM total or baseline, so packs are checked against the GPU only. Re-run `llama-matrix measure` on a platform that can report host RAM, or set `host_budget`"@,
        )
    } else {
        None
    }
}

/// The inputs that a roster, its files, the policy and the box come to.
pub open spec fn resolved_input(
    found: ScanView,
    policy: PolicyView,
    meta: BoxView,
    budget: i64,
) -> InputView {
    InputView {
        models: found.footprints,
        policy,
        baseline: meta.baseline as int,
        budget: budget as int,
        host: host_side(found, policy, meta),
    }
}

pub open spec fn contended_text(ids: Seq<Seq<char>>) -> Seq<char> {
    digits(ids.len())
        + " footprint(s) were measured while something else was resident, so they are probably too high and this matrix is probably smaller than the box can hold: "@
        + listed(ids)
        + ". Quiesce anything that requests models - health probes and pollers especially - and re-measure with `llama-matrix measure --force`"@
}

pub open spec fn dropped_text(ids: Seq<Seq<char>>) -> Seq<char> {
    digits(ids.len())
        + " footprint(s) were recorded without confirming that the model finished allocating, and are excluded from the matrix (a safe under-declaration): "@
        + listed(ids) + " - re-run `llama-matrix measure` to confirm them"@
}

/// The sets in doubt: their names if they are few, else how many of how many.
pub open spec fn doubtful_text(names: Seq<Seq<char>>, sets: nat) -> Seq<char> {
    if names.len() > NAMES_SHOWN {
        digits(names.len()) + " of the "@ + digits(sets) + " declared sets"@
    } else {
        listed(names)
    }
}

pub open spec fn unconfirmed_text(ids: Seq<Seq<char>>, sets: Seq<SetView>) -> Seq<char> {
    digits(ids.len())
        + " footprint(s) recorded without confirming the model finished allocating, so possibly under-measured: "@
        + listed(ids) + ". Declared sets that depend on them, which may therefore not fit: "@
        + doubtful_text(dependents(sets, ids), sets.len())
        + ". Re-run `llama-matrix measure` to confirm them, or set `on_unconfirmed` to \"exclude\" to leave them out of the matrix"@
}

/// What there is to say of the evidence that a plan rests on.
pub open spec fn evidence_warnings(found: ScanView, sets: Seq<SetView>) -> Seq<Seq<char>> {
    let contended = if found.contended.len() > 0 {
        seq![contended_text(found.contended)]
    } else {
        Seq::empty()
    };
    let unsure = if found.dropped.len() > 0 {
        seq![dropped_text(found.dropped)]
    } else if found.unconfirmed.len() > 0 {
        seq![unconfirmed_text(found.unconfirmed, sets)]
    } else {
        Seq::empty()
    };
    found.suspect + contended + unsure
}

/// How large a prompt-cache cap a plan's sets can afford, where the host is checked.
pub open spec fn plan_affords(plan: PlanView, found: ScanView, host: Option<HostBudget>) -> Afford {
    match host {
        Some(budget) => affordable(
            plan.sets,
            found.footprints,
            budget.baseline as int,
            plan.host_ceiling->0,
            plan.sets.len(),
        ),
        None => Afford::Unasked,
    }
}

pub open spec fn cap_text(cap: int) -> Seq<char> {
    "`-cram "@ + digits((cap / 1_000_000) as nat)
        + "` on every llama-server entry that states none keeps every declared set under the host ceiling"@
}

pub open spec fn no_cap_text() -> Seq<char> {
    "no `-cram` value keeps every declared set under the host ceiling: at least one is over with no assumed cache counted"@
}

/// What there is to set about sets over the host ceiling that are declared all the same.
pub open spec fn cap_advice(plan: PlanView, policy: PolicyView, afford: Afford) -> Seq<Seq<char>> {
    if plan.host_over.len() == 0 || policy.on_host_overflow != OnHostOverflow::Warn {
        Seq::empty()
    } else {
        match prescribed(afford) {
            Some(cap) => seq![cap_text(cap)],
            None => seq![no_cap_text()],
        }
    }
}

/// A plan with what is known of the footprints it rests on, and of what the host can afford.
pub open spec fn with_evidence(
    plan: PlanView,
    found: ScanView,
    policy: PolicyView,
    meta: BoxView,
) -> PlanView {
    let afford = plan_affords(plan, found, host_side(found, policy, meta));
    PlanView {
        warnings: plan.warnings + cap_advice(plan, policy, afford) + evidence_warnings(
            found,
            plan.sets,
        ),
        excluded: plan.excluded + found.unmeasured + found.dropped,
        unconfirmed: found.unconfirmed,
        host_skipped: host_reason(found, policy, meta),
        host_cram_gb: prescribed(afford),
        ..plan
    }
}

proof fn lemma_prescribed(afford: Afford)
    ensures
        prescribed(afford) is Some ==> prescribed(afford)->0 >= 0,
{
}

/// The host budget to check against, as a value.
fn host_of(found: &Scan, policy: &Policy, box_meta: &BoxMeta) -> (r: Option<HostBudget>)
    ensures
        r == host_side(found@, policy@, box_meta@),
{
    let total: Option<i64> = match policy.host_budget {
        Some(configured) => Some(configured),
        None => box_meta.host_total,
    };
    if found.host_unmeasured.len() > 0 {
        return None;
    }
    match (box_meta.host_baseline, total) {
        (Some(baseline), Some(total)) => Some(HostBudget { baseline, total }),
        _ => None,
    }
}

/// Why the host check does not run, where it does not.
fn host_reason_of(found: &Scan, policy: &Policy, box_meta: &BoxMeta) -> (r: Option<String>)
    ensures
        text_view(r) == host_reason(found@, policy@, box_meta@),
{
    if found.host_unmeasured.len() > 0 {
        Some(
            count_text(found.host_unmeasured.len()).concat(
                " model(s) have no recorded host-RAM footprint, so a pack's host cost cannot be totalled: ",
            ).concat(name_list(&found.host_unmeasured).as_str()).concat(
                ". Re-run `llama-matrix measure --force` to record it",
            ),
        )
    } else if host_of(found, policy, box_meta).is_none() {
        Some(
            "this box records no host-RAM total or baseline, so packs are checked against the GPU only. Re-run `llama-matrix measure` on a platform that can report host RAM, or set `host_budget`".to_owned(),
        )
    } else {
        None
    }
}

/// How large a prompt-cache cap a plan's sets can afford.
fn room_for(plan: &MatrixPlan, found: &Scan, host: Option<HostBudget>) -> (room: Affordable)
    requires
        host is Some ==> plan@.host_ceiling is Some && -0x2_0000_0000_0000_0000
            <= plan@.host_ceiling->0 <= 0x2_0000_0000_0000_0000,
    ensures
        room@ == plan_affords(plan@, found@, host),
{
    match (host, plan.host_ceiling) {
        (Some(budget), Some(ceiling)) => {
            proof {
                assert(plan@.sets.len() == plan.sets@.len());
            }
            afford(&plan.sets, &found.footprints, budget.baseline, ceiling)
        },
        _ => Affordable::Unasked,
    }
}

/// What there is to set about sets over the host ceiling.
fn cap_advice_of(plan: &MatrixPlan, policy: &Policy, room: Affordable) -> (r: Vec<String>)
    ensures
        views(r@) == cap_advice(plan@, policy@, room@),
{
    let mut r: Vec<String> = Vec::new();
    proof {
        assert(plan@.host_over.len() == plan.host_over@.len());
    }
    if plan.host_over.len() > 0 && policy.on_host_overflow == OnHostOverflow::Warn {
        match room.cap() {
            Some(cap) => {
                proof {
                    lemma_prescribed(room@);
                }
                r.push(
                    "`-cram ".to_owned().concat(
                        number_text((cap / 1_000_000) as u128).as_str(),
                    ).concat(
                        "` on every llama-server entry that states none keeps every declared set under the host ceiling",
                    ),
                );
            },
            None => {
                r.push(
                    "no `-cram` value keeps every declared set under the host ceiling: at least one is over with no assumed cache counted".to_owned(),
                );
            },
        }
    }
    proof {
        assert(views(r@) =~= cap_advice(plan@, policy@, room@));
    }
    r
}

/// What there is to say of the evidence that a plan rests on.
fn evidence_of(found: &Scan, sets: &Vec<EmittedSet>) -> (r: Vec<String>)
    ensures
        views(r@) == evidence_warnings(found@, views(sets@)),
{
    let mut r: Vec<String> = Vec::new();
    append_names(&mut r, &found.suspect);
    if found.contended.len() > 0 {
        let text = count_text(found.contended.len()).concat(
            " footprint(s) were measured while something else was resident, so they are probably too high and this matrix is probably smaller than the box can hold: ",
        ).concat(name_list(&found.contended).as_str()).concat(
            ". Quiesce anything that requests models - health probes and pollers especially - and re-measure with `llama-matrix measure --force`",
        );
        push_name(&mut r, &text);
    }
    if found.dropped.len() > 0 {
        let text = count_text(found.dropped.len()).concat(
            " footprint(s) were recorded without confirming that the model finished allocating, and are excluded from the matrix (a safe under-declaration): ",
        ).concat(name_list(&found.dropped).as_str()).concat(
            " - re-run `llama-matrix measure` to confirm them",
        );
        push_name(&mut r, &text);
    } else if found.unconfirmed.len() > 0 {
        let names = sets_naming(sets, &found.unconfirmed);
        let doubtful = if names.len() > NAMES_SHOWN {
            count_text(names.len()).concat(" of the ").concat(
                count_text(sets.len()).as_str(),
            ).concat(" declared sets")
        } else {
            name_list(&names)
        };
        let text = count_text(found.unconfirmed.len()).concat(
            " footprint(s) recorded without confirming the model finished allocating, so possibly under-measured: ",
        ).concat(name_list(&found.unconfirmed).as_str()).concat(
            ". Declared sets that depend on them, which may therefore not fit: ",
        ).concat(doubtful.as_str()).concat(
            ". Re-run `llama-matrix measure` to confirm them, or set `on_unconfirmed` to \"exclude\" to leave them out of the matrix",
        );
        proof {
            assert(views(sets@).len() == sets@.len());
            assert(views(names@).len() == names@.len());
        }
        push_name(&mut r, &text);
    }
    proof {
        assert(views(r@) =~= evidence_warnings(found@, views(sets@)));
    }
    r
}

/// Compute the plan of a roster from its files (one per record, where there is one), the box
/// and the policy. `budget_override` is the `--budget` flag, if any.
pub fn resolve_plan(
    records: &Vec<ModelRecord>,
    files: &Vec<Option<ModelStore>>,
    box_meta: &BoxMeta,
    policy: &Policy,
    budget_override: Option<i64>,
) -> (r: Result<MatrixPlan, BuildError>)
    requires
        files@.len() == records@.len(),
        few_enough(records@.len() as int),
    ensures
        ({
            let unsure = first_unconfirmed(views(records@), stored_views(files@), 0);
            let budget = resolved_budget(budget_override, policy@, box_meta@);
            let found = scan(
                views(records@),
                stored_views(files@),
                policy@,
                records@.len() as nat,
            );
            let input = resolved_input(found, policy@, box_meta@, budget->0);
            if budget is None {
                r is Err && r->Err_0@ == BuildErrorView::NoBudget
            } else if policy@.on_unconfirmed == OnUnconfirmed::Error && unsure is Some {
                r is Err && r->Err_0@ == (BuildErrorView::Unconfirmed { id: unsure->0 })
            } else if input.refusal() is Some {
                r is Err && r->Err_0@ == input.refusal()->0
            } else {
                r is Ok && r->Ok_0@ == with_alternatives(
                    with_evidence(input.plan(), found, policy@, box_meta@),
                    input,
                    alternatives(
                        views(records@),
                        stored_views(files@),
                        policy@,
                        records@.len() as nat,
                    ),
                )
            }
        }),
{
    let budget: i64 = match budget_override {
        Some(flag) => flag,
        None => match policy.budget {
            Some(configured) => configured,
            None => match box_meta.detected_total {
                Some(detected) => detected,
                None => {
                    return Err(BuildError::NoBudget);
                },
            },
        },
    };
    let found = match scan_roster(records, files, policy) {
        Ok(found) => found,
        Err(error) => {
            return Err(error);
        },
    };
    let ghost scanned = found@;
    let host = host_of(&found, policy, box_meta);
    let input = BuildInput {
        models: &found.footprints,
        policy,
        baseline: box_meta.baseline,
        budget,
        host,
    };
    proof {
        assert(input@ =~= resolved_input(scanned, policy@, box_meta@, budget));
    }
    let mut plan = match build(&input) {
        Ok(plan) => plan,
        Err(error) => {
            return Err(error);
        },
    };
    let ghost built = plan@;
    let room = room_for(&plan, &found, host);
    let advice = cap_advice_of(&plan, policy, room);
    let doubts = evidence_of(&found, &plan.sets);
    append_names(&mut plan.warnings, &advice);
    append_names(&mut plan.warnings, &doubts);
    append_names(&mut plan.excluded, &found.unmeasured);
    append_names(&mut plan.excluded, &found.dropped);
    plan.host_skipped = host_reason_of(&found, policy, box_meta);
    plan.host_cram_gb = room.cap();
    plan.unconfirmed = found.unconfirmed;
    proof {
        let wanted = with_evidence(built, scanned, policy@, box_meta@);
        assert(plan@.warnings == wanted.warnings);
        assert(plan@.excluded == wanted.excluded);
        assert(plan@ =~= wanted);
        assert(plan@.ceiling == resolved_input(scanned, policy@, box_meta@, budget).ceiling());
    }
    let ghost evidenced = plan@;
    if is_crowded(&found.footprints, box_meta.baseline, plan.ceiling) {
        let others = alternatives_of(records, files, policy);
        append_names(&mut plan.warnings, &others);
        proof {
            assert(plan@ =~= PlanView {
                warnings: evidenced.warnings + views(others@),
                ..evidenced
            });
        }
    }
    Ok(plan)
}

// ---- the members of a set -------------------------------------------------------------------

/// The id that each term of an expression loads: its only one, or the first alternative. A
/// reference to a helper set loads nothing by itself.
pub open spec fn direct_ids(terms: Seq<Seq<char>>) -> Seq<Seq<char>>
    decreases terms.len(),
{
    if terms.len() == 0 {
        Seq::empty()
    } else {
        let before = direct_ids(terms.drop_last());
        let tokens = expr_names(terms.last());
        if tokens.len() > 0 && !starts(tokens[0], "+"@) {
            before.push(tokens[0])
        } else {
            before
        }
    }
}

/// The expression of the first set with this name.
pub open spec fn expr_of_set(sets: Seq<SetView>, name: Seq<char>) -> Option<Seq<char>>
    decreases sets.len(),
{
    if sets.len() == 0 {
        None
    } else if sets[0].name == name {
        Some(sets[0].expr)
    } else {
        expr_of_set(sets.skip(1), name)
    }
}

/// The ids that the terms of an expression load, helper references followed.
pub open spec fn followed_ids(sets: Seq<SetView>, terms: Seq<Seq<char>>) -> Seq<Seq<char>>
    decreases terms.len(),
{
    if terms.len() == 0 {
        Seq::empty()
    } else {
        let before = followed_ids(sets, terms.drop_last());
        let tokens = expr_names(terms.last());
        if tokens.len() == 0 {
            before
        } else if starts(tokens[0], "+"@) {
            match expr_of_set(sets, tokens[0].skip("+"@.len() as int)) {
                Some(expr) => before + direct_ids(pieces(expr, '&')),
                None => before,
            }
        } else {
            before.push(tokens[0])
        }
    }
}

/// The ids that a set loads: one of each alternative, with helper references followed.
pub open spec fn member_ids(sets: Seq<SetView>, expr: Seq<char>) -> Seq<Seq<char>> {
    followed_ids(sets, pieces(expr, '&'))
}

fn direct_ids_of(expr: &str) -> (ids: Vec<String>)
    ensures
        views(ids@) == direct_ids(pieces(expr@, '&')),
{
    let terms = split_on(expr, '&');
    let ghost all = views(terms@);
    let mut ids: Vec<String> = Vec::new();
    let mut at: usize = 0;
    proof {
        assert(views(ids@) =~= direct_ids(all.take(0)));
    }
    while at < terms.len()
        invariant
            at <= terms@.len(),
            all == views(terms@),
            views(ids@) == direct_ids(all.take(at as int)),
        decreases terms@.len() - at,
    {
        let tokens = expr_tokens(terms[at].as_str());
        proof {
            assert(all.take(at + 1).drop_last() =~= all.take(at as int));
            assert(all.take(at + 1).last() == terms@[at as int]@);
        }
        if tokens.len() > 0 {
            proof {
                assert(views(tokens@)[0] == tokens@[0]@);
            }
            if !crate::text::starts_with(tokens[0].as_str(), "+") {
                push_name(&mut ids, &tokens[0]);
            }
        }
        at = at + 1;
    }
    proof {
        assert(all.take(at as int) =~= all);
    }
    ids
}

pub(crate) fn find_expr<'a>(sets: &'a Vec<EmittedSet>, name: &str) -> (r: Option<&'a String>)
    ensures
        match r {
            Some(expr) => expr_of_set(views(sets@), name@) == Some(expr@),
            None => expr_of_set(views(sets@), name@) is None,
        },
{
    let ghost all = views(sets@);
    let mut at: usize = 0;
    proof {
        assert(all.skip(0) =~= all);
    }
    while at < sets.len()
        invariant
            at <= sets@.len(),
            all == views(sets@),
            expr_of_set(all.skip(at as int), name@) == expr_of_set(all, name@),
        decreases sets@.len() - at,
    {
        proof {
            assert(all.skip(at as int)[0] == sets@[at as int]@);
            assert(all.skip(at as int).skip(1) =~= all.skip(at + 1));
        }
        if same(sets[at].name.as_str(), name) {
            return Some(&sets[at].expr);
        }
        at = at + 1;
    }
    None
}

/// The ids that a set loads: one of each alternative, with helper references followed.
pub fn set_member_ids(sets: &Vec<EmittedSet>, set: &EmittedSet) -> (ids: Vec<String>)
    ensures
        views(ids@) == member_ids(views(sets@), set@.expr),
{
    let terms = split_on(set.expr.as_str(), '&');
    let ghost all = views(terms@);
    let ghost known = views(sets@);
    let mut ids: Vec<String> = Vec::new();
    let mut at: usize = 0;
    proof {
        assert(views(ids@) =~= followed_ids(known, all.take(0)));
    }
    while at < terms.len()
        invariant
            at <= terms@.len(),
            all == views(terms@),
            known == views(sets@),
            views(ids@) == followed_ids(known, all.take(at as int)),
        decreases terms@.len() - at,
    {
        let tokens = expr_tokens(terms[at].as_str());
        proof {
            assert(all.take(at + 1).drop_last() =~= all.take(at as int));
            assert(all.take(at + 1).last() == terms@[at as int]@);
        }
        if tokens.len() > 0 {
            proof {
                assert(views(tokens@)[0] == tokens@[0]@);
            }
            match strip_prefix(tokens[0].as_str(), "+") {
                Some(name) => {
                    if let Some(expr) = find_expr(sets, name.as_str()) {
                        append_names(&mut ids, &direct_ids_of(expr.as_str()));
                    }
                },
                None => {
                    push_name(&mut ids, &tokens[0]);
                },
            }
        }
        at = at + 1;
    }
    proof {
        assert(all.take(at as int) =~= all);
    }
    ids
}

// ---- who depends on whom --------------------------------------------------------------------

/// A set that names one of some ids is among those that depend on them.
pub proof fn law_a_set_depends_on_whom_it_names(
    sets: Seq<SetView>,
    ids: Seq<Seq<char>>,
    i: int,
    id: Seq<char>,
)
    requires
        0 <= i < sets.len(),
        ids.contains(id),
        expr_names(sets[i].expr).contains(id),
    ensures
        dependents(sets, ids).contains(sets[i].name),
{
    lemma_overlaps(expr_names(sets[i].expr), ids, id);
    lemma_dependent(sets, ids, helper_references(sets, ids), i);
}

/// So is a set that refers to a set which names one of them: a variant is in a pack only by its
/// helper set, and a ride-along only by its pool.
pub proof fn law_a_set_depends_on_whom_its_helpers_name(
    sets: Seq<SetView>,
    ids: Seq<Seq<char>>,
    i: int,
    h: int,
    id: Seq<char>,
)
    requires
        0 <= i < sets.len(),
        0 <= h < sets.len(),
        ids.contains(id),
        expr_names(sets[h].expr).contains(id),
        expr_names(sets[i].expr).contains("+"@ + sets[h].name),
    ensures
        dependents(sets, ids).contains(sets[i].name),
{
    lemma_overlaps(expr_names(sets[h].expr), ids, id);
    lemma_reference(sets, ids, h);
    lemma_overlaps(
        expr_names(sets[i].expr),
        helper_references(sets, ids),
        "+"@ + sets[h].name,
    );
    lemma_dependent(sets, ids, helper_references(sets, ids), i);
}

proof fn lemma_overlaps(a: Seq<Seq<char>>, b: Seq<Seq<char>>, name: Seq<char>)
    requires
        a.contains(name),
        b.contains(name),
    ensures
        overlap(a, b),
{
    let i = choose|i: int| 0 <= i < a.len() && a[i] == name;
    assert(b.contains(a[i]));
}

proof fn lemma_reference(sets: Seq<SetView>, ids: Seq<Seq<char>>, h: int)
    requires
        0 <= h < sets.len(),
        overlap(expr_names(sets[h].expr), ids),
    ensures
        helper_references(sets, ids).contains("+"@ + sets[h].name),
    decreases sets.len(),
{
    let before = helper_references(sets.drop_last(), ids);
    if h < sets.len() - 1 {
        lemma_reference(sets.drop_last(), ids, h);
        let k = choose|k: int| 0 <= k < before.len() && before[k] == "+"@ + sets[h].name;
        assert(helper_references(sets, ids)[k] == "+"@ + sets[h].name);
    } else {
        assert(helper_references(sets, ids)[before.len() as int] == "+"@ + sets[h].name);
    }
}

proof fn lemma_dependent(
    sets: Seq<SetView>,
    ids: Seq<Seq<char>>,
    references: Seq<Seq<char>>,
    i: int,
)
    requires
        0 <= i < sets.len(),
        overlap(expr_names(sets[i].expr), ids) || overlap(expr_names(sets[i].expr), references),
    ensures
        names_of_dependents(sets, ids, references).contains(sets[i].name),
    decreases sets.len(),
{
    let before = names_of_dependents(sets.drop_last(), ids, references);
    let after = names_of_dependents(sets, ids, references);
    if i < sets.len() - 1 {
        lemma_dependent(sets.drop_last(), ids, references, i);
        let k = choose|k: int| 0 <= k < before.len() && before[k] == sets[i].name;
        assert(after[k] == sets[i].name);
    } else {
        assert(after[before.len() as int] == sets[i].name);
    }
}

/// Only sets that name one of the ids, or refer to a set that does, depend on them.
pub proof fn law_only_such_sets_depend_on_them(
    sets: Seq<SetView>,
    ids: Seq<Seq<char>>,
    k: int,
)
    requires
        0 <= k < dependents(sets, ids).len(),
    ensures
        exists|i: int|
            0 <= i < sets.len() && (#[trigger] sets[i]).name == dependents(sets, ids)[k] && (
            names_one_of(sets[i], ids) || exists|h: int|
                0 <= h < sets.len() && names_one_of(#[trigger] sets[h], ids) && expr_names(
                    sets[i].expr,
                ).contains("+"@ + sets[h].name)),
{
    let references = helper_references(sets, ids);
    let i = lemma_a_dependent(sets, ids, references, k);
    let tokens = expr_names(sets[i].expr);
    if overlap(tokens, ids) {
        assert(names_one_of(sets[i], ids));
    } else {
        let t = choose|t: int| 0 <= t < tokens.len() && references.contains(#[trigger] tokens[t]);
        let r = choose|r: int| 0 <= r < references.len() && references[r] == tokens[t];
        let h = lemma_a_reference(sets, ids, r);
        assert(names_one_of(sets[h], ids));
        assert(tokens.contains("+"@ + sets[h].name));
    }
}

/// A set's expression names one of some ids.
pub open spec fn names_one_of(set: SetView, ids: Seq<Seq<char>>) -> bool {
    exists|id: Seq<char>| ids.contains(id) && #[trigger] expr_names(set.expr).contains(id)
}

proof fn lemma_names_one_of(set: SetView, ids: Seq<Seq<char>>)
    requires
        overlap(expr_names(set.expr), ids),
    ensures
        names_one_of(set, ids),
{
    let tokens = expr_names(set.expr);
    let t = choose|t: int| 0 <= t < tokens.len() && ids.contains(#[trigger] tokens[t]);
    assert(tokens.contains(tokens[t]));
}

proof fn lemma_a_dependent(
    sets: Seq<SetView>,
    ids: Seq<Seq<char>>,
    references: Seq<Seq<char>>,
    k: int,
) -> (i: int)
    requires
        0 <= k < names_of_dependents(sets, ids, references).len(),
    ensures
        0 <= i < sets.len(),
        sets[i].name == names_of_dependents(sets, ids, references)[k],
        overlap(expr_names(sets[i].expr), ids) || overlap(expr_names(sets[i].expr), references),
        overlap(expr_names(sets[i].expr), ids) ==> names_one_of(sets[i], ids),
    decreases sets.len(),
{
    let before = names_of_dependents(sets.drop_last(), ids, references);
    if k < before.len() {
        lemma_a_dependent(sets.drop_last(), ids, references, k)
    } else {
        if overlap(expr_names(sets.last().expr), ids) {
            lemma_names_one_of(sets.last(), ids);
        }
        sets.len() - 1
    }
}

proof fn lemma_a_reference(sets: Seq<SetView>, ids: Seq<Seq<char>>, r: int) -> (h: int)
    requires
        0 <= r < helper_references(sets, ids).len(),
    ensures
        0 <= h < sets.len(),
        helper_references(sets, ids)[r] == "+"@ + sets[h].name,
        names_one_of(sets[h], ids),
    decreases sets.len(),
{
    let before = helper_references(sets.drop_last(), ids);
    if r < before.len() {
        lemma_a_reference(sets.drop_last(), ids, r)
    } else {
        lemma_names_one_of(sets.last(), ids);
        sets.len() - 1
    }
}

// ---- what is said of the evidence ---------------------------------------------------------

/// A model whose footprint is used.
pub open spec fn is_used(record: RecordView, file: Option<StoreView>, policy: PolicyView) -> bool {
    &&& footprint_in(record, file) is Some
    &&& policy.on_unconfirmed == OnUnconfirmed::Exclude ==> record.model_type
        == ModelType::TtsProxy || reading_confirmed(footprint_in(record, file)->0)
}

proof fn lemma_scanned(
    records: Seq<RecordView>,
    files: Seq<Option<StoreView>>,
    policy: PolicyView,
    bound: nat,
    i: int,
)
    requires
        0 <= i < bound <= records.len() == files.len(),
        is_used(records[i], files[i], policy),
    ensures
        ({
            let found = scan(records, files, policy, bound);
            let reading = footprint_in(records[i], files[i])->0;
            &&& reading.contended == Some(true) ==> found.contended.contains(records[i].id)
            &&& reading.weights_gb is Some && 0 < reading.weights_gb->0 && reading.d_total * 10
                < reading.weights_gb->0 * 9 ==> found.suspect.contains(
                suspect_text(
                    records[i].id,
                    reading.d_total as int,
                    reading.weights_gb->0 as int,
                ),
            )
            &&& reading.d_host is None && records[i].model_type != ModelType::TtsProxy
                ==> found.host_unmeasured.contains(records[i].id)
        }),
    decreases bound,
{
    let fewer = (bound - 1) as nat;
    let before = scan(records, files, policy, fewer);
    let after = scan(records, files, policy, bound);
    let reading = footprint_in(records[i], files[i])->0;
    let text = suspect_text(
        records[i].id,
        reading.d_total as int,
        reading.weights_gb->0 as int,
    );
    if i < fewer {
        lemma_scanned(records, files, policy, fewer, i);
        if before.contended.contains(records[i].id) {
            let k = choose|k: int|
                0 <= k < before.contended.len() && before.contended[k] == records[i].id;
            assert(after.contended[k] == records[i].id);
        }
        if before.suspect.contains(text) {
            let k = choose|k: int| 0 <= k < before.suspect.len() && before.suspect[k] == text;
            assert(after.suspect[k] == text);
        }
        if before.host_unmeasured.contains(records[i].id) {
            let k = choose|k: int|
                0 <= k < before.host_unmeasured.len() && before.host_unmeasured[k]
                    == records[i].id;
            assert(after.host_unmeasured[k] == records[i].id);
        }
    } else {
        if reading.contended == Some(true) {
            assert(after.contended[before.contended.len() as int] == records[i].id);
        }
        if under_weights(reading) {
            assert(after.suspect[before.suspect.len() as int] == text);
        }
        if reading.d_host is None && records[i].model_type != ModelType::TtsProxy {
            assert(after.host_unmeasured[before.host_unmeasured.len() as int] == records[i].id);
        }
    }
}

/// A plan warns of every footprint below nine tenths of its weights, by name.
pub proof fn law_a_footprint_below_its_weights_is_warned_of(
    plan: PlanView,
    records: Seq<RecordView>,
    files: Seq<Option<StoreView>>,
    policy: PolicyView,
    meta: BoxView,
    i: int,
)
    requires
        0 <= i < records.len() == files.len(),
        is_used(records[i], files[i], policy),
        ({
            let reading = footprint_in(records[i], files[i])->0;
            reading.weights_gb is Some && 0 < reading.weights_gb->0 && reading.d_total * 10
                < reading.weights_gb->0 * 9
        }),
    ensures
        ({
            let found = scan(records, files, policy, records.len());
            let reading = footprint_in(records[i], files[i])->0;
            with_evidence(plan, found, policy, meta).warnings.contains(
                suspect_text(
                    records[i].id,
                    reading.d_total as int,
                    reading.weights_gb->0 as int,
                ),
            )
        }),
{
    lemma_scanned(records, files, policy, records.len(), i);
    let found = scan(records, files, policy, records.len());
    let reading = footprint_in(records[i], files[i])->0;
    let text = suspect_text(
        records[i].id,
        reading.d_total as int,
        reading.weights_gb->0 as int,
    );
    let k = choose|k: int| 0 <= k < found.suspect.len() && found.suspect[k] == text;
    let afford = plan_affords(plan, found, host_side(found, policy, meta));
    let advice = cap_advice(plan, policy, afford);
    let warnings = with_evidence(plan, found, policy, meta).warnings;
    assert(warnings[plan.warnings.len() + advice.len() + k] == text);
}

/// A plan warns where a footprint was measured in company, and names the model.
pub proof fn law_company_is_warned_of(
    plan: PlanView,
    records: Seq<RecordView>,
    files: Seq<Option<StoreView>>,
    policy: PolicyView,
    meta: BoxView,
    i: int,
)
    requires
        0 <= i < records.len() == files.len(),
        is_used(records[i], files[i], policy),
        footprint_in(records[i], files[i])->0.contended == Some(true),
    ensures
        ({
            let found = scan(records, files, policy, records.len());
            &&& found.contended.contains(records[i].id)
            &&& with_evidence(plan, found, policy, meta).warnings.contains(
                contended_text(found.contended),
            )
        }),
{
    lemma_scanned(records, files, policy, records.len(), i);
    let found = scan(records, files, policy, records.len());
    let afford = plan_affords(plan, found, host_side(found, policy, meta));
    let advice = cap_advice(plan, policy, afford);
    let warnings = with_evidence(plan, found, policy, meta).warnings;
    let at = plan.warnings.len() as int + advice.len() + found.suspect.len();
    assert(warnings[at] == contended_text(found.contended));
}

/// Where sets are over the host ceiling and the policy warns of them, the plan says which cap on
/// prompt caches keeps them under it, or that none does.
pub proof fn law_a_full_host_is_advised_on(
    plan: PlanView,
    found: ScanView,
    policy: PolicyView,
    meta: BoxView,
    cap: int,
)
    requires
        plan.host_over.len() > 0,
        policy.on_host_overflow == OnHostOverflow::Warn,
        cap >= 0,
    ensures
        ({
            let after = with_evidence(plan, found, policy, meta);
            &&& after.host_cram_gb is None ==> after.warnings.contains(no_cap_text())
            &&& after.host_cram_gb == Some(cap * 1_000_000) ==> after.warnings.contains(
                "`-cram "@ + digits(cap as nat)
                    + "` on every llama-server entry that states none keeps every declared set under the host ceiling"@,
            )
        }),
{
    let after = with_evidence(plan, found, policy, meta);
    let afford = plan_affords(plan, found, host_side(found, policy, meta));
    let advice = cap_advice(plan, policy, afford);
    assert(after.warnings[plan.warnings.len() as int] == advice[0]);
    assert(cap * 1_000_000 / 1_000_000 == cap);
}

/// The host side is left out, and the reason given, where any model's cost to the host is
/// unknown.
pub proof fn law_an_unknown_host_cost_is_a_reason(
    plan: PlanView,
    records: Seq<RecordView>,
    files: Seq<Option<StoreView>>,
    policy: PolicyView,
    meta: BoxView,
    i: int,
)
    requires
        0 <= i < records.len() == files.len(),
        is_used(records[i], files[i], policy),
        footprint_in(records[i], files[i])->0.d_host is None,
        records[i].model_type != ModelType::TtsProxy,
    ensures
        ({
            let found = scan(records, files, policy, records.len());
            &&& host_side(found, policy, meta) is None
            &&& with_evidence(plan, found, policy, meta).host_skipped is Some
        }),
{
    lemma_scanned(records, files, policy, records.len(), i);
}

/// Of a term, the first alternative is the one that a trial loads; a helper set's terms are
/// followed.
pub proof fn law_a_trial_loads_the_first_alternative(
    sets: Seq<SetView>,
    terms: Seq<Seq<char>>,
    term: Seq<char>,
)
    requires
        expr_names(term).len() > 0,
    ensures
        !starts(expr_names(term)[0], "+"@) ==> followed_ids(sets, terms.push(term))
            == followed_ids(sets, terms).push(expr_names(term)[0]),
        !starts(expr_names(term)[0], "+"@) ==> direct_ids(terms.push(term)) == direct_ids(
            terms,
        ).push(expr_names(term)[0]),
        starts(expr_names(term)[0], "+"@) && expr_of_set(
            sets,
            expr_names(term)[0].skip(1),
        ) is Some ==> followed_ids(sets, terms.push(term)) == followed_ids(sets, terms)
            + direct_ids(pieces(expr_of_set(sets, expr_names(term)[0].skip(1))->0, '&')),
{
    reveal_strlit("+");
    assert(terms.push(term).drop_last() =~= terms);
}

// ---- whom an expression names ---------------------------------------------------------------

/// A name that can stand in an expression: neither empty nor with anything in it that separates
/// names.
pub open spec fn is_name(name: Seq<char>) -> bool {
    name.len() > 0 && forall|i: int|
        0 <= i < name.len() ==> !is_space(#[trigger] name[i]) && name[i] != '&' && name[i] != '|'
            && name[i] != '(' && name[i] != ')'
}

proof fn lemma_a_name_more(before: Seq<char>, name: Seq<char>)
    requires
        is_name(name),
        before.len() > 0 ==> between_names(before.last()),
    ensures
        expr_names(before + name) == expr_names(before).push(name),
{
    let separator = |c: char| between_names(c);
    crate::text::law_a_run_is_a_field(before, name, Seq::empty(), separator);
    assert(before + name + Seq::<char>::empty() =~= before + name);
    assert(expr_names(before).push(name) + Seq::<Seq<char>>::empty() =~= expr_names(before).push(
        name,
    ));
}

proof fn lemma_a_separator_more(before: Seq<char>, c: char)
    requires
        between_names(c),
    ensures
        expr_names(before.push(c)) == expr_names(before),
{
    let separator = |c: char| between_names(c);
    assert(before.push(c).drop_last() =~= before);
    let (closed, open) = runs(before, separator);
    assert(separator(c));
}

proof fn lemma_names_between(names: Seq<Seq<char>>, sign: char, head: Seq<char>)
    requires
        names.len() > 0,
        forall|i: int| 0 <= i < names.len() ==> is_name(#[trigger] names[i]),
        sign == '&' || sign == '|',
        head.len() == 0 || head == seq!['('],
    ensures
        expr_names(head + joined(names, seq![' ', sign, ' '])) == names,
    decreases names.len(),
{
    let between = seq![' ', sign, ' '];
    let last = names.last();
    let fewer = names.drop_last();
    assert(is_name(names[names.len() - 1]));
    if names.len() == 1 {
        lemma_a_name_more(head, last);
        if head.len() > 0 {
            assert(head =~= Seq::<char>::empty().push('('));
            lemma_a_separator_more(Seq::empty(), '(');
        } else {
            assert(head =~= Seq::empty());
        }
        assert(expr_names(Seq::empty()) =~= Seq::<Seq<char>>::empty());
        assert(Seq::<Seq<char>>::empty().push(last) =~= names);
        assert(joined(names, between) == last);
    } else {
        assert forall|i: int| 0 <= i < fewer.len() implies is_name(#[trigger] fewer[i]) by {
            assert(is_name(names[i]));
        }
        lemma_names_between(fewer, sign, head);
        let text = head + joined(fewer, between);
        lemma_a_separator_more(text, ' ');
        lemma_a_separator_more(text.push(' '), sign);
        lemma_a_separator_more(text.push(' ').push(sign), ' ');
        let open = text.push(' ').push(sign).push(' ');
        lemma_a_name_more(open, last);
        assert(head + joined(names, between) =~= open + last);
        assert(fewer.push(last) =~= names);
    }
}

/// An alternative names each of its variants, and a combination each of its members, in order.
pub proof fn law_an_expression_names_its_models(names: Seq<Seq<char>>)
    requires
        names.len() > 0,
        forall|i: int| 0 <= i < names.len() ==> is_name(#[trigger] names[i]),
    ensures
        expr_names(joined(names, " & "@)) == names,
        expr_names("("@ + joined(names, " | "@) + ")"@) == names,
{
    reveal_strlit(" & ");
    reveal_strlit(" | ");
    reveal_strlit("(");
    reveal_strlit(")");
    assert(" & "@ =~= seq![' ', '&', ' ']);
    assert(" | "@ =~= seq![' ', '|', ' ']);
    assert("("@ =~= seq!['(']);
    lemma_names_between(names, '&', Seq::empty());
    assert(Seq::<char>::empty() + joined(names, " & "@) =~= joined(names, " & "@));
    lemma_names_between(names, '|', seq!['(']);
    let text = "("@ + joined(names, " | "@);
    lemma_a_separator_more(text, ')');
    assert(text + ")"@ =~= text.push(')'));
}

} // verus!
