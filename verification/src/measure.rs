//! The solo-footprint sweep: what is loaded, what each load comes to, and what is recorded.
//!
//! A sweep loads each model alone, reads occupancy once the allocation has settled, and
//! files the delta over the empty pool under the model's param-hash. Loading, waiting and
//! reading sensors is the frontend's; every decision between them is here.

use vstd::prelude::*;
use vstd::string::*;

use crate::cache::{
    blank_box, blank_reading, reading_confirmed, reading_ok, table_with, under_weights, BoxMeta,
    BoxView, Measurement, ModelStore, ReadingView, StoreView,
};
use crate::model::{name_of_type, text_view, ModelRecord, ModelType, RecordView};
use crate::number::{
    digits, gb2, gb2_text, magnitude, number_text, parse_u64, percent, percent_text, unsigned,
};
use crate::param_hash::{memory_cmd, memory_text};
use crate::plan::places;
use crate::sampling::{
    floor_with, higher, hundredths, note_floor, round2, Allocation, ClearedPool, Stabilized,
    CONTENTION_EPS, STABILIZE_MAX_WAIT_S,
};
use crate::serving::Serving;
use crate::tables::lookup;
use crate::text::{has_name, join, joined, lemma_views_push, trim, trim_both, views};
use crate::units::copied_names;

verus! {

// ---- options and reports ------------------------------------------------------------------

/// How long to wait for a model to be ready, in seconds.
pub const DEFAULT_LOAD_TIMEOUT_S: u64 = 300;

/// How long to wait for the load-trigger to finish, in seconds. Overrunning it makes a
/// footprint unconfirmed, not wrong.
pub const DEFAULT_TRIGGER_TIMEOUT_S: u64 = 900;

/// Knobs for a sweep.
#[derive(Debug)]
pub struct MeasureOptions {
    pub endpoint: String,
    /// Measure again even what is stored.
    pub force: bool,
    /// Restrict the sweep to these ids.
    pub only: Option<Vec<String>>,
    /// How long a model may take to be ready, in seconds.
    pub load_timeout_s: u64,
    /// How long the load-trigger may take, in seconds.
    pub trigger_timeout_s: u64,
    /// `WxH` for the image load-trigger.
    pub probe_image_size: String,
}

/// A sweep's progress, for a frontend that shows it. Counts start at one.
#[derive(Debug)]
pub enum Progress<'a> {
    /// About to load a model.
    Loading { index: usize, total: usize, id: &'a str },
    /// Finished with it; `outcome` is a line to show.
    Done { index: usize, total: usize, id: &'a str, outcome: String },
}

/// One model that something is to be said of, and what.
#[derive(Debug)]
pub struct Failure {
    pub id: String,
    pub reason: String,
}

/// What a failure says.
#[verifier::ext_equal]
pub struct FailureView {
    pub id: Seq<char>,
    pub reason: Seq<char>,
}

impl View for Failure {
    type V = FailureView;

    open spec fn view(&self) -> FailureView {
        FailureView { id: self.id@, reason: self.reason@ }
    }
}

/// A footprint taken over from a renamed model's file.
#[derive(Debug)]
pub struct Adopted {
    pub id: String,
    /// The id it was filed under.
    pub from: String,
    pub d_total: i64,
}

#[verifier::ext_equal]
pub struct AdoptedView {
    pub id: Seq<char>,
    pub from: Seq<char>,
    pub d_total: i64,
}

impl View for Adopted {
    type V = AdoptedView;

    open spec fn view(&self) -> AdoptedView {
        AdoptedView { id: self.id@, from: self.from@, d_total: self.d_total }
    }
}

/// A measurement that did not reproduce the stored footprint.
#[derive(Debug)]
pub struct Remeasured {
    pub id: String,
    pub previous: i64,
    pub current: i64,
    /// When the stored number was taken.
    pub previous_measured_at: String,
}

#[verifier::ext_equal]
pub struct RemeasuredView {
    pub id: Seq<char>,
    pub previous: i64,
    pub current: i64,
    pub previous_measured_at: Seq<char>,
}

impl View for Remeasured {
    type V = RemeasuredView;

    open spec fn view(&self) -> RemeasuredView {
        RemeasuredView {
            id: self.id@,
            previous: self.previous,
            current: self.current,
            previous_measured_at: self.previous_measured_at@,
        }
    }
}

/// Two footprints of one command are further apart than a quarter GB and a fiftieth of the
/// earlier one: the first covers small models, the second large ones.
pub open spec fn footprints_disagree(previous: int, current: int) -> bool {
    magnitude(previous - current) > 256_000_000 && magnitude(previous - current) * 50 > magnitude(
        previous,
    )
}

impl Remeasured {
    /// Do two footprints of the same command disagree by enough to be worth attention?
    pub fn disagree(previous: i64, current: i64) -> (r: bool)
        ensures
            r == footprints_disagree(previous as int, current as int),
    {
        let step: i128 = previous as i128 - current as i128;
        let size: i128 = if step < 0 {
            -step
        } else {
            step
        };
        let base: i128 = if previous < 0 {
            -(previous as i128)
        } else {
            previous as i128
        };
        size > 256_000_000 && size * 50 > base
    }
}

/// What a sweep did. Amounts are in units.
#[derive(Debug)]
pub struct MeasureSummary {
    pub measured: Vec<String>,
    pub cached: Vec<String>,
    pub failed: Vec<Failure>,
    pub skipped_missing: Vec<String>,
    /// Recorded without confirming which command was loaded: permanent for some backends, so
    /// it is told, and no more.
    pub unverified_serving: Vec<String>,
    /// Recorded without confirming that the allocation finished.
    pub unconfirmed_allocation: Vec<Failure>,
    /// Implausibly small for the weight files the command names.
    pub below_weight_floor: Vec<Failure>,
    /// Measured while something else was in the pool, so at most too high.
    pub contended: Vec<Failure>,
    pub adopted: Vec<Adopted>,
    pub changed: Vec<Remeasured>,
    /// The pool was never seen empty, so the stored baseline was kept.
    pub no_empty_pool: bool,
    /// The baseline recorded before, where this sweep's is not the same.
    pub baseline_was: Option<i64>,
    pub baseline: i64,
    pub detected_total: i64,
    pub host_baseline: Option<i64>,
    pub host_total: Option<i64>,
}

/// What a summary says.
#[verifier::ext_equal]
pub struct SummaryView {
    pub measured: Seq<Seq<char>>,
    pub cached: Seq<Seq<char>>,
    pub failed: Seq<FailureView>,
    pub skipped_missing: Seq<Seq<char>>,
    pub unverified_serving: Seq<Seq<char>>,
    pub unconfirmed_allocation: Seq<FailureView>,
    pub below_weight_floor: Seq<FailureView>,
    pub contended: Seq<FailureView>,
    pub adopted: Seq<AdoptedView>,
    pub changed: Seq<RemeasuredView>,
    pub no_empty_pool: bool,
    pub baseline_was: Option<i64>,
    pub baseline: i64,
    pub detected_total: i64,
    pub host_baseline: Option<i64>,
    pub host_total: Option<i64>,
}

impl View for MeasureSummary {
    type V = SummaryView;

    open spec fn view(&self) -> SummaryView {
        SummaryView {
            measured: views(self.measured@),
            cached: views(self.cached@),
            failed: views(self.failed@),
            skipped_missing: views(self.skipped_missing@),
            unverified_serving: views(self.unverified_serving@),
            unconfirmed_allocation: views(self.unconfirmed_allocation@),
            below_weight_floor: views(self.below_weight_floor@),
            contended: views(self.contended@),
            adopted: views(self.adopted@),
            changed: views(self.changed@),
            no_empty_pool: self.no_empty_pool,
            baseline_was: self.baseline_was,
            baseline: self.baseline,
            detected_total: self.detected_total,
            host_baseline: self.host_baseline,
            host_total: self.host_total,
        }
    }
}

fn push_name(names: &mut Vec<String>, name: &String)
    ensures
        views(final(names)@) == views(old(names)@).push(name@),
{
    let owned = name.clone();
    proof {
        lemma_views_push(names@, owned);
    }
    names.push(owned);
}

fn push_failure(failures: &mut Vec<Failure>, id: &String, reason: String)
    ensures
        views(final(failures)@) == views(old(failures)@).push(
            FailureView { id: id@, reason: reason@ },
        ),
{
    let failure = Failure { id: id.clone(), reason };
    proof {
        lemma_views_push(failures@, failure);
    }
    failures.push(failure);
}

// ---- the worklist -------------------------------------------------------------------------

/// A model is work if it is no proxy, and one of those asked for.
pub open spec fn is_work(record: RecordView, only: Option<Seq<Seq<char>>>) -> bool {
    record.model_type != ModelType::TtsProxy && (only is Some ==> only->0.contains(record.id))
}

/// The positions below `bound` of the models that are work.
pub open spec fn work_among(
    records: Seq<RecordView>,
    only: Option<Seq<Seq<char>>>,
    bound: nat,
) -> Seq<int>
    decreases bound,
{
    if bound == 0 {
        Seq::empty()
    } else {
        let before = work_among(records, only, (bound - 1) as nat);
        if is_work(records[bound - 1], only) {
            before.push(bound - 1)
        } else {
            before
        }
    }
}

pub open spec fn names_view(names: Option<Vec<String>>) -> Option<Seq<Seq<char>>> {
    match names {
        Some(list) => Some(views(list@)),
        None => None,
    }
}

/// The positions of the models to load, in order.
pub fn worklist(records: &Vec<ModelRecord>, only: &Option<Vec<String>>) -> (work: Vec<usize>)
    ensures
        places(work@) == work_among(
            views(records@),
            names_view(*only),
            records@.len() as nat,
        ),
        forall|i: int| 0 <= i < work@.len() ==> #[trigger] work@[i] < records@.len(),
{
    let ghost all = views(records@);
    let ghost wanted = names_view(*only);
    let mut work: Vec<usize> = Vec::new();
    let mut at: usize = 0;
    proof {
        assert(places(work@) =~= work_among(all, wanted, 0));
    }
    while at < records.len()
        invariant
            at <= records@.len(),
            all == views(records@),
            wanted == names_view(*only),
            places(work@) == work_among(all, wanted, at as nat),
            forall|i: int| 0 <= i < work@.len() ==> #[trigger] work@[i] < records@.len(),
        decreases records@.len() - at,
    {
        let record = &records[at];
        let asked = match only {
            Some(list) => has_name(list, record.id.as_str()),
            None => true,
        };
        proof {
            assert(all[at as int] == record@);
            assert(places(work@.push(at)) =~= places(work@).push(
                at as int,
            ));
        }
        if record.model_type != ModelType::TtsProxy && asked {
            work.push(at);
        }
        at = at + 1;
    }
    work
}

/// A sweep loads what is work, and nothing else: no proxy, and nobody who was not asked for.
pub proof fn law_the_worklist_holds_just_the_work(
    records: Seq<RecordView>,
    only: Option<Seq<Seq<char>>>,
    bound: nat,
    i: int,
)
    requires
        0 <= i < bound <= records.len(),
    ensures
        work_among(records, only, bound).contains(i) <==> is_work(records[i], only),
    decreases bound,
{
    let before = work_among(records, only, (bound - 1) as nat);
    let work = work_among(records, only, bound);
    lemma_work_is_below(records, only, (bound - 1) as nat);
    if i < bound - 1 {
        law_the_worklist_holds_just_the_work(records, only, (bound - 1) as nat, i);
        if before.contains(i) {
            let k = choose|k: int| 0 <= k < before.len() && before[k] == i;
            assert(work[k] == i);
        }
        if work.contains(i) {
            let k = choose|k: int| 0 <= k < work.len() && work[k] == i;
            assert(before[k] == i);
        }
    } else if is_work(records[i], only) {
        assert(work[before.len() as int] == i);
    }
}

proof fn lemma_work_is_below(records: Seq<RecordView>, only: Option<Seq<Seq<char>>>, bound: nat)
    ensures
        forall|k: int|
            0 <= k < work_among(records, only, bound).len() ==> 0 <= #[trigger] work_among(
                records,
                only,
                bound,
            )[k] < bound,
    decreases bound,
{
    if bound > 0 {
        let before = work_among(records, only, (bound - 1) as nat);
        let work = work_among(records, only, bound);
        lemma_work_is_below(records, only, (bound - 1) as nat);
        assert forall|k: int| 0 <= k < work.len() implies 0 <= #[trigger] work[k] < bound by {
            if k < before.len() {
                assert(work[k] == before[k]);
            }
        }
    }
}

// ---- the lock -----------------------------------------------------------------------------------

/// The process that a lock file names, where it names one.
pub open spec fn lock_owner(contents: Seq<char>) -> Option<int> {
    match unsigned(trim_both(contents), u64::MAX as nat) {
        Some(pid) => if 0 < pid <= i32::MAX {
            Some(pid as int)
        } else {
            None
        },
        None => None,
    }
}

/// The process that a lock file names. `None` where it names none: such a lock is stale.
pub fn lock_holder(contents: &str) -> (r: Option<i32>)
    ensures
        match r {
            Some(pid) => lock_owner(contents@) == Some(pid as int),
            None => lock_owner(contents@) is None,
        },
{
    match parse_u64(trim(contents).as_str()) {
        Some(pid) => if 0 < pid && pid <= i32::MAX as u64 {
            Some(pid as i32)
        } else {
            None
        },
        None => None,
    }
}

/// Why a sweep does not start while another is under way.
pub fn busy_message(pid: u32, lock_path: &str) -> (text: String)
    ensures
        text@ == "a sweep is already running (pid "@ + digits(pid as nat)
            + "); wait for it to finish, or remove "@ + lock_path@ + " if it is stale"@,
{
    "a sweep is already running (pid ".to_owned().concat(number_text(pid as u128).as_str()).concat(
        "); wait for it to finish, or remove ",
    ).concat(lock_path).concat(" if it is stale")
}

// ---- filing a measurement -------------------------------------------------------------------

/// A new reading is refused where a better one is on record: a failure says nothing against
/// a footprint, and a contended reading is worse evidence than one known to be clean.
pub open spec fn is_refused(previous: Option<ReadingView>, reading: ReadingView) -> bool {
    match previous {
        Some(stored) => reading_ok(stored) && (!reading_ok(reading) || (reading.contended == Some(
            true,
        ) && stored.contended == Some(false))),
        None => false,
    }
}

/// A model's file with a reading filed under its command.
pub open spec fn filed_with(file: Option<StoreView>, record: RecordView, reading: ReadingView) -> StoreView {
    StoreView {
        model_type: name_of_type(record.model_type),
        file: record.primary_file,
        measurements: table_with(
            match file {
                Some(store) => store.measurements,
                None => Seq::empty(),
            },
            record.param_hash,
            reading,
        ),
    }
}

/// What is on record for a command.
pub open spec fn on_record(file: Option<StoreView>, record: RecordView) -> Option<ReadingView> {
    match file {
        Some(store) => lookup(store.measurements, record.param_hash),
        None => None,
    }
}

pub open spec fn file_view(file: Option<ModelStore>) -> Option<StoreView> {
    match file {
        Some(store) => Some(store@),
        None => None,
    }
}

/// File a measurement in a model's file (a new one where it has none). `None` where it is
/// refused, as the better reading on record is kept.
pub fn store_measurement(
    file: Option<ModelStore>,
    record: &ModelRecord,
    measurement: Measurement,
) -> (r: Option<ModelStore>)
    ensures
        match r {
            Some(store) => !is_refused(on_record(file_view(file), record@), measurement@)
                && store@ == filed_with(file_view(file), record@, measurement@),
            None => is_refused(on_record(file_view(file), record@), measurement@),
        },
{
    let mut store = match file {
        Some(store) => store,
        None => ModelStore::empty(record),
    };
    if let Some(previous) = store.filed(record.param_hash.as_str()) {
        if previous.is_ok() {
            let worse = match (measurement.contended, previous.contended) {
                (Some(now), Some(before)) => now && !before,
                _ => false,
            };
            if !measurement.is_ok() || worse {
                return None;
            }
        }
    }
    store.file(record, measurement);
    Some(store)
}

/// A stored footprint is never displaced by a failure, nor a clean one by a contended one.
pub proof fn law_the_better_reading_is_kept(
    file: StoreView,
    record: RecordView,
    reading: ReadingView,
    stored: ReadingView,
)
    requires
        lookup(file.measurements, record.param_hash) == Some(stored),
        reading_ok(stored),
        !is_refused(on_record(Some(file), record), reading),
    ensures
        reading_ok(reading),
        stored.contended == Some(false) ==> reading.contended != Some(true),
{
}

/// What is filed is found again, and nothing else in the file changes.
pub proof fn law_filed_readings_are_found(
    file: Option<StoreView>,
    record: RecordView,
    reading: ReadingView,
    other: Seq<char>,
)
    ensures
        lookup(filed_with(file, record, reading).measurements, record.param_hash) == Some(reading),
        reading_ok(reading) ==> crate::cache::selected(
            filed_with(file, record, reading),
            record.param_hash,
        ) == Some(reading),
        file is Some && other != record.param_hash ==> lookup(
            filed_with(file, record, reading).measurements,
            other,
        ) == lookup(file->0.measurements, other),
{
    let before = match file {
        Some(store) => store.measurements,
        None => Seq::empty(),
    };
    crate::cache::law_stored_entries_read_back(before, record.param_hash, reading, other);
}

// ---- the sweep ------------------------------------------------------------------------------

/// A sweep under way: what it did so far, and the lowest occupancy seen with the pool
/// verifiably empty. A minimum is the right estimate, as contamination only ever adds.
#[derive(Debug)]
pub struct Sweep {
    pub summary: MeasureSummary,
    pub floor: Option<i64>,
    pub host_floor: Option<i64>,
}

/// What a sweep under way says.
#[verifier::ext_equal]
pub struct SweepView {
    pub summary: SummaryView,
    pub floor: Option<i64>,
    pub host_floor: Option<i64>,
}

impl View for Sweep {
    type V = SweepView;

    open spec fn view(&self) -> SweepView {
        SweepView { summary: self.summary@, floor: self.floor, host_floor: self.host_floor }
    }
}

/// A sweep that has taken a cleared pool's reading into account.
pub open spec fn with_floor(sweep: SweepView, cleared: ClearedPool) -> SweepView {
    if cleared.residents@.len() > 0 {
        sweep
    } else {
        SweepView {
            floor: floor_with(sweep.floor, cleared.used),
            host_floor: match cleared.host {
                Some(host) => floor_with(sweep.host_floor, host.used_gb),
                None => sweep.host_floor,
            },
            ..sweep
        }
    }
}

/// A summary of nothing yet.
pub open spec fn blank_summary(detected_total: i64, host_total: Option<i64>) -> SummaryView {
    SummaryView {
        measured: Seq::empty(),
        cached: Seq::empty(),
        failed: Seq::empty(),
        skipped_missing: Seq::empty(),
        unverified_serving: Seq::empty(),
        unconfirmed_allocation: Seq::empty(),
        below_weight_floor: Seq::empty(),
        contended: Seq::empty(),
        adopted: Seq::empty(),
        changed: Seq::empty(),
        no_empty_pool: false,
        baseline_was: None,
        baseline: 0,
        detected_total,
        host_baseline: None,
        host_total,
    }
}

pub open spec fn opened(detected_total: i64, opening: ClearedPool) -> SweepView {
    with_floor(
        SweepView {
            summary: blank_summary(
                detected_total,
                match opening.host {
                    Some(host) => Some(hundredths(host.total_gb as int) as i64),
                    None => None,
                },
            ),
            floor: None,
            host_floor: None,
        },
        opening,
    )
}

/// What a worklist entry calls for.
#[derive(Debug)]
pub enum Triage {
    /// Its weight file is gone: a load would fail.
    Missing,
    /// It is stored and confirmed.
    Cached { d_total: i64 },
    /// A renamed model's footprint is its own.
    Adopt { from: String, measurement: Measurement },
    Load,
}

/// What is known of a model before its load.
#[derive(Debug)]
pub struct Facts {
    /// Its command names a weight file that does not exist.
    pub weights_missing: bool,
    /// What is stored for its command.
    pub stored: Option<Measurement>,
    /// A confirmed footprint of its command in a file that no configured model owns.
    pub orphan: Option<(String, Measurement)>,
}

/// What a summary says once a model has been looked at before its load.
pub open spec fn triaged(
    before: SummaryView,
    id: Seq<char>,
    facts: Facts,
    force: bool,
) -> SummaryView {
    if facts.weights_missing {
        SummaryView { skipped_missing: before.skipped_missing.push(id), ..before }
    } else if !force && facts.stored is Some && reading_confirmed(facts.stored->0@) {
        SummaryView { cached: before.cached.push(id), ..before }
    } else if !force && facts.stored is None && facts.orphan is Some {
        SummaryView {
            adopted: before.adopted.push(
                AdoptedView {
                    id,
                    from: (facts.orphan->0).0@,
                    d_total: (facts.orphan->0).1.d_total,
                },
            ),
            ..before
        }
    } else {
        before
    }
}

/// A model's measurement window: the pool as it was right before its load.
#[derive(Debug)]
pub struct Window {
    pub baseline: i64,
    /// The pools by themselves, where the device has more than one.
    pub split: Option<(i64, i64)>,
    /// What the host held.
    pub host: Option<i64>,
    pub residents: Vec<String>,
    /// What shows that something else is in the pool.
    pub contention: Vec<String>,
}

/// What a window says.
#[verifier::ext_equal]
pub struct WindowView {
    pub baseline: i64,
    pub split: Option<(i64, i64)>,
    pub host: Option<i64>,
    pub residents: Seq<Seq<char>>,
    pub contention: Seq<Seq<char>>,
}

impl View for Window {
    type V = WindowView;

    open spec fn view(&self) -> WindowView {
        WindowView {
            baseline: self.baseline,
            split: self.split,
            host: self.host,
            residents: views(self.residents@),
            contention: views(self.contention@),
        }
    }
}

pub open spec fn held_text(baseline: int, floor: int) -> Seq<char> {
    "the pool held "@ + gb2(baseline) + " GB before this model loaded, "@ + gb2(baseline - floor)
        + " GB above the empty-pool floor seen this sweep, with llama-swap reporting nothing resident"@
}

pub open spec fn still_resident_text(residents: Seq<Seq<char>>) -> Seq<char> {
    "llama-swap still had "@ + joined(residents, ", "@)
        + " resident when this model's baseline was read"@
}

/// What a cleared pool shows of others: memory above the floor that nobody accounts for, or
/// models that did not leave.
pub open spec fn contention_before(floor: Option<i64>, cleared: ClearedPool) -> Seq<Seq<char>> {
    if cleared.residents@.len() > 0 {
        seq![still_resident_text(views(cleared.residents@))]
    } else {
        match floor {
            Some(lowest) => if cleared.used > lowest + CONTENTION_EPS {
                seq![held_text(cleared.used as int, lowest as int)]
            } else {
                Seq::empty()
            },
            None => Seq::empty(),
        }
    }
}

/// The window that a cleared pool opens on.
pub open spec fn window_on(
    sweep: SweepView,
    cleared: ClearedPool,
    split: Option<(i64, i64)>,
) -> WindowView {
    WindowView {
        baseline: cleared.used,
        split,
        host: match cleared.host {
            Some(host) => Some(host.used_gb),
            None => None,
        },
        residents: views(cleared.residents@),
        contention: contention_before(with_floor(sweep, cleared).floor, cleared),
    }
}

impl Sweep {
    /// Start with the pool as it was found and cleared.
    pub fn open(detected_total: i64, opening: &ClearedPool) -> (r: Self)
        ensures
            r@ == opened(detected_total, *opening),
    {
        let host_total: Option<i64> = match opening.host {
            Some(host) => Some(round2(host.total_gb as i128)),
            None => None,
        };
        let mut r = Sweep {
            summary: MeasureSummary {
                measured: Vec::new(),
                cached: Vec::new(),
                failed: Vec::new(),
                skipped_missing: Vec::new(),
                unverified_serving: Vec::new(),
                unconfirmed_allocation: Vec::new(),
                below_weight_floor: Vec::new(),
                contended: Vec::new(),
                adopted: Vec::new(),
                changed: Vec::new(),
                no_empty_pool: false,
                baseline_was: None,
                baseline: 0,
                detected_total,
                host_baseline: None,
                host_total,
            },
            floor: None,
            host_floor: None,
        };
        proof {
            assert(r.summary@ =~= blank_summary(detected_total, host_total));
        }
        note_floor(&mut r.floor, &mut r.host_floor, opening);
        r
    }

    /// Look at a model before its load, and say what it calls for.
    ///
    /// An unconfirmed entry is not good enough: it may be a mid-load plateau, and measuring
    /// it again is the cheap way out.
    pub fn triage(&mut self, record: &ModelRecord, facts: Facts, force: bool) -> (r: Triage)
        ensures
            final(self)@ == (SweepView {
                summary: triaged(old(self)@.summary, record@.id, facts, force),
                ..old(self)@
            }),
            match r {
                Triage::Missing => facts.weights_missing,
                Triage::Cached { d_total } => !facts.weights_missing && !force
                    && facts.stored is Some && reading_confirmed(facts.stored->0@) && d_total
                    == facts.stored->0.d_total,
                Triage::Adopt { from, measurement } => !facts.weights_missing && !force
                    && facts.stored is None && facts.orphan is Some && (from@, measurement@) == (
                    (facts.orphan->0).0@,
                    (facts.orphan->0).1@,
                ),
                Triage::Load => !facts.weights_missing && (force || (facts.stored is Some
                    && !reading_confirmed(facts.stored->0@)) || (facts.stored is None
                    && facts.orphan is None)),
            },
    {
        if facts.weights_missing {
            push_name(&mut self.summary.skipped_missing, &record.id);
            return Triage::Missing;
        }
        if force {
            return Triage::Load;
        }
        match facts.stored {
            Some(stored) => {
                if stored.is_confirmed() {
                    push_name(&mut self.summary.cached, &record.id);
                    return Triage::Cached { d_total: stored.d_total };
                }
                Triage::Load
            },
            None => match facts.orphan {
                Some((from, measurement)) => {
                    let adopted = Adopted {
                        id: record.id.clone(),
                        from: from.clone(),
                        d_total: measurement.d_total,
                    };
                    proof {
                        lemma_views_push(self.summary.adopted@, adopted);
                    }
                    self.summary.adopted.push(adopted);
                    Triage::Adopt { from, measurement }
                },
                None => Triage::Load,
            },
        }
    }

    /// Open a model's measurement window on the cleared pool: its own baseline, and what
    /// shows that it is not alone.
    ///
    /// The baseline is the model's own, not the sweep's: one that still counted another
    /// model would make the delta short, which is the one error that overcommits.
    pub fn open_window(&mut self, cleared: ClearedPool, split: Option<(i64, i64)>) -> (r: Window)
        ensures
            final(self)@ == with_floor(old(self)@, cleared),
            r@ == window_on(old(self)@, cleared, split),
    {
        note_floor(&mut self.floor, &mut self.host_floor, &cleared);
        let mut contention: Vec<String> = Vec::new();
        if cleared.residents.len() > 0 {
            let text = "llama-swap still had ".to_owned().concat(
                join(&cleared.residents, ", ").as_str(),
            ).concat(" resident when this model's baseline was read");
            contention.push(text);
        } else if let Some(floor) = self.floor {
            if cleared.used as i128 > floor as i128 + CONTENTION_EPS as i128 {
                let text = "the pool held ".to_owned().concat(
                    gb2_text(cleared.used as i128).as_str(),
                ).concat(" GB before this model loaded, ").concat(
                    gb2_text(cleared.used as i128 - floor as i128).as_str(),
                ).concat(
                    " GB above the empty-pool floor seen this sweep, with llama-swap reporting nothing resident",
                );
                contention.push(text);
            }
        }
        proof {
            assert(views(contention@) =~= contention_before(self.floor, cleared));
        }
        Window {
            baseline: cleared.used,
            split,
            host: match cleared.host {
                Some(host) => Some(host.used_gb),
                None => None,
            },
            residents: cleared.residents,
            contention,
        }
    }
}

// ---- what a load comes to ---------------------------------------------------------------------

/// What was read once a model's allocation was through.
#[derive(Debug)]
pub struct Sample {
    /// How long the load took, in tenths of a second.
    pub load_tenths: u64,
    /// Whether llama-swap was seen to serve the command that was hashed.
    pub serving_verified: bool,
    /// Highest occupancy seen while the trigger ran.
    pub trigger_peak: i64,
    /// Why the trigger does not confirm the allocation, where it does not.
    pub trigger_note: Option<String>,
    pub settled: Stabilized,
    /// Who else was resident when the reading was taken.
    pub residents: Vec<String>,
    pub split: Option<(i64, i64)>,
    /// What the host held.
    pub host: Option<i64>,
}

/// What a load came to.
#[derive(Debug)]
pub enum Load {
    /// It was never ready. `unlisted` if llama-swap does not list the model at all; `note`
    /// is why the trigger was rejected, where it was.
    NotReady { unlisted: bool, note: Option<String> },
    /// llama-swap served another command.
    Mismatch { detail: String },
    /// The trigger was rejected.
    Rejected { reason: String, serving_verified: bool },
    Sampled(Sample),
}

/// What is known of a model beside its load.
#[derive(Debug)]
pub struct Context {
    /// What is stored for its command.
    pub stored: Option<Measurement>,
    /// Size of the weight files it names, as far as they can be read.
    pub weights: Option<i64>,
    /// Today's date.
    pub today: String,
}

/// The names of `list` that are not in `other`.
pub open spec fn missing_from(list: Seq<Seq<char>>, other: Seq<Seq<char>>) -> Seq<Seq<char>>
    decreases list.len(),
{
    if list.len() == 0 {
        Seq::empty()
    } else {
        let before = missing_from(list.drop_last(), other);
        if other.contains(list.last()) {
            before
        } else {
            before.push(list.last())
        }
    }
}

fn names_missing_from(list: &Vec<String>, other: &Vec<String>) -> (r: Vec<String>)
    ensures
        views(r@) == missing_from(views(list@), views(other@)),
{
    let ghost all = views(list@);
    let mut r: Vec<String> = Vec::new();
    let mut at: usize = 0;
    proof {
        assert(views(r@) =~= missing_from(all.take(0), views(other@)));
    }
    while at < list.len()
        invariant
            at <= list@.len(),
            all == views(list@),
            views(r@) == missing_from(all.take(at as int), views(other@)),
        decreases list@.len() - at,
    {
        proof {
            assert(all.take(at + 1).drop_last() =~= all.take(at as int));
            assert(all.take(at + 1).last() == list@[at as int]@);
        }
        if !has_name(other, list[at].as_str()) {
            push_name(&mut r, &list[at]);
        }
        at = at + 1;
    }
    proof {
        assert(all.take(at as int) =~= all);
    }
    r
}

pub open spec fn not_ready_text(unlisted: bool, note: Option<Seq<char>>) -> Seq<char> {
    let base = if unlisted {
        "load timed out or exited, and llama-swap does not list this model id - it may be serving a different config than the one being measured (reload it, or point --config at the file it loaded)"@
    } else {
        "load timed out or exited"@
    };
    match note {
        Some(text) => base + " ("@ + text + ")"@,
        None => base,
    }
}

pub open spec fn mismatch_text(detail: Seq<char>) -> Seq<char> {
    "llama-swap is serving a different command than the one being measured ("@ + detail
        + ") - no footprint recorded (reload llama-swap, or measure the config it actually loaded)"@
}

pub open spec fn arrived_text(ids: Seq<Seq<char>>) -> Seq<char> {
    "llama-swap loaded "@ + joined(ids, ", "@) + " during this model's measurement window"@
}

pub open spec fn departed_text(ids: Seq<Seq<char>>) -> Seq<char> {
    joined(ids, ", "@)
        + " left the pool between this model's baseline and its reading, so the footprint would be SHORT by whatever they held - no footprint recorded. Quiesce anything that requests models and re-measure"@
}

pub open spec fn not_alone_text(contention: Seq<Seq<char>>) -> Seq<char> {
    joined(contention, "; "@)
        + " - a footprint is a SOLO footprint, so this one may include memory that is not this model's (it can only be too high, never too low). Quiesce anything that requests models - health probes and pollers especially - and re-measure with --force"@
}

pub open spec fn still_moving_text() -> Seq<char> {
    "occupancy was still changing after "@ + digits(STABILIZE_MAX_WAIT_S as nat)
        + "s of sampling, so the footprint may be incomplete"@
}

pub open spec fn small_text(footprint: int, recorded: int, weights: int) -> Seq<char> {
    "footprint "@ + gb2(footprint) + " GB is only "@ + percent(footprint, recorded)
        + "% of the "@ + gb2(weights)
        + " GB of weight files its command names; a fully offloaded model cannot hold much less than its weights, so this may be under-measured (partial offload with -ngl/-ot/--cpu-moe is a legitimate reason to sit lower)"@
}

pub open spec fn rounded_opt(amount: Option<i64>) -> Option<i64> {
    match amount {
        Some(units) => Some(hundredths(units as int) as i64),
        None => None,
    }
}

/// What is recorded of a load that failed.
pub open spec fn failed_reading(
    record: RecordView,
    context: Context,
    baseline: Option<i64>,
    serving_verified: Option<bool>,
) -> ReadingView {
    ReadingView {
        status: "FAILED"@,
        params: memory_text(record.cmd),
        measured_at: context.today@,
        weights_gb: rounded_opt(context.weights),
        pool_baseline: rounded_opt(baseline),
        serving_verified,
        ..blank_reading()
    }
}

/// The others that came during a window or were there before it.
pub open spec fn contention_of(window: WindowView, sample: Sample) -> Seq<Seq<char>> {
    let arrived = missing_from(views(sample.residents@), window.residents);
    if arrived.len() > 0 {
        window.contention.push(arrived_text(arrived))
    } else {
        window.contention
    }
}

/// The footprint is complete: the trigger finished, and occupancy then stopped moving.
pub open spec fn sample_confirmed(sample: Sample) -> bool {
    sample.trigger_note is None && sample.settled.settled
}

pub open spec fn split_delta(now: Option<(i64, i64)>, before: Option<(i64, i64)>) -> (
    Option<i64>,
    Option<i64>,
    Option<i64>,
    Option<i64>,
) {
    match (now, before) {
        (Some((vram, gtt)), Some((base_vram, base_gtt))) => (
            Some(hundredths(vram - base_vram) as i64),
            Some(hundredths(gtt - base_gtt) as i64),
            Some(hundredths(vram as int) as i64),
            Some(hundredths(gtt as int) as i64),
        ),
        _ => (None, None, None, None),
    }
}

pub open spec fn host_delta(now: Option<i64>, before: Option<i64>) -> Option<i64> {
    match (now, before) {
        (Some(held), Some(base)) => Some(hundredths(higher(held - base, 0)) as i64),
        _ => None,
    }
}

/// The footprint a sample comes to.
pub open spec fn footprint_of(window: WindowView, sample: Sample) -> i64 {
    hundredths(sample.settled.used - window.baseline) as i64
}

/// What is recorded of a sample.
pub open spec fn sampled_reading(
    record: RecordView,
    context: Context,
    window: WindowView,
    sample: Sample,
) -> ReadingView {
    let footprint = footprint_of(window, sample);
    let split = split_delta(sample.split, window.split);
    ReadingView {
        status: "ok"@,
        d_total: footprint,
        d_vram: split.0,
        d_gtt: split.1,
        abs_total: hundredths(sample.settled.used as int) as i64,
        abs_vram: split.2,
        abs_gtt: split.3,
        load_tenths: sample.load_tenths,
        allocation_confirmed: Some(sample_confirmed(sample)),
        serving_verified: Some(sample.serving_verified),
        peak_total: Some(
            hundredths(
                higher(
                    higher(sample.trigger_peak as int, sample.settled.peak as int)
                        - window.baseline,
                    footprint as int,
                ),
            ) as i64,
        ),
        weights_gb: rounded_opt(context.weights),
        pool_baseline: rounded_opt(Some(window.baseline)),
        d_host: host_delta(sample.host, window.host),
        contended: Some(contention_of(window, sample).len() > 0),
        params: memory_text(record.cmd),
        measured_at: context.today@,
    }
}

/// A model that was in the baseline and is gone by the reading makes the delta short by what
/// it held, which is the one direction that overcommits.
pub open spec fn departed_of(window: WindowView, sample: Sample) -> Seq<Seq<char>> {
    missing_from(window.residents, views(sample.residents@))
}

// ---- a load under way ---------------------------------------------------------------------

/// llama-swap told which models it serves, and this one is not among them.
pub open spec fn is_unlisted(served: Option<Seq<Seq<char>>>, id: Seq<char>) -> bool {
    served is Some && !served->0.contains(id)
}

/// Does llama-swap serve other models, but not this one?
pub fn unlisted(served: Option<&Vec<String>>, id: &str) -> (r: bool)
    ensures
        r == is_unlisted(
            match served {
                Some(ids) => Some(views(ids@)),
                None => None,
            },
            id@,
        ),
{
    match served {
        Some(ids) => !has_name(ids, id),
        None => false,
    }
}

/// What comes of a load so far.
#[derive(Debug)]
pub enum LoadStep {
    /// It is over.
    Finished(Load),
    /// The model is ready: wait for the load-trigger to finish.
    AwaitTrigger { serving_verified: bool },
    /// The load-trigger is over: read what the model holds.
    Sample { serving_verified: bool, trigger_peak: i64, trigger_note: Option<String> },
}

/// The model never got ready, and this came of its load-trigger.
pub fn never_ready(allocation: Allocation, unlisted: bool) -> (load: Load)
    ensures
        match load {
            Load::NotReady { unlisted: told, note } => told == unlisted && text_view(note)
                == match allocation {
                Allocation::Rejected { reason } => Some(reason@),
                _ => None,
            },
            _ => false,
        },
{
    Load::NotReady {
        unlisted,
        note: match allocation {
            Allocation::Rejected { reason } => Some(reason),
            _ => None,
        },
    }
}

/// The model is ready, and llama-swap serves this.
pub fn once_ready(serving: Serving) -> (step: LoadStep)
    ensures
        match serving {
            Serving::Mismatch { detail } => match step {
                LoadStep::Finished(Load::Mismatch { detail: told }) => told@ == detail@,
                _ => false,
            },
            Serving::Confirmed => step == (LoadStep::AwaitTrigger { serving_verified: true }),
            Serving::Unconfirmed => step == (LoadStep::AwaitTrigger { serving_verified: false }),
        },
{
    match serving {
        Serving::Mismatch { detail } => LoadStep::Finished(Load::Mismatch { detail }),
        Serving::Confirmed => LoadStep::AwaitTrigger { serving_verified: true },
        Serving::Unconfirmed => LoadStep::AwaitTrigger { serving_verified: false },
    }
}

/// The load-trigger of a model that is ready is over.
pub fn once_triggered(allocation: Allocation, serving_verified: bool) -> (step: LoadStep)
    ensures
        match (allocation, step) {
            (
                Allocation::Rejected { reason },
                LoadStep::Finished(Load::Rejected { reason: told, serving_verified: verified }),
            ) => told@ == reason@ && verified == serving_verified,
            (
                Allocation::Confirmed { peak },
                LoadStep::Sample { serving_verified: verified, trigger_peak, trigger_note },
            ) => verified == serving_verified && trigger_peak == peak && trigger_note is None,
            (
                Allocation::Unconfirmed { peak, reason },
                LoadStep::Sample { serving_verified: verified, trigger_peak, trigger_note },
            ) => verified == serving_verified && trigger_peak == peak && text_view(trigger_note)
                == Some(reason@),
            _ => false,
        },
{
    match allocation {
        Allocation::Confirmed { peak } => LoadStep::Sample {
            serving_verified,
            trigger_peak: peak,
            trigger_note: None,
        },
        Allocation::Unconfirmed { peak, reason } => LoadStep::Sample {
            serving_verified,
            trigger_peak: peak,
            trigger_note: Some(reason),
        },
        Allocation::Rejected { reason } => LoadStep::Finished(
            Load::Rejected { reason, serving_verified },
        ),
    }
}

/// What a summary says once a sample has been judged.
pub open spec fn sampled_summary(
    before: SummaryView,
    record: RecordView,
    context: Context,
    window: WindowView,
    sample: Sample,
) -> SummaryView {
    let id = record.id;
    let reading = sampled_reading(record, context, window, sample);
    let contention = contention_of(window, sample);
    let departed = departed_of(window, sample);
    SummaryView {
        unverified_serving: if sample.serving_verified {
            before.unverified_serving
        } else {
            before.unverified_serving.push(id)
        },
        unconfirmed_allocation: if sample_confirmed(sample) {
            before.unconfirmed_allocation
        } else {
            before.unconfirmed_allocation.push(
                FailureView {
                    id,
                    reason: match sample.trigger_note {
                        Some(note) => note@,
                        None => still_moving_text(),
                    },
                },
            )
        },
        failed: if departed.len() > 0 {
            before.failed.push(FailureView { id, reason: departed_text(departed) })
        } else {
            before.failed
        },
        contended: if contention.len() > 0 {
            before.contended.push(FailureView { id, reason: not_alone_text(contention) })
        } else {
            before.contended
        },
        changed: match context.stored {
            Some(stored) => if reading_ok(stored@) && footprints_disagree(
                stored.d_total as int,
                reading.d_total as int,
            ) {
                before.changed.push(
                    RemeasuredView {
                        id,
                        previous: stored.d_total,
                        current: reading.d_total,
                        previous_measured_at: stored.measured_at@,
                    },
                )
            } else {
                before.changed
            },
            None => before.changed,
        },
        below_weight_floor: if under_weights(reading) && context.weights is Some {
            before.below_weight_floor.push(
                FailureView {
                    id,
                    reason: small_text(
                        reading.d_total as int,
                        reading.weights_gb->0 as int,
                        context.weights->0 as int,
                    ),
                },
            )
        } else {
            before.below_weight_floor
        },
        measured: if departed.len() > 0 {
            before.measured
        } else {
            before.measured.push(id)
        },
        ..before
    }
}

/// What a summary says once a load has been judged.
pub open spec fn judged_summary(
    before: SummaryView,
    record: RecordView,
    context: Context,
    window: WindowView,
    load: Load,
) -> SummaryView {
    let id = record.id;
    match load {
        Load::NotReady { unlisted, note } => SummaryView {
            failed: before.failed.push(
                FailureView { id, reason: not_ready_text(unlisted, text_view(note)) },
            ),
            ..before
        },
        Load::Mismatch { detail } => SummaryView {
            failed: before.failed.push(FailureView { id, reason: mismatch_text(detail@) }),
            ..before
        },
        Load::Rejected { reason, serving_verified } => SummaryView {
            unverified_serving: if serving_verified {
                before.unverified_serving
            } else {
                before.unverified_serving.push(id)
            },
            failed: before.failed.push(
                FailureView { id, reason: reason@ + ", so no footprint was recorded"@ },
            ),
            ..before
        },
        Load::Sampled(sample) => sampled_summary(before, record, context, window, sample),
    }
}

/// What is recorded of a load. Nothing where the reading belongs to no command, or is short.
pub open spec fn judged_reading(
    record: RecordView,
    context: Context,
    window: WindowView,
    load: Load,
) -> Option<ReadingView> {
    match load {
        Load::NotReady { .. } => Some(
            failed_reading(record, context, Some(window.baseline), None),
        ),
        Load::Mismatch { .. } => None,
        Load::Rejected { serving_verified, .. } => Some(
            failed_reading(record, context, None, Some(serving_verified)),
        ),
        Load::Sampled(sample) => if departed_of(window, sample).len() > 0 {
            None
        } else {
            Some(sampled_reading(record, context, window, sample))
        },
    }
}

fn rounded(amount: Option<i64>) -> (r: Option<i64>)
    ensures
        r == rounded_opt(amount),
{
    match amount {
        Some(units) => Some(round2(units as i128)),
        None => None,
    }
}

fn higher_of(a: i128, b: i128) -> (r: i128)
    ensures
        r == higher(a as int, b as int),
{
    if a < b {
        b
    } else {
        a
    }
}

fn failed(
    record: &ModelRecord,
    context: &Context,
    baseline: Option<i64>,
    serving_verified: Option<bool>,
) -> (r: Measurement)
    ensures
        r@ == failed_reading(record@, *context, baseline, serving_verified),
{
    let mut r = Measurement::default();
    r.status = "FAILED".to_owned();
    r.params = memory_cmd(record.cmd.as_str());
    r.measured_at = context.today.clone();
    r.weights_gb = rounded(context.weights);
    r.pool_baseline = rounded(baseline);
    r.serving_verified = serving_verified;
    proof {
        assert(r@ =~= failed_reading(record@, *context, baseline, serving_verified));
    }
    r
}

fn sampled(
    record: &ModelRecord,
    context: &Context,
    window: &Window,
    sample: &Sample,
    contended: bool,
) -> (r: Measurement)
    requires
        contended == (contention_of(window@, *sample).len() > 0),
    ensures
        r@ == sampled_reading(record@, *context, window@, *sample),
{
    let d_total: i64 = round2(sample.settled.used as i128 - window.baseline as i128);
    let (d_vram, d_gtt, abs_vram, abs_gtt) = match (sample.split, window.split) {
        (Some((vram, gtt)), Some((base_vram, base_gtt))) => (
            Some(round2(vram as i128 - base_vram as i128)),
            Some(round2(gtt as i128 - base_gtt as i128)),
            Some(round2(vram as i128)),
            Some(round2(gtt as i128)),
        ),
        _ => (None, None, None, None),
    };
    let d_host: Option<i64> = match (sample.host, window.host) {
        (Some(held), Some(base)) => Some(round2(higher_of(held as i128 - base as i128, 0))),
        _ => None,
    };
    let peak: i128 = higher_of(sample.trigger_peak as i128, sample.settled.peak as i128)
        - window.baseline as i128;
    let confirmed = sample.trigger_note.is_none() && sample.settled.settled;
    let r = Measurement {
        status: "ok".to_owned(),
        d_total,
        d_vram,
        d_gtt,
        abs_total: round2(sample.settled.used as i128),
        abs_vram,
        abs_gtt,
        load_tenths: sample.load_tenths,
        allocation_confirmed: Some(confirmed),
        serving_verified: Some(sample.serving_verified),
        peak_total: Some(round2(higher_of(peak, d_total as i128))),
        weights_gb: rounded(context.weights),
        pool_baseline: rounded(Some(window.baseline)),
        d_host,
        contended: Some(contended),
        params: memory_cmd(record.cmd.as_str()),
        measured_at: context.today.clone(),
    };
    proof {
        assert(r@ =~= sampled_reading(record@, *context, window@, *sample));
    }
    r
}

impl Sweep {
    /// Judge a load: what is said of it, and what is recorded.
    pub fn judge(
        &mut self,
        record: &ModelRecord,
        context: &Context,
        window: &Window,
        load: Load,
    ) -> (r: Option<Measurement>)
        ensures
            final(self)@ == (SweepView {
                summary: judged_summary(old(self)@.summary, record@, *context, window@, load),
                ..old(self)@
            }),
            crate::cache::reading_view(r) == judged_reading(record@, *context, window@, load),
    {
        match load {
            Load::NotReady { unlisted, note } => {
                let base = if unlisted {
                    "load timed out or exited, and llama-swap does not list this model id - it may be serving a different config than the one being measured (reload it, or point --config at the file it loaded)"
                } else {
                    "load timed out or exited"
                };
                let reason = match note {
                    Some(text) => base.to_owned().concat(" (").concat(text.as_str()).concat(")"),
                    None => base.to_owned(),
                };
                push_failure(&mut self.summary.failed, &record.id, reason);
                Some(failed(record, context, Some(window.baseline), None))
            },
            Load::Mismatch { detail } => {
                let reason =
                    "llama-swap is serving a different command than the one being measured (".to_owned().concat(
                    detail.as_str(),
                ).concat(
                    ") - no footprint recorded (reload llama-swap, or measure the config it actually loaded)",
                );
                push_failure(&mut self.summary.failed, &record.id, reason);
                None
            },
            Load::Rejected { reason, serving_verified } => {
                if !serving_verified {
                    push_name(&mut self.summary.unverified_serving, &record.id);
                }
                push_failure(
                    &mut self.summary.failed,
                    &record.id,
                    reason.concat(", so no footprint was recorded"),
                );
                Some(failed(record, context, None, Some(serving_verified)))
            },
            Load::Sampled(sample) => self.judge_sample(record, context, window, &sample),
        }
    }

    fn judge_sample(
        &mut self,
        record: &ModelRecord,
        context: &Context,
        window: &Window,
        sample: &Sample,
    ) -> (r: Option<Measurement>)
        ensures
            final(self)@ == (SweepView {
                summary: sampled_summary(
                    old(self)@.summary,
                    record@,
                    *context,
                    window@,
                    *sample,
                ),
                ..old(self)@
            }),
            crate::cache::reading_view(r) == (if departed_of(window@, *sample).len() > 0 {
                None
            } else {
                Some(sampled_reading(record@, *context, window@, *sample))
            }),
    {
        if !sample.serving_verified {
            push_name(&mut self.summary.unverified_serving, &record.id);
        }
        if !(sample.trigger_note.is_none() && sample.settled.settled) {
            let reason = match &sample.trigger_note {
                Some(note) => note.clone(),
                None => "occupancy was still changing after ".to_owned().concat(
                    number_text(STABILIZE_MAX_WAIT_S as u128).as_str(),
                ).concat("s of sampling, so the footprint may be incomplete"),
            };
            push_failure(&mut self.summary.unconfirmed_allocation, &record.id, reason);
        }
        let departed = names_missing_from(&window.residents, &sample.residents);
        let arrived = names_missing_from(&sample.residents, &window.residents);
        let mut contention = copied_names(&window.contention);
        if arrived.len() > 0 {
            let text = "llama-swap loaded ".to_owned().concat(
                join(&arrived, ", ").as_str(),
            ).concat(" during this model's measurement window");
            push_name(&mut contention, &text);
        }
        proof {
            assert(views(contention@) == contention_of(window@, *sample));
        }
        if departed.len() > 0 {
            let reason = join(&departed, ", ").concat(
                " left the pool between this model's baseline and its reading, so the footprint would be SHORT by whatever they held - no footprint recorded. Quiesce anything that requests models and re-measure",
            );
            push_failure(&mut self.summary.failed, &record.id, reason);
        }
        if contention.len() > 0 {
            let reason = join(&contention, "; ").concat(
                " - a footprint is a SOLO footprint, so this one may include memory that is not this model's (it can only be too high, never too low). Quiesce anything that requests models - health probes and pollers especially - and re-measure with --force",
            );
            push_failure(&mut self.summary.contended, &record.id, reason);
        }
        let measurement = sampled(record, context, window, sample, contention.len() > 0);
        if let Some(stored) = &context.stored {
            if stored.is_ok() && Remeasured::disagree(stored.d_total, measurement.d_total) {
                let changed = Remeasured {
                    id: record.id.clone(),
                    previous: stored.d_total,
                    current: measurement.d_total,
                    previous_measured_at: stored.measured_at.clone(),
                };
                proof {
                    lemma_views_push(self.summary.changed@, changed);
                }
                self.summary.changed.push(changed);
            }
        }
        if measurement.below_weight_floor() {
            if let Some((footprint, recorded)) = measurement.weight_ratio() {
                if let Some(weights) = context.weights {
                    let reason = "footprint ".to_owned().concat(
                        gb2_text(footprint as i128).as_str(),
                    ).concat(" GB is only ").concat(
                        percent_text(footprint, recorded).as_str(),
                    ).concat("% of the ").concat(gb2_text(weights as i128).as_str()).concat(
                        " GB of weight files its command names; a fully offloaded model cannot hold much less than its weights, so this may be under-measured (partial offload with -ngl/-ot/--cpu-moe is a legitimate reason to sit lower)",
                    );
                    push_failure(&mut self.summary.below_weight_floor, &record.id, reason);
                }
            }
        }
        if departed.len() > 0 {
            None
        } else {
            push_name(&mut self.summary.measured, &record.id);
            Some(measurement)
        }
    }
}

/// A short footprint is never recorded: where anything left the pool between the baseline
/// and the reading, there is no measurement.
pub proof fn law_short_readings_are_not_recorded(
    record: RecordView,
    context: Context,
    window: WindowView,
    sample: Sample,
    id: Seq<char>,
)
    requires
        window.residents.contains(id),
        !views(sample.residents@).contains(id),
    ensures
        judged_reading(record, context, window, Load::Sampled(sample)) is None,
{
    let k = choose|k: int| 0 <= k < window.residents.len() && window.residents[k] == id;
    lemma_missing_is_listed(window.residents, views(sample.residents@), k);
}

proof fn lemma_missing_is_listed(list: Seq<Seq<char>>, other: Seq<Seq<char>>, k: int)
    requires
        0 <= k < list.len(),
        !other.contains(list[k]),
    ensures
        missing_from(list, other).len() > 0,
    decreases list.len(),
{
    if k < list.len() - 1 {
        lemma_missing_is_listed(list.drop_last(), other, k);
    }
}

/// A mismatched command is never recorded, and what is recorded as `ok` is confirmed only if
/// the trigger finished and occupancy settled.
pub proof fn law_only_finished_allocations_are_confirmed(
    record: RecordView,
    context: Context,
    window: WindowView,
    load: Load,
)
    ensures
        load is Mismatch ==> judged_reading(record, context, window, load) is None,
        judged_reading(record, context, window, load) is Some && reading_confirmed(
            judged_reading(record, context, window, load)->0,
        ) ==> load is Sampled && sample_confirmed(load->Sampled_0),
{
    reveal_strlit("ok");
    reveal_strlit("FAILED");
    assert("ok"@.len() == 2);
    assert("FAILED"@.len() == 6);
}

// ---- what a load is reported as -----------------------------------------------------------------

/// Tenths of a second, in seconds.
pub open spec fn seconds_text(tenths: nat) -> Seq<char> {
    digits(tenths / 10) + "."@ + digits(tenths % 10)
}

/// A load's one-line outcome.
pub open spec fn outcome_text(recorded: Option<ReadingView>, refused: bool) -> Seq<char> {
    let outcome = match recorded {
        Some(reading) => if reading_ok(reading) {
            gb2(reading.d_total as int) + " GB in "@ + seconds_text(reading.load_tenths as nat)
                + " s"@ + (if reading.contended == Some(true) {
                " (contended)"@
            } else {
                ""@
            })
        } else {
            "FAILED"@
        },
        None => "nothing recorded"@,
    };
    if refused {
        outcome + ", not stored (the better reading already on record is kept)"@
    } else {
        outcome
    }
}

/// A load's one-line outcome: what was recorded, and whether the store refused it.
pub fn outcome(recorded: Option<&Measurement>, refused: bool) -> (text: String)
    ensures
        text@ == outcome_text(
            match recorded {
                Some(reading) => Some(reading@),
                None => None,
            },
            refused,
        ),
{
    let outcome = match recorded {
        Some(reading) => if reading.is_ok() {
            let suffix = match reading.contended {
                Some(contended) => if contended {
                    " (contended)"
                } else {
                    ""
                },
                None => "",
            };
            gb2_text(reading.d_total as i128).concat(" GB in ").concat(
                number_text((reading.load_tenths / 10) as u128).concat(".").concat(
                    number_text((reading.load_tenths % 10) as u128).as_str(),
                ).as_str(),
            ).concat(" s").concat(suffix)
        } else {
            "FAILED".to_owned()
        },
        None => "nothing recorded".to_owned(),
    };
    if refused {
        outcome.concat(", not stored (the better reading already on record is kept)")
    } else {
        outcome
    }
}

/// A triaged model's one-line outcome, where it is not loaded.
pub open spec fn triage_text(triage: Triage) -> Option<Seq<char>> {
    match triage {
        Triage::Missing => Some("skipped, weight file missing"@),
        Triage::Cached { d_total } => Some("cached, "@ + gb2(d_total as int) + " GB"@),
        Triage::Adopt { from, measurement } => Some(
            "adopted "@ + gb2(measurement.d_total as int) + " GB from `"@ + from@ + "` (renamed)"@,
        ),
        Triage::Load => None,
    }
}

impl Triage {
    /// The one-line outcome of a model that is not loaded.
    pub fn outcome(&self) -> (r: Option<String>)
        ensures
            text_view(r) == triage_text(*self),
    {
        match self {
            Triage::Missing => Some("skipped, weight file missing".to_owned()),
            Triage::Cached { d_total } => Some(
                "cached, ".to_owned().concat(gb2_text(*d_total as i128).as_str()).concat(" GB"),
            ),
            Triage::Adopt { from, measurement } => Some(
                "adopted ".to_owned().concat(
                    gb2_text(measurement.d_total as i128).as_str(),
                ).concat(" GB from `").concat(from.as_str()).concat("` (renamed)"),
            ),
            Triage::Load => None,
        }
    }
}

// ---- the end of a sweep ---------------------------------------------------------------------------

/// The baseline a sweep leaves: the lowest empty-pool reading, or the stored one where the
/// pool was never seen empty.
pub open spec fn final_baseline(floor: Option<i64>, previous: i64) -> i64 {
    match floor {
        Some(lowest) => lowest,
        None => previous,
    }
}

/// The baseline recorded before, where it moved. The empty pool should not move: a pool that
/// only looked empty is the other thing that moves it.
pub open spec fn moved_baseline(baseline: i64, previous: i64) -> Option<i64> {
    if previous > 0 && magnitude(baseline - previous) > CONTENTION_EPS {
        Some(hundredths(previous as int) as i64)
    } else {
        None
    }
}

/// A sweep that is over, given the last cleared pool and the baseline stored before.
pub open spec fn closed(sweep: SweepView, closing: ClearedPool, previous: i64) -> SweepView {
    let last = with_floor(sweep, closing);
    let baseline = final_baseline(last.floor, previous);
    SweepView {
        summary: SummaryView {
            host_baseline: rounded_opt(last.host_floor),
            no_empty_pool: last.floor is None || last.summary.no_empty_pool,
            baseline,
            baseline_was: moved_baseline(baseline, previous),
            ..last.summary
        },
        ..last
    }
}

/// What a finished sweep leaves in the box file.
pub open spec fn box_after(summary: SummaryView, today: Seq<char>) -> BoxView {
    BoxView {
        baseline: hundredths(summary.baseline as int) as i64,
        detected_total: Some(hundredths(summary.detected_total as int) as i64),
        host_total: summary.host_total,
        host_baseline: summary.host_baseline,
        date: Some(today),
        ..blank_box()
    }
}

impl Sweep {
    /// Close the sweep with one more empty-pool reading, and say what the box file holds
    /// from now on. `previous` is the baseline it held.
    pub fn close(&mut self, closing: &ClearedPool, previous: i64, today: &str) -> (meta: BoxMeta)
        ensures
            final(self)@ == closed(old(self)@, *closing, previous),
            meta@ == box_after(final(self)@.summary, today@),
    {
        note_floor(&mut self.floor, &mut self.host_floor, closing);
        self.summary.host_baseline = rounded(self.host_floor);
        match self.floor {
            Some(lowest) => {
                self.summary.baseline = lowest;
            },
            None => {
                self.summary.no_empty_pool = true;
                self.summary.baseline = previous;
            },
        }
        let step: i128 = self.summary.baseline as i128 - previous as i128;
        let size: i128 = if step < 0 {
            -step
        } else {
            step
        };
        self.summary.baseline_was = if previous > 0 && size > CONTENTION_EPS as i128 {
            Some(round2(previous as i128))
        } else {
            None
        };
        BoxMeta {
            baseline: round2(self.summary.baseline as i128),
            detected_total: Some(round2(self.summary.detected_total as i128)),
            host_total: self.summary.host_total,
            host_baseline: self.summary.host_baseline,
            date: Some(today.to_owned()),
            additivity_check: None,
            written_by: None,
        }
    }
}

/// The floor only ever falls, and a pool that still held a model never moves it.
pub proof fn law_the_floor_only_falls(sweep: SweepView, cleared: ClearedPool)
    ensures
        sweep.floor is Some ==> with_floor(sweep, cleared).floor is Some && with_floor(
            sweep,
            cleared,
        ).floor->0 <= sweep.floor->0,
        cleared.residents@.len() > 0 ==> with_floor(sweep, cleared) == sweep,
{
}

// ---- a whole sweep ------------------------------------------------------------------------

/// One model of a worklist: what is known of it before its load, and how its load goes where
/// it calls for one.
pub struct Visit {
    pub record: RecordView,
    pub facts: Facts,
    pub cleared: ClearedPool,
    pub split: Option<(i64, i64)>,
    pub context: Context,
    pub load: Load,
}

/// A model calls for a load: nothing that is known of it spares one.
pub open spec fn calls_for_load(facts: Facts, force: bool) -> bool {
    &&& !facts.weights_missing
    &&& force || match facts.stored {
        Some(stored) => !reading_confirmed(stored@),
        None => facts.orphan is None,
    }
}

/// A sweep once it has visited a model.
pub open spec fn visited(sweep: SweepView, visit: Visit, force: bool) -> SweepView {
    let looked = SweepView {
        summary: triaged(sweep.summary, visit.record.id, visit.facts, force),
        ..sweep
    };
    if calls_for_load(visit.facts, force) {
        let cleared = with_floor(looked, visit.cleared);
        SweepView {
            summary: judged_summary(
                cleared.summary,
                visit.record,
                visit.context,
                window_on(looked, visit.cleared, visit.split),
                visit.load,
            ),
            ..cleared
        }
    } else {
        looked
    }
}

/// A sweep once it has visited these models, one after the other.
pub open spec fn swept(sweep: SweepView, visits: Seq<Visit>, force: bool) -> SweepView
    decreases visits.len(),
{
    if visits.len() == 0 {
        sweep
    } else {
        visited(swept(sweep, visits.drop_last(), force), visits.last(), force)
    }
}

/// How many times a name is listed.
pub open spec fn times(names: Seq<Seq<char>>, name: Seq<char>) -> nat
    decreases names.len(),
{
    if names.len() == 0 {
        0
    } else {
        times(names.drop_last(), name) + if names.last() == name {
            1nat
        } else {
            0
        }
    }
}

pub open spec fn failed_ids(failed: Seq<FailureView>) -> Seq<Seq<char>> {
    failed.map_values(|failure: FailureView| failure.id)
}

pub open spec fn adopted_ids(adopted: Seq<AdoptedView>) -> Seq<Seq<char>> {
    adopted.map_values(|taken: AdoptedView| taken.id)
}

/// How many times a summary says what became of a model: measured, cached, adopted, failed,
/// or skipped for want of its weights.
pub open spec fn endings(summary: SummaryView, id: Seq<char>) -> nat {
    times(summary.measured, id) + times(summary.cached, id) + times(
        adopted_ids(summary.adopted),
        id,
    ) + times(failed_ids(summary.failed), id) + times(summary.skipped_missing, id)
}

/// The models visited.
pub open spec fn visited_ids(visits: Seq<Visit>) -> Seq<Seq<char>> {
    visits.map_values(|visit: Visit| visit.record.id)
}

proof fn lemma_once_more(names: Seq<Seq<char>>, pushed: Seq<char>, name: Seq<char>)
    ensures
        times(names.push(pushed), name) == times(names, name) + if pushed == name {
            1nat
        } else {
            0
        },
{
    assert(names.push(pushed).drop_last() =~= names);
}

/// Visiting a model says once what became of it, and nothing of any other.
pub proof fn law_a_visit_has_one_ending(
    sweep: SweepView,
    visit: Visit,
    force: bool,
    id: Seq<char>,
)
    ensures
        endings(visited(sweep, visit, force).summary, id) == endings(sweep.summary, id)
            + if visit.record.id == id {
            1nat
        } else {
            0
        },
{
    let before = sweep.summary;
    let after = visited(sweep, visit, force).summary;
    let own = visit.record.id;
    lemma_once_more(before.measured, own, id);
    lemma_once_more(before.cached, own, id);
    lemma_once_more(adopted_ids(before.adopted), own, id);
    lemma_once_more(failed_ids(before.failed), own, id);
    lemma_once_more(before.skipped_missing, own, id);
    if after.failed.len() > before.failed.len() {
        assert(failed_ids(after.failed) =~= failed_ids(before.failed).push(own));
    }
    if after.adopted.len() > before.adopted.len() {
        assert(adopted_ids(after.adopted) =~= adopted_ids(before.adopted).push(own));
    }
}

proof fn lemma_endings_are_visits(
    sweep: SweepView,
    visits: Seq<Visit>,
    force: bool,
    id: Seq<char>,
)
    ensures
        endings(swept(sweep, visits, force).summary, id) == endings(sweep.summary, id) + times(
            visited_ids(visits),
            id,
        ),
    decreases visits.len(),
{
    if visits.len() > 0 {
        lemma_endings_are_visits(sweep, visits.drop_last(), force, id);
        law_a_visit_has_one_ending(
            swept(sweep, visits.drop_last(), force),
            visits.last(),
            force,
            id,
        );
        assert(visited_ids(visits).drop_last() =~= visited_ids(visits.drop_last()));
    }
}

proof fn lemma_listed_once(names: Seq<Seq<char>>, name: Seq<char>)
    requires
        names.no_duplicates(),
    ensures
        times(names, name) == if names.contains(name) {
            1nat
        } else {
            0
        },
    decreases names.len(),
{
    if names.len() > 0 {
        let rest = names.drop_last();
        lemma_listed_once(rest, name);
        if rest.contains(name) {
            let i = choose|i: int| 0 <= i < rest.len() && rest[i] == name;
            assert(names[i] == name);
        }
        if names.contains(name) && names.last() != name {
            let i = choose|i: int| 0 <= i < names.len() && names[i] == name;
            assert(rest[i] == name);
        }
        if names.last() == name {
            assert(names[names.len() - 1] == name);
        }
    }
}

/// A closed sweep over a worklist of different models says of each of them exactly once what
/// became of it, and of no other anything: it is in just one of the lists of those measured,
/// cached, adopted, failed and missing.
pub proof fn law_every_model_has_one_ending(
    detected_total: i64,
    opening: ClearedPool,
    visits: Seq<Visit>,
    force: bool,
    closing: ClearedPool,
    previous: i64,
    id: Seq<char>,
)
    requires
        visited_ids(visits).no_duplicates(),
    ensures
        endings(
            closed(swept(opened(detected_total, opening), visits, force), closing, previous).summary,
            id,
        ) == if visited_ids(visits).contains(id) {
            1nat
        } else {
            0
        },
{
    let start = opened(detected_total, opening);
    lemma_endings_are_visits(start, visits, force, id);
    lemma_listed_once(visited_ids(visits), id);
    assert(adopted_ids(start.summary.adopted) =~= Seq::<Seq<char>>::empty());
    assert(failed_ids(start.summary.failed) =~= Seq::<Seq<char>>::empty());
    assert(endings(start.summary, id) == 0);
}

// ---- what is loaded, kept and reported ----------------------------------------------------

/// A sweep loads a model exactly if it is no proxy and, where models were asked for, is one of
/// them.
pub proof fn law_proxies_are_never_loaded(
    records: Seq<RecordView>,
    only: Option<Seq<Seq<char>>>,
    i: int,
)
    requires
        0 <= i < records.len(),
    ensures
        work_among(records, only, records.len()).contains(i) <==> records[i].model_type
            != ModelType::TtsProxy && (only is None || only->0.contains(records[i].id)),
{
    law_the_worklist_holds_just_the_work(records, only, records.len(), i);
}

/// What is stored and confirmed is not loaded again unless it is forced, what is not confirmed
/// is, and missing weights spare a load in any case.
pub proof fn law_only_confirmed_footprints_spare_a_load(facts: Facts, force: bool)
    ensures
        facts.weights_missing ==> !calls_for_load(facts, force),
        !facts.weights_missing && force ==> calls_for_load(facts, force),
        !facts.weights_missing && !force && facts.stored is Some ==> (calls_for_load(facts, force)
            <==> !(facts.stored->0@.status == "ok"@ && facts.stored->0@.allocation_confirmed
            == Some(true))),
        !facts.weights_missing && !force && facts.stored is None ==> (calls_for_load(facts, force)
            <==> facts.orphan is None),
{
}

/// A model that needs no load ends as its facts say: missing, cached, or adopted from the file
/// that held its footprint; one that does is left as it was until it is loaded.
pub proof fn law_a_spared_model_ends_as_its_facts_say(
    before: SummaryView,
    id: Seq<char>,
    facts: Facts,
    force: bool,
)
    ensures
        ({
            let after = triaged(before, id, facts, force);
            &&& facts.weights_missing ==> after.skipped_missing == before.skipped_missing.push(id)
                && after.cached == before.cached && after.adopted == before.adopted
            &&& !facts.weights_missing && !force && facts.stored is Some
                && facts.stored->0@.status == "ok"@ && facts.stored->0@.allocation_confirmed
                == Some(true) ==> after.cached == before.cached.push(id)
                && after.skipped_missing == before.skipped_missing && after.adopted
                == before.adopted
            &&& !facts.weights_missing && !force && facts.stored is None && facts.orphan is Some
                ==> after.adopted.len() == before.adopted.len() + 1 && after.adopted.last().id
                == id && after.adopted.last().from == (facts.orphan->0).0@
                && after.adopted.last().d_total == (facts.orphan->0).1.d_total
            &&& calls_for_load(facts, force) ==> after == before
            &&& after.measured == before.measured && after.failed == before.failed
        }),
{
}

/// A reading is refused exactly where a footprint is on record and the new one is a failure, or
/// was contended where that one was clean.
pub proof fn law_a_better_reading_is_never_displaced(
    previous: Option<ReadingView>,
    reading: ReadingView,
)
    ensures
        previous is None ==> !is_refused(previous, reading),
        previous is Some && previous->0.status != "ok"@ ==> !is_refused(previous, reading),
        previous is Some && previous->0.status == "ok"@ && reading.status != "ok"@ ==> is_refused(
            previous,
            reading,
        ),
        previous is Some && previous->0.status == "ok"@ && previous->0.contended == Some(false)
            && reading.contended == Some(true) ==> is_refused(previous, reading),
        previous is Some && reading.status == "ok"@ && (reading.contended != Some(true)
            || previous->0.contended != Some(false)) ==> !is_refused(previous, reading),
{
}

/// Two footprints of one command disagree exactly if they are more than a quarter of a GB apart
/// and more than a fiftieth of the earlier one.
pub proof fn law_disagreement_is_a_quarter_gb_and_a_fiftieth(previous: int, current: int)
    requires
        previous >= 0,
    ensures
        footprints_disagree(previous, current) <==> (current - previous > 256_000_000 || previous
            - current > 256_000_000) && ((current - previous) * 50 > previous || (previous
            - current) * 50 > previous),
{
}

/// What is recorded of a sample is its own delta: the settled occupancy less the baseline of its
/// own window, to the nearest hundredth of a GB.
pub proof fn law_a_footprint_is_the_delta_over_its_baseline(
    record: RecordView,
    context: Context,
    window: WindowView,
    sample: Sample,
)
    requires
        -4_000_000_000_000_000_000 <= sample.settled.used <= 4_000_000_000_000_000_000,
        -4_000_000_000_000_000_000 <= window.baseline <= 4_000_000_000_000_000_000,
    ensures
        ({
            let reading = sampled_reading(record, context, window, sample);
            let delta = sample.settled.used - window.baseline;
            &&& -5_120_000 <= reading.d_total - delta <= 5_120_000
            &&& -5_120_000 <= reading.abs_total - sample.settled.used <= 5_120_000
            &&& reading.status == "ok"@
            &&& reading.load_tenths == sample.load_tenths
            &&& reading.serving_verified == Some(sample.serving_verified)
            &&& reading.measured_at == context.today@
            &&& reading.params == memory_text(record.cmd)
        }),
{
    crate::sampling::law_rounding_is_close_and_stable(sample.settled.used - window.baseline);
    crate::sampling::law_rounding_is_close_and_stable(sample.settled.used as int);
}

/// What is recorded of a sample is confirmed exactly if the load-trigger finished and occupancy
/// then settled.
pub proof fn law_a_sample_is_confirmed_by_both_signs(
    record: RecordView,
    context: Context,
    window: WindowView,
    sample: Sample,
)
    ensures
        sampled_reading(record, context, window, sample).allocation_confirmed == Some(
            sample.trigger_note is None && sample.settled.settled,
        ),
{
}

/// A sample is contended exactly if something was seen beside the model before its load, or
/// came while it loaded.
pub proof fn law_company_is_recorded(
    record: RecordView,
    context: Context,
    window: WindowView,
    sample: Sample,
)
    ensures
        sampled_reading(record, context, window, sample).contended == Some(
            window.contention.len() > 0 || exists|i: int|
                0 <= i < views(sample.residents@).len() && !window.residents.contains(
                    #[trigger] views(sample.residents@)[i],
                ),
        ),
{
    let now = views(sample.residents@);
    lemma_missing(now, window.residents);
}

proof fn lemma_missing(list: Seq<Seq<char>>, other: Seq<Seq<char>>)
    ensures
        missing_from(list, other).len() > 0 <==> exists|i: int|
            0 <= i < list.len() && !other.contains(#[trigger] list[i]),
    decreases list.len(),
{
    if list.len() > 0 {
        let fewer = list.drop_last();
        lemma_missing(fewer, other);
        if exists|i: int| 0 <= i < fewer.len() && !other.contains(#[trigger] fewer[i]) {
            let i = choose|i: int| 0 <= i < fewer.len() && !other.contains(#[trigger] fewer[i]);
            assert(!other.contains(list[i]));
        }
        if !other.contains(list[list.len() - 1]) {
            assert(missing_from(list, other).len() > 0);
        } else if exists|i: int| 0 <= i < list.len() && !other.contains(#[trigger] list[i]) {
            let i = choose|i: int| 0 <= i < list.len() && !other.contains(#[trigger] list[i]);
            assert(!other.contains(fewer[i]));
        }
    }
}

/// A load that never got ready, or that was rejected, is recorded as a failure; a mismatched one
/// is not recorded at all.
pub proof fn law_failed_loads_are_recorded_as_failures(
    record: RecordView,
    context: Context,
    window: WindowView,
    load: Load,
)
    ensures
        load is NotReady ==> judged_reading(record, context, window, load) is Some
            && judged_reading(record, context, window, load)->0.status == "FAILED"@,
        load is Rejected ==> judged_reading(record, context, window, load) is Some
            && judged_reading(record, context, window, load)->0.status == "FAILED"@,
        load is Mismatch ==> judged_reading(record, context, window, load) is None,
{
}

/// A sample from which nobody departed is recorded, and counts as measured; one from which
/// somebody did is not, and counts as failed.
pub proof fn law_a_clean_sample_is_recorded(
    before: SummaryView,
    record: RecordView,
    context: Context,
    window: WindowView,
    sample: Sample,
)
    ensures
        ({
            let stayed = forall|i: int|
                0 <= i < window.residents.len() ==> views(sample.residents@).contains(
                    #[trigger] window.residents[i],
                );
            let after = judged_summary(before, record, context, window, Load::Sampled(sample));
            let reading = judged_reading(record, context, window, Load::Sampled(sample));
            &&& stayed ==> reading is Some && after.measured == before.measured.push(record.id)
                && after.failed == before.failed
            &&& !stayed ==> reading is None && after.measured == before.measured
                && after.failed.len() == before.failed.len() + 1 && after.failed.last().id
                == record.id
        }),
{
    lemma_missing(window.residents, views(sample.residents@));
}

/// A window shows company exactly if models were still resident, or the cleared pool held more
/// than a quarter of a GB above the lowest empty reading.
pub proof fn law_a_window_shows_company(floor: Option<i64>, cleared: ClearedPool)
    ensures
        contention_before(floor, cleared).len() > 0 <==> cleared.residents@.len() > 0 || (
        floor is Some && cleared.used > floor->0 + 256_000_000),
{
}

/// A model's baseline is that of its own window, not the sweep's.
pub proof fn law_a_window_has_its_own_baseline(
    sweep: SweepView,
    cleared: ClearedPool,
    split: Option<(i64, i64)>,
)
    ensures
        window_on(sweep, cleared, split).baseline == cleared.used,
        window_on(sweep, cleared, split).residents == views(cleared.residents@),
        window_on(sweep, cleared, split).split == split,
{
}

/// A sweep leaves the lowest reading of a verifiably empty pool as the baseline; without one, the
/// baseline that was stored before.
pub proof fn law_the_baseline_is_the_lowest_empty_reading(
    sweep: SweepView,
    closing: ClearedPool,
    previous: i64,
)
    ensures
        ({
            let after = closed(sweep, closing, previous).summary;
            &&& closing.residents@.len() == 0 ==> after.baseline <= closing.used
            &&& sweep.floor is Some ==> after.baseline <= sweep.floor->0
            &&& closing.residents@.len() == 0 && sweep.floor is None ==> after.baseline
                == closing.used
            &&& closing.residents@.len() == 0 && sweep.floor is Some ==> after.baseline
                == closing.used || after.baseline == sweep.floor->0
            &&& closing.residents@.len() > 0 && sweep.floor is Some ==> after.baseline
                == sweep.floor->0
            &&& closing.residents@.len() > 0 && sweep.floor is None ==> after.baseline == previous
                && after.no_empty_pool
        }),
{
}

/// The box file gets the sweep's baseline and the pool's total, to the nearest hundredth, and the
/// day of the sweep.
pub proof fn law_the_box_records_the_sweep(summary: SummaryView, today: Seq<char>)
    requires
        -9_000_000_000_000_000_000 <= summary.baseline <= 9_000_000_000_000_000_000,
        -9_000_000_000_000_000_000 <= summary.detected_total <= 9_000_000_000_000_000_000,
    ensures
        -5_120_000 <= box_after(summary, today).baseline - summary.baseline <= 5_120_000,
        box_after(summary, today).detected_total is Some,
        -5_120_000 <= box_after(summary, today).detected_total->0 - summary.detected_total
            <= 5_120_000,
        box_after(summary, today).date == Some(today),
        box_after(summary, today).host_total == summary.host_total,
        box_after(summary, today).host_baseline == summary.host_baseline,
{
    crate::sampling::law_rounding_is_close_and_stable(summary.baseline as int);
    crate::sampling::law_rounding_is_close_and_stable(summary.detected_total as int);
}

/// A lock names the process whose number it holds, with or without space around it, and nobody
/// where it holds no such number.
pub proof fn law_a_lock_names_its_process(pid: nat)
    ensures
        0 < pid <= 0x7fff_ffff ==> lock_owner(digits(pid)) == Some(pid as int),
        pid == 0 || pid > 0x7fff_ffff ==> lock_owner(digits(pid)) is None,
{
    crate::number::law_numbers_are_read(pid, u64::MAX as nat);
    crate::number::law_digits_are_read_back(pid);
    let s = digits(pid);
    assert(crate::text::is_digit(s[0]));
    assert(crate::text::is_digit(s[s.len() - 1]));
    assert(trim_both(s) == s);
}

/// Only an empty pool lowers the floor: with anyone resident nothing changes, and without, the
/// floor is the lower of what it was and what the pool holds.
pub proof fn law_only_an_empty_pool_sets_the_floor(sweep: SweepView, cleared: ClearedPool)
    ensures
        ({
            let after = with_floor(sweep, cleared);
            let empty = cleared.residents@.len() == 0;
            &&& !empty ==> after == sweep
            &&& empty ==> after.floor == Some(
                if sweep.floor is Some && sweep.floor->0 < cleared.used {
                    sweep.floor->0
                } else {
                    cleared.used
                },
            )
            &&& empty && cleared.host is Some ==> after.host_floor == Some(
                if sweep.host_floor is Some && sweep.host_floor->0 < cleared.host->0.used_gb {
                    sweep.host_floor->0
                } else {
                    cleared.host->0.used_gb
                },
            )
            &&& cleared.host is None ==> after.host_floor == sweep.host_floor
            &&& after.summary == sweep.summary
        }),
{
}

/// A sweep says that it saw no empty pool exactly if it never did, and that the baseline moved
/// exactly if it is more than a quarter of a GB from a stored one.
pub proof fn law_a_sweep_says_what_it_saw(sweep: SweepView, closing: ClearedPool, previous: i64)
    requires
        !sweep.summary.no_empty_pool,
    ensures
        ({
            let after = closed(sweep, closing, previous).summary;
            &&& after.no_empty_pool <==> sweep.floor is None && closing.residents@.len() > 0
            &&& after.baseline_was is Some <==> previous > 0 && (after.baseline - previous
                > 256_000_000 || previous - after.baseline > 256_000_000)
        }),
{
}

/// A sweep starts with nothing done, and with the opening reading as its floor if nobody was
/// resident.
pub proof fn law_a_sweep_starts_empty(detected_total: i64, opening: ClearedPool)
    ensures
        ({
            let sweep = opened(detected_total, opening);
            &&& sweep.summary.measured.len() == 0
            &&& sweep.summary.cached.len() == 0
            &&& sweep.summary.failed.len() == 0
            &&& sweep.summary.skipped_missing.len() == 0
            &&& sweep.summary.adopted.len() == 0
            &&& !sweep.summary.no_empty_pool
            &&& sweep.summary.detected_total == detected_total
            &&& opening.residents@.len() == 0 ==> sweep.floor == Some(opening.used)
            &&& opening.residents@.len() > 0 ==> sweep.floor is None
        }),
{
}

/// A load that failed is told as a failure of its model; where the command was not seen to be the
/// one that is served, that is told too.
pub proof fn law_a_failed_load_is_told(
    before: SummaryView,
    record: RecordView,
    context: Context,
    window: WindowView,
    load: Load,
)
    requires
        !(load is Sampled),
    ensures
        ({
            let after = judged_summary(before, record, context, window, load);
            &&& after.failed.len() == before.failed.len() + 1
            &&& after.failed.last().id == record.id
            &&& after.failed.drop_last() == before.failed
            &&& after.measured == before.measured
            &&& after.unconfirmed_allocation == before.unconfirmed_allocation
            &&& after.contended == before.contended
            &&& after.unverified_serving == if load is Rejected
                && !load->Rejected_serving_verified {
                before.unverified_serving.push(record.id)
            } else {
                before.unverified_serving
            }
        }),
{
    let after = judged_summary(before, record, context, window, load);
    assert(after.failed.drop_last() =~= before.failed);
}

/// What there is to say of a sample is said: that its command was not seen to be served, that it
/// was not seen to settle, that it was not alone, that it is below its weights, and that it
/// disagrees with the reading it follows.
pub proof fn law_what_a_sample_lacks_is_told(
    before: SummaryView,
    record: RecordView,
    context: Context,
    window: WindowView,
    sample: Sample,
)
    ensures
        ({
            let after = judged_summary(before, record, context, window, Load::Sampled(sample));
            let reading = sampled_reading(record, context, window, sample);
            let confirmed = sample.trigger_note is None && sample.settled.settled;
            &&& after.unverified_serving == if sample.serving_verified {
                before.unverified_serving
            } else {
                before.unverified_serving.push(record.id)
            }
            &&& confirmed ==> after.unconfirmed_allocation == before.unconfirmed_allocation
            &&& !confirmed ==> after.unconfirmed_allocation.len()
                == before.unconfirmed_allocation.len() + 1
                && after.unconfirmed_allocation.last().id == record.id
            &&& reading.contended == Some(false) ==> after.contended == before.contended
            &&& reading.contended == Some(true) ==> after.contended.len() == before.contended.len()
                + 1 && after.contended.last().id == record.id
            &&& context.stored is Some && context.stored->0@.status == "ok"@
                && footprints_disagree(
                context.stored->0.d_total as int,
                reading.d_total as int,
            ) ==> after.changed == before.changed.push(
                RemeasuredView {
                    id: record.id,
                    previous: context.stored->0.d_total,
                    current: reading.d_total,
                    previous_measured_at: context.stored->0.measured_at@,
                },
            )
            &&& context.stored is None ==> after.changed == before.changed
            &&& context.stored is Some && context.stored->0@.status != "ok"@ ==> after.changed
                == before.changed
            &&& context.stored is Some && !footprints_disagree(
                context.stored->0.d_total as int,
                reading.d_total as int,
            ) ==> after.changed == before.changed
            &&& context.weights is None ==> after.below_weight_floor == before.below_weight_floor
            &&& after.cached == before.cached
            &&& after.adopted == before.adopted
            &&& after.skipped_missing == before.skipped_missing
        }),
{
}

/// A sample below nine tenths of its weights is told, with its model.
pub proof fn law_a_sample_below_its_weights_is_told(
    before: SummaryView,
    record: RecordView,
    context: Context,
    window: WindowView,
    sample: Sample,
)
    requires
        context.weights is Some,
    ensures
        ({
            let after = judged_summary(before, record, context, window, Load::Sampled(sample));
            let reading = sampled_reading(record, context, window, sample);
            let below = reading.weights_gb->0 > 0 && reading.d_total * 10 < reading.weights_gb->0
                * 9;
            &&& reading.weights_gb is Some
            &&& below ==> after.below_weight_floor.len() == before.below_weight_floor.len() + 1
                && after.below_weight_floor.last().id == record.id
            &&& !below ==> after.below_weight_floor == before.below_weight_floor
        }),
{
}

/// What a load adds to the host is its own delta, and never below nothing; it is unknown where
/// either reading is.
pub proof fn law_a_host_footprint_is_a_delta(now: Option<i64>, before: Option<i64>)
    requires
        now is Some ==> -4_000_000_000_000_000_000 <= now->0 <= 4_000_000_000_000_000_000,
        before is Some ==> -4_000_000_000_000_000_000 <= before->0 <= 4_000_000_000_000_000_000,
    ensures
        now is None || before is None ==> host_delta(now, before) is None,
        now is Some && before is Some ==> host_delta(now, before) is Some,
        now is Some && before is Some && now->0 <= before->0 ==> host_delta(now, before)->0 == 0,
        now is Some && before is Some && now->0 >= before->0 ==> -5_120_000 <= host_delta(
            now,
            before,
        )->0 - (now->0 - before->0) <= 5_120_000,
{
    if now is Some && before is Some {
        crate::sampling::law_rounding_is_close_and_stable(now->0 - before->0);
    }
}

/// A model's file names its type and its weight file, whatever it named before.
pub proof fn law_a_file_names_its_model(
    file: Option<StoreView>,
    record: RecordView,
    reading: ReadingView,
)
    ensures
        filed_with(file, record, reading).file == record.primary_file,
        filed_with(file, record, reading).model_type == name_of_type(record.model_type),
{
}

/// A model's host baseline is that of its own window too: what the host holds, not what it has.
pub proof fn law_a_window_has_its_own_host_baseline(
    sweep: SweepView,
    cleared: ClearedPool,
    split: Option<(i64, i64)>,
)
    ensures
        cleared.host is Some ==> window_on(sweep, cleared, split).host == Some(
            cleared.host->0.used_gb,
        ),
        cleared.host is None ==> window_on(sweep, cleared, split).host is None,
{
}

/// The peak that is recorded is the highest that was seen over the window's baseline, while the
/// model loaded or settled, to the nearest hundredth of a GB; it is never below the footprint.
pub proof fn law_the_recorded_peak_is_the_highest_seen(
    record: RecordView,
    context: Context,
    window: WindowView,
    sample: Sample,
)
    requires
        0 <= sample.settled.used <= 4_000_000_000_000_000_000,
        0 <= sample.settled.peak <= 4_000_000_000_000_000_000,
        0 <= sample.trigger_peak <= 4_000_000_000_000_000_000,
        0 <= window.baseline <= 4_000_000_000_000_000_000,
    ensures
        ({
            let reading = sampled_reading(record, context, window, sample);
            let highest = if sample.trigger_peak > sample.settled.peak {
                sample.trigger_peak
            } else {
                sample.settled.peak
            };
            &&& reading.peak_total is Some
            &&& reading.peak_total->0 >= reading.d_total
            &&& reading.peak_total->0 >= highest - window.baseline - 5_120_000
            &&& highest - window.baseline >= reading.d_total ==> reading.peak_total->0 <= highest
                - window.baseline + 5_120_000
            &&& highest - window.baseline < reading.d_total ==> reading.peak_total->0
                == reading.d_total
        }),
{
    let footprint = footprint_of(window, sample) as int;
    let delta = sample.settled.used - window.baseline;
    let highest = higher(sample.trigger_peak as int, sample.settled.peak as int)
        - window.baseline;
    crate::sampling::law_rounding_is_close_and_stable(delta);
    crate::sampling::law_rounding_is_close_and_stable(highest);
    crate::sampling::law_rounding_is_close_and_stable(footprint);
    if highest >= footprint {
        lemma_rounding_keeps_order(delta, highest);
    }
}

proof fn lemma_rounding_keeps_order(a: int, b: int)
    requires
        -5_000_000_000_000_000_000 <= a <= 5_000_000_000_000_000_000,
        -5_000_000_000_000_000_000 <= b <= 5_000_000_000_000_000_000,
        b >= hundredths(a),
    ensures
        hundredths(b) >= hundredths(a),
{
    crate::sampling::law_rounding_is_close_and_stable(a);
    crate::sampling::law_rounding_is_close_and_stable(b);
}

/// Where both readings tell video memory from the rest, the split is recorded as the delta of
/// each, and otherwise not at all.
pub proof fn law_a_split_is_recorded_where_it_is_known(
    record: RecordView,
    context: Context,
    window: WindowView,
    sample: Sample,
)
    requires
        sample.split is Some ==> 0 <= (sample.split->0).0 <= 4_000_000_000_000_000_000 && 0
            <= (sample.split->0).1 <= 4_000_000_000_000_000_000,
        window.split is Some ==> 0 <= (window.split->0).0 <= 4_000_000_000_000_000_000 && 0
            <= (window.split->0).1 <= 4_000_000_000_000_000_000,
    ensures
        ({
            let reading = sampled_reading(record, context, window, sample);
            let known = sample.split is Some && window.split is Some;
            &&& !known ==> reading.d_vram is None && reading.d_gtt is None && reading.abs_vram is None
                && reading.abs_gtt is None
            &&& known ==> reading.d_vram is Some && reading.d_gtt is Some
                && reading.abs_vram is Some && reading.abs_gtt is Some
            &&& known ==> -5_120_000 <= reading.d_vram->0 - ((sample.split->0).0 - (window.split->0).0)
                <= 5_120_000
            &&& known ==> -5_120_000 <= reading.d_gtt->0 - ((sample.split->0).1 - (window.split->0).1)
                <= 5_120_000
            &&& known ==> -5_120_000 <= reading.abs_vram->0 - (sample.split->0).0 <= 5_120_000
            &&& known ==> -5_120_000 <= reading.abs_gtt->0 - (sample.split->0).1 <= 5_120_000
        }),
{
    if sample.split is Some && window.split is Some {
        let now = sample.split->0;
        let before = window.split->0;
        crate::sampling::law_rounding_is_close_and_stable(now.0 - before.0);
        crate::sampling::law_rounding_is_close_and_stable(now.1 - before.1);
        crate::sampling::law_rounding_is_close_and_stable(now.0 as int);
        crate::sampling::law_rounding_is_close_and_stable(now.1 as int);
    }
}

/// A failed load is recorded with its command and its day, with no footprint.
pub proof fn law_a_failure_is_recorded_without_a_footprint(
    record: RecordView,
    context: Context,
    window: WindowView,
    load: Load,
)
    requires
        load is NotReady || load is Rejected,
    ensures
        ({
            let reading = judged_reading(record, context, window, load)->0;
            &&& reading.d_total == 0
            &&& reading.abs_total == 0
            &&& reading.d_host is None
            &&& reading.allocation_confirmed is None
            &&& reading.params == memory_text(record.cmd)
            &&& reading.measured_at == context.today@
            &&& load is NotReady ==> reading.serving_verified is None
            &&& load is Rejected ==> reading.serving_verified == Some(
                load->Rejected_serving_verified,
            )
        }),
{
}

/// A usable reading is told with its footprint, a failure as such, and what is not stored as not
/// stored.
pub proof fn law_an_outcome_is_told_as_it_is(reading: ReadingView)
    ensures
        reading.status == "ok"@ && reading.contended != Some(true) ==> outcome_text(
            Some(reading),
            false,
        ) == gb2(reading.d_total as int) + " GB in "@ + seconds_text(reading.load_tenths as nat)
            + " s"@,
        reading.status == "ok"@ && reading.contended == Some(true) ==> outcome_text(
            Some(reading),
            false,
        ) == gb2(reading.d_total as int) + " GB in "@ + seconds_text(reading.load_tenths as nat)
            + " s (contended)"@,
        reading.status != "ok"@ ==> outcome_text(Some(reading), false) == "FAILED"@,
        outcome_text(None, false) == "nothing recorded"@,
        outcome_text(Some(reading), true) == outcome_text(Some(reading), false)
            + ", not stored (the better reading already on record is kept)"@,
{
    reveal_strlit("");
    reveal_strlit(" s");
    reveal_strlit(" (contended)");
    reveal_strlit(" s (contended)");
    let start = gb2(reading.d_total as int) + " GB in "@ + seconds_text(
        reading.load_tenths as nat,
    );
    assert(start + " s"@ + ""@ =~= start + " s"@);
    assert(start + " s"@ + " (contended)"@ =~= start + " s (contended)"@);
}

/// A model is unlisted exactly if the server said whom it serves, and did not name it.
pub proof fn law_only_a_known_list_can_lack_a_model(served: Seq<Seq<char>>, id: Seq<char>)
    ensures
        !is_unlisted(None, id),
        is_unlisted(Some(served), id) <==> forall|i: int|
            0 <= i < served.len() ==> #[trigger] served[i] != id,
{
}

} // verus!
