//! Reading occupancy while a model loads: when a reading counts as settled, when an
//! allocation counts as finished, and what an empty pool holds.
//!
//! `ready` is not `allocated`: llama-swap reports a model ready when its upstream answers,
//! which for a backend that allocates lazily is long before its weights are resident. So
//! the request that triggers the load is awaited, and only then is a settled reading a
//! footprint. Each step here takes what was just observed and says what to do next; the
//! frontend observes and waits.

use vstd::prelude::*;
use vstd::string::*;

use crate::number::{clamped, digits, magnitude, number_text};
use crate::platform::HostMemory;
use crate::serving::{running_views, Running, RunningView};
use crate::text::{chars_of, lemma_views_push, same, views};

verus! {

/// Consecutive quiet samples after which occupancy counts as settled. A staged loader
/// pauses between components, so two would settle too early.
pub const STABILIZE_HOLD: u32 = 3;

/// How long to look for a settled reading, in seconds.
pub const STABILIZE_MAX_WAIT_S: u64 = 30;

/// Two readings closer than this (0.03 GB) are quiet.
pub const STABILIZE_EPS: i64 = 30_720_000;

/// Occupancy above the empty pool (0.25 GB) that is something resident, not sensor noise.
pub const CONTENTION_EPS: i64 = 256_000_000;

// ---- rounding -----------------------------------------------------------------------------

/// An amount to the nearest hundredth of a GB, ties away from zero, as it is recorded.
pub open spec fn hundredths(units: int) -> int {
    let rounded = ((magnitude(units) + 5_120_000) / 10_240_000) * 10_240_000;
    clamped(
        if units < 0 {
            -(rounded as int)
        } else {
            rounded as int
        },
    )
}

/// An amount to the nearest hundredth of a GB.
pub fn round2(units: i128) -> (r: i64)
    ensures
        r == hundredths(units as int),
{
    if units > 0x1_0000_0000_0000_0000 {
        return i64::MAX;
    }
    if units < -0x1_0000_0000_0000_0000 {
        return -i64::MAX;
    }
    let size: i128 = if units < 0 {
        -units
    } else {
        units
    };
    let rounded: i128 = ((size + 5_120_000) / 10_240_000) * 10_240_000;
    let signed: i128 = if units < 0 {
        -rounded
    } else {
        rounded
    };
    if signed > i64::MAX as i128 {
        i64::MAX
    } else if signed < -(i64::MAX as i128) {
        -i64::MAX
    } else {
        signed as i64
    }
}

/// Rounding moves an amount by at most half a hundredth of a GB, unless it is too large to
/// record, and rounding twice is rounding once.
pub proof fn law_rounding_is_close_and_stable(units: int)
    requires
        magnitude(units) <= 9_000_000_000_000_000_000,
    ensures
        -5_120_000 <= hundredths(units) - units <= 5_120_000,
        hundredths(hundredths(units)) == hundredths(units),
{
    let k = (magnitude(units) + 5_120_000) / 10_240_000;
    assert(magnitude(hundredths(units)) == k * 10_240_000);
    assert((k * 10_240_000 + 5_120_000) / 10_240_000 == k);
}

// ---- settling -----------------------------------------------------------------------------

/// Two readings are closer than `eps`.
pub open spec fn quiet(a: int, b: int, eps: int) -> bool {
    magnitude(a - b) < eps
}

/// How many of the last readings in a row were quiet, each against the one before.
pub open spec fn quiet_run(readings: Seq<int>, eps: int) -> nat
    decreases readings.len(),
{
    if readings.len() < 2 {
        0
    } else if quiet(readings.last(), readings[readings.len() - 2], eps) {
        quiet_run(readings.drop_last(), eps) + 1
    } else {
        0
    }
}

/// The highest of some readings; at least zero.
pub open spec fn peak_of(readings: Seq<int>) -> int
    decreases readings.len(),
{
    if readings.len() == 0 {
        0
    } else {
        let before = peak_of(readings.drop_last());
        if readings.last() > before {
            readings.last()
        } else {
            before
        }
    }
}

/// Occupancy has settled: the last reading was quiet, and enough in a row were.
pub open spec fn has_settled(readings: Seq<int>, eps: int, hold: int) -> bool {
    quiet_run(readings, eps) > 0 && quiet_run(readings, eps) >= hold
}

/// Occupancy being sampled until it settles.
#[derive(Debug)]
pub struct Stabilizer {
    pub previous: Option<i64>,
    pub stable: u32,
    pub peak: i64,
}

/// A settled reading, or the last one before time ran out.
#[derive(Debug, Clone, Copy, PartialEq, Eq, Structural)]
pub struct Stabilized {
    /// The occupancy accepted as the reading.
    pub used: i64,
    /// Did occupancy go quiet, or did time run out while it was still moving?
    pub settled: bool,
    /// Highest occupancy seen while sampling.
    pub peak: i64,
}

impl Stabilizer {
    /// The state after these readings, none of which settled it.
    pub open spec fn has_seen(self, readings: Seq<int>, eps: int) -> bool {
        &&& self.previous == (if readings.len() == 0 {
            None::<i64>
        } else {
            Some(readings.last() as i64)
        })
        &&& readings.len() > 0 ==> i64::MIN <= readings.last() <= i64::MAX
        &&& self.stable == quiet_run(readings, eps)
        &&& self.peak == peak_of(readings)
    }

    /// Nothing sampled yet.
    pub fn new() -> (r: Self)
        ensures
            r.has_seen(Seq::empty(), 0),
            forall|eps: int| #[trigger] r.has_seen(Seq::empty(), eps),
    {
        Stabilizer { previous: None, stable: 0, peak: 0 }
    }

    /// Take one more reading into account. `Some` once occupancy has settled.
    pub fn sample(&mut self, reading: i64, eps: i64, hold: u32) -> (r: Option<Stabilized>)
        requires
            old(self).stable < u32::MAX,
        ensures
            final(self).previous == Some(reading),
            final(self).peak == (if reading > old(self).peak {
                reading
            } else {
                old(self).peak
            }),
            ({
                let still = old(self).previous is Some && quiet(
                    reading as int,
                    old(self).previous->0 as int,
                    eps as int,
                );
                &&& final(self).stable == (if still {
                    old(self).stable + 1
                } else {
                    0
                })
                &&& r is Some <==> still && final(self).stable >= hold
                &&& r is Some ==> r->0 == (Stabilized {
                    used: reading,
                    settled: true,
                    peak: final(self).peak,
                })
            }),
    {
        if reading > self.peak {
            self.peak = reading;
        }
        let mut settled = false;
        match self.previous {
            Some(previous) => {
                let step: i128 = reading as i128 - previous as i128;
                let size: i128 = if step < 0 {
                    -step
                } else {
                    step
                };
                if size < eps as i128 {
                    self.stable = self.stable + 1;
                    settled = self.stable >= hold;
                } else {
                    self.stable = 0;
                }
            },
            None => {
                self.stable = 0;
            },
        }
        self.previous = Some(reading);
        if settled {
            Some(Stabilized { used: reading, settled: true, peak: self.peak })
        } else {
            None
        }
    }

    /// Time ran out: the reading that is taken anyway, and says so.
    pub fn give_up(&self, reading: i64) -> (r: Stabilized)
        ensures
            !r.settled,
            r.used == reading,
            r.peak == (if reading > self.peak {
                reading
            } else {
                self.peak
            }),
    {
        Stabilized {
            used: reading,
            settled: false,
            peak: if reading > self.peak {
                reading
            } else {
                self.peak
            },
        }
    }
}

/// Readings as numbers.
pub open spec fn amounts(readings: Seq<i64>) -> Seq<int> {
    Seq::new(readings.len(), |i: int| readings[i] as int)
}

/// The first position at which occupancy has settled.
pub open spec fn settles_at(readings: Seq<int>, eps: int, hold: int, from: nat) -> Option<nat>
    decreases readings.len() - from,
{
    if from >= readings.len() {
        None
    } else if has_settled(readings.take((from + 1) as int), eps, hold) {
        Some(from)
    } else {
        settles_at(readings, eps, hold, from + 1)
    }
}

/// What a run of readings comes to, the last of them taken as time runs out.
pub fn stabilize(readings: &Vec<i64>, eps: i64, hold: u32) -> (r: Stabilized)
    requires
        readings@.len() > 0,
    ensures
        ({
            let all = amounts(readings@);
            let sampled = all.drop_last();
            match settles_at(sampled, eps as int, hold as int, 0) {
                Some(at) => r.settled && r.used == all[at as int] && r.peak == peak_of(
                    all.take((at + 1) as int),
                ),
                None => !r.settled && r.used == all.last() && r.peak == peak_of(all),
            }
        }),
{
    let ghost all = amounts(readings@);
    let ghost sampled = all.drop_last();
    let mut state = Stabilizer::new();
    let mut at: usize = 0;
    proof {
        assert(sampled.take(0) =~= Seq::<int>::empty());
    }
    while at < readings.len() - 1
        invariant
            readings@.len() > 0,
            at <= readings@.len() - 1,
            all == amounts(readings@),
            sampled == all.drop_last(),
            state.has_seen(sampled.take(at as int), eps as int),
            state.stable == 0 || state.stable < hold,
            settles_at(sampled, eps as int, hold as int, 0) == settles_at(
                sampled,
                eps as int,
                hold as int,
                at as nat,
            ),
        decreases readings@.len() - at,
    {
        let reading = readings[at];
        proof {
            let longer = sampled.take(at + 1);
            assert(longer.drop_last() =~= sampled.take(at as int));
            assert(longer.last() == reading);
            if at > 0 {
                assert(longer[longer.len() - 2] == sampled.take(at as int).last());
            }
            assert(all.take(at + 1) =~= longer);
        }
        if let Some(done) = state.sample(reading, eps, hold) {
            return done;
        }
        at = at + 1;
    }
    let last: usize = readings.len() - 1;
    let result = state.give_up(readings[last]);
    proof {
        assert(sampled.take(at as int) =~= sampled);
        assert(all.last() == readings@[last as int]);
    }
    result
}

// ---- awaiting the allocation ------------------------------------------------------------------

/// What was heard of a load-trigger since the last sample.
#[derive(Debug)]
pub enum TriggerEvent {
    /// The backend answered with this HTTP status.
    Answered(u16),
    /// The request never completed.
    Failed(String),
    /// Nothing yet; `expired` once its time budget is spent.
    Pending { expired: bool },
    /// It ended without reporting an outcome.
    Lost,
}

/// Whether a model's allocation is known to have finished.
#[derive(Debug)]
pub enum Allocation {
    /// The trigger completed: whatever it allocated is resident.
    Confirmed { peak: i64 },
    /// The trigger failed or was refused, so nothing about the reading can be trusted.
    Rejected { reason: String },
    /// It never came back: the reading may be a mid-load plateau.
    Unconfirmed { peak: i64, reason: String },
}

/// What awaiting an allocation comes to.
#[derive(Debug)]
pub enum AwaitStep {
    Done(Allocation),
    /// Go on waiting; the highest occupancy so far is this.
    Wait { peak: i64 },
}

/// What an allocation outcome says.
#[verifier::ext_equal]
pub enum AllocationView {
    Confirmed { peak: int },
    Rejected { reason: Seq<char> },
    Unconfirmed { peak: int, reason: Seq<char> },
}

impl View for Allocation {
    type V = AllocationView;

    open spec fn view(&self) -> AllocationView {
        match *self {
            Allocation::Confirmed { peak } => AllocationView::Confirmed { peak: peak as int },
            Allocation::Rejected { reason } => AllocationView::Rejected { reason: reason@ },
            Allocation::Unconfirmed { peak, reason } => AllocationView::Unconfirmed {
                peak: peak as int,
                reason: reason@,
            },
        }
    }
}

pub open spec fn higher(a: int, b: int) -> int {
    if a < b {
        b
    } else {
        a
    }
}

/// What an event decides: success confirms, any other answer and a failed request reject,
/// and running out of time leaves it open. `None` goes on waiting.
pub open spec fn allocation_after(event: TriggerEvent, peak: int, budget_s: nat) -> Option<
    AllocationView,
> {
    match event {
        TriggerEvent::Answered(status) => if 200 <= status < 300 {
            Some(AllocationView::Confirmed { peak })
        } else {
            Some(
                AllocationView::Rejected {
                    reason: "the load-trigger returned HTTP "@ + digits(status as nat),
                },
            )
        },
        TriggerEvent::Failed(error) => Some(
            AllocationView::Rejected {
                reason: "the load-trigger did not complete: "@ + error@,
            },
        ),
        TriggerEvent::Pending { expired } => if expired {
            Some(
                AllocationView::Unconfirmed {
                    peak,
                    reason: "the load-trigger was still running "@ + digits(budget_s)
                        + "s after it was fired, so the reading may be a mid-load plateau rather than the finished footprint"@,
                },
            )
        } else {
            None
        },
        TriggerEvent::Lost => Some(
            AllocationView::Unconfirmed {
                peak,
                reason: "the load-trigger ended without reporting an outcome"@,
            },
        ),
    }
}

/// One step of waiting for a load-trigger: a reading was taken, then this was heard.
pub fn await_allocation(peak: i64, reading: i64, event: TriggerEvent, budget_s: u64) -> (step:
    AwaitStep)
    ensures
        ({
            let top = higher(peak as int, reading as int);
            match step {
                AwaitStep::Done(allocation) => allocation_after(event, top, budget_s as nat)
                    == Some(allocation@),
                AwaitStep::Wait { peak: p } => allocation_after(event, top, budget_s as nat) is None
                    && p == top,
            }
        }),
{
    let top: i64 = if peak < reading {
        reading
    } else {
        peak
    };
    match event {
        TriggerEvent::Answered(status) => if 200 <= status && status < 300 {
            AwaitStep::Done(Allocation::Confirmed { peak: top })
        } else {
            AwaitStep::Done(
                Allocation::Rejected {
                    reason: "the load-trigger returned HTTP ".to_owned().concat(
                        number_text(status as u128).as_str(),
                    ),
                },
            )
        },
        TriggerEvent::Failed(error) => AwaitStep::Done(
            Allocation::Rejected {
                reason: "the load-trigger did not complete: ".to_owned().concat(error.as_str()),
            },
        ),
        TriggerEvent::Pending { expired } => if expired {
            AwaitStep::Done(
                Allocation::Unconfirmed {
                    peak: top,
                    reason: "the load-trigger was still running ".to_owned().concat(
                        number_text(budget_s as u128).as_str(),
                    ).concat(
                        "s after it was fired, so the reading may be a mid-load plateau rather than the finished footprint",
                    ),
                },
            )
        } else {
            AwaitStep::Wait { peak: top }
        },
        TriggerEvent::Lost => AwaitStep::Done(
            Allocation::Unconfirmed {
                peak: top,
                reason: "the load-trigger ended without reporting an outcome".to_owned(),
            },
        ),
    }
}

// ---- awaiting ready ---------------------------------------------------------------------------

/// What a reported state says about a load under way.
#[derive(Debug, Clone, Copy, PartialEq, Eq, Structural)]
pub enum ReadyStep {
    Ready,
    /// The model is being torn down: a reading would mean nothing.
    GaveUp,
    Wait,
}

/// What a reported state says: only `ready` is a go, tearing down is the end, and anything
/// else waits.
pub open spec fn ready_after(state: Option<Seq<char>>) -> ReadyStep {
    match state {
        Some(s) => if s == "ready"@ {
            ReadyStep::Ready
        } else if s == "stopping"@ || s == "stopped"@ || s == "shutdown"@ {
            ReadyStep::GaveUp
        } else {
            ReadyStep::Wait
        },
        None => ReadyStep::Wait,
    }
}

/// One poll of waiting for a model to be ready.
pub fn ready_step(entries: &Vec<(String, Running)>, model: &str) -> (r: (ReadyStep, Option<String>))
    ensures
        ({
            let entry = crate::tables::lookup(running_views(entries@), model@);
            &&& r.0 == ready_after(
                match entry {
                    Some(e) => Some(e.state),
                    None => None,
                },
            )
            &&& crate::model::text_view(r.1) == (match entry {
                Some(e) => e.cmd,
                None => None,
            })
        }),
{
    match find_running(entries, model) {
        Some(entry) => {
            let state = entry.state.as_str();
            let step = if same(state, "ready") {
                ReadyStep::Ready
            } else if same(state, "stopping") || same(state, "stopped") || same(
                state,
                "shutdown",
            ) {
                ReadyStep::GaveUp
            } else {
                ReadyStep::Wait
            };
            (step, crate::cache::copied_text(&entry.cmd))
        },
        None => (ReadyStep::Wait, None),
    }
}

/// The entry for a model.
pub fn find_running<'a>(entries: &'a Vec<(String, Running)>, model: &str) -> (r: Option<&'a Running>)
    ensures
        match r {
            Some(entry) => crate::tables::lookup(running_views(entries@), model@) == Some(entry@),
            None => crate::tables::lookup(running_views(entries@), model@) is None,
        },
{
    let ghost all = running_views(entries@);
    let mut at: usize = 0;
    proof {
        assert(all.skip(0) =~= all);
    }
    while at < entries.len()
        invariant
            at <= entries@.len(),
            all == running_views(entries@),
            crate::tables::lookup(all.skip(at as int), model@) == crate::tables::lookup(
                all,
                model@,
            ),
        decreases entries@.len() - at,
    {
        proof {
            assert(all.skip(at as int)[0] == all[at as int]);
            assert(all.skip(at as int).skip(1) =~= all.skip(at + 1));
        }
        if same(entries[at].0.as_str(), model) {
            return Some(&entries[at].1);
        }
        at = at + 1;
    }
    None
}

// ---- who is resident --------------------------------------------------------------------------

/// The first name comes before the second, character by character.
pub open spec fn name_before(a: Seq<char>, b: Seq<char>) -> bool
    decreases a.len(),
{
    if b.len() == 0 {
        false
    } else if a.len() == 0 {
        true
    } else if a[0] == b[0] {
        name_before(a.skip(1), b.skip(1))
    } else {
        a[0] < b[0]
    }
}

/// Names in order.
pub open spec fn sorted_names(names: Seq<Seq<char>>) -> Seq<Seq<char>> {
    crate::plan::sort_by(names, |a: Seq<char>, b: Seq<char>| name_before(a, b))
}

/// The models that are running, but for one.
pub open spec fn others_running(entries: Seq<(Seq<char>, RunningView)>, except: Seq<char>) -> Seq<
    Seq<char>,
>
    decreases entries.len(),
{
    if entries.len() == 0 {
        Seq::empty()
    } else {
        let before = others_running(entries.drop_last(), except);
        if entries.last().0 == except {
            before
        } else {
            before.push(entries.last().0)
        }
    }
}

fn comes_before(a: &str, b: &str) -> (r: bool)
    ensures
        r == name_before(a@, b@),
{
    let x = chars_of(a);
    let y = chars_of(b);
    let mut at: usize = 0;
    proof {
        assert(x@.skip(0) =~= x@);
        assert(y@.skip(0) =~= y@);
    }
    while at < x.len() && at < y.len()
        invariant
            at <= x@.len(),
            at <= y@.len(),
            x@ == a@,
            y@ == b@,
            name_before(x@.skip(at as int), y@.skip(at as int)) == name_before(a@, b@),
        decreases x@.len() - at,
    {
        proof {
            assert(x@.skip(at as int)[0] == x@[at as int]);
            assert(y@.skip(at as int)[0] == y@[at as int]);
            assert(x@.skip(at as int).skip(1) =~= x@.skip(at + 1));
            assert(y@.skip(at as int).skip(1) =~= y@.skip(at + 1));
        }
        if x[at] != y[at] {
            return x[at] < y[at];
        }
        at = at + 1;
    }
    at < y.len()
}

/// Names in order.
pub fn sort_names(names: &Vec<String>) -> (r: Vec<String>)
    ensures
        views(r@) == sorted_names(views(names@)),
{
    let ghost all = views(names@);
    let ghost before = |a: Seq<char>, b: Seq<char>| name_before(a, b);
    let mut r: Vec<String> = Vec::new();
    let mut at: usize = 0;
    proof {
        assert(views(r@) =~= crate::plan::sort_by(all.take(0), before));
    }
    while at < names.len()
        invariant
            at <= names@.len(),
            all == views(names@),
            before == (|a: Seq<char>, b: Seq<char>| name_before(a, b)),
            views(r@) == crate::plan::sort_by(all.take(at as int), before),
        decreases names@.len() - at,
    {
        let name = names[at].clone();
        let mut k: usize = r.len();
        while k > 0 && comes_before(name.as_str(), r[k - 1].as_str())
            invariant
                k <= r@.len(),
                before == (|a: Seq<char>, b: Seq<char>| name_before(a, b)),
                forall|j: int| k <= j < r@.len() ==> before(name@, #[trigger] views(r@)[j]),
            decreases k,
        {
            k = k - 1;
            proof {
                assert(views(r@)[k as int] == r@[k as int]@);
            }
        }
        proof {
            assert(all.take(at + 1).drop_last() =~= all.take(at as int));
            assert(all.take(at + 1).last() == name@);
            if k > 0 {
                assert(views(r@)[k - 1] == r@[k - 1]@);
            }
            crate::roster::lemma_insert_by(views(r@), name@, before, k as int);
            crate::roster::lemma_views_insert(r@, k as int, name);
        }
        r.insert(k, name);
        at = at + 1;
    }
    proof {
        assert(all.take(at as int) =~= all);
    }
    r
}

/// Ids llama-swap reports resident, other than `except`, in order, so that a message reads
/// the same on every sweep.
pub fn resident_ids(entries: &Vec<(String, Running)>, except: &str) -> (ids: Vec<String>)
    ensures
        views(ids@) == sorted_names(others_running(running_views(entries@), except@)),
{
    let ghost all = running_views(entries@);
    let mut ids: Vec<String> = Vec::new();
    let mut at: usize = 0;
    proof {
        assert(views(ids@) =~= others_running(all.take(0), except@));
    }
    while at < entries.len()
        invariant
            at <= entries@.len(),
            all == running_views(entries@),
            views(ids@) == others_running(all.take(at as int), except@),
        decreases entries@.len() - at,
    {
        proof {
            assert(all.take(at + 1).drop_last() =~= all.take(at as int));
            assert(all.take(at + 1).last() == all[at as int]);
        }
        if !same(entries[at].0.as_str(), except) {
            let id = entries[at].0.clone();
            proof {
                lemma_views_push(ids@, id);
            }
            ids.push(id);
        }
        at = at + 1;
    }
    proof {
        assert(all.take(at as int) =~= all);
    }
    sort_names(&ids)
}

// ---- the empty pool ---------------------------------------------------------------------------

/// The pool after an unload: its settled occupancy, who was still in it, and what the host
/// held at the same moment.
#[derive(Debug)]
pub struct ClearedPool {
    pub used: i64,
    /// Ids still reported after the unload and the wait. Only where there are none is `used`
    /// an empty-pool reading.
    pub residents: Vec<String>,
    pub host: Option<HostMemory>,
}

/// The lower of a floor, where there is one, and a reading.
pub open spec fn floor_with(floor: Option<i64>, reading: i64) -> Option<i64> {
    match floor {
        Some(current) => if reading < current {
            Some(reading)
        } else {
            Some(current)
        },
        None => Some(reading),
    }
}

/// Lower the empty-pool floors to this reading, if it is one. A reading taken while a model
/// was still resident never becomes a floor: it would be reserved in every build to come.
pub fn note_floor(floor: &mut Option<i64>, host_floor: &mut Option<i64>, cleared: &ClearedPool)
    ensures
        *final(floor) == (if cleared.residents@.len() == 0 {
            floor_with(*old(floor), cleared.used)
        } else {
            *old(floor)
        }),
        *final(host_floor) == (if cleared.residents@.len() == 0 && cleared.host is Some {
            floor_with(*old(host_floor), cleared.host->0.used_gb)
        } else {
            *old(host_floor)
        }),
{
    if cleared.residents.len() > 0 {
        return ;
    }
    *floor = lower_of(*floor, cleared.used);
    if let Some(host) = cleared.host {
        *host_floor = lower_of(*host_floor, host.used_gb);
    }
}

fn lower_of(floor: Option<i64>, reading: i64) -> (r: Option<i64>)
    ensures
        r == floor_with(floor, reading),
{
    match floor {
        Some(current) => if reading < current {
            Some(reading)
        } else {
            Some(current)
        },
        None => Some(reading),
    }
}

// ---- bounds -------------------------------------------------------------------------------

/// How often the list of loaded models is asked for while the pool is cleared.
pub const CLEAR_POLLS: u32 = 20;

/// What to do once the loaded models were listed while the pool is cleared.
#[derive(Debug, Clone, Copy, PartialEq, Eq, Structural)]
pub enum ClearStep {
    /// None is left.
    Empty,
    /// Some are left: ask again in a while.
    Wait,
    /// Some are left, and were asked for often enough.
    GaveUp,
}

/// What to do next with these models still loaded, the list having been asked for `polls`
/// times.
pub fn clear_step(residents: &Vec<String>, polls: u32) -> (step: ClearStep)
    ensures
        step == (if residents@.len() == 0 {
            ClearStep::Empty
        } else if polls < CLEAR_POLLS {
            ClearStep::Wait
        } else {
            ClearStep::GaveUp
        }),
{
    if residents.len() == 0 {
        ClearStep::Empty
    } else if polls < CLEAR_POLLS {
        ClearStep::Wait
    } else {
        ClearStep::GaveUp
    }
}

/// Is there time left of a limit in seconds?
pub fn within(elapsed_ms: u128, limit_s: u64) -> (r: bool)
    ensures
        r == (elapsed_ms < limit_s * 1000),
{
    elapsed_ms < limit_s as u128 * 1000
}

// ---- what settling takes ------------------------------------------------------------------

/// Occupancy has settled exactly if each of the last so many readings, and at least one, was
/// closer to the one before it than the limit.
pub proof fn law_settling_takes_quiet_readings_in_a_row(
    readings: Seq<int>,
    eps: int,
    hold: int,
)
    requires
        hold >= 1,
    ensures
        has_settled(readings, eps, hold) <==> hold < readings.len() && forall|i: int|
            readings.len() - hold <= i < readings.len() ==> {
                &&& #[trigger] readings[i] - readings[i - 1] < eps
                &&& readings[i - 1] - readings[i] < eps
            },
{
    lemma_quiet_run(readings, eps, hold);
}

proof fn lemma_quiet_run(readings: Seq<int>, eps: int, hold: int)
    requires
        hold >= 0,
    ensures
        quiet_run(readings, eps) >= hold <==> (hold == 0 || hold < readings.len()) && forall|i: int|
            readings.len() - hold <= i < readings.len() ==> {
                &&& #[trigger] readings[i] - readings[i - 1] < eps
                &&& readings[i - 1] - readings[i] < eps
            },
    decreases readings.len(),
{
    if hold > 0 && readings.len() >= 2 {
        let fewer = readings.drop_last();
        let last = readings.len() - 1;
        lemma_quiet_run(fewer, eps, hold - 1);
        if quiet_run(readings, eps) >= hold {
            assert forall|i: int| readings.len() - hold <= i < readings.len() implies {
                &&& #[trigger] readings[i] - readings[i - 1] < eps
                &&& readings[i - 1] - readings[i] < eps
            } by {
                if i < last {
                    assert(fewer[i] - fewer[i - 1] < eps);
                    assert(fewer[i] == readings[i] && fewer[i - 1] == readings[i - 1]);
                }
            }
        } else if hold < readings.len() && (forall|i: int|
            readings.len() - hold <= i < readings.len() ==> {
                &&& #[trigger] readings[i] - readings[i - 1] < eps
                &&& readings[i - 1] - readings[i] < eps
            }) {
            assert(readings[last] - readings[last - 1] < eps);
            assert forall|i: int| fewer.len() - (hold - 1) <= i < fewer.len() implies {
                &&& #[trigger] fewer[i] - fewer[i - 1] < eps
                &&& fewer[i - 1] - fewer[i] < eps
            } by {
                assert(readings[i] - readings[i - 1] < eps);
                assert(fewer[i] == readings[i] && fewer[i - 1] == readings[i - 1]);
            }
        }
    }
}

/// The peak is no lower than any reading, and is one of them or zero.
pub proof fn law_the_peak_is_the_highest_reading(readings: Seq<int>)
    ensures
        forall|i: int| 0 <= i < readings.len() ==> #[trigger] readings[i] <= peak_of(readings),
        peak_of(readings) == 0 || readings.contains(peak_of(readings)),
        peak_of(readings) >= 0,
    decreases readings.len(),
{
    if readings.len() > 0 {
        let fewer = readings.drop_last();
        law_the_peak_is_the_highest_reading(fewer);
        assert forall|i: int| 0 <= i < readings.len() implies #[trigger] readings[i] <= peak_of(
            readings,
        ) by {
            if i < fewer.len() {
                assert(fewer[i] <= peak_of(fewer));
            }
        }
        if peak_of(readings) == readings.last() {
            assert(readings[readings.len() - 1] == peak_of(readings));
        } else if fewer.contains(peak_of(fewer)) {
            let k = choose|k: int| 0 <= k < fewer.len() && fewer[k] == peak_of(fewer);
            assert(readings[k] == peak_of(readings));
        }
    }
}

/// A sweep settles on three quiet readings in a row, each within three hundredths of a GB of the
/// one before, and gives up after half a minute; memory above the empty pool is somebody's from
/// a quarter of a GB on.
pub proof fn law_what_counts_as_quiet()
    ensures
        STABILIZE_HOLD == 3,
        STABILIZE_EPS * 100 == 3 * 1_024_000_000,
        STABILIZE_MAX_WAIT_S == 30,
        CONTENTION_EPS * 4 == 1_024_000_000,
{
}

/// Only a success confirms an allocation: any other answer, and a request that failed, rejects
/// it; running out of time, and an outcome that got lost, leave it unconfirmed; and until then
/// it is waited for.
pub proof fn law_only_a_success_confirms(event: TriggerEvent, peak: int, budget_s: nat)
    ensures
        ({
            let outcome = allocation_after(event, peak, budget_s);
            match event {
                TriggerEvent::Answered(status) => outcome is Some && (200 <= status < 300
                    <==> outcome == Some(AllocationView::Confirmed { peak })) && (!(200 <= status
                    < 300) <==> outcome->0 is Rejected),
                TriggerEvent::Failed(_) => outcome is Some && outcome->0 is Rejected,
                TriggerEvent::Pending { expired } => (expired <==> outcome is Some) && (expired
                    ==> outcome->0 is Unconfirmed),
                TriggerEvent::Lost => outcome is Some && outcome->0 is Unconfirmed,
            }
        }),
{
}

/// Only `ready` is a go; a model that is being torn down is given up; everything else waits.
pub proof fn law_only_ready_is_a_go(state: Seq<char>)
    ensures
        ready_after(None) == ReadyStep::Wait,
        ready_after(Some(state)) == ReadyStep::Ready <==> state == "ready"@,
        ready_after(Some(state)) == ReadyStep::GaveUp <==> state == "stopping"@ || state
            == "stopped"@ || state == "shutdown"@,
{
    reveal_strlit("ready");
    reveal_strlit("stopping");
    reveal_strlit("stopped");
    reveal_strlit("shutdown");
    assert("ready"@.len() == 5);
    assert("stopped"@.len() == 7);
    assert("stopping"@.len() == 8 && "shutdown"@.len() == 8);
}

/// The others that run are all that run but one.
pub proof fn law_the_others_are_all_but_one(
    entries: Seq<(Seq<char>, RunningView)>,
    except: Seq<char>,
    id: Seq<char>,
)
    ensures
        others_running(entries, except).contains(id) <==> id != except && exists|i: int|
            0 <= i < entries.len() && (#[trigger] entries[i]).0 == id,
    decreases entries.len(),
{
    if entries.len() > 0 {
        let fewer = entries.drop_last();
        law_the_others_are_all_but_one(fewer, except, id);
        let before = others_running(fewer, except);
        let after = others_running(entries, except);
        let last = entries.last().0;
        if before.contains(id) {
            let k = choose|k: int| 0 <= k < before.len() && before[k] == id;
            assert(after[k] == id);
            let i = choose|i: int| 0 <= i < fewer.len() && (#[trigger] fewer[i]).0 == id;
            assert(entries[i].0 == id);
        }
        if last == id && id != except {
            assert(after[before.len() as int] == id);
            assert(entries[entries.len() - 1].0 == id);
        }
        if after.contains(id) && !before.contains(id) {
            let k = choose|k: int| 0 <= k < after.len() && after[k] == id;
            if k < before.len() {
                assert(before[k] == id);
            }
            assert(last == id);
            assert(entries[entries.len() - 1].0 == id);
        }
        if id != except && (exists|i: int| 0 <= i < entries.len() && (#[trigger] entries[i]).0
            == id) && last != id {
            let i = choose|i: int| 0 <= i < entries.len() && (#[trigger] entries[i]).0 == id;
            assert(fewer[i].0 == id);
        }
    }
}

/// Sorting names neither loses nor invents one.
pub proof fn law_sorting_keeps_the_names(names: Seq<Seq<char>>, name: Seq<char>)
    ensures
        sorted_names(names).contains(name) <==> names.contains(name),
        sorted_names(names).len() == names.len(),
{
    let before = |a: Seq<char>, b: Seq<char>| name_before(a, b);
    crate::roster::lemma_sort_keeps(names, before);
    let sorted = sorted_names(names);
    if sorted.contains(name) {
        let k = choose|k: int| 0 <= k < sorted.len() && sorted[k] == name;
        assert(names.contains(sorted[k]));
    }
    if names.contains(name) {
        let k = choose|k: int| 0 <= k < names.len() && names[k] == name;
        assert(sorted.contains(names[k]));
    }
}

/// A floor with one more reading is the lower of the two.
pub proof fn law_a_floor_is_the_lower_reading(floor: Option<i64>, reading: i64)
    ensures
        floor_with(floor, reading) is Some,
        floor_with(floor, reading)->0 <= reading,
        floor is Some ==> floor_with(floor, reading)->0 <= floor->0,
        floor is None ==> floor_with(floor, reading)->0 == reading,
        floor is Some ==> floor_with(floor, reading)->0 == reading || floor_with(floor, reading)
            == floor,
{
}

/// A pool is taken to have settled at the first reading at which it has, and at none before.
pub proof fn law_the_first_settled_reading_is_taken(
    readings: Seq<int>,
    eps: int,
    hold: int,
    from: nat,
)
    ensures
        match settles_at(readings, eps, hold, from) {
            Some(at) => {
                &&& from <= at < readings.len()
                &&& has_settled(readings.take((at + 1) as int), eps, hold)
                &&& forall|k: int|
                    from <= k < at ==> !has_settled(#[trigger] readings.take(k + 1), eps, hold)
            },
            None => forall|k: int|
                from <= k < readings.len() ==> !has_settled(
                    #[trigger] readings.take(k + 1),
                    eps,
                    hold,
                ),
        },
    decreases readings.len() - from,
{
    if from < readings.len() && !has_settled(readings.take((from + 1) as int), eps, hold) {
        law_the_first_settled_reading_is_taken(readings, eps, hold, from + 1);
    }
}

/// Names are ordered by their first difference, and a name comes after any start of it.
pub proof fn law_names_go_by_their_first_difference(
    start: Seq<char>,
    a: Seq<char>,
    b: Seq<char>,
)
    ensures
        a.len() > 0 && b.len() > 0 && a[0] < b[0] ==> name_before(start + a, start + b)
            && !name_before(start + b, start + a),
        a.len() == 0 && b.len() > 0 ==> name_before(start + a, start + b) && !name_before(
            start + b,
            start + a,
        ),
        !name_before(start, start),
    decreases start.len(),
{
    if start.len() == 0 {
        assert(start + a =~= a);
        assert(start + b =~= b);
    } else {
        let rest = start.skip(1);
        law_names_go_by_their_first_difference(rest, a, b);
        assert((start + a).skip(1) =~= rest + a);
        assert((start + b).skip(1) =~= rest + b);
    }
}

proof fn lemma_names_in_order(a: Seq<char>, b: Seq<char>, c: Seq<char>)
    ensures
        name_before(a, b) ==> !name_before(b, a),
        !name_before(a, b) && !name_before(b, c) ==> !name_before(a, c),
    decreases a.len() + b.len() + c.len(),
{
    if a.len() > 0 && b.len() > 0 {
        let x = a.skip(1);
        let y = b.skip(1);
        if c.len() > 0 {
            lemma_names_in_order(x, y, c.skip(1));
        } else {
            lemma_names_in_order(x, y, c);
        }
    }
}

/// Names are sorted: none comes before one that stands ahead of it.
pub proof fn law_names_are_sorted(names: Seq<Seq<char>>, i: int, j: int)
    requires
        0 <= i < j < sorted_names(names).len(),
    ensures
        !name_before(sorted_names(names)[j], sorted_names(names)[i]),
{
    let before = |a: Seq<char>, b: Seq<char>| name_before(a, b);
    assert forall|a: Seq<char>, b: Seq<char>| #[trigger] before(a, b) implies !before(b, a) by {
        lemma_names_in_order(a, b, a);
    }
    assert forall|a: Seq<char>, b: Seq<char>, c: Seq<char>|
        !(#[trigger] before(a, b)) && !(#[trigger] before(b, c)) implies !before(a, c) by {
        lemma_names_in_order(a, b, c);
    }
    crate::choices::law_sorting_puts_in_order(names, before);
    let sorted = sorted_names(names);
    assert(!before(sorted[j], sorted[i]));
}

} // verus!
